//! What is said of a zone, and of a file that holds none: numbers and words, all of
//! them functions of the zone alone.

use crate::archive::ArchiveError;
use crate::text;
use crate::zones::EncodeError;
use crate::zones::IndexError;
use crate::zones::VERSION;
use crate::zones::Zone;
use vstd::prelude::*;

verus! {

/// How built up a place is, from the emptiest to the fullest.
pub const KINDS: [&'static str; 6] = ["wilderness", "countryside", "village", "suburb", "city", "city-centre"];

/// The density that a byte stands for, in buildings per square kilometre: the square
/// of a third of it, to the nearest whole number.
pub open spec fn density_of(code: u8) -> int {
    (2 * code * code + 9) / 18
}

/// The density that a byte stands for.
pub fn unpack_density(code: u8) -> (n: u32)
    ensures
        n == density_of(code),
{
    let c: u32 = code as u32;
    assert(2 * c * c <= 2 * 255 * 255) by (nonlinear_arith)
        requires
            c <= 255,
    ;
    (2 * c * c + 9) / 18
}

/// How much building there is on a hundred units of ground, in hundredths, as a byte
/// stands for it: the square of an eighteenth of it, to the nearest hundredth.
pub open spec fn built_hundredths(code: u8) -> int {
    (200 * code * code + 324) / 648
}

/// The same with its point, and two digits behind it.
pub open spec fn built_text(code: u8) -> Seq<char> {
    text::decimal((built_hundredths(code) / 100) as nat) + "."@ + text::two_digits(
        (built_hundredths(code) % 100) as nat,
    )
}

/// How much building there is on a hundred units of ground.
pub fn unpack_index(code: u8) -> (out: String)
    ensures
        out@ == built_text(code),
{
    let c: u32 = code as u32;
    assert(200 * c * c <= 200 * 255 * 255) by (nonlinear_arith)
        requires
            c <= 255,
    ;
    let hundredths: u32 = (200 * c * c + 324) / 648;
    let mut out: String = text::number((hundredths / 100) as u64);
    out.push_str(".");
    let rest: u64 = (hundredths % 100) as u64;
    let mut tail: String = String::new();
    if rest < 10 {
        tail.push('0');
    }
    text::put_decimal(&mut tail, rest);
    assert(tail@ =~= text::two_digits(rest as nat));
    out.push_str(tail.as_str());
    out
}

/// Whether a byte stands for less than `n` tenths of a unit of building on a hundred
/// units of ground.
pub open spec fn built_below(code: u8, n: int) -> bool {
    10 * code * code < n * 324
}

/// The kind of place a byte stands for, as an index into [`KINDS`].
pub open spec fn kind_index(code: u8) -> int {
    if built_below(code, 1) {
        0
    } else if built_below(code, 30) {
        1
    } else if built_below(code, 100) {
        2
    } else if built_below(code, 250) {
        3
    } else if built_below(code, 500) {
        4
    } else {
        5
    }
}

/// The words for kinds of places.
pub open spec fn kinds() -> Seq<Seq<char>> {
    seq!["wilderness"@, "countryside"@, "village"@, "suburb"@, "city"@, "city-centre"@]
}

/// How built up a place is, as a word. The boundaries are calibrated against places
/// that are known; they label a number and classify no land use.
pub fn kind_of(code: u8) -> (kind: &'static str)
    ensures
        kind@ == kinds()[kind_index(code)],
{
    let names: [&'static str; 6] = KINDS;
    let c: u32 = code as u32;
    assert(10 * c * c <= 10 * 255 * 255) by (nonlinear_arith)
        requires
            c <= 255,
    ;
    let tenths: u32 = 10 * c * c;
    let i: usize = if tenths < 324 {
        0
    } else if tenths < 30 * 324 {
        1
    } else if tenths < 100 * 324 {
        2
    } else if tenths < 250 * 324 {
        3
    } else if tenths < 500 * 324 {
        4
    } else {
        5
    };
    names[i]
}

/// Where a zone is and how big, as numbers with a fraction are written: its box, its
/// centre, the radius of a circle around it and its area.
pub struct Shape<'a> {
    pub west: &'a str,
    pub south: &'a str,
    pub east: &'a str,
    pub north: &'a str,
    pub center_lon: &'a str,
    pub center_lat: &'a str,
    pub radius_m: &'a str,
    pub area_km2: &'a str,
}

/// What is answered for a zone: `$a` is its id, `$b` and `$c` its tier and how many
/// buildings it holds, `$d` to `$k` its shape, `$l` its cells, `$m` and `$n` how dense
/// and how built up it is, and `$o` the word for it.
pub const ZONE: &'static str = "{\"zone\":\"$a\",\"k\":$b,\"buildings\":$c,\"bbox\":[$d,$e,$f,$g],\"center\":[$h,$i],\"radius_m\":$j,\"area_km2\":$k,\"cells\":$l,\"density_per_km2\":$m,\"built_index\":$n,\"kind\":\"$o\"}";

impl Zone {
    /// What is answered for the zone.
    pub open spec fn json(self, shape: Shape<'_>) -> Seq<char> {
        text::filled(
            ZONE@,
            seq![
                text::hex(self.id as nat),
                text::decimal(self.k as nat),
                text::decimal(self.buildings as nat),
                shape.west@,
                shape.south@,
                shape.east@,
                shape.north@,
                shape.center_lon@,
                shape.center_lat@,
                shape.radius_m@,
                shape.area_km2@,
                text::decimal(self.extent.cells as nat),
                text::decimal(density_of(self.density) as nat),
                built_text(self.built),
                kinds()[kind_index(self.built)],
            ],
        )
    }

    /// What is answered for the zone: nothing in it tells where in the zone a position
    /// is.
    pub fn to_json(&self, shape: &Shape<'_>) -> (out: String)
        ensures
            out@ == self.json(*shape),
    {
        let mut id: String = String::new();
        text::put_hex(&mut id, self.id);
        assert(id@ =~= text::hex(self.id as nat));
        let k: String = text::number(self.k as u64);
        let buildings: String = text::number(self.buildings as u64);
        let cells: String = text::number(self.extent.cells);
        let density: String = text::number(unpack_density(self.density) as u64);
        let built: String = unpack_index(self.built);
        let kind: &str = kind_of(self.built);
        let values: [&str; 15] = [
            id.as_str(),
            k.as_str(),
            buildings.as_str(),
            shape.west,
            shape.south,
            shape.east,
            shape.north,
            shape.center_lon,
            shape.center_lat,
            shape.radius_m,
            shape.area_km2,
            cells.as_str(),
            density.as_str(),
            built.as_str(),
            kind,
        ];
        assert(text::strs(values@) =~= seq![
            id@,
            k@,
            buildings@,
            shape.west@,
            shape.south@,
            shape.east@,
            shape.north@,
            shape.center_lon@,
            shape.center_lat@,
            shape.radius_m@,
            shape.area_km2@,
            cells@,
            density@,
            built@,
            kind@,
        ]);
        text::fill(ZONE, &values)
    }
}

impl IndexError {
    /// What is said of the error.
    pub open spec fn words(self) -> Seq<char> {
        match self {
            IndexError::NotAnIndex => "not an anon-zone index"@,
            IndexError::Version(v) => "index version "@ + text::decimal(v as nat) + " unsupported, expected "@
                + text::decimal(VERSION as nat),
            IndexError::Level(level) => "index level "@ + text::decimal(level as nat) + " out of range"@,
            IndexError::Block => "index block size is zero"@,
            IndexError::TierTable => "index truncated in the tier table"@,
            IndexError::NoZones(k) => "tier k="@ + text::decimal(k as nat) + " has no zones"@,
            IndexError::Truncated(k) => "index truncated in tier k="@ + text::decimal(k as nat),
            IndexError::NoTiers => "index has no tiers"@,
        }
    }

    /// What is said of the error.
    pub fn message(&self) -> (out: String)
        ensures
            out@ == self.words(),
    {
        match self {
            IndexError::NotAnIndex => "not an anon-zone index".to_owned(),
            IndexError::Version(v) => {
                let mut out: String = "index version ".to_owned();
                text::put_decimal(&mut out, *v as u64);
                out.push_str(" unsupported, expected ");
                text::put_decimal(&mut out, VERSION as u64);
                out
            },
            IndexError::Level(level) => {
                let mut out: String = "index level ".to_owned();
                text::put_decimal(&mut out, *level as u64);
                out.push_str(" out of range");
                out
            },
            IndexError::Block => "index block size is zero".to_owned(),
            IndexError::TierTable => "index truncated in the tier table".to_owned(),
            IndexError::NoZones(k) => {
                let mut out: String = "tier k=".to_owned();
                text::put_decimal(&mut out, *k as u64);
                out.push_str(" has no zones");
                out
            },
            IndexError::Truncated(k) => {
                let mut out: String = "index truncated in tier k=".to_owned();
                text::put_decimal(&mut out, *k as u64);
                out
            },
            IndexError::NoTiers => "index has no tiers".to_owned(),
        }
    }
}

/// What is said of a tier, and then what is wrong with it.
fn of_tier(k: u32, wrong: &str) -> (out: String)
    ensures
        out@ == "tier k="@ + text::decimal(k as nat) + wrong@,
{
    let mut out: String = "tier k=".to_owned();
    text::put_decimal(&mut out, k as u64);
    out.push_str(wrong);
    out
}

impl EncodeError {
    /// What is said of the error.
    pub open spec fn words(self) -> Seq<char> {
        match self {
            EncodeError::Level(level) => "level "@ + text::decimal(level as nat) + " out of range"@,
            EncodeError::Block => "block size must be positive"@,
            EncodeError::Empty(k) => "tier k="@ + text::decimal(k as nat) + " is empty"@,
            EncodeError::Gap(k) => "tier k="@ + text::decimal(k as nat) + " does not start at 0, leaving a gap"@,
            EncodeError::PastEnd(k) => "tier k="@ + text::decimal(k as nat)
                + " has a zone past the end of the curve"@,
            EncodeError::Unsorted(k) => "tier k="@ + text::decimal(k as nat) + " is not sorted by start"@,
            EncodeError::Short { k, buildings, start } => "tier k="@ + text::decimal(k as nat) + " has a zone of "@
                + text::decimal(buildings as nat) + " buildings at "@ + text::hex(start as nat),
            EncodeError::TooLong(k) => "tier k="@ + text::decimal(k as nat) + " stream exceeds 4 GB"@,
        }
    }

    /// What is said of the error.
    pub fn message(&self) -> (out: String)
        ensures
            out@ == self.words(),
    {
        match self {
            EncodeError::Level(level) => {
                let mut out: String = "level ".to_owned();
                text::put_decimal(&mut out, *level as u64);
                out.push_str(" out of range");
                out
            },
            EncodeError::Block => "block size must be positive".to_owned(),
            EncodeError::Empty(k) => of_tier(*k, " is empty"),
            EncodeError::Gap(k) => of_tier(*k, " does not start at 0, leaving a gap"),
            EncodeError::PastEnd(k) => of_tier(*k, " has a zone past the end of the curve"),
            EncodeError::Unsorted(k) => of_tier(*k, " is not sorted by start"),
            EncodeError::Short { k, buildings, start } => {
                let mut out: String = of_tier(*k, " has a zone of ");
                text::put_decimal(&mut out, *buildings as u64);
                out.push_str(" buildings at ");
                text::put_hex(&mut out, *start);
                out
            },
            EncodeError::TooLong(k) => of_tier(*k, " stream exceeds 4 GB"),
        }
    }
}

/// Where a part of a file is that lies outside it.
pub open spec fn outside(what: Seq<char>, offset: u64, length: u64) -> Seq<char> {
    what + " at "@ + text::decimal(offset as nat) + "+"@ + text::decimal(length as nat) + " lies outside the file"@
}

fn lies_outside(what: &str, offset: u64, length: u64) -> (out: String)
    ensures
        out@ == outside(what@, offset, length),
{
    let mut out: String = what.to_owned();
    out.push_str(" at ");
    text::put_decimal(&mut out, offset);
    out.push_str("+");
    text::put_decimal(&mut out, length);
    out.push_str(" lies outside the file");
    out
}

impl ArchiveError {
    /// What is said of the error in the archive `name`.
    pub open spec fn words(self, name: Seq<char>) -> Seq<char> {
        match self {
            ArchiveError::NotAnArchive => name + " is not a PMTiles archive"@,
            ArchiveError::Version(v) => name + ": PMTiles spec version "@ + text::decimal(v as nat) + " unsupported"@,
            ArchiveError::Compression => name + ": expected gzip for both internal and tile compression"@,
            ArchiveError::RootOutside { offset, length } => name + ": "@ + outside("root directory"@, offset, length),
            ArchiveError::RootGzip(why) => why@,
            ArchiveError::RootMalformed => name + ": root directory is malformed"@,
            ArchiveError::MetadataOutside { offset, length } => name + ": "@ + outside("metadata"@, offset, length),
            ArchiveError::MetadataGzip(why) => why@,
            ArchiveError::MetadataText(why) => why@,
        }
    }

    /// What is said of the error in the archive `name`.
    pub fn message(&self, name: &str) -> (out: String)
        ensures
            out@ == self.words(name@),
    {
        let mut out: String = name.to_owned();
        match self {
            ArchiveError::NotAnArchive => {
                out.push_str(" is not a PMTiles archive");
            },
            ArchiveError::Version(v) => {
                out.push_str(": PMTiles spec version ");
                text::put_decimal(&mut out, *v as u64);
                out.push_str(" unsupported");
            },
            ArchiveError::Compression => {
                out.push_str(": expected gzip for both internal and tile compression");
            },
            ArchiveError::RootOutside { offset, length } => {
                out.push_str(": ");
                let place: String = lies_outside("root directory", *offset, *length);
                out.push_str(place.as_str());
            },
            ArchiveError::RootMalformed => {
                out.push_str(": root directory is malformed");
            },
            ArchiveError::MetadataOutside { offset, length } => {
                out.push_str(": ");
                let place: String = lies_outside("metadata", *offset, *length);
                out.push_str(place.as_str());
            },
            ArchiveError::RootGzip(why) => {
                out = why.clone();
            },
            ArchiveError::MetadataGzip(why) => {
                out = why.clone();
            },
            ArchiveError::MetadataText(why) => {
                out = why.clone();
            },
        }
        out
    }

    /// What is said of the error by a server of a single archive, which has no need to
    /// tell which one it means.
    pub open spec fn sole_words(self, name: Seq<char>) -> Seq<char> {
        match self {
            ArchiveError::Version(v) => "PMTiles spec version "@ + text::decimal(v as nat) + " unsupported"@,
            ArchiveError::Compression => "expected gzip for both internal and tile compression"@,
            _ => self.words(name),
        }
    }

    /// What is said of the error by a server of the single archive `name`.
    pub fn sole_message(&self, name: &str) -> (out: String)
        ensures
            out@ == self.sole_words(name@),
    {
        match self {
            ArchiveError::Version(v) => {
                let mut out: String = "PMTiles spec version ".to_owned();
                text::put_decimal(&mut out, *v as u64);
                out.push_str(" unsupported");
                out
            },
            ArchiveError::Compression => "expected gzip for both internal and tile compression".to_owned(),
            _ => self.message(name),
        }
    }
}

/// **A density is the square of a third of its byte, to the nearest whole number.** Nine
/// times the density and the square of the byte differ by less than five.
pub proof fn law_density_is_rounded(code: u8)
    ensures
        -9 <= 18 * density_of(code) - 2 * (code * code) <= 9,
        density_of(code) >= 0,
{
    assert(2 * code * code == 2 * (code * code)) by (nonlinear_arith);
    assert(code * code >= 0) by (nonlinear_arith);
}

/// **A share of built ground is the square of an eighteenth of its byte, to the nearest
/// hundredth.**
pub proof fn law_the_built_share_is_rounded(code: u8)
    ensures
        -324 <= 648 * built_hundredths(code) - 200 * (code * code) <= 324,
        built_hundredths(code) >= 0,
{
    assert(200 * code * code == 200 * (code * code)) by (nonlinear_arith);
    assert(code * code >= 0) by (nonlinear_arith);
}

/// **A fuller byte never stands for an emptier place**, and every kind has its bounds: a
/// tenth of a hundredth built is no longer wilderness, three are a village, ten a suburb,
/// twenty-five a city and fifty the centre of one.
pub proof fn law_kinds_follow_what_is_built(code: u8, fuller: u8)
    requires
        code <= fuller,
    ensures
        kind_index(code) <= kind_index(fuller),
        density_of(code) <= density_of(fuller),
        built_hundredths(code) <= built_hundredths(fuller),
        kinds()[kind_index(code)] == "wilderness"@ <==> 10 * (code * code) < 324,
        kinds()[kind_index(code)] == "countryside"@ <==> 324 <= 10 * (code * code) < 3 * 3240,
        kinds()[kind_index(code)] == "village"@ <==> 3 * 3240 <= 10 * (code * code) < 10 * 3240,
        kinds()[kind_index(code)] == "suburb"@ <==> 10 * 3240 <= 10 * (code * code) < 25 * 3240,
        kinds()[kind_index(code)] == "city"@ <==> 25 * 3240 <= 10 * (code * code) < 50 * 3240,
        kinds()[kind_index(code)] == "city-centre"@ <==> 50 * 3240 <= 10 * (code * code),
{
    reveal_strlit("wilderness");
    reveal_strlit("countryside");
    reveal_strlit("village");
    reveal_strlit("suburb");
    reveal_strlit("city");
    reveal_strlit("city-centre");
    assert("wilderness"@.len() == 10 && "countryside"@.len() == 11 && "village"@.len() == 7);
    assert("suburb"@.len() == 6 && "city"@.len() == 4 && "city-centre"@.len() == 11);
    assert("countryside"@[1] == 'o' && "city-centre"@[1] == 'i');
    assert(code * code <= fuller * fuller) by (nonlinear_arith)
        requires
            code <= fuller,
    ;
    assert(10 * code * code == 10 * (code * code)) by (nonlinear_arith);
    assert(10 * fuller * fuller == 10 * (fuller * fuller)) by (nonlinear_arith);
    assert(2 * code * code == 2 * (code * code)) by (nonlinear_arith);
    assert(2 * fuller * fuller == 2 * (fuller * fuller)) by (nonlinear_arith);
    assert(200 * code * code == 200 * (code * code)) by (nonlinear_arith);
    assert(200 * fuller * fuller == 200 * (fuller * fuller)) by (nonlinear_arith);
}

} // verus!
