//! Baking the zones: the settings of a bake, the statement that counts buildings by
//! cell, the windows that density is measured in, and what a bake reports.

use crate::hilbert;
use crate::text;
use crate::tuning;
use std::collections::HashMap;
use vstd::prelude::*;

verus! {

broadcast use vstd::std_specs::hash::group_hash_axioms;

/// The grid that zones are cut on: `2^LEVEL` cells to a side of the world.
pub const LEVEL: u32 = 18;

/// The grid that density is measured on, whatever the zones are cut to.
pub const DENSITY_LEVEL: u32 = 14;

/// The deepest grid whose keys fit.
pub const DEEPEST: u32 = 24;

/// Zones to a block of the index.
pub const BLOCK: u32 = 64;

/// A box in degrees, as numbers with a fraction are written.
#[derive(Debug)]
pub struct Box4 {
    pub west: String,
    pub south: String,
    pub east: String,
    pub north: String,
}

/// The settings of a bake.
#[derive(Debug)]
pub struct Args {
    /// The database to read, where one is named.
    pub db: Option<String>,
    /// The file to write, where one is named.
    pub out: Option<String>,
    pub level: u32,
    /// How many buildings a zone holds, one tier for each.
    pub tiers: Vec<u32>,
    /// The part of the world to bake.
    pub bbox: Option<Box4>,
    /// The smallest building that counts, where one is named.
    pub min_footprint: Option<String>,
}

/// The settings of a bake as plain values.
pub struct Chosen {
    pub db: Option<Seq<char>>,
    pub out: Option<Seq<char>>,
    pub level: u32,
    pub tiers: Seq<u32>,
    pub bbox: Option<Seq<Seq<char>>>,
    pub min_footprint: Option<Seq<char>>,
}

/// A box as plain values.
pub open spec fn box_texts(b: Option<Box4>) -> Option<Seq<Seq<char>>> {
    match b {
        Some(b) => Some(seq![b.west@, b.south@, b.east@, b.north@]),
        None => None,
    }
}

impl View for Args {
    type V = Chosen;

    open spec fn view(&self) -> Chosen {
        Chosen {
            db: text::text_of(self.db),
            out: text::text_of(self.out),
            level: self.level,
            tiers: self.tiers@,
            bbox: box_texts(self.bbox),
            min_footprint: text::text_of(self.min_footprint),
        }
    }
}

/// Why a command line makes no sense.
#[derive(Debug)]
pub enum ArgError {
    /// A flag stands without the value it takes.
    NeedsValue(String),
    /// A value is no whole number, where its flag takes one.
    NotANumber(String),
    /// A value is no number with a fraction, where its flag takes one.
    NotAFraction(String),
    /// There is no such flag.
    UnknownFlag(String),
    /// The grid is too coarse for density to be measured, or too fine for a key.
    LevelRange(u32),
    /// A tier would hide nobody.
    Tiers,
}

/// What reading the flags comes to, as plain values.
pub enum Meaning {
    Run(Chosen),
    NeedsValue(Seq<char>),
    NotANumber(Seq<char>),
    NotAFraction(Seq<char>),
    UnknownFlag(Seq<char>),
}

/// The settings before anything is read.
pub open spec fn defaults() -> Chosen {
    Chosen { db: None, out: None, level: LEVEL, tiers: seq![16u32, 64u32, 256u32], bbox: None, min_footprint: None }
}

/// The numbers of a list, or the first member of it that is none.
pub open spec fn tier_list(parts: Seq<Seq<char>>, n: nat) -> Result<Seq<u32>, Seq<char>>
    decreases n,
{
    if n == 0 {
        Ok(Seq::empty())
    } else {
        match tier_list(parts, (n - 1) as nat) {
            Ok(list) => match text::parsed(text::trimmed(parts[n - 1]), u32::MAX as nat) {
                Some(k) => Ok(list.push(k as u32)),
                None => Err(text::trimmed(parts[n - 1])),
            },
            Err(part) => Err(part),
        }
    }
}

/// Reads the four numbers of a box from the `i`-th argument on, `got` of them already.
pub open spec fn read_box(args: Seq<Seq<char>>, numeric: Seq<bool>, i: int, got: nat) -> Result<(), Meaning>
    decreases 4 - got,
{
    if got >= 4 {
        Ok(())
    } else if i + got >= args.len() {
        Err(Meaning::NeedsValue("--bbox"@))
    } else if !numeric[i + got] {
        Err(Meaning::NotAFraction(args[i + got]))
    } else {
        read_box(args, numeric, i, got + 1)
    }
}

/// What the arguments from the `i`-th on come to, where `numeric` tells which of them
/// are numbers with a fraction.
pub open spec fn meaning(args: Seq<Seq<char>>, numeric: Seq<bool>, i: int, c: Chosen) -> Meaning
    decreases args.len() + 5 - i,
{
    if i >= args.len() {
        Meaning::Run(c)
    } else {
        let flag = args[i];
        if flag == "--bbox"@ {
            match read_box(args, numeric, i + 1, 0) {
                Ok(_) => meaning(
                    args,
                    numeric,
                    i + 5,
                    Chosen { bbox: Some(seq![args[i + 1], args[i + 2], args[i + 3], args[i + 4]]), ..c },
                ),
                Err(e) => e,
            }
        } else if !(flag == "--db"@ || flag == "--out"@ || flag == "--level"@ || flag == "--min-footprint"@ || flag
            == "--k"@) {
            Meaning::UnknownFlag(flag)
        } else if i + 1 >= args.len() {
            Meaning::NeedsValue(flag)
        } else {
            let value = args[i + 1];
            if flag == "--db"@ {
                meaning(args, numeric, i + 2, Chosen { db: Some(value), ..c })
            } else if flag == "--out"@ {
                meaning(args, numeric, i + 2, Chosen { out: Some(value), ..c })
            } else if flag == "--level"@ {
                match text::parsed(value, u32::MAX as nat) {
                    Some(n) => meaning(args, numeric, i + 2, Chosen { level: n as u32, ..c }),
                    None => Meaning::NotANumber(value),
                }
            } else if flag == "--min-footprint"@ {
                if numeric[i + 1] {
                    meaning(args, numeric, i + 2, Chosen { min_footprint: Some(value), ..c })
                } else {
                    Meaning::NotAFraction(value)
                }
            } else {
                match tier_list(text::pieces(value, ','), text::pieces(value, ',').len()) {
                    Ok(list) => meaning(args, numeric, i + 2, Chosen { tiers: list, ..c }),
                    Err(part) => Meaning::NotANumber(part),
                }
            }
        }
    }
}

/// Whether a grid is fine enough to measure density on and coarse enough for keys.
pub open spec fn is_level(level: u32) -> bool {
    DENSITY_LEVEL <= level <= DEEPEST
}

/// Whether every tier hides somebody.
pub open spec fn are_tiers(tiers: Seq<u32>) -> bool {
    tiers.len() > 0 && forall|i: int| 0 <= i < tiers.len() ==> #[trigger] tiers[i] >= 2
}

/// Numbers in order, each one once.
pub open spec fn strictly_ascending(list: Seq<u32>) -> bool {
    forall|i: int, j: int| 0 <= i < j < list.len() ==> list[i] < list[j]
}

/// Whether these are the settings that were chosen, with the tiers in order and each
/// one once.
pub open spec fn settles(c: Chosen, out: Chosen) -> bool {
    &&& out.db == c.db
    &&& out.out == c.out
    &&& out.level == c.level
    &&& out.bbox == c.bbox
    &&& out.min_footprint == c.min_footprint
    &&& strictly_ascending(out.tiers)
    &&& forall|k: u32| out.tiers.contains(k) <==> c.tiers.contains(k)
}

/// Sorts numbers, each one once.
fn distinct(list: &Vec<u32>) -> (out: Vec<u32>)
    ensures
        strictly_ascending(out@),
        forall|k: u32| out@.contains(k) <==> list@.contains(k),
{
    let mut out: Vec<u32> = Vec::new();
    let mut n: usize = 0;
    while n < list.len()
        invariant
            n <= list@.len(),
            strictly_ascending(out@),
            forall|k: u32| out@.contains(k) <==> list@.take(n as int).contains(k),
        decreases list@.len() - n,
    {
        let k: u32 = list[n];
        let ghost before = out@;
        proof {
            let next = list@.take(n + 1);
            let front = list@.take(n as int);
            assert forall|x: u32| next.contains(x) <==> front.contains(x) || x == k by {
                if front.contains(x) {
                    let j = choose|j: int| 0 <= j < front.len() && front[j] == x;
                    assert(next[j] == x);
                }
                assert(next[n as int] == k);
                if next.contains(x) && x != k {
                    let j = choose|j: int| 0 <= j < next.len() && next[j] == x;
                    assert(front[j] == x);
                }
            }
        }
        let mut at: usize = 0;
        while at < out.len() && out[at] < k
            invariant
                at <= out@.len(),
                forall|j: int| 0 <= j < at ==> out@[j] < k,
            decreases out@.len() - at,
        {
            at = at + 1;
        }
        if at < out.len() && out[at] == k {
            assert(before[at as int] == k);
            assert(before.contains(k));
        } else {
            out.insert(at, k);
            proof {
                assert(out@ =~= before.insert(at as int, k));
                assert forall|i: int, j: int| 0 <= i < j < out@.len() implies out@[i] < out@[j] by {
                    if i == at && j > at + 1 {
                        assert(before[at as int] < before[j - 1]);
                    }
                }
                assert forall|x: u32| out@.contains(x) <==> before.contains(x) || x == k by {
                    if before.contains(x) {
                        let j = choose|j: int| 0 <= j < before.len() && before[j] == x;
                        assert(out@[if j < at { j } else { j + 1 }] == x);
                    }
                    assert(out@[at as int] == k);
                    if out@.contains(x) && x != k {
                        let j = choose|j: int| 0 <= j < out@.len() && out@[j] == x;
                        assert(before[if j < at { j } else { j - 1 }] == x);
                    }
                }
            }
        }
        proof {
            assert forall|x: u32| out@.contains(x) <==> list@.take(n + 1).contains(x) by {
                assert(before.contains(x) <==> list@.take(n as int).contains(x));
            }
        }
        n = n + 1;
    }
    assert(list@.take(n as int) =~= list@);
    out
}

/// Reads the numbers of a list, or the first member of it that is none.
fn read_tiers(value: &str) -> (r: Result<Vec<u32>, String>)
    ensures
        match tier_list(text::pieces(value@, ','), text::pieces(value@, ',').len()) {
            Ok(list) => r is Ok && r->Ok_0@ == list,
            Err(part) => r is Err && r->Err_0@ == part,
        },
{
    let parts: Vec<String> = text::split(value, ',');
    let mut out: Vec<u32> = Vec::new();
    let mut i: usize = 0;
    let ghost all = text::texts(parts@);
    while i < parts.len()
        invariant
            i <= parts@.len(),
            all == text::texts(parts@),
            all == text::pieces(value@, ','),
            tier_list(all, i as nat) == Ok::<Seq<u32>, Seq<char>>(out@),
        decreases parts@.len() - i,
    {
        let part: String = text::trim(parts[i].as_str());
        assert(all[i as int] == parts@[i as int]@);
        match text::parse(part.as_str(), u32::MAX as u64) {
            Some(k) => {
                out.push(k as u32);
            },
            None => {
                proof {
                    lemma_tiers_fail(all, (i + 1) as nat, all.len());
                }
                return Err(part);
            },
        }
        i = i + 1;
    }
    Ok(out)
}

proof fn lemma_tiers_fail(parts: Seq<Seq<char>>, m: nat, n: nat)
    requires
        m <= n,
        tier_list(parts, m) is Err,
    ensures
        tier_list(parts, n) == tier_list(parts, m),
    decreases n,
{
    if m < n {
        lemma_tiers_fail(parts, m, (n - 1) as nat);
    }
}

impl Args {
    /// Reads a command line, without the name of the program. `numeric` tells of each
    /// argument whether it is a number with a fraction.
    pub fn parse(args: &Vec<String>, numeric: &Vec<bool>) -> (r: Result<Args, ArgError>)
        requires
            numeric@.len() == args@.len(),
        ensures
            match meaning(text::texts(args@), numeric@, 0, defaults()) {
                Meaning::NeedsValue(s) => r is Err && r->Err_0 is NeedsValue && r->Err_0->NeedsValue_0@ == s,
                Meaning::NotANumber(s) => r is Err && r->Err_0 is NotANumber && r->Err_0->NotANumber_0@ == s,
                Meaning::NotAFraction(s) => r is Err && r->Err_0 is NotAFraction && r->Err_0->NotAFraction_0@ == s,
                Meaning::UnknownFlag(s) => r is Err && r->Err_0 is UnknownFlag && r->Err_0->UnknownFlag_0@ == s,
                Meaning::Run(c) => if !is_level(c.level) {
                    r == Err::<Args, ArgError>(ArgError::LevelRange(c.level))
                } else if !are_tiers(c.tiers) {
                    r == Err::<Args, ArgError>(ArgError::Tiers)
                } else {
                    r is Ok && settles(c, r->Ok_0@)
                },
            },
    {
        let mut a: Args = Args {
            db: None,
            out: None,
            level: LEVEL,
            tiers: vec![16u32, 64u32, 256u32],
            bbox: None,
            min_footprint: None,
        };
        let mut i: usize = 0;
        let ghost all = text::texts(args@);
        assert(a@.tiers =~= defaults().tiers);
        while i < args.len()
            invariant
                i <= args@.len(),
                numeric@.len() == args@.len(),
                all == text::texts(args@),
                meaning(all, numeric@, 0, defaults()) == meaning(all, numeric@, i as int, a@),
            decreases args@.len() - i,
        {
            let flag: &str = args[i].as_str();
            assert(all[i as int] == flag@);
            if text::same(flag, "--bbox") {
                let mut got: usize = 0;
                let n: usize = args.len();
                while got < 4
                    invariant
                        got <= 4,
                        i < n,
                        n == args@.len(),
                        i + 1 + got <= n,
                        numeric@.len() == args@.len(),
                        all == text::texts(args@),
                        flag@ == "--bbox"@,
                        all[i as int] == flag@,
                        meaning(all, numeric@, 0, defaults()) == meaning(all, numeric@, i as int, a@),
                        read_box(all, numeric@, i + 1, 0) == read_box(all, numeric@, i + 1, got as nat),
                    decreases 4 - got,
                {
                    if n - i - 1 <= got {
                        return Err(ArgError::NeedsValue(flag.to_owned()));
                    }
                    let at: usize = i + 1 + got;
                    assert(all[at as int] == args@[at as int]@);
                    if !numeric[at] {
                        return Err(ArgError::NotAFraction(args[at].clone()));
                    }
                    got = got + 1;
                }
                let corners: Box4 = Box4 {
                    west: args[i + 1].clone(),
                    south: args[i + 2].clone(),
                    east: args[i + 3].clone(),
                    north: args[i + 4].clone(),
                };
                a.bbox = Some(corners);
                assert(box_texts(a.bbox)->0 =~= seq![all[i + 1], all[i + 2], all[i + 3], all[i + 4]]);
                i = i + 5;
            } else {
                let db: bool = text::same(flag, "--db");
                let out: bool = text::same(flag, "--out");
                let level: bool = text::same(flag, "--level");
                let least: bool = text::same(flag, "--min-footprint");
                let tiers: bool = text::same(flag, "--k");
                if !(db || out || level || least || tiers) {
                    return Err(ArgError::UnknownFlag(flag.to_owned()));
                }
                if args.len() - i <= 1 {
                    return Err(ArgError::NeedsValue(flag.to_owned()));
                }
                let value: &str = args[i + 1].as_str();
                assert(all[i + 1] == value@);
                if db {
                    a.db = Some(value.to_owned());
                } else if out {
                    a.out = Some(value.to_owned());
                } else if level {
                    match text::parse(value, u32::MAX as u64) {
                        Some(n) => {
                            a.level = n as u32;
                        },
                        None => {
                            return Err(ArgError::NotANumber(value.to_owned()));
                        },
                    }
                } else if least {
                    if !numeric[i + 1] {
                        return Err(ArgError::NotAFraction(value.to_owned()));
                    }
                    a.min_footprint = Some(value.to_owned());
                } else {
                    match read_tiers(value) {
                        Ok(list) => {
                            a.tiers = list;
                        },
                        Err(part) => {
                            return Err(ArgError::NotANumber(part));
                        },
                    }
                }
                i = i + 2;
            }
        }
        if a.level < DENSITY_LEVEL || a.level > DEEPEST {
            return Err(ArgError::LevelRange(a.level));
        }
        if a.tiers.len() == 0 {
            return Err(ArgError::Tiers);
        }
        let mut n: usize = 0;
        while n < a.tiers.len()
            invariant
                n <= a.tiers@.len(),
                is_level(a@.level),
                meaning(all, numeric@, 0, defaults()) == Meaning::Run(a@),
                all == text::texts(args@),
                forall|j: int| 0 <= j < n ==> #[trigger] a.tiers@[j] >= 2,
            decreases a.tiers@.len() - n,
        {
            if a.tiers[n] < 2 {
                assert(!are_tiers(a@.tiers));
                return Err(ArgError::Tiers);
            }
            n = n + 1;
        }
        let ghost chosen = a@;
        a.tiers = distinct(&a.tiers);
        assert(settles(chosen, a@));
        Ok(a)
    }
}

impl ArgError {
    /// What is said of the error, where `why` says what is wrong with a number.
    pub open spec fn words(self, why: Seq<char>) -> Seq<char> {
        match self {
            ArgError::NeedsValue(flag) => flag@ + " needs a value"@,
            ArgError::NotANumber(_) => why,
            ArgError::NotAFraction(_) => why,
            ArgError::UnknownFlag(flag) => "unknown flag "@ + flag@,
            ArgError::LevelRange(level) => "--level "@ + text::decimal(level as nat) + " out of range, wants 14..=24"@,
            ArgError::Tiers => "--k wants at least one value, each >= 2"@,
        }
    }

    /// What is said of the error, where `why` says what is wrong with a number.
    pub fn message(&self, why: &str) -> (out: String)
        ensures
            out@ == self.words(why@),
    {
        match self {
            ArgError::NeedsValue(flag) => {
                let mut out: String = flag.clone();
                out.push_str(" needs a value");
                out
            },
            ArgError::NotANumber(_) => why.to_owned(),
            ArgError::NotAFraction(_) => why.to_owned(),
            ArgError::UnknownFlag(flag) => {
                let mut out: String = "unknown flag ".to_owned();
                out.push_str(flag.as_str());
                out
            },
            ArgError::LevelRange(level) => {
                let mut out: String = "--level ".to_owned();
                text::put_decimal(&mut out, *level as u64);
                out.push_str(" out of range, wants 14..=24");
                out
            },
            ArgError::Tiers => "--k wants at least one value, each >= 2".to_owned(),
        }
    }
}

/// The ground area of a building, from its box. `$a` is half a side of the plane. The
/// projection stretches both axes with the latitude, and the squared cosine undoes
/// it.
pub const FOOTPRINT: &'static str = "(max_x - min_x) * (max_y - min_y)
             * pow(cos(atan(sinh(pi() * ((min_y + max_y) / 2) / $a))), 2)";

/// The ground area of a building.
pub open spec fn footprint() -> Seq<char> {
    text::filled(FOOTPRINT@, seq![tuning::WORLD@])
}

/// The expression for the ground area of a building.
pub fn footprint_m2() -> (out: String)
    ensures
        out@ == footprint(),
{
    let values: [&str; 1] = [tuning::WORLD];
    assert(text::strs(values@) =~= seq![tuning::WORLD@]);
    text::fill(FOOTPRINT, &values)
}

/// Keeps the buildings whose middle lies in a box, in projected metres: from `$a` to
/// `$b` and from `$c` to `$d`.
pub const IN_BOX: &'static str = "\n           AND (min_x + max_x) / 2 BETWEEN $a AND $b
           AND (min_y + max_y) / 2 BETWEEN $c AND $d";

/// The condition that keeps the buildings in a box; none where there is no box.
pub open spec fn bbox_text(b: Option<Box4>) -> Seq<char> {
    match b {
        Some(b) => text::filled(IN_BOX@, seq![b.west@, b.east@, b.south@, b.north@]),
        None => ""@,
    }
}

/// The condition that keeps the buildings in a box of projected metres.
pub fn bbox_sql(b: &Option<Box4>) -> (out: String)
    ensures
        out@ == bbox_text(*b),
{
    match b {
        Some(b) => {
            let values: [&str; 4] = [b.west.as_str(), b.east.as_str(), b.south.as_str(), b.north.as_str()];
            assert(text::strs(values@) =~= seq![b.west@, b.east@, b.south@, b.north@]);
            text::fill(IN_BOX, &values)
        },
        None => "".to_owned(),
    }
}

/// The text of an optional string slice.
pub open spec fn text_at(s: Option<&str>) -> Option<Seq<char>> {
    match s {
        Some(t) => Some(t@),
        None => None,
    }
}

/// The condition that drops small buildings; none where no building is too small.
pub open spec fn footprint_text(least: Option<Seq<char>>) -> Seq<char> {
    match least {
        Some(n) => "\n           AND "@ + footprint() + " >= "@ + n,
        None => ""@,
    }
}

/// The condition that drops the sheds and barns that inflate a hamlet.
pub fn footprint_sql(least: Option<&str>) -> (out: String)
    ensures
        out@ == footprint_text(text_at(least)),
{
    match least {
        Some(n) => {
            let mut out: String = "\n           AND ".to_owned();
            let area: String = footprint_m2();
            out.push_str(area.as_str());
            out.push_str(" >= ");
            out.push_str(n);
            out
        },
        None => "".to_owned(),
    }
}

/// Counts the buildings of every cell, and adds up their ground area `$c`. `$a` is half
/// a side of the plane, `$b` the side of a cell, and `$d` and `$e` keep what counts.
pub const CELLS: &'static str = "SELECT CAST(FLOOR(((min_x + max_x) / 2 + $a) / $b) AS UINTEGER) tx,
                CAST(FLOOR(($a - (min_y + max_y) / 2) / $b) AS UINTEGER) ty,
                CAST(count(*) AS UINTEGER) n,
                sum($c) footprint
         FROM features
         WHERE layer = 'buildings'$d$e
         GROUP BY tx, ty";

/// The query that counts the buildings of every cell.
pub fn cells_sql(span: &str, bbox: &Option<Box4>, least: Option<&str>) -> (out: String)
    ensures
        out@ == text::filled(
            CELLS@,
            seq![
                tuning::WORLD@,
                span@,
                footprint(),
                bbox_text(*bbox),
                footprint_text(text_at(least)),
            ],
        ),
{
    let area: String = footprint_m2();
    let inside: String = bbox_sql(bbox);
    let large: String = footprint_sql(least);
    let values: [&str; 5] = [tuning::WORLD, span, area.as_str(), inside.as_str(), large.as_str()];
    assert(text::strs(values@) =~= seq![tuning::WORLD@, span@, area@, inside@, large@]);
    text::fill(CELLS, &values)
}

/// A cell's place on the grid.
#[derive(Clone, Copy, Debug, PartialEq, Eq, Structural)]
pub struct Site {
    pub x: u32,
    pub y: u32,
}

/// The window that a cell lies in, on a grid that is coarser by `shift` levels.
pub open spec fn window(s: Site, shift: u32) -> (u32, u32) {
    (s.x >> shift, s.y >> shift)
}

/// The buildings of the first `n` cells that lie in a window.
pub open spec fn buildings_in(of: Seq<usize>, counts: Seq<u32>, w: int, n: nat) -> nat
    decreases n,
{
    if n == 0 {
        0
    } else {
        buildings_in(of, counts, w, (n - 1) as nat) + (if of[n - 1] == w {
            counts[n - 1] as nat
        } else {
            0
        })
    }
}

/// The buildings of the first `n` cells.
pub open spec fn buildings(counts: Seq<u32>, n: nat) -> nat
    decreases n,
{
    if n == 0 {
        0
    } else {
        buildings(counts, (n - 1) as nat) + counts[n - 1] as nat
    }
}

/// Whether a total is that of the buildings of a window among the first `n` cells, and
/// the window is not empty of them.
pub open spec fn tally(of: Seq<usize>, counts: Seq<u32>, total: u64, w: int, n: nat) -> bool {
    &&& total == buildings_in(of, counts, w, n)
    &&& exists|i: int| 0 <= i < n && #[trigger] of[i] == w
}

/// Whether each total is that of its window.
pub open spec fn tallied(of: Seq<usize>, counts: Seq<u32>, totals: Seq<u64>, n: nat) -> bool {
    forall|w: int| 0 <= w < totals.len() ==> tally(of, counts, #[trigger] totals[w], w, n)
}

/// Cells sorted into windows.
#[derive(Debug)]
pub struct Windows {
    /// The window of each cell.
    pub of: Vec<usize>,
    /// How many buildings each window holds.
    pub buildings: Vec<u64>,
    /// The row of each window, which sets its size on the ground.
    pub rows: Vec<u32>,
}

impl Windows {
    /// Two cells share a window where they lie in the same one, every window holds what
    /// its cells hold, and no window is empty of cells.
    pub open spec fn sorts(self, sites: Seq<Site>, counts: Seq<u32>, shift: u32) -> bool {
        &&& self.of@.len() == sites.len()
        &&& self.buildings@.len() == self.rows@.len()
        &&& forall|i: int|
            0 <= i < sites.len() ==> {
                &&& (#[trigger] self.of@[i]) < self.rows@.len()
                &&& self.rows@[self.of@[i] as int] == window(sites[i], shift).1
            }
        &&& forall|i: int, j: int|
            0 <= i < sites.len() && 0 <= j < sites.len() ==> (#[trigger] self.of@[i] == #[trigger] self.of@[j]
                <==> window(sites[i], shift) == window(sites[j], shift))
        &&& tallied(self.of@, counts, self.buildings@, sites.len())
    }
}

proof fn lemma_counts_grow(counts: Seq<u32>, m: nat, n: nat)
    requires
        m <= n <= counts.len(),
    ensures
        buildings(counts, m) <= buildings(counts, n),
    decreases n,
{
    if m < n {
        lemma_counts_grow(counts, m, (n - 1) as nat);
    }
}

proof fn lemma_window_holds_less(of: Seq<usize>, counts: Seq<u32>, w: int, n: nat)
    ensures
        buildings_in(of, counts, w, n) <= buildings(counts, n),
    decreases n,
{
    if n > 0 {
        lemma_window_holds_less(of, counts, w, (n - 1) as nat);
    }
}

proof fn lemma_window_prefix(a: Seq<usize>, b: Seq<usize>, counts: Seq<u32>, w: int, n: nat)
    requires
        n <= a.len(),
        n <= b.len(),
        forall|i: int| 0 <= i < n ==> a[i] == b[i],
    ensures
        buildings_in(a, counts, w, n) == buildings_in(b, counts, w, n),
    decreases n,
{
    if n > 0 {
        lemma_window_prefix(a, b, counts, w, (n - 1) as nat);
    }
}

proof fn lemma_new_window(of: Seq<usize>, counts: Seq<u32>, w: int, n: nat)
    requires
        n <= of.len(),
        forall|i: int| 0 <= i < n ==> of[i] != w,
    ensures
        buildings_in(of, counts, w, n) == 0,
    decreases n,
{
    if n > 0 {
        lemma_new_window(of, counts, w, (n - 1) as nat);
    }
}

proof fn lemma_tally(
    of: Seq<usize>,
    totals: Seq<u64>,
    counts: Seq<u32>,
    w: usize,
    next_of: Seq<usize>,
    next_totals: Seq<u64>,
)
    requires
        of.len() < counts.len(),
        tallied(of, counts, totals, of.len()),
        forall|i: int| 0 <= i < of.len() ==> #[trigger] of[i] < totals.len(),
        next_of == of.push(w),
        w < totals.len() ==> totals[w as int] + counts[of.len() as int] <= u64::MAX && next_totals == totals.update(
            w as int,
            (totals[w as int] + counts[of.len() as int]) as u64,
        ),
        w >= totals.len() ==> w == totals.len() && next_totals == totals.push(counts[of.len() as int] as u64),
    ensures
        tallied(next_of, counts, next_totals, next_of.len()),
{
    let n = of.len();
    let m = next_of.len();
    assert(m == n + 1);
    assert(next_of[n as int] == w);
    assert forall|v: int| 0 <= v < next_totals.len() implies tally(next_of, counts, #[trigger] next_totals[v], v, m) by {
        lemma_window_prefix(of, next_of, counts, v, n);
        assert(buildings_in(next_of, counts, v, m) == buildings_in(next_of, counts, v, n) + (if next_of[n as int] == v {
            counts[n as int] as nat
        } else {
            0
        }));
        if v < totals.len() {
            assert(tally(of, counts, totals[v], v, n));
            let i = choose|i: int| 0 <= i < n && #[trigger] of[i] == v;
            assert(next_of[i] == v);
        } else {
            assert(v == w);
            lemma_new_window(of, counts, v, n);
        }
    }
}

/// A window as one number.
pub open spec fn window_key(w: (u32, u32)) -> u64 {
    (w.0 * 4294967296 + w.1) as u64
}

/// Sorts cells into windows of a grid that is coarser by `shift` levels. Density is
/// measured there: a zone's own size follows from how many buildings it must hold, so
/// it says as much of that as of the place.
pub fn windows(sites: &Vec<Site>, counts: &Vec<u32>, shift: u32) -> (out: Windows)
    requires
        counts@.len() == sites@.len(),
        shift < 32,
        buildings(counts@, counts@.len()) <= u64::MAX,
    ensures
        out.sorts(sites@, counts@, shift),
{
    let mut out: Windows = Windows { of: Vec::new(), buildings: Vec::new(), rows: Vec::new() };
    let mut known: HashMap<u64, usize> = HashMap::new();
    let mut i: usize = 0;
    while i < sites.len()
        invariant
            i <= sites@.len(),
            counts@.len() == sites@.len(),
            shift < 32,
            buildings(counts@, counts@.len()) <= u64::MAX,
            out.of@.len() == i,
            out.buildings@.len() == out.rows@.len(),
            forall|j: int|
                0 <= j < i ==> {
                    &&& (#[trigger] out.of@[j]) < out.rows@.len()
                    &&& out.rows@[out.of@[j] as int] == window(sites@[j], shift).1
                    &&& known@.contains_key(window_key(window(sites@[j], shift)))
                    &&& known@[window_key(window(sites@[j], shift))] == out.of@[j]
                },
            forall|key: u64|
                #[trigger] known@.contains_key(key) ==> {
                    &&& known@[key] < out.rows@.len()
                    &&& exists|j: int|
                        0 <= j < i && window_key(window(sites@[j], shift)) == key && #[trigger] out.of@[j] == known@[key]
                },
            forall|a: u64, b: u64|
                #[trigger] known@.contains_key(a) && #[trigger] known@.contains_key(b) && known@[a] == known@[b] ==> a
                    == b,
            tallied(out.of@, counts@, out.buildings@, i as nat),
        decreases sites@.len() - i,
    {
        let s: Site = sites[i];
        let wx: u32 = s.x >> shift;
        let wy: u32 = s.y >> shift;
        let key: u64 = wx as u64 * 4294967296 + wy as u64;
        let ghost old_of = out.of@;
        let ghost old_rows = out.rows@;
        let ghost old_buildings = out.buildings@;
        let ghost old_known = known@;
        proof {
            assert(key == window_key(window(s, shift)));
            lemma_counts_grow(counts@, (i + 1) as nat, counts@.len());
            assert(buildings(counts@, (i + 1) as nat) == buildings(counts@, i as nat) + counts@[i as int]);
        }
        let found: Option<usize> = match known.get(&key) {
            Some(w) => Some(*w),
            None => None,
        };
        match found {
            Some(w) => {
                proof {
                    assert(old_known.contains_key(key));
                    lemma_window_holds_less(old_of, counts@, w as int, i as nat);
                }
                let more: u64 = out.buildings[w] + counts[i] as u64;
                out.buildings.set(w, more);
                out.of.push(w);
                proof {
                    let j = choose|j: int|
                        0 <= j < i && window_key(window(sites@[j], shift)) == key && #[trigger] old_of[j]
                            == old_known[key];
                    assert(window(sites@[j], shift) == window(s, shift));
                    assert(out.of@[j] == w);
                }
            },
            None => {
                let w: usize = out.rows.len();
                known.insert(key, w);
                out.rows.push(wy);
                out.buildings.push(counts[i] as u64);
                out.of.push(w);
                proof {
                    assert forall|j: int| 0 <= j < i implies old_of[j] != w by {
                        assert(old_of[j] < old_rows.len());
                    }
                    lemma_new_window(old_of, counts@, w as int, i as nat);
                    assert(out.of@[i as int] == w);
                    assert forall|a: u64, b: u64|
                        #[trigger] known@.contains_key(a) && #[trigger] known@.contains_key(b) && known@[a]
                            == known@[b] implies a == b by {
                        if a != key {
                            assert(old_known.contains_key(a));
                        }
                        if b != key {
                            assert(old_known.contains_key(b));
                        }
                    }
                    assert forall|j: int| 0 <= j < i implies known@.contains_key(window_key(window(sites@[j], shift)))
                        && known@[window_key(window(sites@[j], shift))] == #[trigger] out.of@[j] by {
                        assert(out.of@[j] == old_of[j]);
                        assert(window_key(window(sites@[j], shift)) != key);
                    }
                }
            },
        }
        proof {
            assert(out.of@ =~= old_of.push(out.of@[i as int]));
            lemma_tally(old_of, old_buildings, counts@, out.of@[i as int], out.of@, out.buildings@);
            assert forall|k: u64| #[trigger] known@.contains_key(k) implies {
                &&& known@[k] < out.rows@.len()
                &&& exists|j: int|
                    0 <= j < i + 1 && window_key(window(sites@[j], shift)) == k && #[trigger] out.of@[j] == known@[k]
            } by {
                if k == key {
                    assert(out.of@[i as int] == known@[k]);
                } else {
                    assert(old_known.contains_key(k));
                    let j = choose|j: int|
                        0 <= j < i && window_key(window(sites@[j], shift)) == k && #[trigger] old_of[j] == old_known[k];
                    assert(out.of@[j] == known@[k]);
                }
            }
        }
        i = i + 1;
    }
    proof {
        assert forall|a: int, b: int| 0 <= a < sites@.len() && 0 <= b < sites@.len() implies (#[trigger] out.of@[a]
            == #[trigger] out.of@[b] <==> window(sites@[a], shift) == window(sites@[b], shift)) by {
            let ka = window_key(window(sites@[a], shift));
            let kb = window_key(window(sites@[b], shift));
            assert(out.of@[a] < out.rows@.len());
            assert(out.of@[b] < out.rows@.len());
            assert(known@.contains_key(ka) && known@.contains_key(kb));
            if out.of@[a] == out.of@[b] {
                assert(known@.contains_key(ka) && known@.contains_key(kb));
                assert(ka == kb);
            }
        }
    }
    out
}

/// The smallest and the greatest column and row of cells.
#[derive(Clone, Copy, Debug, PartialEq, Eq, Structural)]
pub struct CellBounds {
    pub min_x: u32,
    pub min_y: u32,
    pub max_x: u32,
    pub max_y: u32,
}

/// The part of the grid that cells cover, without a cell to spare; nothing where there
/// is no cell.
pub fn bounds_of(sites: &Vec<Site>) -> (r: Option<CellBounds>)
    ensures
        r is None <==> sites@.len() == 0,
        r matches Some(b) ==> {
            &&& forall|i: int|
                0 <= i < sites@.len() ==> b.min_x <= (#[trigger] sites@[i]).x <= b.max_x && b.min_y <= sites@[i].y
                    <= b.max_y
            &&& exists|i: int| 0 <= i < sites@.len() && (#[trigger] sites@[i]).x == b.min_x
            &&& exists|i: int| 0 <= i < sites@.len() && (#[trigger] sites@[i]).x == b.max_x
            &&& exists|i: int| 0 <= i < sites@.len() && (#[trigger] sites@[i]).y == b.min_y
            &&& exists|i: int| 0 <= i < sites@.len() && (#[trigger] sites@[i]).y == b.max_y
        },
{
    if sites.len() == 0 {
        return None;
    }
    let first: Site = sites[0];
    let mut b: CellBounds = CellBounds { min_x: first.x, min_y: first.y, max_x: first.x, max_y: first.y };
    let mut i: usize = 1;
    assert(sites@[0] == first);
    while i < sites.len()
        invariant
            1 <= i <= sites@.len(),
            forall|j: int|
                0 <= j < i ==> b.min_x <= (#[trigger] sites@[j]).x <= b.max_x && b.min_y <= sites@[j].y <= b.max_y,
            exists|j: int| 0 <= j < sites@.len() && (#[trigger] sites@[j]).x == b.min_x,
            exists|j: int| 0 <= j < sites@.len() && (#[trigger] sites@[j]).x == b.max_x,
            exists|j: int| 0 <= j < sites@.len() && (#[trigger] sites@[j]).y == b.min_y,
            exists|j: int| 0 <= j < sites@.len() && (#[trigger] sites@[j]).y == b.max_y,
        decreases sites@.len() - i,
    {
        let s: Site = sites[i];
        assert(sites@[i as int] == s);
        if s.x < b.min_x {
            b.min_x = s.x;
        }
        if s.x > b.max_x {
            b.max_x = s.x;
        }
        if s.y < b.min_y {
            b.min_y = s.y;
        }
        if s.y > b.max_y {
            b.max_y = s.y;
        }
        i = i + 1;
    }
    Some(b)
}

/// Where a zone ends: at the start of the next, and the last one at the end of the
/// curve.
pub fn zone_end(starts: &Vec<u64>, i: usize, level: u32) -> (end: u64)
    requires
        i < starts@.len(),
        level <= 31,
    ensures
        end == (if i + 1 < starts@.len() {
            starts@[i + 1] as int
        } else {
            hilbert::cells(level as nat)
        }),
{
    if starts.len() - i > 1 {
        starts[i + 1]
    } else {
        hilbert::cells_of(level)
    }
}

/// The members of a kind among the first `n`.
pub open spec fn of_kind(kinds: Seq<usize>, kind: int, n: nat) -> Seq<usize>
    decreases n,
{
    if n == 0 {
        Seq::empty()
    } else if kinds[n - 1] == kind {
        of_kind(kinds, kind, (n - 1) as nat).push((n - 1) as usize)
    } else {
        of_kind(kinds, kind, (n - 1) as nat)
    }
}

/// The kinds below `top` that have a member, from the fullest down, each with its
/// members.
pub open spec fn kinds_below(kinds: Seq<usize>, top: nat) -> Seq<(usize, Seq<usize>)>
    decreases top,
{
    if top == 0 {
        Seq::empty()
    } else {
        let members = of_kind(kinds, top - 1, kinds.len());
        (if members.len() > 0 {
            seq![((top - 1) as usize, members)]
        } else {
            Seq::empty()
        }) + kinds_below(kinds, (top - 1) as nat)
    }
}

/// A kind and its members.
#[derive(Debug)]
pub struct Group {
    pub kind: usize,
    pub members: Vec<usize>,
}

/// Groups as plain values.
pub open spec fn groups_view(groups: Seq<Group>) -> Seq<(usize, Seq<usize>)> {
    groups.map_values(|g: Group| (g.kind, g.members@))
}

/// Groups zones by their kind, from the fullest kind to the emptiest; a kind without a
/// zone is left out.
pub fn by_kind(kinds: &Vec<usize>, top: usize) -> (out: Vec<Group>)
    ensures
        groups_view(out@) == kinds_below(kinds@, top as nat),
{
    let mut out: Vec<Group> = Vec::new();
    let mut left: usize = top;
    assert(groups_view(out@) + kinds_below(kinds@, top as nat) =~= kinds_below(kinds@, top as nat));
    while left > 0
        invariant
            left <= top,
            groups_view(out@) + kinds_below(kinds@, left as nat) == kinds_below(kinds@, top as nat),
        decreases left,
    {
        let kind: usize = left - 1;
        let mut members: Vec<usize> = Vec::new();
        let mut i: usize = 0;
        while i < kinds.len()
            invariant
                i <= kinds@.len(),
                members@ == of_kind(kinds@, kind as int, i as nat),
            decreases kinds@.len() - i,
        {
            if kinds[i] == kind {
                members.push(i);
            }
            i = i + 1;
        }
        let ghost before = groups_view(out@);
        let ghost held = members@;
        if members.len() > 0 {
            out.push(Group { kind, members });
            assert(groups_view(out@) =~= before.push((kind, held)));
        }
        assert(groups_view(out@) + kinds_below(kinds@, kind as nat) =~= before + kinds_below(kinds@, left as nat));
        left = kind;
    }
    assert(groups_view(out@) =~= groups_view(out@) + kinds_below(kinds@, 0));
    out
}

/// The first cell at which so many thousandths of all buildings are reached.
pub open spec fn reaches(counts: Seq<u32>, at: int, i: int) -> bool {
    &&& 0 <= i < counts.len()
    &&& 1000 * buildings(counts, (i + 1) as nat) >= at * buildings(counts, counts.len())
    &&& forall|j: int|
        0 <= j < i ==> 1000 * #[trigger] buildings(counts, (j + 1) as nat) < at * buildings(counts, counts.len())
}

/// How a measure is spread over buildings: for each thousandth, the cell in which it is
/// reached, where the cells come sorted by the measure. This weights each cell by its
/// buildings, as the positions to be hidden are; most of the ground is field.
pub fn seen_by_building(counts: &Vec<u32>) -> (out: Vec<usize>)
    requires
        buildings(counts@, counts@.len()) <= u64::MAX,
    ensures
        out@.len() == (if buildings(counts@, counts@.len()) > 0 {
            1000int
        } else {
            0
        }),
        forall|at: int| 0 <= at < out@.len() ==> reaches(counts@, at, #[trigger] out@[at] as int),
{
    let mut total: u64 = 0;
    let mut n: usize = 0;
    while n < counts.len()
        invariant
            n <= counts@.len(),
            total == buildings(counts@, n as nat),
            buildings(counts@, counts@.len()) <= u64::MAX,
        decreases counts@.len() - n,
    {
        proof {
            lemma_counts_grow(counts@, (n + 1) as nat, counts@.len());
        }
        total = total + counts[n] as u64;
        n = n + 1;
    }
    let mut out: Vec<usize> = Vec::new();
    if total == 0 {
        return out;
    }
    let mut seen: u64 = 0;
    let mut at: u64 = 0;
    // A thousand times as many buildings as it takes to reach the next thousandth.
    let mut goal: u128 = 0;
    let mut i: usize = 0;
    while i < counts.len()
        invariant
            i <= counts@.len(),
            total == buildings(counts@, counts@.len()),
            total > 0,
            seen == buildings(counts@, i as nat),
            at <= 1000,
            goal == at * total,
            at == out@.len(),
            forall|t: int| 0 <= t < at ==> reaches(counts@, t, #[trigger] out@[t] as int),
            at < 1000 ==> forall|j: int|
                0 <= j < i ==> 1000 * #[trigger] buildings(counts@, (j + 1) as nat) < at * total,
            i == counts@.len() ==> at == 1000,
        decreases counts@.len() - i,
    {
        proof {
            lemma_counts_grow(counts@, (i + 1) as nat, counts@.len());
        }
        seen = seen + counts[i] as u64;
        while at < 1000 && seen as u128 * 1000 >= goal
            invariant
                i < counts@.len(),
                total == buildings(counts@, counts@.len()),
                    seen == buildings(counts@, (i + 1) as nat),
                seen <= total,
                at <= 1000,
                goal == at * total,
                at == out@.len(),
                forall|t: int| 0 <= t < at ==> reaches(counts@, t, #[trigger] out@[t] as int),
                at < 1000 ==> forall|j: int|
                    0 <= j < i ==> 1000 * #[trigger] buildings(counts@, (j + 1) as nat) < at * total,
            decreases 1000 - at,
        {
            assert(at * total <= 1000 * total) by (nonlinear_arith)
                requires
                    at <= 1000,
            ;
            out.push(i);
            proof {
                assert(reaches(counts@, at as int, i as int));
                assert((at + 1) * total == at * total + total) by (nonlinear_arith);
            }
            goal = goal + total as u128;
            at = at + 1;
        }
        proof {
            if at < 1000 {
                assert(seen * 1000 < at * total);
                if i + 1 == counts@.len() {
                    assert(at * total <= 1000 * total) by (nonlinear_arith)
                        requires
                            at <= 1000,
                    ;
                }
            }
        }
        i = i + 1;
    }
    out
}

/// Spaces between thousands.
pub fn commas(n: u64) -> (out: String)
    ensures
        out@ == text::grouped(n as nat, ' '),
{
    let mut out: String = String::new();
    text::put_grouped(&mut out, n, ' ');
    assert(out@ =~= text::grouped(n as nat, ' '));
    out
}

/// **A window holds the cells of one square**: those whose column and row, counted in
/// sides of the square, come to the window's own.
pub proof fn law_a_window_is_a_square(s: Site, shift: u32)
    requires
        shift < 32,
    ensures
        window(s, shift).0 == s.x as nat / vstd::arithmetic::power2::pow2(shift as nat),
        window(s, shift).1 == s.y as nat / vstd::arithmetic::power2::pow2(shift as nat),
{
    vstd::bits::lemma_u32_shr_is_div(s.x, shift);
    vstd::bits::lemma_u32_shr_is_div(s.y, shift);
}

/// The sum of the first `n` totals.
pub open spec fn total_of(totals: Seq<u64>, n: nat) -> nat
    decreases n,
{
    if n == 0 {
        0
    } else {
        total_of(totals, (n - 1) as nat) + totals[n - 1] as nat
    }
}

/// The buildings of the first `n` cells, window by window.
spec fn by_window(of: Seq<usize>, counts: Seq<u32>, m: nat, n: nat) -> nat
    decreases m,
{
    if m == 0 {
        0
    } else {
        by_window(of, counts, (m - 1) as nat, n) + buildings_in(of, counts, m - 1, n)
    }
}

proof fn lemma_by_window_step(of: Seq<usize>, counts: Seq<u32>, m: nat, n: nat)
    requires
        n > 0,
    ensures
        by_window(of, counts, m, n) == by_window(of, counts, m, (n - 1) as nat) + (if of[n - 1] < m {
            counts[n - 1] as nat
        } else {
            0
        }),
    decreases m,
{
    if m > 0 {
        lemma_by_window_step(of, counts, (m - 1) as nat, n);
    }
}

proof fn lemma_by_window(of: Seq<usize>, counts: Seq<u32>, m: nat, n: nat)
    requires
        n <= of.len(),
        forall|i: int| 0 <= i < n ==> #[trigger] of[i] < m,
    ensures
        by_window(of, counts, m, n) == buildings(counts, n),
    decreases n,
{
    if n == 0 {
        lemma_no_cells(of, counts, m);
    } else {
        lemma_by_window(of, counts, m, (n - 1) as nat);
        lemma_by_window_step(of, counts, m, n);
        assert(of[n - 1] < m);
    }
}

proof fn lemma_no_cells(of: Seq<usize>, counts: Seq<u32>, m: nat)
    ensures
        by_window(of, counts, m, 0) == 0,
    decreases m,
{
    if m > 0 {
        lemma_no_cells(of, counts, (m - 1) as nat);
    }
}

proof fn lemma_totals_by_window(of: Seq<usize>, counts: Seq<u32>, totals: Seq<u64>, m: nat, n: nat)
    requires
        m <= totals.len(),
        tallied(of, counts, totals, n),
    ensures
        total_of(totals, m) == by_window(of, counts, m, n),
    decreases m,
{
    if m > 0 {
        lemma_totals_by_window(of, counts, totals, (m - 1) as nat, n);
        assert(tally(of, counts, totals[m - 1], m - 1, n));
    }
}

/// **Sorting cells into windows neither adds nor loses a building**: what the windows
/// hold together is what the cells do.
pub proof fn law_no_building_is_lost(windows: Windows, sites: Seq<Site>, counts: Seq<u32>, shift: u32)
    requires
        windows.sorts(sites, counts, shift),
        counts.len() == sites.len(),
    ensures
        total_of(windows.buildings@, windows.buildings@.len()) == buildings(counts, counts.len()),
{
    let m = windows.rows@.len();
    assert forall|i: int| 0 <= i < sites.len() implies #[trigger] windows.of@[i] < m by {}
    lemma_totals_by_window(windows.of@, counts, windows.buildings@, m, sites.len());
    lemma_by_window(windows.of@, counts, m, sites.len());
}

proof fn lemma_buildings_prefix(counts: Seq<u32>, more: Seq<u32>, n: nat)
    requires
        n <= counts.len(),
    ensures
        buildings(counts + more, n) == buildings(counts, n),
    decreases n,
{
    if n > 0 {
        lemma_buildings_prefix(counts, more, (n - 1) as nat);
    }
}

/// The buildings of cells add up: one more cell has its own ones more.
pub proof fn law_buildings_add_up(counts: Seq<u32>, more: u32)
    ensures
        buildings(counts, 0) == 0,
        buildings(counts.push(more), counts.len() + 1) == buildings(counts, counts.len()) + more,
{
    assert(counts.push(more) =~= counts + seq![more]);
    lemma_buildings_prefix(counts, seq![more], counts.len());
}

proof fn lemma_of_kind(kinds: Seq<usize>, kind: int, n: nat)
    requires
        n <= kinds.len() <= usize::MAX,
    ensures
        of_kind(kinds, kind, n) == Seq::new(n, |i: int| i as usize).filter(|i: usize| kinds[i as int] == kind),
    decreases n,
{
    reveal(Seq::filter);
    let picks = |i: usize| kinds[i as int] == kind;
    let places = Seq::new(n, |i: int| i as usize);
    if n > 0 {
        let m = (n - 1) as nat;
        lemma_of_kind(kinds, kind, m);
        let before = Seq::new(m, |i: int| i as usize);
        assert(places.drop_last() =~= before);
        assert(places.last() == m as usize);
        if picks(m as usize) {
            assert(places.filter(picks) == before.filter(picks).push(m as usize));
        } else {
            assert(places.filter(picks) == before.filter(picks));
        }
    } else {
        assert(of_kind(kinds, kind, n) =~= places.filter(picks));
    }
}

/// **The members of a kind are the zones that are of it**, in their order.
pub proof fn law_a_kind_has_its_members(kinds: Seq<usize>, kind: int)
    requires
        kinds.len() <= usize::MAX,
    ensures
        of_kind(kinds, kind, kinds.len()) == Seq::new(kinds.len(), |i: int| i as usize).filter(
            |i: usize| kinds[i as int] == kind,
        ),
{
    lemma_of_kind(kinds, kind, kinds.len());
}

/// **Kinds are listed from the fullest to the emptiest**, each one below the top once
/// if it has a member, and with all its members.
pub proof fn law_kinds_come_from_the_top(kinds: Seq<usize>, top: nat)
    requires
        top <= usize::MAX,
    ensures
        forall|a: int, b: int|
            0 <= a < b < kinds_below(kinds, top).len() ==> kinds_below(kinds, top)[a].0 > kinds_below(kinds, top)[b].0,
        forall|a: int|
            0 <= a < kinds_below(kinds, top).len() ==> (#[trigger] kinds_below(kinds, top)[a]).0 < top && kinds_below(
                kinds,
                top,
            )[a].1 == of_kind(kinds, kinds_below(kinds, top)[a].0 as int, kinds.len()) && kinds_below(kinds, top)[a].1.len()
                > 0,
        forall|kind: usize|
            kind < top && #[trigger] of_kind(kinds, kind as int, kinds.len()).len() > 0 ==> kinds_below(kinds, top).contains(
                (kind, of_kind(kinds, kind as int, kinds.len())),
            ),
    decreases top,
{
    if top > 0 {
        let below = (top - 1) as nat;
        law_kinds_come_from_the_top(kinds, below);
        let rest = kinds_below(kinds, below);
        let all = kinds_below(kinds, top);
        let members = of_kind(kinds, top - 1, kinds.len());
        let d: int = if members.len() > 0 { 1 } else { 0 };
        assert forall|a: int| d <= a < all.len() implies #[trigger] all[a] == rest[a - d] by {}
        assert forall|kind: usize|
            kind < top && #[trigger] of_kind(kinds, kind as int, kinds.len()).len() > 0 implies all.contains(
            (kind, of_kind(kinds, kind as int, kinds.len())),
        ) by {
            let entry = (kind, of_kind(kinds, kind as int, kinds.len()));
            if kind == top - 1 {
                assert(all[0] == entry);
            } else {
                assert(rest.contains(entry));
                let k = choose|k: int| 0 <= k < rest.len() && rest[k] == entry;
                assert(all[k + d] == entry);
            }
        }
    }
}

/// **A flag takes what stands behind it and changes nothing else**: one value, or the
/// four sides of a box from west to north. A number with a fraction has to be one.
pub proof fn law_a_flag_takes_what_stands_behind_it(args: Seq<Seq<char>>, numeric: Seq<bool>, i: int, c: Chosen)
    requires
        0 <= i,
        i + 1 < args.len(),
    ensures
        args[i] == "--db"@ ==> meaning(args, numeric, i, c) == meaning(
            args,
            numeric,
            i + 2,
            Chosen { db: Some(args[i + 1]), ..c },
        ),
        args[i] == "--out"@ ==> meaning(args, numeric, i, c) == meaning(
            args,
            numeric,
            i + 2,
            Chosen { out: Some(args[i + 1]), ..c },
        ),
        args[i] == "--min-footprint"@ ==> meaning(args, numeric, i, c) == if numeric[i + 1] {
            meaning(args, numeric, i + 2, Chosen { min_footprint: Some(args[i + 1]), ..c })
        } else {
            Meaning::NotAFraction(args[i + 1])
        },
        args[i] == "--level"@ ==> meaning(args, numeric, i, c) == match text::parsed(args[i + 1], u32::MAX as nat) {
            Some(n) => meaning(args, numeric, i + 2, Chosen { level: n as u32, ..c }),
            None => Meaning::NotANumber(args[i + 1]),
        },
        args[i] == "--bbox"@ && i + 4 < args.len() && numeric[i + 1] && numeric[i + 2] && numeric[i + 3] && numeric[i + 4]
            ==> meaning(args, numeric, i, c) == meaning(
            args,
            numeric,
            i + 5,
            Chosen { bbox: Some(seq![args[i + 1], args[i + 2], args[i + 3], args[i + 4]]), ..c },
        ),
        args[i] == "--bbox"@ && !numeric[i + 1] ==> meaning(args, numeric, i, c) == Meaning::NotAFraction(args[i + 1]),
{
    reveal_strlit("--db");
    reveal_strlit("--out");
    reveal_strlit("--level");
    reveal_strlit("--bbox");
    reveal_strlit("--min-footprint");
    assert("--db"@.len() == 4 && "--out"@.len() == 5 && "--level"@.len() == 7 && "--bbox"@.len() == 6);
    assert("--min-footprint"@.len() == 15);
    reveal_with_fuel(read_box, 6);
}

/// **A list of tiers is read number by number**, in its order and without the white space
/// around each; the first member that is no number is what is said of it.
pub proof fn law_tiers_are_read_one_by_one(parts: Seq<Seq<char>>, n: nat)
    requires
        n <= parts.len(),
    ensures
        match tier_list(parts, n) {
            Ok(list) => list.len() == n && forall|i: int|
                0 <= i < n ==> text::parsed(text::trimmed(parts[i]), u32::MAX as nat) == Some(#[trigger] list[i] as nat),
            Err(part) => exists|i: int|
                0 <= i < n && part == text::trimmed(#[trigger] parts[i]) && text::parsed(part, u32::MAX as nat) is None
                    && forall|j: int| 0 <= j < i ==> text::parsed(text::trimmed(#[trigger] parts[j]), u32::MAX as nat) is Some,
        },
    decreases n,
{
    if n > 0 {
        let m = (n - 1) as nat;
        law_tiers_are_read_one_by_one(parts, m);
        if let Ok(list) = tier_list(parts, m) {
            assert forall|j: int| 0 <= j < m implies text::parsed(text::trimmed(#[trigger] parts[j]), u32::MAX as nat) is Some by {
                assert(text::parsed(text::trimmed(parts[j]), u32::MAX as nat) == Some(list[j] as nat));
            }
            assert(text::trimmed(parts[m as int]) == text::trimmed(parts[n - 1]));
        }
    }
}

} // verus!
