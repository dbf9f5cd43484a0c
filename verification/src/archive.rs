//! A read-only reader of tile archives.
//!
//! Only what serving needs: map z/x/y to a byte range and hand back the slice.
//! Tiles come out still gzipped, exactly as stored. The caller owns the mapped
//! file and passes it in, so an archive holds no tile data: only the root
//! directory, and the leaf directories it was steered into, within a budget.
//!
//! Nothing here panics on a malformed file. A corrupt header is an error at
//! [`Archive::open`]; a corrupt leaf, which is only seen once a request steers a
//! lookup into it, reads as "no such tile".

use crate::bytes;
use crate::directory;
use crate::directory::Entry;
use crate::leaves;
use crate::leaves::{Leaf, Leaves};
use std::io::Read;
use vstd::prelude::*;

verus! {

broadcast use vstd::std_specs::hash::group_hash_axioms;

/// What a gzip member inflates to: the bytes `flate2` gives back for it, or
/// `None` where it reports a fault.
pub uninterp spec fn inflated(raw: Seq<u8>) -> Option<Seq<u8>>;

/// Inflates a gzip member with `flate2::read::GzDecoder`, read to its end by
/// `Read::read_to_end`. Claimed: the outcome is a function of the bytes alone,
/// the inflated content where decoding succeeds and an error where it does not.
/// The words of the error, and what is inside the content, are left unsaid.
#[verifier::external_body]
fn gunzip(raw: &[u8]) -> (r: Result<Vec<u8>, String>)
    ensures
        r matches Ok(out) ==> inflated(raw@) == Some(out@),
        r is Err ==> inflated(raw@) is None,
{
    let mut out = Vec::new();
    flate2::read::GzDecoder::new(raw).read_to_end(&mut out).map_err(|e| e.to_string())?;
    Ok(out)
}

/// Reads bytes as UTF-8 with `String::from_utf8`. Claimed: it succeeds exactly on
/// well-formed UTF-8, and the string is the text those bytes encode. The words of the
/// error are left unsaid.
#[verifier::external_body]
fn utf8(raw: Vec<u8>) -> (r: Result<String, String>)
    ensures
        r is Ok <==> vstd::utf8::valid_utf8(raw@),
        r matches Ok(text) ==> vstd::utf8::encode_utf8(text@) == raw@,
{
    String::from_utf8(raw).map_err(|e| e.to_string())
}

/// Why a file is not an archive that can be served.
#[derive(Clone, Debug, PartialEq, Eq)]
pub enum ArchiveError {
    /// Too short for a header, or not starting with the magic bytes.
    NotAnArchive,
    /// Written under another version of the format.
    Version(u8),
    /// Directories or tiles compressed with anything but gzip.
    Compression,
    /// The root directory lies outside the file.
    RootOutside { offset: u64, length: u64 },
    /// The root directory does not inflate, in the words of what inflates it.
    RootGzip(String),
    /// The root directory is malformed.
    RootMalformed,
    /// The metadata lies outside the file.
    MetadataOutside { offset: u64, length: u64 },
    /// The metadata does not inflate, in the words of what inflates it.
    MetadataGzip(String),
    /// The metadata is not UTF-8, in the words of what reads it.
    MetadataText(String),
}

/// What is wrong with a file, whatever the words.
pub enum Fault {
    NotAnArchive,
    Version(u8),
    Compression,
    RootOutside { offset: u64, length: u64 },
    RootGzip,
    RootMalformed,
    MetadataOutside { offset: u64, length: u64 },
    MetadataGzip,
    MetadataText,
}

impl View for ArchiveError {
    type V = Fault;

    open spec fn view(&self) -> Fault {
        match self {
            ArchiveError::NotAnArchive => Fault::NotAnArchive,
            ArchiveError::Version(v) => Fault::Version(*v),
            ArchiveError::Compression => Fault::Compression,
            ArchiveError::RootOutside { offset, length } => Fault::RootOutside { offset: *offset, length: *length },
            ArchiveError::RootGzip(_) => Fault::RootGzip,
            ArchiveError::RootMalformed => Fault::RootMalformed,
            ArchiveError::MetadataOutside { offset, length } => Fault::MetadataOutside {
                offset: *offset,
                length: *length,
            },
            ArchiveError::MetadataGzip(_) => Fault::MetadataGzip,
            ArchiveError::MetadataText(_) => Fault::MetadataText,
        }
    }
}

/// The fixed-size start of an archive. Degrees are stored times ten million.
#[derive(Clone, Copy, Debug, PartialEq, Eq, Structural)]
pub struct Header {
    pub root_offset: u64,
    pub root_length: u64,
    pub metadata_offset: u64,
    pub metadata_length: u64,
    pub leaf_offset: u64,
    pub tile_data_offset: u64,
    /// Distinct tiles addressable.
    pub tile_count: u64,
    /// Directory entries across root and leaves: what an unbounded leaf cache
    /// would hold.
    pub entries: u64,
    pub min_zoom: u8,
    pub max_zoom: u8,
    pub min_lon_e7: i32,
    pub min_lat_e7: i32,
    pub max_lon_e7: i32,
    pub max_lat_e7: i32,
    pub center_zoom: u8,
}

/// The seven bytes every archive starts with, `PMTiles`.
pub open spec fn magic() -> Seq<u8> {
    seq![80u8, 77u8, 84u8, 105u8, 108u8, 101u8, 115u8]
}

/// Bytes in a header.
pub const HEADER_LEN: usize = 127;

/// The only version of the format that is read.
pub const VERSION: u8 = 3;

/// The code for gzip.
pub const GZIP: u8 = 2;

/// What the start of a file says, or why it is not an archive.
pub open spec fn header_of(b: Seq<u8>) -> Result<Header, Fault> {
    if b.len() < HEADER_LEN || b.subrange(0, 7) != magic() {
        Err(Fault::NotAnArchive)
    } else if b[7] != VERSION {
        Err(Fault::Version(b[7]))
    } else if b[97] != GZIP || b[98] != GZIP {
        Err(Fault::Compression)
    } else {
        Ok(
            Header {
                root_offset: bytes::le_u64(b, 8) as u64,
                root_length: bytes::le_u64(b, 16) as u64,
                metadata_offset: bytes::le_u64(b, 24) as u64,
                metadata_length: bytes::le_u64(b, 32) as u64,
                leaf_offset: bytes::le_u64(b, 40) as u64,
                tile_data_offset: bytes::le_u64(b, 56) as u64,
                tile_count: bytes::le_u64(b, 72) as u64,
                entries: bytes::le_u64(b, 80) as u64,
                min_zoom: b[100],
                max_zoom: b[101],
                min_lon_e7: bytes::le_i32(b, 102) as i32,
                min_lat_e7: bytes::le_i32(b, 106) as i32,
                max_lon_e7: bytes::le_i32(b, 110) as i32,
                max_lat_e7: bytes::le_i32(b, 114) as i32,
                center_zoom: b[118],
            },
        )
    }
}

/// Whether a file starts with the magic bytes.
fn has_magic(b: &[u8]) -> (r: bool)
    requires
        b@.len() >= 7,
    ensures
        r == (b@.subrange(0, 7) == magic()),
{
    let r = b[0] == 80 && b[1] == 77 && b[2] == 84 && b[3] == 105 && b[4] == 108 && b[5] == 101
        && b[6] == 115;
    proof {
        let s = b@.subrange(0, 7);
        assert(s[0] == b@[0] && s[1] == b@[1] && s[2] == b@[2] && s[3] == b@[3]);
        assert(s[4] == b@[4] && s[5] == b@[5] && s[6] == b@[6]);
        if r {
            assert(s =~= magic());
        }
    }
    r
}

impl Header {
    /// Reads the header of a file.
    pub fn parse(file: &[u8]) -> (r: Result<Header, ArchiveError>)
        ensures
            match header_of(file@) {
                Ok(h) => r == Ok::<Header, ArchiveError>(h),
                Err(e) => r is Err && r->Err_0@ == e,
            },
    {
        if file.len() < HEADER_LEN || !has_magic(file) {
            return Err(ArchiveError::NotAnArchive);
        }
        if file[7] != VERSION {
            return Err(ArchiveError::Version(file[7]));
        }
        if file[97] != GZIP || file[98] != GZIP {
            return Err(ArchiveError::Compression);
        }
        Ok(
            Header {
                root_offset: bytes::u64_at(file, 8),
                root_length: bytes::u64_at(file, 16),
                metadata_offset: bytes::u64_at(file, 24),
                metadata_length: bytes::u64_at(file, 32),
                leaf_offset: bytes::u64_at(file, 40),
                tile_data_offset: bytes::u64_at(file, 56),
                tile_count: bytes::u64_at(file, 72),
                entries: bytes::u64_at(file, 80),
                min_zoom: file[100],
                max_zoom: file[101],
                min_lon_e7: bytes::i32_at(file, 102),
                min_lat_e7: bytes::i32_at(file, 106),
                max_lon_e7: bytes::i32_at(file, 110),
                max_lat_e7: bytes::i32_at(file, 114),
                center_zoom: file[118],
            },
        )
    }
}

/// `length` bytes of a file from `offset` on, where the file has them.
pub open spec fn part_of(b: Seq<u8>, offset: int, length: int) -> Option<Seq<u8>> {
    if offset + length <= b.len() {
        Some(b.subrange(offset, offset + length))
    } else {
        None
    }
}

/// A byte range of the file, or `None` where it lies outside.
pub fn section(file: &[u8], offset: u64, length: u64) -> (r: Option<&[u8]>)
    ensures
        match part_of(file@, offset as int, length as int) {
            Some(part) => r is Some && r.unwrap()@ == part,
            None => r is None,
        },
{
    let len: u64 = file.len() as u64;
    if offset > len || length > len - offset {
        None
    } else {
        Some(vstd::slice::slice_subrange(file, offset as usize, (offset + length) as usize))
    }
}

/// `length` bytes of a file at `offset` past `base`, where the file has them.
fn section_past(file: &[u8], base: u64, offset: u64, length: u32) -> (r: Option<&[u8]>)
    ensures
        match part_of(file@, base + offset, length as int) {
            Some(part) => r is Some && r.unwrap()@ == part,
            None => r is None,
        },
{
    assert(file@.len() == file.len());
    if offset > u64::MAX - base {
        None
    } else {
        section(file, base + offset, length as u64)
    }
}

/// A tile archive: its header, its root directory, and the leaves it has been
/// steered into.
pub struct Archive {
    pub header: Header,
    pub root: Vec<Entry>,
    pub leaves: Leaves,
    pub metadata: String,
}

/// The root directory of a file, or why there is none.
pub open spec fn root_of(b: Seq<u8>, h: Header) -> Result<Seq<Entry>, Fault> {
    match part_of(b, h.root_offset as int, h.root_length as int) {
        None => Err(
            Fault::RootOutside { offset: h.root_offset, length: h.root_length },
        ),
        Some(raw) => match inflated(raw) {
            None => Err(Fault::RootGzip),
            Some(content) => match directory::directory(content) {
                None => Err(Fault::RootMalformed),
                Some(entries) => Ok(entries),
            },
        },
    }
}

/// The metadata bytes of a file, or why there are none.
pub open spec fn metadata_of(b: Seq<u8>, h: Header) -> Result<Seq<u8>, Fault> {
    match part_of(b, h.metadata_offset as int, h.metadata_length as int) {
        None => Err(
            Fault::MetadataOutside { offset: h.metadata_offset, length: h.metadata_length },
        ),
        Some(raw) => match inflated(raw) {
            None => Err(Fault::MetadataGzip),
            Some(content) => if vstd::utf8::valid_utf8(content) {
                Ok(content)
            } else {
                Err(Fault::MetadataText)
            },
        },
    }
}

/// What opening a file gives: its header, its root directory and its metadata,
/// or the first thing that is wrong.
pub open spec fn opened(b: Seq<u8>) -> Result<(Header, Seq<Entry>, Seq<u8>), Fault> {
    match header_of(b) {
        Err(e) => Err(e),
        Ok(h) => match root_of(b, h) {
            Err(e) => Err(e),
            Ok(root) => match metadata_of(b, h) {
                Err(e) => Err(e),
                Ok(text) => Ok((h, root, text)),
            },
        },
    }
}

/// The directory a leaf pointer leads to.
pub open spec fn leaf_of(b: Seq<u8>, h: Header, pointer: Entry) -> Option<Seq<Entry>> {
    match part_of(b, h.leaf_offset + pointer.offset, pointer.length as int) {
        None => None,
        Some(raw) => match inflated(raw) {
            None => None,
            Some(content) => directory::directory(content),
        },
    }
}

/// The blob of an entry that was found for `id`, where its run reaches that far
/// and the file has the bytes.
pub open spec fn blob_of(b: Seq<u8>, h: Header, e: Entry, id: int) -> Option<Seq<u8>> {
    if id >= e.tile_id + e.run_length {
        None
    } else {
        part_of(b, h.tile_data_offset + e.offset, e.length as int)
    }
}

/// The tile `id` of a file, where `leaf` is the directory behind the root's
/// pointer, if the root has a pointer for it.
pub open spec fn tile_in(
    b: Seq<u8>,
    h: Header,
    root: Seq<Entry>,
    leaf: Option<Seq<Entry>>,
    id: u64,
) -> Option<Seq<u8>> {
    match directory::found(root, id, root.len()) {
        None => None,
        Some(e) => if e.run_length != 0 {
            blob_of(b, h, e, id as int)
        } else {
            match leaf {
                None => None,
                Some(entries) => match directory::found(entries, id, entries.len()) {
                    None => None,
                    // No nesting deeper than one leaf level.
                    Some(e) => if e.run_length == 0 {
                        None
                    } else {
                        blob_of(b, h, e, id as int)
                    },
                },
            }
        },
    }
}

/// The directory behind a pointer: the one held under its offset if there is
/// one, the one in the file otherwise.
pub open spec fn leaf_seen(held: Map<u64, Leaf>, b: Seq<u8>, h: Header, pointer: Entry) -> Option<
    Seq<Entry>,
> {
    if held.contains_key(pointer.offset) {
        Some(held[pointer.offset].entries@)
    } else {
        leaf_of(b, h, pointer)
    }
}

/// One tick of the clock.
pub open spec fn tick(clock: u64) -> u64 {
    if clock < u64::MAX {
        (clock + 1) as u64
    } else {
        clock
    }
}

/// How a cache changes when the leaf behind `pointer` is looked into: time goes
/// on, a held leaf is stamped, a leaf that had to be decoded is held.
pub open spec fn looked_into(
    before: Leaves,
    after: Leaves,
    b: Seq<u8>,
    h: Header,
    pointer: Entry,
) -> bool {
    &&& after.budget == before.budget
    &&& after.clock == tick(before.clock)
    &&& if before.by_offset@.contains_key(pointer.offset) {
        after.by_offset@ == before.by_offset@.insert(
            pointer.offset,
            Leaf {
                entries: before.by_offset@[pointer.offset].entries,
                used: after.clock,
            },
        )
    } else {
        match leaf_of(b, h, pointer) {
            None => after.by_offset@ == before.by_offset@,
            Some(entries) => exists|kept: Map<u64, Leaf>|
                #[trigger] leaves::makes_room(
                    before.by_offset@,
                    leaves::leaf_bytes(entries.len()),
                    before.budget as int,
                    kept,
                ) && after.by_offset@.contains_key(pointer.offset)
                    && after.by_offset@[pointer.offset].entries@ == entries
                    && after.by_offset@ == kept.insert(
                    pointer.offset,
                    Leaf {
                        entries: after.by_offset@[pointer.offset].entries,
                        used: after.clock,
                    },
                ),
        }
    }
}

/// Leaf pointers among the first `n` entries of a directory.
pub open spec fn pointers(root: Seq<Entry>, n: nat) -> int
    decreases n,
{
    if n == 0 {
        0
    } else {
        pointers(root, (n - 1) as nat) + if root[n - 1].run_length == 0 {
            1int
        } else {
            0
        }
    }
}

impl Archive {
    /// The directories are in order and the cache keeps its books.
    pub open spec fn wf(self) -> bool {
        &&& directory::ordered(self.root@)
        &&& self.leaves.wf()
        &&& forall|key: u64| #[trigger]
            self.leaves.by_offset@.contains_key(key) ==> directory::ordered(
                self.leaves.by_offset@[key].entries@,
            )
    }

    /// Every leaf that is held is what some pointer of the root leads to in this
    /// file.
    pub open spec fn faithful(self, b: Seq<u8>) -> bool {
        forall|key: u64| #[trigger]
            self.leaves.by_offset@.contains_key(key) ==> exists|i: int|
                0 <= i < self.root@.len() && (#[trigger] self.root@[i]).run_length == 0
                    && self.root@[i].offset == key && leaf_of(b, self.header, self.root@[i]) == Some(
                    self.leaves.by_offset@[key].entries@,
                )
    }

    /// Open with the default leaf-cache budget.
    pub fn open(file: &[u8]) -> (r: Result<Archive, ArchiveError>)
        ensures
            match opened(file@) {
                Err(e) => r is Err && r->Err_0@ == e,
                Ok((h, root, text)) => r is Ok && r.unwrap().is_fresh(
                    h,
                    root,
                    text,
                    leaves::LEAF_CACHE_BYTES,
                ),
            },
    {
        Archive::open_with_cache(file, leaves::LEAF_CACHE_BYTES)
    }

    /// Whether this is a newly opened archive: nothing has been looked up yet.
    pub open spec fn is_fresh(self, h: Header, root: Seq<Entry>, text: Seq<u8>, budget: usize) -> bool {
        &&& self.wf()
        &&& self.header == h
        &&& self.root@ == root
        &&& vstd::utf8::encode_utf8(self.metadata@) == text
        &&& self.leaves.budget == budget
        &&& self.leaves.by_offset@ == Map::<u64, Leaf>::empty()
    }

    /// Open with an explicit leaf-cache budget in bytes.
    pub fn open_with_cache(file: &[u8], leaf_cache_bytes: usize) -> (r: Result<
        Archive,
        ArchiveError,
    >)
        ensures
            match opened(file@) {
                Err(e) => r is Err && r->Err_0@ == e,
                Ok((h, root, text)) => r is Ok && r.unwrap().is_fresh(h, root, text, leaf_cache_bytes),
            },
    {
        let header: Header = match Header::parse(file) {
            Ok(header) => header,
            Err(e) => {
                return Err(e);
            },
        };
        let raw: &[u8] = match section(file, header.root_offset, header.root_length) {
            Some(raw) => raw,
            None => {
                return Err(
                    ArchiveError::RootOutside {
                        offset: header.root_offset,
                        length: header.root_length,
                    },
                );
            },
        };
        let content: Vec<u8> = match gunzip(raw) {
            Ok(content) => content,
            Err(why) => {
                return Err(ArchiveError::RootGzip(why));
            },
        };
        let root: Vec<Entry> = match directory::parse_directory(content.as_slice()) {
            Some(root) => root,
            None => {
                return Err(ArchiveError::RootMalformed);
            },
        };
        let raw: &[u8] = match section(file, header.metadata_offset, header.metadata_length) {
            Some(raw) => raw,
            None => {
                return Err(
                    ArchiveError::MetadataOutside {
                        offset: header.metadata_offset,
                        length: header.metadata_length,
                    },
                );
            },
        };
        let content: Vec<u8> = match gunzip(raw) {
            Ok(content) => content,
            Err(why) => {
                return Err(ArchiveError::MetadataGzip(why));
            },
        };
        Archive::assemble(header, root, content, leaf_cache_bytes)
    }

    /// An archive from its parts, once they have been inflated.
    pub fn assemble(header: Header, root: Vec<Entry>, metadata: Vec<u8>, leaf_cache_bytes: usize) -> (r:
        Result<Archive, ArchiveError>)
        requires
            directory::ordered(root@),
        ensures
            vstd::utf8::valid_utf8(metadata@) ==> r is Ok && r.unwrap().is_fresh(
                header,
                root@,
                metadata@,
                leaf_cache_bytes,
            ),
            !vstd::utf8::valid_utf8(metadata@) ==> r is Err && r->Err_0@ == Fault::MetadataText,
    {
        match utf8(metadata) {
            Ok(metadata) => Ok(
                Archive { header, root, leaves: Leaves::new(leaf_cache_bytes), metadata },
            ),
            Err(why) => Err(ArchiveError::MetadataText(why)),
        }
    }

    /// How many leaf directories the root points at.
    pub fn leaf_count(&self) -> (n: usize)
        ensures
            n == pointers(self.root@, self.root@.len()),
    {
        let mut n: usize = 0;
        let mut i: usize = 0;
        while i < self.root.len()
            invariant
                n <= i <= self.root@.len(),
                n == pointers(self.root@, i as nat),
            decreases self.root@.len() - i,
        {
            if self.root[i].run_length == 0 {
                n = n + 1;
            }
            i = i + 1;
        }
        n
    }

    /// Bytes of decoded leaf directory currently held. Never exceeds the budget
    /// the archive was opened with, except when one leaf alone does.
    pub fn cached_leaf_bytes(&self) -> (n: usize)
        requires
            self.wf(),
        ensures
            n == leaves::weight(self.leaves.by_offset@),
            n <= self.leaves.budget || self.leaves.by_offset@.dom().len() == 1,
    {
        self.leaves.bytes
    }

    /// Looks into the leaf behind a pointer of the root: the entry it has for
    /// `id`, which is never itself a pointer.
    fn leaf_entry(&mut self, file: &[u8], pointer: Entry, id: u64) -> (r: Option<Entry>)
        requires
            old(self).wf(),
        ensures
            final(self).wf(),
            final(self).header == old(self).header,
            final(self).root == old(self).root,
            final(self).metadata == old(self).metadata,
            looked_into(
                old(self).leaves,
                final(self).leaves,
                file@,
                old(self).header,
                pointer,
            ),
            r == match leaf_seen(
                old(self).leaves.by_offset@,
                file@,
                old(self).header,
                pointer,
            ) {
                None => None,
                Some(entries) => match directory::found(entries, id, entries.len()) {
                    None => None,
                    Some(e) => if e.run_length == 0 {
                        None
                    } else {
                        Some(e)
                    },
                },
            },
            r matches Some(e) ==> e.tile_id <= id,
    {
        let key: u64 = pointer.offset;
        self.leaves.clock = self.leaves.clock.saturating_add(1);
        let ghost before = self.leaves.by_offset@;
        if self.leaves.entries(key).is_some() {
            self.leaves.touch(key);
        } else {
            let raw: &[u8] = match section_past(
                file,
                self.header.leaf_offset,
                pointer.offset,
                pointer.length,
            ) {
                Some(raw) => raw,
                None => {
                    return None;
                },
            };
            let content: Vec<u8> = match gunzip(raw) {
                Ok(content) => content,
                Err(_) => {
                    return None;
                },
            };
            let parsed: Vec<Entry> = match directory::parse_directory(content.as_slice()) {
                Some(parsed) => parsed,
                None => {
                    return None;
                },
            };
            let ghost size = leaves::leaf_bytes(parsed@.len());
            let ghost fresh = Leaf { entries: parsed, used: self.leaves.clock };
            self.leaves.insert(key, parsed);
            proof {
                assert(before.remove(key) =~= before);
                let kept = choose|kept: Map<u64, Leaf>|
                    #[trigger] leaves::makes_room(
                        before.remove(key),
                        size,
                        old(self).leaves.budget as int,
                        kept,
                    ) && self.leaves.by_offset@ == kept.insert(key, fresh);
                leaves::law_making_room_only_drops(
                    before,
                    size,
                    old(self).leaves.budget as int,
                    kept,
                );
                assert(leaves::makes_room(before, size, old(self).leaves.budget as int, kept));
                assert forall|k: u64| #[trigger]
                    self.leaves.by_offset@.contains_key(k) implies directory::ordered(
                    self.leaves.by_offset@[k].entries@,
                ) by {
                    if k != key {
                        assert(kept.contains_key(k));
                        assert(kept.dom().contains(k));
                        assert(before.contains_key(k));
                    }
                }
            }
        }
        match self.leaves.entries(key) {
            None => None,
            Some(entries) => match directory::find(entries.as_slice(), id) {
                None => None,
                Some(e) => if e.run_length == 0 {
                    None
                } else {
                    Some(e)
                },
            },
        }
    }

    /// The tile's bytes, still gzipped. `None` when the archive has no such tile.
    pub fn tile<'a>(&mut self, file: &'a [u8], z: u8, x: u32, y: u32) -> (r: Option<&'a [u8]>)
        requires
            old(self).wf(),
        ensures
            final(self).wf(),
            final(self).header == old(self).header,
            final(self).root == old(self).root,
            final(self).metadata == old(self).metadata,
            old(self).faithful(file@) ==> final(self).faithful(file@),
            z > 31 || !crate::hilbert::on_grid(z as nat, x as int, y as int) ==> r is None
                && final(self).leaves == old(self).leaves,
            z <= 31 && crate::hilbert::on_grid(z as nat, x as int, y as int) ==> {
                let id = directory::id_of(z as nat, x as int, y as int) as u64;
                let hit = directory::found(old(self).root@, id, old(self).root@.len());
                let leaf = match hit {
                    Some(e) => leaf_seen(
                        old(self).leaves.by_offset@,
                        file@,
                        old(self).header,
                        e,
                    ),
                    None => None,
                };
                &&& match tile_in(file@, old(self).header, old(self).root@, leaf, id) {
                    Some(blob) => r is Some && r.unwrap()@ == blob,
                    None => r is None,
                }
                &&& match hit {
                    Some(e) => if e.run_length == 0 {
                        looked_into(
                            old(self).leaves,
                            final(self).leaves,
                            file@,
                            old(self).header,
                            e,
                        )
                    } else {
                        final(self).leaves == old(self).leaves
                    },
                    None => final(self).leaves == old(self).leaves,
                }
            },
    {
        let id: u64 = match directory::tile_id(z, x, y) {
            Some(id) => id,
            None => {
                return None;
            },
        };
        let hit: Entry = match directory::find(self.root.as_slice(), id) {
            Some(e) => e,
            None => {
                return None;
            },
        };
        let mut entry: Entry = hit;
        if hit.run_length == 0 {
            let inner: Option<Entry> = self.leaf_entry(file, hit, id);
            proof {
                if old(self).faithful(file@) {
                    lemma_stays_faithful(*old(self), *self, file@, hit, id);
                }
            }
            entry = match inner {
                Some(e) => e,
                None => {
                    return None;
                },
            };
        }
        // A run covers consecutive ids that share one blob.
        if id - entry.tile_id >= entry.run_length as u64 {
            return None;
        }
        section_past(file, self.header.tile_data_offset, entry.offset, entry.length)
    }
}

/// Looking into a leaf leaves only faithful leaves behind.
proof fn lemma_stays_faithful(before: Archive, after: Archive, b: Seq<u8>, hit: Entry, id: u64)
    requires
        before.faithful(b),
        after.header == before.header,
        after.root == before.root,
        directory::found(before.root@, id, before.root@.len()) == Some(hit),
        hit.run_length == 0,
        looked_into(before.leaves, after.leaves, b, before.header, hit),
    ensures
        after.faithful(b),
{
    let held = before.leaves.by_offset@;
    let now = after.leaves.by_offset@;
    let key = hit.offset;
    lemma_found_somewhere(before.root@, id, before.root@.len());
    let at = choose|i: int| 0 <= i < before.root@.len() && (#[trigger] before.root@[i]) == hit;
    assert forall|k: u64| #[trigger] now.contains_key(k) implies exists|i: int|
        0 <= i < after.root@.len() && (#[trigger] after.root@[i]).run_length == 0
            && after.root@[i].offset == k && leaf_of(b, after.header, after.root@[i]) == Some(
            now[k].entries@,
        ) by {
        if held.contains_key(key) {
            assert(held.contains_key(k));
        } else if let Some(entries) = leaf_of(b, before.header, hit) {
            let kept = choose|kept: Map<u64, Leaf>|
                #[trigger] leaves::makes_room(
                    held,
                    leaves::leaf_bytes(entries.len()),
                    before.leaves.budget as int,
                    kept,
                ) && now.contains_key(key) && now[key].entries@ == entries && now == kept.insert(
                    key,
                    Leaf { entries: now[key].entries, used: after.leaves.clock },
                );
            leaves::law_making_room_only_drops(
                held,
                leaves::leaf_bytes(entries.len()),
                before.leaves.budget as int,
                kept,
            );
            if k == key {
                assert(after.root@[at] == hit);
            } else {
                assert(kept.contains_key(k));
                assert(kept.dom().contains(k));
                assert(held.contains_key(k));
            }
        } else {
            assert(held.contains_key(k));
        }
    }
}

proof fn lemma_found_somewhere(entries: Seq<Entry>, id: u64, n: nat)
    requires
        n <= entries.len(),
    ensures
        directory::found(entries, id, n) matches Some(e) ==> exists|i: int|
            0 <= i < n && (#[trigger] entries[i]) == e,
    decreases n,
{
    if n > 0 {
        if entries[n - 1].tile_id <= id {
            assert(entries[n - 1] == directory::found(entries, id, n).unwrap());
        } else {
            lemma_found_somewhere(entries, id, (n - 1) as nat);
        }
    }
}

/// Whether the root's leaf pointers agree on how long each leaf is.
pub open spec fn unambiguous(root: Seq<Entry>) -> bool {
    forall|i: int, j: int|
        0 <= i < root.len() && 0 <= j < root.len() && (#[trigger] root[i]).run_length == 0 && (
        #[trigger] root[j]).run_length == 0 && root[i].offset == root[j].offset ==> root[i].length
            == root[j].length
}

/// **The cache is invisible.** Whatever has been looked up, dropped or kept, a
/// tile is what the file alone says it is.
pub proof fn law_the_cache_changes_no_answer(archive: Archive, b: Seq<u8>, id: u64)
    requires
        archive.faithful(b),
        unambiguous(archive.root@),
    ensures
        match directory::found(archive.root@, id, archive.root@.len()) {
            Some(e) => e.run_length == 0 ==> leaf_seen(
                archive.leaves.by_offset@,
                b,
                archive.header,
                e,
            ) == leaf_of(b, archive.header, e),
            None => true,
        },
{
    let root = archive.root@;
    let held = archive.leaves.by_offset@;
    lemma_found_somewhere(root, id, root.len());
    if let Some(e) = directory::found(root, id, root.len()) {
        if e.run_length == 0 && held.contains_key(e.offset) {
            let at = choose|i: int| 0 <= i < root.len() && (#[trigger] root[i]) == e;
            let i = choose|i: int|
                0 <= i < root.len() && (#[trigger] root[i]).run_length == 0 && root[i].offset
                    == e.offset && leaf_of(b, archive.header, root[i]) == Some(
                    held[e.offset].entries@,
                );
            assert(root[i].length == root[at].length);
        }
    }
}

/// Whether the `i`-th entry is the one that speaks for an id: it starts at or before it,
/// and the next one starts after it.
pub open spec fn speaks_for(entries: Seq<Entry>, i: int, id: int) -> bool {
    &&& 0 <= i < entries.len()
    &&& entries[i].tile_id <= id
    &&& i + 1 < entries.len() ==> id < entries[i + 1].tile_id
}

proof fn lemma_speaker_is_found(entries: Seq<Entry>, i: int, id: u64, n: nat)
    requires
        directory::ordered(entries),
        speaks_for(entries, i, id as int),
        i < n <= entries.len(),
    ensures
        directory::found(entries, id, n) == Some(entries[i]),
    decreases n,
{
    if i < n - 1 {
        assert(entries[i + 1].tile_id <= entries[n - 1].tile_id);
        lemma_speaker_is_found(entries, i, id, (n - 1) as nat);
    }
}

proof fn lemma_nothing_speaks(entries: Seq<Entry>, id: u64, n: nat)
    requires
        n <= entries.len(),
        forall|i: int| 0 <= i < entries.len() ==> id < (#[trigger] entries[i]).tile_id,
    ensures
        directory::found(entries, id, n) is None,
    decreases n,
{
    if n > 0 {
        lemma_nothing_speaks(entries, id, (n - 1) as nat);
    }
}

/// **Every tile of a run is the one blob of the run.** Where the root's entry for an id
/// is a run that reaches it, the tile is the bytes of that entry, wherever in the run the
/// id stands; past the run, before the first entry, or where the file ends too early,
/// there is no tile.
pub proof fn law_a_run_shares_its_blob(
    b: Seq<u8>,
    h: Header,
    root: Seq<Entry>,
    leaf: Option<Seq<Entry>>,
    i: int,
    id: u64,
)
    requires
        directory::ordered(root),
    ensures
        speaks_for(root, i, id as int) && root[i].run_length > 0 && id < root[i].tile_id + root[i].run_length
            && h.tile_data_offset + root[i].offset + root[i].length <= b.len() ==> tile_in(b, h, root, leaf, id)
            == Some(
            b.subrange(
                h.tile_data_offset + root[i].offset,
                h.tile_data_offset + root[i].offset + root[i].length,
            ),
        ),
        speaks_for(root, i, id as int) && root[i].run_length > 0 && (id >= root[i].tile_id + root[i].run_length
            || h.tile_data_offset + root[i].offset + root[i].length > b.len()) ==> tile_in(b, h, root, leaf, id)
            is None,
        (forall|j: int| 0 <= j < root.len() ==> id < (#[trigger] root[j]).tile_id) ==> tile_in(b, h, root, leaf, id)
            is None,
{
    if speaks_for(root, i, id as int) {
        lemma_speaker_is_found(root, i, id, root.len());
    }
    if forall|j: int| 0 <= j < root.len() ==> id < (#[trigger] root[j]).tile_id {
        lemma_nothing_speaks(root, id, root.len());
    }
}

/// **A run in a leaf is a run like any other.** Where the root points to a leaf for an id
/// and the leaf's entry for it is a run that reaches it, the tile is the bytes of that
/// entry, wherever in the run the id stands; in every other case there is no tile.
pub proof fn law_a_run_in_a_leaf_shares_its_blob(
    b: Seq<u8>,
    h: Header,
    root: Seq<Entry>,
    leaf: Seq<Entry>,
    i: int,
    j: int,
    id: u64,
)
    requires
        directory::ordered(root),
        directory::ordered(leaf),
        speaks_for(root, i, id as int),
        root[i].run_length == 0,
    ensures
        tile_in(b, h, root, None, id) is None,
        speaks_for(leaf, j, id as int) && leaf[j].run_length > 0 && id < leaf[j].tile_id + leaf[j].run_length
            && h.tile_data_offset + leaf[j].offset + leaf[j].length <= b.len() ==> tile_in(
            b,
            h,
            root,
            Some(leaf),
            id,
        ) == Some(
            b.subrange(
                h.tile_data_offset + leaf[j].offset,
                h.tile_data_offset + leaf[j].offset + leaf[j].length,
            ),
        ),
        speaks_for(leaf, j, id as int) && (leaf[j].run_length == 0 || id >= leaf[j].tile_id + leaf[j].run_length
            || h.tile_data_offset + leaf[j].offset + leaf[j].length > b.len()) ==> tile_in(
            b,
            h,
            root,
            Some(leaf),
            id,
        ) is None,
        (forall|k: int| 0 <= k < leaf.len() ==> id < (#[trigger] leaf[k]).tile_id) ==> tile_in(
            b,
            h,
            root,
            Some(leaf),
            id,
        ) is None,
{
    lemma_speaker_is_found(root, i, id, root.len());
    if speaks_for(leaf, j, id as int) {
        lemma_speaker_is_found(leaf, j, id, leaf.len());
    }
    if forall|k: int| 0 <= k < leaf.len() ==> id < (#[trigger] leaf[k]).tile_id {
        lemma_nothing_speaks(leaf, id, leaf.len());
    }
}

/// A pointer leads to the directory that its bytes in the leaf section inflate to, and to
/// nothing where the file does not hold them.
pub proof fn law_a_pointer_leads_into_the_leaf_section(b: Seq<u8>, h: Header, pointer: Entry)
    ensures
        h.leaf_offset + pointer.offset + pointer.length > b.len() ==> leaf_of(b, h, pointer) is None,
        h.leaf_offset + pointer.offset + pointer.length <= b.len() ==> {
            let raw = b.subrange(
                h.leaf_offset + pointer.offset,
                h.leaf_offset + pointer.offset + pointer.length,
            );
            leaf_of(b, h, pointer) == (if inflated(raw) is Some {
                directory::directory(inflated(raw)->0)
            } else {
                None
            })
        },
{
}

/// A signed number as it is stored: a negative one counts down from the top.
pub open spec fn twos_complement(v: i32) -> u32 {
    (if v >= 0 {
        v as int
    } else {
        v + 0x1_0000_0000
    }) as u32
}

/// Whether a number of eight bytes stands at a place.
#[verifier::opaque]
pub open spec fn holds_u64(b: Seq<u8>, at: int, v: u64) -> bool {
    b.subrange(at, at + 8) == bytes::u64_bytes(v)
}

/// Whether a signed number of four bytes stands at a place.
#[verifier::opaque]
pub open spec fn holds_i32(b: Seq<u8>, at: int, v: i32) -> bool {
    b.subrange(at, at + 4) == bytes::u32_bytes(twos_complement(v))
}

proof fn lemma_u64_reads(b: Seq<u8>, at: int, v: u64)
    requires
        0 <= at <= b.len() - 8,
        holds_u64(b, at, v),
    ensures
        bytes::le_u64(b, at) as u64 == v,
{
    reveal(holds_u64);
    bytes::law_u64_survives(b, at, v);
}

proof fn lemma_i32_reads(b: Seq<u8>, at: int, v: i32)
    requires
        0 <= at <= b.len() - 4,
        holds_i32(b, at, v),
    ensures
        bytes::le_i32(b, at) as i32 == v,
{
    reveal(holds_i32);
    bytes::law_u32_survives(b, at, twos_complement(v));
}

/// **A header reads back as it was written.** The magic, the version, where the root
/// directory, the metadata, the leaves and the tiles are, how many tiles and entries
/// there are, the levels and the corners of the map all stand at places of their own.
pub proof fn law_a_header_reads_back(b: Seq<u8>, h: Header)
    requires
        b.len() >= 127,
        b.subrange(0, 7) == seq![80u8, 77u8, 84u8, 105u8, 108u8, 101u8, 115u8],
        b[7] == 3,
        b[97] == 2 && b[98] == 2,
        holds_u64(b, 8, h.root_offset),
        holds_u64(b, 16, h.root_length),
        holds_u64(b, 24, h.metadata_offset),
        holds_u64(b, 32, h.metadata_length),
        holds_u64(b, 40, h.leaf_offset),
        holds_u64(b, 56, h.tile_data_offset),
        holds_u64(b, 72, h.tile_count),
        holds_u64(b, 80, h.entries),
        holds_i32(b, 102, h.min_lon_e7),
        holds_i32(b, 106, h.min_lat_e7),
        holds_i32(b, 110, h.max_lon_e7),
        holds_i32(b, 114, h.max_lat_e7),
        b[100] == h.min_zoom && b[101] == h.max_zoom && b[118] == h.center_zoom,
    ensures
        header_of(b) == Ok::<Header, Fault>(h),
{
    lemma_u64_reads(b, 8, h.root_offset);
    lemma_u64_reads(b, 16, h.root_length);
    lemma_u64_reads(b, 24, h.metadata_offset);
    lemma_u64_reads(b, 32, h.metadata_length);
    lemma_u64_reads(b, 40, h.leaf_offset);
    lemma_u64_reads(b, 56, h.tile_data_offset);
    lemma_u64_reads(b, 72, h.tile_count);
    lemma_u64_reads(b, 80, h.entries);
    lemma_i32_reads(b, 102, h.min_lon_e7);
    lemma_i32_reads(b, 106, h.min_lat_e7);
    lemma_i32_reads(b, 110, h.max_lon_e7);
    lemma_i32_reads(b, 114, h.max_lat_e7);
    assert(header_of(b) is Ok);
    assert(header_of(b)->Ok_0 == h);
}

/// **Only an archive is taken for one**: a file that is too short for a header, begins
/// otherwise, is of another version, or is compressed otherwise is refused, and the first
/// of these that holds is what is said.
pub proof fn law_only_an_archive_is_taken_for_one(b: Seq<u8>)
    ensures
        header_of(b) is Ok <==> b.len() >= 127 && b.subrange(0, 7) == magic() && b[7] == 3 && b[97] == 2 && b[98] == 2,
        header_of(b) matches Err(e) ==> (e is NotAnArchive <==> b.len() < 127 || b.subrange(0, 7) != magic()) && (
        e is Compression ==> b[7] == 3) && (e matches Fault::Version(v) ==> v == b[7] && v != 3),
        magic() == seq![80u8, 77u8, 84u8, 105u8, 108u8, 101u8, 115u8],
{
}

/// **What is opened is what the header points to**: the root directory and the metadata
/// are what the bytes at their places inflate to.
pub proof fn law_an_archive_is_what_its_header_points_to(b: Seq<u8>, h: Header)
    requires
        header_of(b) == Ok::<Header, Fault>(h),
    ensures
        opened(b) matches Ok((header, root, text)) ==> {
            &&& header == h
            &&& h.root_offset + h.root_length <= b.len()
            &&& h.metadata_offset + h.metadata_length <= b.len()
            &&& inflated(b.subrange(h.root_offset as int, h.root_offset + h.root_length)) matches Some(content)
                && directory::directory(content) == Some(root)
            &&& inflated(b.subrange(h.metadata_offset as int, h.metadata_offset + h.metadata_length)) == Some(text)
        },
        h.root_offset + h.root_length > b.len() ==> opened(b) == Err::<(Header, Seq<Entry>, Seq<u8>), Fault>(
            Fault::RootOutside { offset: h.root_offset, length: h.root_length },
        ),
{
}

} // verus!
