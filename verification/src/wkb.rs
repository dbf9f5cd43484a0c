//! Well-known binary: the bytes a spatial database reads geometry from.
//! Little-endian, no SRID. A coordinate is the bits of a floating-point number.

use crate::bytes;
use vstd::prelude::*;

verus! {

/// A point, as the bits of its two coordinates.
#[derive(Clone, Copy, Debug, PartialEq, Eq, Structural)]
pub struct Pt {
    pub x: u64,
    pub y: u64,
}

/// The type code of a line.
pub const LINESTRING: u32 = 2;

/// The type code of a polygon.
pub const POLYGON: u32 = 3;

/// The type code of several polygons.
pub const MULTIPOLYGON: u32 = 6;

/// The byte order marker and a type code.
pub open spec fn header_bytes(kind: u32) -> Seq<u8> {
    seq![1u8] + bytes::u32_bytes(kind)
}

/// The first `n` points, one after another.
pub open spec fn point_bytes(pts: Seq<Pt>, n: nat) -> Seq<u8>
    decreases n,
{
    if n == 0 {
        Seq::empty()
    } else {
        point_bytes(pts, (n - 1) as nat) + bytes::u64_bytes(pts[n - 1].x) + bytes::u64_bytes(
            pts[n - 1].y,
        )
    }
}

/// A list of points: how many, then the points.
pub open spec fn list_bytes(pts: Seq<Pt>) -> Seq<u8> {
    bytes::u32_bytes(pts.len() as u32) + point_bytes(pts, pts.len())
}

/// A line.
pub open spec fn linestring(pts: Seq<Pt>) -> Seq<u8> {
    header_bytes(LINESTRING) + list_bytes(pts)
}

/// The first `n` rings of a polygon.
pub open spec fn rings_bytes(rings: Seq<Vec<Pt>>, n: nat) -> Seq<u8>
    decreases n,
{
    if n == 0 {
        Seq::empty()
    } else {
        rings_bytes(rings, (n - 1) as nat) + list_bytes(rings[n - 1]@)
    }
}

/// A polygon, which carries its own header: how many rings, then the rings.
pub open spec fn polygon_bytes(rings: Seq<Vec<Pt>>) -> Seq<u8> {
    header_bytes(POLYGON) + bytes::u32_bytes(rings.len() as u32) + rings_bytes(rings, rings.len())
}

/// The first `n` polygons.
pub open spec fn polygons_bytes(polys: Seq<Vec<Vec<Pt>>>, n: nat) -> Seq<u8>
    decreases n,
{
    if n == 0 {
        Seq::empty()
    } else {
        polygons_bytes(polys, (n - 1) as nat) + polygon_bytes(polys[n - 1]@)
    }
}

/// Several polygons: how many, then the polygons.
pub open spec fn multipolygon(polys: Seq<Vec<Vec<Pt>>>) -> Seq<u8> {
    header_bytes(MULTIPOLYGON) + bytes::u32_bytes(polys.len() as u32) + polygons_bytes(
        polys,
        polys.len(),
    )
}

/// Appends the byte order marker and a type code.
pub fn header(out: &mut Vec<u8>, kind: u32)
    ensures
        final(out)@ == old(out)@ + header_bytes(kind),
{
    out.push(1);
    bytes::put_u32(out, kind);
    assert(out@ =~= old(out)@ + header_bytes(kind));
}

/// Appends a list of points.
pub fn ring_bytes(out: &mut Vec<u8>, pts: &[Pt])
    requires
        pts@.len() <= u32::MAX,
    ensures
        final(out)@ == old(out)@ + list_bytes(pts@),
{
    let ghost base = out@;
    bytes::put_u32(out, pts.len() as u32);
    let ghost count = bytes::u32_bytes(pts@.len() as u32);
    let mut i: usize = 0;
    assert(out@ =~= base + (count + point_bytes(pts@, 0)));
    while i < pts.len()
        invariant
            i <= pts@.len(),
            out@ == base + (count + point_bytes(pts@, i as nat)),
        decreases pts@.len() - i,
    {
        let ghost before = point_bytes(pts@, i as nat);
        bytes::put_u64(out, pts[i].x);
        bytes::put_u64(out, pts[i].y);
        assert(out@ =~= base + (count + (before + bytes::u64_bytes(pts@[i as int].x)
            + bytes::u64_bytes(pts@[i as int].y))));
        i = i + 1;
    }
}

/// A line as well-known binary.
pub fn wkb_linestring(pts: &[Pt]) -> (out: Vec<u8>)
    requires
        pts@.len() <= u32::MAX,
    ensures
        out@ == linestring(pts@),
        out@.len() == 9 + 16 * pts@.len(),
{
    let mut out: Vec<u8> = Vec::new();
    header(&mut out, LINESTRING);
    ring_bytes(&mut out, pts);
    proof {
        lemma_point_len(pts@, pts@.len());
        assert(out@ =~= linestring(pts@));
    }
    out
}

proof fn lemma_point_len(pts: Seq<Pt>, n: nat)
    ensures
        point_bytes(pts, n).len() == 16 * n,
    decreases n,
{
    if n > 0 {
        lemma_point_len(pts, (n - 1) as nat);
    }
}

/// Whether every count of a list of polygons fits its field.
pub open spec fn counts_fit(polys: Seq<Vec<Vec<Pt>>>) -> bool {
    &&& polys.len() <= u32::MAX
    &&& forall|i: int| 0 <= i < polys.len() ==> (#[trigger] polys[i])@.len() <= u32::MAX
    &&& forall|i: int, j: int|
        0 <= i < polys.len() && 0 <= j < polys[i]@.len() ==> (#[trigger] polys[i]@[j])@.len()
            <= u32::MAX
}

/// Polygons, each an outer ring followed by its holes, as well-known binary.
pub fn wkb_multipolygon(polys: &Vec<Vec<Vec<Pt>>>) -> (out: Vec<u8>)
    requires
        counts_fit(polys@),
    ensures
        out@ == multipolygon(polys@),
{
    let mut out: Vec<u8> = Vec::new();
    header(&mut out, MULTIPOLYGON);
    bytes::put_u32(&mut out, polys.len() as u32);
    let ghost head = header_bytes(MULTIPOLYGON) + bytes::u32_bytes(polys@.len() as u32);
    let mut i: usize = 0;
    assert(out@ =~= head + polygons_bytes(polys@, 0));
    while i < polys.len()
        invariant
            i <= polys@.len(),
            counts_fit(polys@),
            out@ == head + polygons_bytes(polys@, i as nat),
        decreases polys@.len() - i,
    {
        let poly: &Vec<Vec<Pt>> = &polys[i];
        assert(polys@[i as int]@.len() <= u32::MAX);
        let ghost base = out@;
        let ghost lead = header_bytes(POLYGON) + bytes::u32_bytes(poly@.len() as u32);
        header(&mut out, POLYGON);
        bytes::put_u32(&mut out, poly.len() as u32);
        let mut j: usize = 0;
        assert(out@ =~= base + (lead + rings_bytes(poly@, 0)));
        while j < poly.len()
            invariant
                j <= poly@.len(),
                i < polys@.len(),
                *poly == polys@[i as int],
                counts_fit(polys@),
                out@ == base + (lead + rings_bytes(poly@, j as nat)),
            decreases poly@.len() - j,
        {
            assert(polys@[i as int]@[j as int]@.len() <= u32::MAX);
            let ghost before = rings_bytes(poly@, j as nat);
            ring_bytes(&mut out, poly[j].as_slice());
            assert(out@ =~= base + (lead + (before + list_bytes(poly@[j as int]@))));
            j = j + 1;
        }
        let ghost before = polygons_bytes(polys@, i as nat);
        assert(out@ =~= head + (before + polygon_bytes(poly@)));
        i = i + 1;
    }
    out
}

/// The points that stand at `at`, `n` of them.
pub open spec fn points_at(b: Seq<u8>, at: int, n: nat) -> Seq<Pt> {
    Seq::new(
        n,
        |i: int| Pt { x: bytes::le_u64(b, at + 16 * i) as u64, y: bytes::le_u64(b, at + 16 * i + 8) as u64 },
    )
}

/// The list of points that starts at `at` with its count, and where it ends.
pub open spec fn list_at(b: Seq<u8>, at: int) -> (Seq<Pt>, int) {
    let n = bytes::le_u32(b, at) as nat;
    (points_at(b, at + 4, n), at + 4 + 16 * n)
}

/// The first `n` rings from `at` on, in the order they stand in, and where they end.
pub open spec fn rings_at(b: Seq<u8>, at: int, n: nat) -> (Seq<Seq<Pt>>, int)
    decreases n,
{
    if n == 0 {
        (Seq::empty(), at)
    } else {
        let (earlier, next) = rings_at(b, at, (n - 1) as nat);
        (earlier.push(list_at(b, next).0), list_at(b, next).1)
    }
}

/// The first `n` polygons from `at` on, in the order they stand in, and where they end.
/// `None` where one does not start as a polygon does.
pub open spec fn polygons_at(b: Seq<u8>, at: int, n: nat) -> Option<(Seq<Seq<Seq<Pt>>>, int)>
    decreases n,
{
    if n == 0 {
        Some((Seq::empty(), at))
    } else {
        match polygons_at(b, at, (n - 1) as nat) {
            None => None,
            Some((earlier, next)) => if b[next] == 1 && bytes::le_u32(b, next + 1) == 3 {
                let (rings, end) = rings_at(b, next + 9, bytes::le_u32(b, next + 5) as nat);
                Some((earlier.push(rings), end))
            } else {
                None
            },
        }
    }
}

/// The polygons that some bytes hold, where they hold polygons and nothing else.
pub open spec fn polygons_in(b: Seq<u8>) -> Option<Seq<Seq<Seq<Pt>>>> {
    if b[0] == 1 && bytes::le_u32(b, 1) == 6 {
        match polygons_at(b, 9, bytes::le_u32(b, 5) as nat) {
            Some((polys, end)) => if end == b.len() {
                Some(polys)
            } else {
                None
            },
            None => None,
        }
    } else {
        None
    }
}

/// The line that some bytes hold, where they hold a line and nothing else.
pub open spec fn line_in(b: Seq<u8>) -> Option<Seq<Pt>> {
    if b[0] == 1 && bytes::le_u32(b, 1) == 2 && list_at(b, 5).1 == b.len() {
        Some(list_at(b, 5).0)
    } else {
        None
    }
}

/// Whether `part` stands at `at`.
spec fn stands(b: Seq<u8>, at: int, part: Seq<u8>) -> bool {
    &&& 0 <= at
    &&& at + part.len() <= b.len()
    &&& b.subrange(at, at + part.len()) == part
}

proof fn lemma_split(b: Seq<u8>, at: int, p: Seq<u8>, q: Seq<u8>)
    requires
        stands(b, at, p + q),
    ensures
        stands(b, at, p),
        stands(b, at + p.len(), q),
{
    let whole = b.subrange(at, at + (p + q).len());
    assert(b.subrange(at, at + p.len()) =~= whole.subrange(0, p.len() as int));
    assert(whole.subrange(0, p.len() as int) =~= p);
    assert(b.subrange(at + p.len(), at + p.len() + q.len()) =~= whole.subrange(
        p.len() as int,
        (p + q).len() as int,
    ));
    assert(whole.subrange(p.len() as int, (p + q).len() as int) =~= q);
}

proof fn lemma_points_read(b: Seq<u8>, at: int, pts: Seq<Pt>, n: nat)
    requires
        n <= pts.len(),
        stands(b, at, point_bytes(pts, n)),
    ensures
        points_at(b, at, n) == pts.take(n as int),
    decreases n,
{
    lemma_point_len(pts, n);
    if n == 0 {
        assert(points_at(b, at, 0) =~= pts.take(0));
    } else {
        let m = (n - 1) as nat;
        let p = pts[n - 1];
        lemma_point_len(pts, m);
        let front = point_bytes(pts, m);
        assert(point_bytes(pts, n) =~= front + (bytes::u64_bytes(p.x) + bytes::u64_bytes(p.y)));
        lemma_split(b, at, front, bytes::u64_bytes(p.x) + bytes::u64_bytes(p.y));
        lemma_split(b, at + 16 * m, bytes::u64_bytes(p.x), bytes::u64_bytes(p.y));
        bytes::law_u64_survives(b, at + 16 * m, p.x);
        bytes::law_u64_survives(b, at + 16 * m + 8, p.y);
        lemma_points_read(b, at, pts, m);
        assert(points_at(b, at, n) =~= points_at(b, at, m).push(p));
        assert(pts.take(n as int) =~= pts.take(m as int).push(p));
    }
}

proof fn lemma_list_reads(b: Seq<u8>, at: int, pts: Seq<Pt>)
    requires
        pts.len() <= u32::MAX,
        stands(b, at, list_bytes(pts)),
    ensures
        list_at(b, at) == (pts, at + list_bytes(pts).len()),
{
    lemma_point_len(pts, pts.len());
    lemma_split(b, at, bytes::u32_bytes(pts.len() as u32), point_bytes(pts, pts.len()));
    bytes::law_u32_survives(b, at, pts.len() as u32);
    lemma_points_read(b, at + 4, pts, pts.len());
    assert(pts.take(pts.len() as int) =~= pts);
}

/// The rings of a polygon as plain values.
pub open spec fn ring_lists(rings: Seq<Vec<Pt>>) -> Seq<Seq<Pt>> {
    Seq::new(rings.len(), |j: int| rings[j]@)
}

/// Polygons as plain values: of the `i`-th one, the `j`-th ring.
pub open spec fn shapes(polys: Seq<Vec<Vec<Pt>>>) -> Seq<Seq<Seq<Pt>>> {
    Seq::new(polys.len(), |i: int| ring_lists(polys[i]@))
}

proof fn lemma_rings_read(b: Seq<u8>, at: int, rings: Seq<Vec<Pt>>, n: nat)
    requires
        n <= rings.len(),
        forall|j: int| 0 <= j < rings.len() ==> (#[trigger] rings[j])@.len() <= u32::MAX,
        stands(b, at, rings_bytes(rings, n)),
    ensures
        rings_at(b, at, n) == (ring_lists(rings).take(n as int), at + rings_bytes(rings, n).len()),
    decreases n,
{
    if n == 0 {
        assert(ring_lists(rings).take(0) =~= Seq::<Seq<Pt>>::empty());
    } else {
        let m = (n - 1) as nat;
        assert(rings[n - 1]@.len() <= u32::MAX);
        lemma_split(b, at, rings_bytes(rings, m), list_bytes(rings[n - 1]@));
        lemma_rings_read(b, at, rings, m);
        lemma_list_reads(b, at + rings_bytes(rings, m).len(), rings[n - 1]@);
        assert(ring_lists(rings).take(n as int) =~= ring_lists(rings).take(m as int).push(rings[n - 1]@));
    }
}

proof fn lemma_head_reads(b: Seq<u8>, at: int, kind: u32)
    requires
        stands(b, at, header_bytes(kind)),
    ensures
        b[at] == 1,
        bytes::le_u32(b, at + 1) == kind,
{
    lemma_split(b, at, seq![1u8], bytes::u32_bytes(kind));
    assert(b.subrange(at, at + 1)[0] == 1u8);
    bytes::law_u32_survives(b, at + 1, kind);
}

#[verifier::spinoff_prover]
#[verifier::rlimit(40)]
proof fn lemma_polygons_read(b: Seq<u8>, at: int, polys: Seq<Vec<Vec<Pt>>>, n: nat)
    requires
        n <= polys.len(),
        counts_fit(polys),
        stands(b, at, polygons_bytes(polys, n)),
    ensures
        polygons_at(b, at, n) == Some((shapes(polys).take(n as int), at + polygons_bytes(polys, n).len())),
    decreases n,
{
    if n == 0 {
        assert(shapes(polys).take(0) =~= Seq::<Seq<Seq<Pt>>>::empty());
    } else {
        let m = (n - 1) as nat;
        let poly = polys[n - 1]@;
        let before = polygons_bytes(polys, m);
        let next = at + before.len();
        let head = header_bytes(POLYGON);
        let count = bytes::u32_bytes(poly.len() as u32);
        let body = rings_bytes(poly, poly.len());
        assert(poly.len() <= u32::MAX);
        assert forall|j: int| 0 <= j < poly.len() implies (#[trigger] poly[j])@.len() <= u32::MAX by {
            assert(polys[n - 1]@[j]@.len() <= u32::MAX);
        }
        lemma_split(b, at, before, polygon_bytes(poly));
        lemma_split(b, next, head + count, body);
        lemma_split(b, next, head, count);
        lemma_head_reads(b, next, POLYGON);
        bytes::law_u32_survives(b, next + 5, poly.len() as u32);
        lemma_polygons_read(b, at, polys, m);
        lemma_rings_read(b, next + 9, poly, poly.len());
        assert(ring_lists(poly).take(poly.len() as int) =~= ring_lists(poly));
        assert(shapes(polys).take(n as int) =~= shapes(polys).take(m as int).push(ring_lists(poly)));
    }
}

proof fn lemma_start_reads(polys: Seq<Vec<Vec<Pt>>>)
    requires
        polys.len() <= u32::MAX,
    ensures
        ({
            let b = multipolygon(polys);
            &&& b[0] == 1
            &&& bytes::le_u32(b, 1) == MULTIPOLYGON
            &&& bytes::le_u32(b, 5) == polys.len()
            &&& b.len() == 9 + polygons_bytes(polys, polys.len()).len()
            &&& stands(b, 9, polygons_bytes(polys, polys.len()))
        }),
{
    let b = multipolygon(polys);
    let head = header_bytes(MULTIPOLYGON);
    let count = bytes::u32_bytes(polys.len() as u32);
    let body = polygons_bytes(polys, polys.len());
    assert(b.subrange(0, b.len() as int) =~= b);
    lemma_split(b, 0, head + count, body);
    lemma_split(b, 0, head, count);
    lemma_head_reads(b, 0, MULTIPOLYGON);
    bytes::law_u32_survives(b, 5, polys.len() as u32);
}

/// **Polygons read back as they were written.** Read in the order of the bytes, the
/// polygons, the rings of each and the points of each ring are those that were written:
/// the ring that stands first in a polygon is its outer ring.
#[verifier::spinoff_prover]
#[verifier::rlimit(40)]
pub proof fn law_polygons_read_back(polys: Seq<Vec<Vec<Pt>>>)
    requires
        counts_fit(polys),
    ensures
        polygons_in(multipolygon(polys)) == Some(shapes(polys)),
{
    let b = multipolygon(polys);
    let n = polys.len();
    lemma_start_reads(polys);
    lemma_polygons_read(b, 9, polys, n);
    let all = shapes(polys);
    let read = all.take(n as int);
    assert(read =~= all);
    assert(polygons_at(b, 9, n) == Some((all, b.len() as int)));
    assert(bytes::le_u32(b, 5) as nat == n);
    assert(polygons_in(b) == Some(all));
}

/// **A line reads back as it was written**: its points, in their order.
pub proof fn law_lines_read_back(pts: Seq<Pt>)
    requires
        pts.len() <= u32::MAX,
    ensures
        line_in(linestring(pts)) == Some(pts),
{
    let b = linestring(pts);
    assert(b.subrange(0, b.len() as int) =~= b);
    lemma_split(b, 0, header_bytes(LINESTRING), list_bytes(pts));
    lemma_head_reads(b, 0, LINESTRING);
    lemma_list_reads(b, 5, pts);
}

} // verus!
