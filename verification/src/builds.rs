//! The archives in a directory: which builds they belong to, and the order in which
//! the layers of a build are drawn.

use crate::config;
use crate::names;
use crate::text;
use crate::tuning;
use vstd::prelude::*;

verus! {

/// The build that a file belongs to, if it is an archive of one.
pub open spec fn build_of(file: Seq<char>) -> Option<Seq<char>> {
    match config::archive_parts(file) {
        Some(p) => Some(p.0),
        None => None,
    }
}

/// The layer that an archive holds.
pub open spec fn layer_of(file: Seq<char>) -> Seq<char> {
    match config::archive_parts(file) {
        Some(p) => p.1,
        None => Seq::empty(),
    }
}

/// Whether a file is the archive of a layer of a build that is drawn at a place.
pub open spec fn drawn_at(file: Seq<char>, build: Seq<char>, at: int) -> bool {
    match config::archive_parts(file) {
        Some(p) => p.0 == build && tuning::draw_order(p.1) == at,
        None => false,
    }
}

/// The builds that a directory of archives holds: their names in order, each once.
/// Files that are no archives of a build are passed over.
pub fn builds(files: &Vec<String>) -> (out: Vec<String>)
    ensures
        names::strictly_ascending(text::texts(out@)),
        forall|b: Seq<char>|
            text::texts(out@).contains(b) <==> exists|i: int|
                0 <= i < files@.len() && build_of(#[trigger] files@[i]@) == Some(b),
{
    let mut list: Vec<String> = Vec::new();
    let mut i: usize = 0;
    while i < files.len()
        invariant
            i <= files@.len(),
            forall|b: Seq<char>|
                text::texts(list@).contains(b) <==> exists|j: int|
                    0 <= j < i && build_of(#[trigger] files@[j]@) == Some(b),
        decreases files@.len() - i,
    {
        let ghost before = text::texts(list@);
        match config::split_archive_name(files[i].as_str()) {
            Some((build, _layer)) => {
                let ghost name = build@;
                list.push(build);
                proof {
                    let t = text::texts(list@);
                    assert(t =~= before.push(name));
                    assert forall|b: Seq<char>|
                        t.contains(b) <==> exists|j: int|
                            0 <= j < i + 1 && build_of(#[trigger] files@[j]@) == Some(b) by {
                        if before.contains(b) {
                            let k = choose|k: int| 0 <= k < before.len() && before[k] == b;
                            assert(t[k] == b);
                        }
                        assert(t[before.len() as int] == name);
                        assert(build_of(files@[i as int]@) == Some(name));
                        if t.contains(b) && b != name {
                            let k = choose|k: int| 0 <= k < t.len() && t[k] == b;
                            assert(before[k] == b);
                        }
                    }
                }
            },
            None => {
                assert(build_of(files@[i as int]@) is None);
            },
        }
        i = i + 1;
    }
    names::distinct(list)
}

/// Among the first `n` files, the archives of a build that are drawn at a place.
pub open spec fn members(files: Seq<String>, build: Seq<char>, at: int, n: nat) -> Seq<usize>
    decreases n,
{
    if n == 0 {
        Seq::empty()
    } else if drawn_at(files[n - 1]@, build, at) {
        members(files, build, at, (n - 1) as nat).push((n - 1) as usize)
    } else {
        members(files, build, at, (n - 1) as nat)
    }
}

/// The archives of a build that are drawn before a place, in the order they are
/// drawn in.
pub open spec fn drawn_before(files: Seq<String>, build: Seq<char>, at: nat) -> Seq<usize>
    decreases at,
{
    if at == 0 {
        Seq::empty()
    } else {
        drawn_before(files, build, (at - 1) as nat) + members(files, build, at - 1, files.len())
    }
}

/// The archives of a build in the order they are drawn in.
pub open spec fn in_draw_order(files: Seq<String>, build: Seq<char>) -> Seq<usize> {
    drawn_before(files, build, 7)
}

/// The place at which a file is drawn among the layers of a build.
fn draw_place(file: &str, build: &str) -> (r: Option<u64>)
    ensures
        match r {
            Some(at) => drawn_at(file@, build@, at as int),
            None => forall|at: int| !drawn_at(file@, build@, at),
        },
{
    match config::split_archive_name(file) {
        Some((owner, layer)) => {
            if text::same(owner.as_str(), build) {
                Some(tuning::draws_at(layer.as_str()))
            } else {
                None
            }
        },
        None => None,
    }
}

/// Finds the archives of a build: where they are in the list of files, in the order
/// they are drawn in.
pub fn layers_of(files: &Vec<String>, build: &str) -> (out: Vec<usize>)
    ensures
        out@ == in_draw_order(files@, build@),
{
    let mut out: Vec<usize> = Vec::new();
    let mut at: u64 = 0;
    while at < 7
        invariant
            at <= 7,
            out@ == drawn_before(files@, build@, at as nat),
        decreases 7 - at,
    {
        let ghost before = out@;
        let mut i: usize = 0;
        assert(out@ =~= before + members(files@, build@, at as int, 0));
        while i < files.len()
            invariant
                i <= files@.len(),
                out@ == before + members(files@, build@, at as int, i as nat),
            decreases files@.len() - i,
        {
            let ghost so_far = out@;
            let place: Option<u64> = draw_place(files[i].as_str(), build);
            let here: bool = match place {
                Some(p) => p == at,
                None => false,
            };
            assert(here == drawn_at(files@[i as int]@, build@, at as int));
            if here {
                out.push(i);
                assert(out@ =~= before + members(files@, build@, at as int, (i + 1) as nat));
            }
            i = i + 1;
        }
        at = at + 1;
    }
    out
}

proof fn lemma_members(files: Seq<String>, build: Seq<char>, at: int, n: nat)
    requires
        n <= files.len(),
        files.len() <= usize::MAX,
    ensures
        forall|k: int|
            0 <= k < members(files, build, at, n).len() ==> {
                let i = #[trigger] members(files, build, at, n)[k];
                i < n && drawn_at(files[i as int]@, build, at)
            },
        forall|i: int|
            0 <= i < n && drawn_at(#[trigger] files[i]@, build, at) ==> members(files, build, at, n).contains(i as usize),
    decreases n,
{
    if n > 0 {
        lemma_members(files, build, at, (n - 1) as nat);
        let shorter = members(files, build, at, (n - 1) as nat);
        let longer = members(files, build, at, n);
        assert forall|i: int| 0 <= i < n && drawn_at(#[trigger] files[i]@, build, at) implies longer.contains(i as usize) by {
            if i == n - 1 {
                assert(longer[longer.len() - 1] == i as usize);
            } else {
                let k = choose|k: int| 0 <= k < shorter.len() && shorter[k] == i as usize;
                assert(longer[k] == i as usize);
            }
        }
    }
}

proof fn lemma_drawn(files: Seq<String>, build: Seq<char>, at: nat)
    requires
        files.len() <= usize::MAX,
    ensures
        forall|k: int|
            0 <= k < drawn_before(files, build, at).len() ==> {
                let i = #[trigger] drawn_before(files, build, at)[k];
                i < files.len() && exists|p: int| 0 <= p < at && drawn_at(files[i as int]@, build, p)
            },
        forall|i: int, p: int|
            0 <= i < files.len() && 0 <= p < at && #[trigger] drawn_at(files[i]@, build, p) ==> drawn_before(
                files,
                build,
                at,
            ).contains(i as usize),
        forall|j: int, k: int, p: int, q: int|
            0 <= j < k < drawn_before(files, build, at).len() && #[trigger] drawn_at(
                files[drawn_before(files, build, at)[j] as int]@,
                build,
                p,
            ) && #[trigger] drawn_at(files[drawn_before(files, build, at)[k] as int]@, build, q) ==> p <= q,
    decreases at,
{
    if at > 0 {
        lemma_drawn(files, build, (at - 1) as nat);
        lemma_members(files, build, at - 1, files.len());
        let shorter = drawn_before(files, build, (at - 1) as nat);
        let new = members(files, build, at - 1, files.len());
        let longer = drawn_before(files, build, at);
        assert(longer == shorter + new);
        assert forall|k: int| 0 <= k < longer.len() implies {
            let i = #[trigger] longer[k];
            i < files.len() && exists|p: int| 0 <= p < at && drawn_at(files[i as int]@, build, p)
        } by {
            if k < shorter.len() {
                assert(longer[k] == shorter[k]);
            } else {
                assert(longer[k] == new[k - shorter.len()]);
                assert(drawn_at(files[longer[k] as int]@, build, at - 1));
            }
        }
        assert forall|i: int, p: int|
            0 <= i < files.len() && 0 <= p < at && #[trigger] drawn_at(files[i]@, build, p) implies longer.contains(
            i as usize,
        ) by {
            if p < at - 1 {
                let k = choose|k: int| 0 <= k < shorter.len() && shorter[k] == i as usize;
                assert(longer[k] == i as usize);
            } else {
                let k = choose|k: int| 0 <= k < new.len() && new[k] == i as usize;
                assert(longer[shorter.len() + k] == i as usize);
            }
        }
        assert forall|j: int, k: int, p: int, q: int|
            0 <= j < k < longer.len() && #[trigger] drawn_at(files[longer[j] as int]@, build, p) && #[trigger] drawn_at(
                files[longer[k] as int]@,
                build,
                q,
            ) implies p <= q by {
            if k < shorter.len() {
                assert(longer[j] == shorter[j] && longer[k] == shorter[k]);
            } else {
                assert(longer[k] == new[k - shorter.len()]);
                assert(drawn_at(files[longer[k] as int]@, build, at - 1));
                assert(q == at - 1);
                if j < shorter.len() {
                    assert(longer[j] == shorter[j]);
                } else {
                    assert(longer[j] == new[j - shorter.len()]);
                }
            }
        }
    }
}

/// Every layer of a build is found, nothing else is, and a layer that is drawn under
/// another one comes before it.
pub proof fn law_layers_come_in_draw_order(files: Seq<String>, build: Seq<char>)
    requires
        files.len() <= usize::MAX,
    ensures
        forall|i: int|
            0 <= i < files.len() ==> (build_of(#[trigger] files[i]@) == Some(build) <==> in_draw_order(
                files,
                build,
            ).contains(i as usize)),
        forall|j: int, k: int|
            0 <= j < k < in_draw_order(files, build).len() ==> tuning::draw_order(
                layer_of(files[#[trigger] in_draw_order(files, build)[j] as int]@),
            ) <= tuning::draw_order(
                layer_of(files[#[trigger] in_draw_order(files, build)[k] as int]@),
            ),
{
    let all = in_draw_order(files, build);
    lemma_drawn(files, build, 7);
    assert forall|i: int| 0 <= i < files.len() implies (build_of(#[trigger] files[i]@) == Some(build)
        <==> all.contains(i as usize)) by {
        if build_of(files[i]@) == Some(build) {
            let p = tuning::draw_order(layer_of(files[i]@));
            assert(drawn_at(files[i]@, build, p));
        }
        if all.contains(i as usize) {
            let k = choose|k: int| 0 <= k < all.len() && all[k] == i as usize;
            assert(all[k] < files.len());
        }
    }
    assert forall|j: int, k: int| 0 <= j < k < all.len() implies tuning::draw_order(
        layer_of(files[#[trigger] all[j] as int]@),
    ) <= tuning::draw_order(layer_of(files[#[trigger] all[k] as int]@)) by {
        let p = tuning::draw_order(layer_of(files[all[j] as int]@));
        let q = tuning::draw_order(layer_of(files[all[k] as int]@));
        assert(drawn_at(files[all[j] as int]@, build, p));
        assert(drawn_at(files[all[k] as int]@, build, q));
    }
}

/// What is found of a build are archives of it.
pub proof fn law_layers_are_files(files: Seq<String>, build: Seq<char>)
    requires
        files.len() <= usize::MAX,
    ensures
        forall|k: int|
            0 <= k < in_draw_order(files, build).len() ==> (#[trigger] in_draw_order(files, build)[k]) < files.len()
                && build_of(files[in_draw_order(files, build)[k] as int]@) == Some(build),
{
    lemma_drawn(files, build, 7);
}

proof fn lemma_members_ascend(files: Seq<String>, build: Seq<char>, at: int, n: nat)
    requires
        n <= files.len(),
        files.len() <= usize::MAX,
    ensures
        forall|j: int, k: int|
            0 <= j < k < members(files, build, at, n).len() ==> members(files, build, at, n)[j] < members(
                files,
                build,
                at,
                n,
            )[k],
    decreases n,
{
    if n > 0 {
        lemma_members_ascend(files, build, at, (n - 1) as nat);
        lemma_members(files, build, at, (n - 1) as nat);
        let shorter = members(files, build, at, (n - 1) as nat);
        let longer = members(files, build, at, n);
        assert forall|j: int, k: int| 0 <= j < k < longer.len() implies longer[j] < longer[k] by {
            assert(longer[j] == shorter[j]);
            assert(shorter[j] < n - 1);
            if k < shorter.len() {
                assert(longer[k] == shorter[k]);
            }
        }
    }
}

proof fn lemma_drawn_once(files: Seq<String>, build: Seq<char>, at: nat)
    requires
        files.len() <= usize::MAX,
    ensures
        forall|j: int, k: int|
            0 <= j < k < drawn_before(files, build, at).len() ==> drawn_before(files, build, at)[j] != drawn_before(
                files,
                build,
                at,
            )[k] && (layer_of(files[drawn_before(files, build, at)[j] as int]@) == layer_of(
                files[drawn_before(files, build, at)[k] as int]@,
            ) ==> drawn_before(files, build, at)[j] < drawn_before(files, build, at)[k]),
    decreases at,
{
    if at > 0 {
        lemma_drawn_once(files, build, (at - 1) as nat);
        lemma_drawn(files, build, (at - 1) as nat);
        lemma_members(files, build, at - 1, files.len());
        lemma_members_ascend(files, build, at - 1, files.len());
        let shorter = drawn_before(files, build, (at - 1) as nat);
        let new = members(files, build, at - 1, files.len());
        let longer = drawn_before(files, build, at);
        assert forall|j: int, k: int| 0 <= j < k < longer.len() implies longer[j] != longer[k] && (layer_of(
            files[longer[j] as int]@,
        ) == layer_of(files[longer[k] as int]@) ==> longer[j] < longer[k]) by {
            if k < shorter.len() {
                assert(longer[j] == shorter[j] && longer[k] == shorter[k]);
            } else {
                assert(longer[k] == new[k - shorter.len()]);
                assert(drawn_at(files[longer[k] as int]@, build, at - 1));
                if j < shorter.len() {
                    assert(longer[j] == shorter[j]);
                    let p = choose|p: int| 0 <= p < at - 1 && drawn_at(files[shorter[j] as int]@, build, p);
                    assert(drawn_at(files[longer[j] as int]@, build, p));
                } else {
                    assert(longer[j] == new[j - shorter.len()]);
                }
            }
        }
    }
}

/// **No archive is drawn twice**, and two of the same layer are drawn in the order they
/// were found in.
pub proof fn law_no_archive_is_drawn_twice(files: Seq<String>, build: Seq<char>, j: int, k: int)
    requires
        files.len() <= usize::MAX,
        0 <= j < k < in_draw_order(files, build).len(),
    ensures
        in_draw_order(files, build)[j] != in_draw_order(files, build)[k],
        layer_of(files[in_draw_order(files, build)[j] as int]@) == layer_of(
            files[in_draw_order(files, build)[k] as int]@,
        ) ==> in_draw_order(files, build)[j] < in_draw_order(files, build)[k],
{
    lemma_drawn_once(files, build, 7);
}

/// **Of two layers of a build the one that lies lower comes first**: land, land use,
/// water, roads, buildings, labels, and whatever has another name.
pub proof fn law_lower_layers_come_first(files: Seq<String>, build: Seq<char>, j: int, k: int, below: Seq<char>, above: Seq<char>)
    requires
        files.len() <= usize::MAX,
        0 <= j < in_draw_order(files, build).len(),
        0 <= k < in_draw_order(files, build).len(),
        layer_of(files[in_draw_order(files, build)[j] as int]@) == below,
        layer_of(files[in_draw_order(files, build)[k] as int]@) == above,
        (below == "land"@ && above == "landuse"@) || (below == "landuse"@ && above == "water"@) || (below == "water"@
            && above == "roads"@) || (below == "roads"@ && above == "buildings"@) || (below == "buildings"@ && above
            == "places"@),
    ensures
        j < k,
{
    law_layers_come_in_draw_order(files, build);
    tuning::law_labels_go_over_everything(above);
    let all = in_draw_order(files, build);
    if k < j {
        assert(tuning::draw_order(layer_of(files[all[k] as int]@)) <= tuning::draw_order(
            layer_of(files[all[j] as int]@),
        ));
    }
}

} // verus!
