//! Packing tiles into archives, one per layer: which layers there are, what an
//! archive says of itself, and the order of its tiles.

use crate::archive;
use crate::directory;
use crate::hilbert;
use crate::text;
use crate::tuning;
use std::io::Write;
use vstd::prelude::*;

verus! {

/// The layers of the map among those that have tiles, in draw order.
pub open spec fn layers_present(present: Seq<Seq<char>>) -> Seq<Seq<char>> {
    tuning::layers().filter(|l: Seq<char>| present.contains(l))
}

/// The layers that get an archive: those that have tiles, in draw order. A layer with
/// nothing in it gets none, which is how a viewer learns that it is absent.
pub fn layers(present: &Vec<String>) -> (out: Vec<&'static str>)
    ensures
        text::strs(out@) == layers_present(text::texts(present@)),
{
    let names: [&'static str; 6] = tuning::LAYERS;
    let mut out: Vec<&'static str> = Vec::new();
    let mut i: usize = 0;
    let ghost have = text::texts(present@);
    let ghost wanted = |l: Seq<char>| have.contains(l);
    proof {
        reveal(Seq::filter);
        assert(tuning::layers().take(0) =~= Seq::<Seq<char>>::empty());
        assert(text::strs(out@) =~= tuning::layers().take(0).filter(wanted));
        assert(text::strs(names@) =~= tuning::layers());
    }
    while i < 6
        invariant
            i <= 6,
            have == text::texts(present@),
            text::strs(names@) == tuning::layers(),
            wanted == (|l: Seq<char>| have.contains(l)),
            text::strs(out@) == tuning::layers().take(i as int).filter(wanted),
        decreases 6 - i,
    {
        let ghost before = out@;
        proof {
            reveal(Seq::filter);
            assert(names@[i as int]@ == text::strs(names@)[i as int]);
            assert(tuning::layers().take(i + 1).drop_last() =~= tuning::layers().take(i as int));
            assert(tuning::layers().take(i + 1).last() == tuning::layers()[i as int]);
        }
        if text::listed(present, names[i]) {
            out.push(names[i]);
            assert(text::strs(out@) =~= text::strs(before).push(names@[i as int]@));
        }
        i = i + 1;
    }
    assert(tuning::layers().take(6) =~= tuning::layers());
    out
}

/// Whether a file is an archive of a layer that is not in the build.
pub open spec fn is_stale(file: Seq<char>, layers: Seq<Seq<char>>) -> bool {
    match text::before(file, ".pmtiles"@) {
        Some(stem) => !layers.contains(stem),
        None => false,
    }
}

/// Whether a file is left over from a build with more layers: it would be served
/// along with the others.
pub fn stale(file: &str, layers: &Vec<&str>) -> (r: bool)
    ensures
        r == is_stale(file@, text::strs(layers@)),
{
    match text::strip_suffix(file, ".pmtiles") {
        Some(stem) => {
            let mut i: usize = 0;
            while i < layers.len()
                invariant
                    i <= layers@.len(),
                    text::before(file@, ".pmtiles"@) == Some(stem@),
                    forall|j: int| 0 <= j < i ==> text::strs(layers@)[j] != stem@,
                decreases layers@.len() - i,
            {
                if text::same(layers[i], stem.as_str()) {
                    assert(text::strs(layers@)[i as int] == stem@);
                    return false;
                }
                i = i + 1;
            }
            true
        },
        None => false,
    }
}

/// The start of what an archive says of itself, up to the name of its layer.
pub const METADATA: &'static str = "{\"attribution\":\"© OpenStreetMap contributors\",\"layer\":\"";

/// What an archive says of itself: its layer, and the zoom levels that the layer has.
pub open spec fn metadata_of(layer: Seq<char>, rungs: Seq<u8>) -> Seq<char> {
    METADATA@ + layer + "\",\"rungs\":["@ + text::joined(tuning::numbers(rungs), ","@) + "]}"@
}

/// What an archive says of itself.
pub fn metadata(layer: &str, rungs: &Vec<u8>) -> (out: String)
    ensures
        out@ == metadata_of(layer@, rungs@),
{
    let mut out: String = METADATA.to_owned();
    out.push_str(layer);
    out.push_str("\",\"rungs\":[");
    let list: String = tuning::csv(rungs.as_slice());
    out.push_str(list.as_str());
    out.push_str("]}");
    out
}

/// The widest and the deepest zoom level of a layer, from its levels in order.
pub fn zoom_range(rungs: &Vec<u8>) -> (r: Option<(u8, u8)>)
    ensures
        r == (if rungs@.len() == 0 {
            None
        } else {
            Some((rungs@[0], rungs@.last()))
        }),
{
    if rungs.len() == 0 {
        None
    } else {
        Some((rungs[0], rungs[rungs.len() - 1]))
    }
}

/// `std::io::Error`.
#[verifier::external_type_specification]
#[verifier::external_body]
pub struct ExIoError(std::io::Error);

/// Whether `flate2::write::GzEncoder` gets through some bytes. Memory takes whatever is
/// written to it, so only the codec could fail.
pub uninterp spec fn deflates(raw: Seq<u8>) -> bool;

/// Compresses with `flate2::write::GzEncoder` at `flate2::Compression::best`, into
/// memory. Claimed: whether it succeeds follows from the bytes alone, and what it gives
/// inflates to what was compressed. Which bytes they are is left unsaid, for the codecs
/// behind it need not agree.
#[verifier::external_body]
fn gzip(raw: &[u8]) -> (r: Result<Vec<u8>, std::io::Error>)
    ensures
        r is Ok <==> deflates(raw@),
        r matches Ok(out) ==> archive::inflated(out@) == Some(raw@),
{
    let mut encoder = flate2::write::GzEncoder::new(Vec::new(), flate2::Compression::best());
    encoder.write_all(raw)?;
    encoder.finish()
}

/// A tile as it is stored: compressed as well as can be, for a tile is compressed once
/// and served ever after. What is served inflates to what was baked.
pub fn compress(tile: &[u8]) -> (r: Option<Vec<u8>>)
    ensures
        r is Some <==> deflates(tile@),
        r matches Some(out) ==> archive::inflated(out@) == Some(tile@),
{
    match gzip(tile) {
        Ok(out) => Some(out),
        Err(_) => None,
    }
}

/// Whether there is such a tile.
pub open spec fn is_tile(z: u8, x: u32, y: u32) -> bool {
    z <= 31 && hilbert::on_grid(z as nat, x as int, y as int)
}

/// `pmtiles::TileCoord::new` and the id it turns into: there is one for every tile of
/// the levels from 0 to 31, and for nothing else. Ids count the tiles of all levels
/// above, and then along the curve through their own level.
#[verifier::external_body]
fn archive_id(z: u8, x: u32, y: u32) -> (r: Option<u64>)
    ensures
        r is Some <==> is_tile(z, x, y),
        r is Some ==> r->0 == directory::id_of(z as nat, x as int, y as int),
{
    let coord: pmtiles::TileCoord = pmtiles::TileCoord::new(z, x, y).ok()?;
    Some(pmtiles::TileId::from(coord).value())
}

/// A tile's place on the map.
#[derive(Clone, Copy, Debug, PartialEq, Eq, Structural)]
pub struct Tile {
    pub z: u8,
    pub x: u32,
    pub y: u32,
}

/// The ids that order the tiles of an archive, or the first tile that is off the map.
pub fn tile_ids(tiles: &Vec<Tile>) -> (r: Result<Vec<u64>, Tile>)
    ensures
        match r {
            Ok(ids) => {
                &&& ids@.len() == tiles@.len()
                &&& forall|i: int|
                    0 <= i < tiles@.len() ==> is_tile((#[trigger] tiles@[i]).z, tiles@[i].x, tiles@[i].y) && ids@[i]
                        == directory::id_of(tiles@[i].z as nat, tiles@[i].x as int, tiles@[i].y as int)
            },
            Err(t) => exists|i: int|
                0 <= i < tiles@.len() && tiles@[i] == t && !is_tile((#[trigger] tiles@[i]).z, t.x, t.y) && forall|j: int|
                    0 <= j < i ==> is_tile((#[trigger] tiles@[j]).z, tiles@[j].x, tiles@[j].y),
        },
{
    let mut ids: Vec<u64> = Vec::new();
    let mut i: usize = 0;
    while i < tiles.len()
        invariant
            i <= tiles@.len(),
            ids@.len() == i,
            forall|j: int|
                0 <= j < i ==> is_tile((#[trigger] tiles@[j]).z, tiles@[j].x, tiles@[j].y) && ids@[j]
                    == directory::id_of(tiles@[j].z as nat, tiles@[j].x as int, tiles@[j].y as int),
        decreases tiles@.len() - i,
    {
        let t: Tile = tiles[i];
        match archive_id(t.z, t.x, t.y) {
            Some(id) => {
                ids.push(id);
            },
            None => {
                return Err(t);
            },
        }
        i = i + 1;
    }
    Ok(ids)
}

/// **An archive is left over exactly where its layer is not in the build**; what is called
/// otherwise is no archive of a layer.
pub proof fn law_what_is_left_over_goes(layer: Seq<char>, file: Seq<char>, layers: Seq<Seq<char>>)
    ensures
        is_stale(layer + ".pmtiles"@, layers) <==> !layers.contains(layer),
        is_stale(file, layers) ==> exists|stem: Seq<char>| #[trigger] (stem + ".pmtiles"@) == file && !layers.contains(stem),
{
    reveal_strlit(".pmtiles");
    let whole = layer + ".pmtiles"@;
    assert(whole.skip(whole.len() - 8) =~= ".pmtiles"@);
    assert(whole.take(whole.len() - 8) =~= layer);
    if let Some(stem) = text::before(file, ".pmtiles"@) {
        assert(stem + ".pmtiles"@ =~= file);
    }
}

/// **A layer gets an archive exactly where it has tiles.**
pub proof fn law_a_layer_with_tiles_gets_an_archive(present: Seq<Seq<char>>, layer: Seq<char>)
    ensures
        layers_present(present).contains(layer) <==> tuning::layers().contains(layer) && present.contains(layer),
{
    let wanted = |l: Seq<char>| present.contains(l);
    let all = tuning::layers();
    if all.contains(layer) && present.contains(layer) {
        let i = choose|i: int| 0 <= i < all.len() && all[i] == layer;
        all.lemma_filter_contains(wanted, i);
    }
    if layers_present(present).contains(layer) {
        let k = choose|k: int| 0 <= k < all.filter(wanted).len() && all.filter(wanted)[k] == layer;
        all.lemma_filter_pred(wanted, k);
        all.lemma_filter_contains_rev(wanted, layer);
    }
}

} // verus!
