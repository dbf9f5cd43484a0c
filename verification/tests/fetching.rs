use minimap::config::{half_of_ram, join, region_name, share_of_ram, split_archive_name, Config, Region, RegionError};
use minimap::download::{
    complete, content_length, dest, elsewhere, europe_urls, extra, failed, land_want, nothing_to_do, outstanding, present,
    range, retry_after, rows, wanted, Action, Index, IndexError, Transfer, UrlError, UrlsError,
};

fn list(words: &[&str]) -> Vec<String> {
    words.iter().map(|s| s.to_string()).collect()
}

#[test]
fn a_run_writes_into_three_directories() {
    let mut cfg = Config::default();
    assert_eq!((cfg.pbf.as_str(), cfg.duckdb.as_str(), cfg.pmtiles.as_str()), ("pbf", "duckdb", "pmtiles"));
    assert_eq!((cfg.memory.as_deref(), cfg.jobs), (None, 3));
    assert_eq!(cfg.land_zip(), "pbf/land-polygons-split-3857.zip");
    assert_eq!(
        cfg.land_shp(),
        "/vsizip/pbf/land-polygons-split-3857.zip/land-polygons-split-3857/land_polygons.shp"
    );
    assert_eq!(cfg.index_json(), "pbf/.geofabrik-index.json");
    assert_eq!(cfg.db(), "duckdb/minimap.duckdb");
    assert_eq!(cfg.tiles_dir(), "pmtiles");
    assert_eq!(cfg.layer_archive("roads"), "pmtiles/roads.pmtiles");
    assert_eq!(dest(&cfg, "picardie"), "pbf/picardie.osm.pbf");
    assert_eq!(cfg.settings(None), list(&["SET temp_directory = 'duckdb/tmp'"]));
    cfg.duckdb = "/mnt/o'neill/".to_string();
    assert_eq!(cfg.db(), "/mnt/o'neill/minimap.duckdb");
    assert_eq!(
        cfg.settings(Some("8000MiB".to_string())),
        list(&["SET memory_limit = '8000MiB'", "SET temp_directory = '/mnt/o''neill/tmp'"])
    );
    cfg.memory = Some("8GB".to_string());
    assert_eq!(cfg.settings(Some("1MiB".to_string()))[0], "SET memory_limit = '8GB'");
    for (dir, name) in [("a", "b"), ("a/", "b"), ("", "b"), ("a", "/b"), ("a", "")] {
        assert_eq!(join(dir, name), std::path::Path::new(dir).join(name).to_str().unwrap());
    }
}

#[test]
fn extracts_are_known_by_name() {
    assert_eq!(region_name("france-latest.osm.pbf").as_deref(), Some("france"));
    assert_eq!(region_name("france.osm.pbf").as_deref(), Some("france"));
    assert_eq!(region_name(".osm.pbf").as_deref(), Some(""));
    assert_eq!(region_name("france.pbf"), None);
}

fn found(name: &str, path: &str) -> Region {
    Region { name: name.to_string(), path: path.to_string() }
}

fn plain(regions: &[Region]) -> Vec<(&str, &str)> {
    regions.iter().map(|r| (r.name.as_str(), r.path.as_str())).collect()
}

#[test]
fn the_extract_where_it_belongs_is_kept() {
    let cfg = Config::default();
    let all = vec![
        found("france", "pbf/countries/france-latest.osm.pbf"),
        found("belgium", "pbf/x/belgium.osm.pbf"),
        found("france", "pbf/france.osm.pbf"),
        found("belgium", "pbf/y/belgium.osm.pbf"),
        found("france", "pbf/france-latest.osm.pbf"),
    ];
    let regions = cfg.extracts(&all);
    assert_eq!(
        plain(&regions),
        vec![("belgium", "pbf/x/belgium.osm.pbf"), ("france", "pbf/france.osm.pbf")]
    );
}

#[test]
fn a_missing_extract_is_an_error() {
    let cfg = Config::default();
    let here = || {
        vec![
        Region { name: "a".to_string(), path: "pbf/a".to_string() },
        Region { name: "b".to_string(), path: "pbf/b".to_string() },
    ]
    };
    assert_eq!(plain(&cfg.regions(&here(), &vec![]).unwrap()), vec![("a", "pbf/a"), ("b", "pbf/b")]);
    assert_eq!(
        plain(&cfg.regions(&here(), &list(&["b", "a", "b"])).unwrap()),
        vec![("b", "pbf/b"), ("a", "pbf/a"), ("b", "pbf/b")]
    );
    let none = cfg.regions(&vec![], &vec![]).unwrap_err();
    assert!(matches!(none, RegionError::Nothing));
    assert_eq!(none.message("pbf"), "no .osm.pbf under pbf -- run `make download` first");
    let gone = cfg.regions(&here(), &list(&["x", "a", "y"])).unwrap_err();
    assert_eq!(
        gone.message("pbf"),
        "not downloaded: x, y -- run `make download REGIONS=\"x y\"`"
    );
}

#[test]
fn memory_is_shared_with_the_database() {
    let meminfo = "MemFree: 5 kB\nMemTotal:       36777216 kB\nMemTotal: 1 kB\n";
    assert_eq!(half_of_ram(meminfo).as_deref(), Some("17957MiB"));
    assert_eq!(share_of_ram(meminfo, 3).as_deref(), Some("11971MiB"));
    assert_eq!(half_of_ram("MemTotal: lots"), None);
    assert_eq!(half_of_ram("MemTotal:"), None);
    assert_eq!(half_of_ram(""), None);
}

#[test]
fn archives_are_named_by_build_and_layer() {
    let parts = |s: &str| split_archive_name(s);
    let pair = |a: &str, b: &str| Some((a.to_string(), b.to_string()));
    assert_eq!(parts("europe.roads.pmtiles"), pair("europe", "roads"));
    assert_eq!(parts("a.b.roads.pmtiles"), pair("a.b", "roads"));
    assert_eq!(parts("roads.pmtiles"), None);
    assert_eq!(parts(".roads.pmtiles"), None);
    assert_eq!(parts("europe..pmtiles"), None);
    assert_eq!(parts("europe.roads.pmtiles.new"), None);
}

const CATALOGUE: &str = "{\"type\":\"x\",\"features\":[
  {\"properties\":{\"id\":\"europe\",\"urls\":{\"pbf\":\"u/europe\"}}},
  {\"properties\":{\"id\":\"france\",\"parent\":\"europe\",\"urls\":{\"pbf\":\"u/france\"}}},
  {\"properties\":{\"id\":\"alps\",\"parent\":\"europe\",\"urls\":{\"pbf\":\"u/alps\"}}},
  {\"properties\":{\"id\":\"andorra\",\"parent\":\"europe\",\"urls\":{\"pbf\":\"u/andorra\"}}},
  {\"properties\":{\"id\":\"nowhere\",\"parent\":\"europe\",\"urls\":{}}},
  {\"properties\":{\"id\":7,\"parent\":\"europe\",\"urls\":{\"pbf\":\"a/unnamed\"}}},
  {\"properties\":{\"id\":\"picardie\",\"parent\":\"france\",\"urls\":{\"pbf\":\"u/picardie\"}}},
  {\"geometry\":null}
]}";

#[test]
fn the_catalogue_resolves_names() {
    let index = Index::load(CATALOGUE).unwrap();
    assert_eq!(index.entries.len(), 6);
    assert_eq!(index.pbf_url("picardie").unwrap(), "u/picardie");
    assert_eq!(index.europe_children(), list(&["andorra", "france"]));
    assert_eq!(europe_urls(CATALOGUE).unwrap(), list(&["a/unnamed", "u/andorra", "u/france"]));

    let none = index.pbf_url("nowhere").unwrap_err();
    assert!(matches!(none, UrlError::NoPbf));
    assert_eq!(none.message("nowhere", "\"nowhere\""), "nowhere has no .osm.pbf");
    let typo = index.pbf_url("pic").unwrap_err();
    assert_eq!(
        typo.message("pic", "\"pic\""),
        "unknown region \"pic\" -- did you mean: picardie"
    );
    let long = index.pbf_url("france-and-andorra").unwrap_err();
    assert_eq!(
        long.message("x", "\"x\""),
        "unknown region \"x\" -- did you mean: france, andorra"
    );
    let far = index.pbf_url("zzz").unwrap_err();
    assert_eq!(
        far.message("zzz", "\"zzz\""),
        "unknown region \"zzz\" -- `make regions` lists them"
    );
}

#[test]
fn a_broken_catalogue_is_told_from_an_empty_one() {
    assert!(matches!(Index::load("{"), Err(IndexError::Malformed(_))));
    assert!(matches!(Index::load("{}"), Err(IndexError::NoFeatures)));
    assert!(matches!(Index::load("{\"features\":7}"), Err(IndexError::NoFeatures)));
    assert_eq!(Index::load("{}").unwrap_err().message(), "no features in the Geofabrik index");
    assert!(matches!(europe_urls("nonsense"), Err(UrlsError::Malformed(_))));
    assert!(matches!(europe_urls("{\"features\":7}"), Err(UrlsError::NoFeatures)));
    assert_eq!(europe_urls("{}").unwrap_err().message(), "no features in Geofabrik index");
    assert_eq!(Index::load("{\"features\":[]}").unwrap().europe_children(), Vec::<String>::new());
}

#[test]
fn a_catalogue_is_read_to_its_end() {
    let entry = |i: usize| format!("{{\"properties\":{{\"id\":\"r{i}\",\"parent\":\"europe\",\"urls\":{{\"pbf\":\"u/{i}\"}}}}}}");
    let all: Vec<String> = (0..120).map(entry).collect();
    let index = Index::load(&format!("{{\"features\":[{}]}}", all.join(","))).unwrap();
    assert_eq!(index.entries.len(), 120);
    for i in 0..120 {
        assert_eq!(index.entries[i].id, format!("r{i}"));
        assert_eq!(index.pbf_url(&format!("r{i}")).unwrap(), format!("u/{i}"));
    }
    // Parts of the wrong shape are parts that are missing.
    let odd = "{\"features\":[{\"properties\":[\"id\"]},{\"properties\":{\"id\":\"x\",\"parent\":null,\"urls\":[\"pbf\"]}},3]}";
    let index = Index::load(odd).unwrap();
    assert_eq!(index.entries.len(), 1);
    assert_eq!((index.entries[0].id.as_str(), index.entries[0].parent.is_none(), index.entries[0].pbf.is_none()), ("x", true, true));
    assert!(matches!(Index::load("{\"features\":{\"0\":{}}}"), Err(IndexError::NoFeatures)));
}

#[test]
fn near_names_stop_at_eight() {
    let many: Vec<String> = (0..20)
        .map(|i| format!("{{\"properties\":{{\"id\":\"region-{i}\"}}}}"))
        .collect();
    let index = Index::load(&format!("{{\"features\":[{}]}}", many.join(","))).unwrap();
    match index.pbf_url("region") {
        Err(UrlError::Unknown(near)) => assert_eq!(near.len(), 8),
        other => panic!("{other:?}"),
    }
}

#[test]
fn what_to_fetch_is_decided_before_anything_is_fetched() {
    assert_eq!(wanted(&list(&["b", "a"]), list(&["c", "a"])), list(&["a", "b", "c"]));
    let have = vec![Region { name: "a".to_string(), path: "old/a".to_string() }];
    assert_eq!(elsewhere(&have, "a", false).as_deref(), Some("old/a"));
    assert_eq!(elsewhere(&have, "a", true), None);
    assert_eq!(elsewhere(&have, "b", false), None);
    assert!(nothing_to_do(0, 0));
    assert!(!nothing_to_do(0, 1));
    assert!(!nothing_to_do(1, 0));
    let land = land_want(&Config::default());
    assert_eq!(land.label, "land polygons");
    assert_eq!(land.dest, "pbf/land-polygons-split-3857.zip");
    assert!(present(Some(1_000_001)));
    assert!(!present(Some(1_000_000)));
    assert!(!present(None));
}

#[test]
fn what_is_here_is_not_fetched() {
    let cfg = Config::default();
    let index = Index::load(CATALOGUE).unwrap();
    let have = vec![found("france", "old/france.osm.pbf")];
    match index.decide(&cfg, &have, "france", false) {
        Action::Adopt(path) => assert_eq!(path, "old/france.osm.pbf"),
        other => panic!("{other:?}"),
    }
    match index.decide(&cfg, &have, "france", true) {
        Action::Fetch(want) => assert_eq!(
            (want.label.as_str(), want.url.as_str(), want.dest.as_str()),
            ("france", "u/france", "pbf/france.osm.pbf")
        ),
        other => panic!("{other:?}"),
    }
    assert!(matches!(index.decide(&cfg, &have, "nowhere", false), Action::Refuse(UrlError::NoPbf)));
    assert!(matches!(index.decide(&cfg, &have, "zzz", false), Action::Refuse(UrlError::Unknown(_))));
}

#[test]
fn transfers_resume_and_notice_when_they_are_cut() {
    assert_eq!(outstanding(Some(10), 4), 6);
    assert_eq!(outstanding(Some(10), 40), 0);
    assert_eq!(outstanding(None, 4), 0);
    assert!(complete(10, Some(10)));
    assert!(!complete(0, Some(0)));
    assert!(!complete(10, None));
    assert_eq!(range(0), None);
    assert_eq!(range(4096).as_deref(), Some("bytes=4096-"));
    assert_eq!(content_length("123"), Some(123));
    assert_eq!(content_length("12x"), None);
    let waits: Vec<_> = (1..=5).map(retry_after).collect();
    assert_eq!(waits, vec![Some(2), Some(4), Some(6), Some(8), None]);

    let mut t = Transfer::answered(206, 100, None, Some(50));
    assert_eq!((t.resumed, t.total, t.done), (true, Some(150), 100));
    t.arrived(40);
    assert_eq!(t.truncated().as_deref(), Some("truncated at 140 B of 150 B"));
    t.arrived(10);
    assert_eq!(t.truncated(), None);
    let over = Transfer::answered(200, 100, None, Some(50));
    assert_eq!((over.resumed, over.total, over.done), (false, Some(50), 0));
    let told = Transfer::answered(206, 100, Some(900), Some(50));
    assert_eq!(told.total, Some(900));
    assert_eq!(Transfer::answered(200, 0, None, None).truncated(), None);
    assert_eq!(
        failed(&list(&["a", "b"]), 5),
        "2 of 5 failed: a, b -- re-run to resume where they stopped"
    );
}

#[test]
fn regions_are_listed_four_to_a_row() {
    let ids = list(&["a", "b", "c", "d", "e"]);
    let lines = rows(&ids, &list(&["b"]));
    let cell = |mark: &str, id: &str| format!("[{mark}] {id:<26}");
    assert_eq!(
        lines,
        vec![
            format!("  {}{}{}{}", cell(" ", "a"), cell("x", "b"), cell(" ", "c"), cell(" ", "d")),
            format!("  {}", cell(" ", "e")),
        ]
    );
    assert_eq!(extra(&list(&["b", "z"]), &ids), list(&["z"]));
}
