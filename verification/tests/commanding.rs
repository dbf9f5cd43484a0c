use minimap::command::{command, fetches_land, read, stages, Command, Invocation, Reading, Stage};
use minimap::grid::{
    bbox_sql, bounds_of, by_kind, cells_sql, footprint_m2, footprint_sql, seen_by_building, windows, zone_end, ArgError,
    Args, Box4, CellBounds, Site,
};
use minimap::pipeline::{self, Step};

fn list(words: &[&str]) -> Vec<String> {
    words.iter().map(|s| s.to_string()).collect()
}

fn run(words: &[&str]) -> Invocation {
    match read(&list(words)) {
        Reading::Run(asked) => asked,
        other => panic!("{other:?}"),
    }
}

#[test]
fn a_command_line_names_a_command_and_regions() {
    let asked = run(&["--jobs", "5", "load", "--memory", "8GB", "france", "--land", "belgium"]);
    assert_eq!(asked.command.as_deref(), Some("load"));
    assert_eq!(asked.regions, list(&["france", "belgium"]));
    assert_eq!(asked.cfg.jobs, 5);
    assert_eq!(asked.cfg.memory.as_deref(), Some("8GB"));
    assert_eq!(asked.cfg.pbf, "pbf");
    assert!(asked.land && !asked.europe);
    let asked = run(&["--pbf", "a", "--duckdb", "b", "--pmtiles", "c", "--log", "d", "--europe"]);
    assert_eq!((asked.cfg.pbf, asked.cfg.duckdb, asked.cfg.pmtiles), ("a".to_string(), "b".to_string(), "c".to_string()));
    assert_eq!(asked.log.as_deref(), Some("d"));
    assert!(asked.europe && asked.command.is_none());
}

#[test]
fn a_command_line_can_be_wrong() {
    assert!(matches!(read(&list(&["bake", "-h"])), Reading::Help));
    assert!(matches!(read(&list(&["--pbf"])), Reading::NeedsValue(s) if s == "--pbf"));
    assert!(matches!(read(&list(&["--jobs", "many"])), Reading::BadJobs(s) if s == "many"));
    assert!(matches!(read(&list(&["--frob", "x"])), Reading::UnknownOption(s) if s == "--frob"));
    assert!(matches!(read(&list(&["--pbf", "--help"])), Reading::Run(a) if a.cfg.pbf == "--help"));
}

#[test]
fn commands_run_stages() {
    assert_eq!(stages(Command::All), vec![Stage::Load, Stage::Bake, Stage::Export]);
    assert_eq!(stages(Command::Bake), vec![Stage::Bake]);
    assert_eq!(stages(Command::Info), vec![]);
    let words = ["download", "load", "bake", "export", "all", "info", "regions", "sql"];
    assert!(words.iter().all(|w| command(w).is_some()));
    assert_eq!(command("sql"), Some(Command::Sql));
    assert_eq!(command("sqlx"), None);
    assert!(fetches_land(&run(&["download"])));
    assert!(fetches_land(&run(&["download", "--land", "france"])));
    assert!(!fetches_land(&run(&["download", "france"])));
    assert!(!fetches_land(&run(&["download", "--europe"])));
}

#[test]
fn regions_come_last() {
    let read = |words: &[&str]| pipeline::read(&list(words));
    assert!(matches!(
        read(&["all", "--regions", "france", "--odd"]),
        pipeline::Reading::Run(step, regions) if step == "all" && regions == list(&["france", "--odd"])
    ));
    assert!(matches!(read(&[]), pipeline::Reading::Usage));
    assert!(matches!(read(&["load", "--regions", "-h"]), pipeline::Reading::Usage));
    assert!(matches!(read(&["load", "-x"]), pipeline::Reading::UnknownOption(s) if s == "-x"));
    assert!(matches!(read(&["load", "bake"]), pipeline::Reading::Unexpected(s) if s == "bake"));
    assert_eq!(pipeline::STEPS.iter().filter(|s| pipeline::step(s).is_some()).count(), 7);
    assert_eq!(pipeline::step("frob"), None);
    assert_eq!(pipeline::chosen(Step::All), vec![Step::Download, Step::Load, Step::Bake, Step::Export]);
    assert_eq!(pipeline::chosen(Step::Info), vec![Step::Info]);
    assert_eq!(pipeline::or_default(vec![]), list(&["picardie"]));
    assert_eq!(pipeline::or_default(list(&["x"])), list(&["x"]));
    assert_eq!(pipeline::unknown_region(&list(&["a", "x", "y"]), &list(&["a"])), Some(1));
    assert_eq!(pipeline::unknown_region(&list(&["a"]), &list(&["a"])), None);
}

fn parse(words: &[&str]) -> Result<Args, ArgError> {
    let args = list(words);
    let numeric = args.iter().map(|a| a.parse::<f64>().is_ok()).collect();
    Args::parse(&args, &numeric)
}

fn wrong(words: &[&str]) -> String {
    parse(words).unwrap_err().message("why")
}

#[test]
fn a_bake_of_zones_has_its_settings() {
    let plain = parse(&[]).unwrap();
    assert_eq!((plain.level, plain.tiers), (18, vec![16, 64, 256]));
    assert!(plain.db.is_none() && plain.out.is_none() && plain.bbox.is_none() && plain.min_footprint.is_none());
    let a = parse(&[
        "--k", " 64, 16,64", "--level", "20", "--bbox", "1.7", "49.7", "2.7", "50.1", "--db", "x", "--out", "y",
        "--min-footprint", "25",
    ])
    .unwrap();
    assert_eq!((a.level, a.tiers), (20, vec![16, 64]));
    assert_eq!(a.db.as_deref(), Some("x"));
    assert_eq!(a.out.as_deref(), Some("y"));
    assert_eq!(a.min_footprint.as_deref(), Some("25"));
    let b = a.bbox.unwrap();
    assert_eq!((b.west, b.south, b.east, b.north), ("1.7".to_string(), "49.7".to_string(), "2.7".to_string(), "50.1".to_string()));
    assert_eq!(wrong(&["--k"]), "--k needs a value");
    assert_eq!(wrong(&["--bbox", "1", "2", "3"]), "--bbox needs a value");
    assert_eq!(wrong(&["--bbox", "1", "x", "3", "4"]), "why");
    assert!(matches!(parse(&["--bbox", "1", "x"]), Err(ArgError::NotAFraction(s)) if s == "x"));
    assert!(matches!(parse(&["--k", "16, y"]), Err(ArgError::NotANumber(s)) if s == "y"));
    assert!(matches!(parse(&["--level", "-1"]), Err(ArgError::NotANumber(_))));
    assert!(matches!(parse(&["--min-footprint", "z"]), Err(ArgError::NotAFraction(s)) if s == "z"));
    assert_eq!(wrong(&["--level", "1.5"]), "why");
    assert!(matches!(parse(&["--level", "1.5"]), Err(ArgError::NotANumber(s)) if s == "1.5"));
    assert_eq!(wrong(&["--frob"]), "unknown flag --frob");
    assert_eq!(wrong(&["--level", "13"]), "--level 13 out of range, wants 14..=24");
    assert_eq!(wrong(&["--level", "25"]), "--level 25 out of range, wants 14..=24");
    assert_eq!(wrong(&["--k", "1,16"]), "--k wants at least one value, each >= 2");
}

#[test]
fn buildings_are_counted_by_cell() {
    let world = 20037508.342789244f64;
    let area = format!(
        "(max_x - min_x) * (max_y - min_y)
             * pow(cos(atan(sinh(pi() * ((min_y + max_y) / 2) / {world}))), 2)"
    );
    assert_eq!(footprint_m2(), area);
    assert_eq!(footprint_sql(None), "");
    assert_eq!(footprint_sql(Some("25")), format!("\n           AND {area} >= 25"));
    assert_eq!(bbox_sql(&None), "");
    let b = Some(Box4 { west: "1".to_string(), south: "2".to_string(), east: "3".to_string(), north: "4".to_string() });
    let inside = "\n           AND (min_x + max_x) / 2 BETWEEN 1 AND 3
           AND (min_y + max_y) / 2 BETWEEN 2 AND 4";
    assert_eq!(bbox_sql(&b), inside);
    assert_eq!(
        cells_sql("9.5", &b, Some("25")),
        format!(
            "SELECT CAST(FLOOR(((min_x + max_x) / 2 + {world}) / 9.5) AS UINTEGER) tx,
                CAST(FLOOR(({world} - (min_y + max_y) / 2) / 9.5) AS UINTEGER) ty,
                CAST(count(*) AS UINTEGER) n,
                sum({area}) footprint
         FROM features
         WHERE layer = 'buildings'{inside}\n           AND {area} >= 25
         GROUP BY tx, ty"
        )
    );
}

#[test]
fn density_is_measured_in_windows() {
    let at = |x, y| Site { x, y };
    let sites = vec![at(0, 0), at(15, 15), at(16, 0), at(1, 2), at(40, 33)];
    let w = windows(&sites, &vec![1, 2, 4, 8, 16], 4);
    assert_eq!(w.of, vec![0, 0, 1, 0, 2]);
    assert_eq!(w.buildings, vec![11, 4, 16]);
    assert_eq!(w.rows, vec![0, 0, 2]);
    assert_eq!(bounds_of(&sites), Some(CellBounds { min_x: 0, min_y: 0, max_x: 40, max_y: 33 }));
    assert_eq!(bounds_of(&vec![]), None);
}

#[test]
fn zones_run_to_the_next_one() {
    let starts = vec![0, 7, 90];
    assert_eq!(zone_end(&starts, 0, 4), 7);
    assert_eq!(zone_end(&starts, 2, 4), 256);
    let groups = by_kind(&vec![5, 0, 5, 3], 6);
    let plain: Vec<(usize, Vec<usize>)> = groups.into_iter().map(|g| (g.kind, g.members)).collect();
    assert_eq!(plain, vec![(5, vec![0, 2]), (3, vec![3]), (0, vec![1])]);
}

#[test]
fn a_measure_is_spread_over_buildings() {
    let counts = vec![3u32, 0, 5, 1, 991];
    let seen = seen_by_building(&counts);
    let total: u64 = counts.iter().map(|&c| u64::from(c)).sum();
    let mut want = Vec::new();
    let (mut sum, mut at) = (0u64, 0usize);
    for (i, &n) in counts.iter().enumerate() {
        sum += u64::from(n);
        while at < 1000 && (sum as f64 / total as f64) >= at as f64 / 1000.0 {
            want.push(i);
            at += 1;
        }
    }
    assert_eq!(seen, want);
    assert_eq!(seen.len(), 1000);
    assert_eq!(seen_by_building(&vec![0, 0]), Vec::<usize>::new());
    assert_eq!(seen_by_building(&vec![]), Vec::<usize>::new());
}
