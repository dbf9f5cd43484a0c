use minimap::info::{self, FeatureCount, LayerCount, LevelCount};
use minimap::names;
use minimap::progress::{self, Bytes, Eta, Step, Task};
use minimap::query;
use minimap::text;

fn list(words: &[&str]) -> Vec<String> {
    words.iter().map(|s| s.to_string()).collect()
}

#[test]
fn counts_are_grouped_by_thousands() {
    for n in [0, 9, 999, 1000, 12345, 999_999, 1_034_854, u64::MAX] {
        let plain = n.to_string();
        let mut want = String::new();
        for (i, c) in plain.chars().enumerate() {
            if i > 0 && (plain.len() - i) % 3 == 0 {
                want.push(',');
            }
            want.push(c);
        }
        assert_eq!(progress::commas(n), want);
        assert_eq!(minimap::pipeline::commas(n), want);
        assert_eq!(minimap::grid::commas(n), want.replace(',', " "));
    }
}

#[test]
fn sizes_are_rounded_as_floating_point_is_printed() {
    let said = |n: u64| {
        for (scale, name) in [(1u64 << 40, "TB"), (1 << 30, "GB"), (1 << 20, "MB"), (1 << 10, "kB")] {
            if n >= scale {
                return format!("{:.1} {name}", n as f64 / scale as f64);
            }
        }
        format!("{n} B")
    };
    assert_eq!(progress::bytes(0), "0 B");
    assert_eq!(progress::bytes(1023), "1023 B");
    assert_eq!(progress::bytes(1024), "1.0 kB");
    assert_eq!(progress::bytes(1280), "1.2 kB", "a tie goes to the even digit");
    assert_eq!(progress::bytes(1792), "1.8 kB");
    assert_eq!(progress::bytes(153876180992), "143.3 GB");
    assert_eq!(progress::bytes(u64::MAX), "16777216.0 TB");
    let mut n = 1u64;
    for i in 0..20_000u64 {
        n = n.wrapping_mul(6_364_136_223_846_793_005).wrapping_add(i | 1);
        let small = n >> (n % 60);
        assert_eq!(progress::bytes(small), said(small), "{small}");
        let edge = (1u64 << (10 + i % 54)).wrapping_add(i % 7).wrapping_sub(3);
        assert_eq!(progress::bytes(edge), said(edge), "{edge}");
        let tie = (i + 20) * 512;
        assert_eq!(progress::bytes(tie), said(tie), "{tie}");
    }
}

#[test]
fn durations_grow_from_tenths_to_hours() {
    assert_eq!(progress::secs(0, "0.0"), "0.0s");
    assert_eq!(progress::secs(59, "59.9"), "59.9s");
    assert_eq!(progress::secs(60, "60.0"), "1m 00s");
    assert_eq!(progress::secs(3599, "3599.0"), "59m 59s");
    assert_eq!(progress::secs(3600, "3600.0"), "1h 00m");
    assert_eq!(progress::secs(45296, "45296.0"), "12h 34m");
}

#[test]
fn labels_are_clipped_with_an_ellipsis() {
    assert_eq!(progress::clip("abc", 3), "abc");
    assert_eq!(progress::clip("abcd", 3), "ab…");
    assert_eq!(progress::clip("é…ü!", 2), "é…");
    assert_eq!(progress::clip("a", 0), "…");
    assert_eq!(progress::clip("", 0), "");
}

#[test]
fn lines_have_their_columns() {
    assert_eq!(progress::item(2, 49, "name"), format!("[{:>2}/49] {:<18}", 3, "name"));
    assert_eq!(progress::line("x"), "    x");
    assert_eq!(progress::warning("x"), "    ! x");
    assert_eq!(progress::timed("msg", "1.5s"), format!("    {:<58} {:>9}", "msg", "1.5s"));
    let (step, said) = Step::start("bake", "all of it", 1000);
    assert_eq!(said, "\n==> bake  all of it");
    assert_eq!(step.elapsed(2500), 1500);
    assert_eq!(step.elapsed(999), 0);
    assert_eq!(step.done("1.5s"), "<== bake  ok  1.5s");
}

#[test]
fn the_bar_is_drawn_from_its_parts() {
    let bar = progress::render(8, 41, "z13 buildings band 9/16", "16.2s", &Eta::Left("23s".to_string()));
    assert_eq!(
        bar,
        format!("    [########------------]  41%  {:<38} {:>9} elapsed, ~23s left", "z13 buildings band 9/16", "16.2s")
    );
    let full = progress::render(99, 100, "", "1h 00m", &Eta::Finishing);
    assert!(full.starts_with("    [####################] 100%  "));
    assert!(full.ends_with("elapsed, finishing"));
    assert_eq!(Eta::Estimating.text(), "estimating");
}

#[test]
fn a_log_gets_a_line_per_twentieth_and_a_heartbeat() {
    let mut task = Task::begin();
    let first = task.draw(false, true, false, 0, false);
    assert!(first.log && first.print && !first.redraw);
    assert!(!task.draw(false, true, false, 4, false).log, "the same twentieth");
    assert!(task.draw(false, true, false, 4, true).log, "a heartbeat");
    assert!(!task.draw(false, false, true, 90, true).due, "too soon");
    assert!(!task.erase(), "nothing on screen");
    let forced = task.draw(true, false, true, 90, false);
    assert!(forced.redraw && forced.log && !forced.print);
    assert!(task.erase());
    assert!(!task.erase());
}

#[test]
fn transfers_say_how_far_they_have_come() {
    let mut b = Bytes::new("picardie", 2048);
    b.add(1024);
    assert_eq!(b.text(512), "picardie 1.0 kB / 2.0 kB at 512 B/s");
    b.add(1024);
    assert_eq!(
        b.finish("2.0s", 1024),
        format!("    {:<18} {:>9} in 2.0s  (1.0 kB/s)", "picardie", "2.0 kB")
    );
}

#[test]
fn statements_are_told_apart_by_their_first_word() {
    assert_eq!(query::clean("  SELECT 1 ;; ").as_deref(), Some("SELECT 1"));
    assert_eq!(query::clean(" ; ").as_deref(), None);
    assert_eq!(query::clean("").as_deref(), None);
    assert!(query::reads("Select 1"));
    assert!(query::reads("\n\tFROM features"));
    assert!(query::reads("explain x"));
    assert!(!query::reads("selection"));
    assert!(!query::reads("DELETE FROM features"));
    assert_eq!(
        query::as_text("SELECT 1"),
        "SELECT CAST(COLUMNS(*) AS VARCHAR) FROM (SELECT 1)"
    );
}

#[test]
fn tables_are_laid_out_in_columns() {
    let rows = vec![list(&["1", "two\nlines"]), list(&["22"])];
    assert_eq!(
        query::table(&list(&["a", "name"]), &rows),
        list(&["a   name", "--  ---------", "1   two lines", "22"])
    );
    let wide = "x".repeat(60);
    let lines = query::table(&list(&["n"]), &vec![list(&[&wide])]);
    assert_eq!(lines[1], "-".repeat(48));
    assert_eq!(lines[2], format!("{}…", "x".repeat(47)));
    assert_eq!(query::pad(&list(&["abc"]), &vec![]), "…");
    assert_eq!(query::widths(&list(&[]), &vec![]), Vec::<usize>::new());
    assert_eq!(query::summary(1, 0, "0.1s"), "\n1 row  (0.1s)");
    assert_eq!(query::summary(200, 1234, "2.0s"), "\n200 rows, 1,234 more not shown  (2.0s)");
}

#[test]
fn a_build_is_summed_up() {
    assert_eq!(info::extract_line(1, 1024, false), "       1 extract, 1.0 kB (no coastline yet)");
    assert_eq!(info::extract_line(3, 0, true), "       3 extracts, 0 B + coastline");
    assert_eq!(
        info::name_rows(&list(&["a", "b", "c", "d", "e", "f", "g"])),
        list(&["       a b c d e f", "       g"])
    );
    assert_eq!(info::name_rows(&vec![]), Vec::<String>::new());
    assert_eq!(info::count_line("roads", 12345), format!("         {:<12} {:>14}", "roads", "12,345"));
    assert_eq!(
        info::tiles_line("z10", 7, 2048),
        format!("         z{:<11} {:>14}  {:>10}", 10, "7", "2.0 kB")
    );
    assert_eq!(info::archive_line("land", 5), format!("         {:<12} {:>10}", "land", "5 B"));
    assert_eq!(info::build_line("europe", "europe"), "       europe  <- this build");
    assert_eq!(info::build_line("europe", "asia"), "       europe");
    assert_eq!(info::total(&vec![1, 2, 3]), 6);
    assert_eq!(
        info::build_lines(&list(&["a.roads.pmtiles", "b.land.pmtiles", "a.land.pmtiles"]), &vec![1024, 7, 2048], "a", "a"),
        vec![
            "       a  <- this build".to_string(),
            info::archive_line("land", 2048),
            info::archive_line("roads", 1024),
            info::archive_line("total", 3072),
        ]
    );
    assert_eq!(info::rungs_line(&vec![10, 12, 15, 17]), "\n       baked rungs z10,12,15,17");
    assert_eq!(
        info::rungs_line(&vec![10, 12]),
        "\n       baked rungs z10,12  (tuning.rs now says z10,12,15,17 -- `make all` will re-bake)"
    );
}

#[test]
fn what_is_in_the_database_is_listed() {
    let count = |layer: &str, features| FeatureCount { layer: layer.to_string(), features };
    assert_eq!(
        info::feature_lines(&vec![count("roads", 1000), count("land", 7)]),
        vec![info::count_line("roads", 1000), info::count_line("land", 7), info::count_line("total", 1007)]
    );
    let levels = vec![LevelCount { z: 10, tiles: 3, bytes: 5 }, LevelCount { z: 12, tiles: 4, bytes: 6 }];
    let layers = vec![LayerCount { layer: "roads".to_string(), tiles: 7, bytes: 11 }];
    assert_eq!(
        info::tile_lines(&levels, &layers),
        vec![
            info::tiles_line("z10", 3, 5),
            info::tiles_line("z12", 4, 6),
            info::tiles_line("roads", 7, 11),
            info::rungs_line(&vec![10, 12]),
        ]
    );
}

#[test]
fn names_are_sorted_by_their_characters() {
    let mixed = list(&["b", "a", "é", "ab", "", "B", "a"]);
    let mut want = mixed.clone();
    want.sort();
    assert_eq!(names::sort(mixed.clone()), want);
    want.dedup();
    assert_eq!(names::distinct(mixed), want);
    assert!(names::is_before("a", "ab"));
    assert!(!names::is_before("ab", "a"));
    assert!(!names::is_before("a", "a"));
    assert!(names::is_before("Z", "a"));
}

#[test]
fn templates_are_filled_in_once() {
    assert_eq!(text::fill("$a-$b$a", &["x", "$a"]), "x-$ax");
    assert_eq!(text::fill("$ $c $$a $", &["x", "y"]), "$ $c $x $");
    assert_eq!(text::fill("", &[]), "");
}

#[test]
fn texts_come_apart_as_they_do_elsewhere() {
    for s in ["", "a", " a b\u{a0}", "\u{3000}x\u{2003}", "x=y=z", "=", "a,b,,c", ","] {
        assert_eq!(text::trim(s), s.trim(), "{s:?}");
        assert_eq!(text::trim_start(s), s.trim_start(), "{s:?}");
        assert_eq!(text::trim_end(s), s.trim_end(), "{s:?}");
        assert_eq!(text::split(s, ','), s.split(',').map(str::to_string).collect::<Vec<_>>(), "{s:?}");
        let once = s.split_once("=").map(|(a, b)| (a.to_string(), b.to_string()));
        assert_eq!(text::split_once(s, "="), once, "{s:?}");
        assert_eq!(text::contains(s, "b"), s.contains('b'));
        assert_eq!(text::strip_prefix(s, "a"), s.strip_prefix('a').map(str::to_string));
        assert_eq!(text::strip_suffix(s, "c"), s.strip_suffix('c').map(str::to_string));
        assert_eq!(text::replace(s, ',', "''"), s.replace(',', "''"));
        let word = s.split_whitespace().next().unwrap_or_default();
        assert_eq!(text::next_word(s).0, word, "{s:?}");
    }
    for c in (0..=0x3100u32).filter_map(char::from_u32) {
        assert_eq!(text::is_white(c), c.is_whitespace(), "{c:?}");
    }
    assert_eq!(text::to_lower("AbZ[É"), "AbZ[É".to_ascii_lowercase());
}

#[test]
fn numbers_read_back() {
    for s in ["0", "7", "+7", "007", "", "+", "-1", "1 ", "4294967295", "4294967296", "99999999999999999999999", "१"] {
        assert_eq!(text::parse(s, u64::from(u32::MAX)), s.parse::<u32>().ok().map(u64::from), "{s:?}");
        assert_eq!(text::parse(s, u64::MAX), s.parse::<u64>().ok(), "{s:?}");
    }
    for n in [0, 10, 4711, u64::MAX] {
        assert_eq!(text::parse(&text::number(n), u64::MAX), Some(n));
    }
    let mut hex = String::new();
    text::put_hex(&mut hex, 0xd99798fa5);
    assert_eq!(hex, "d99798fa5");
}
