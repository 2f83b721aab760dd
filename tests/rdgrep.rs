use rdgrep::directive::{find_disabled_copss, DirectiveMatcher};
use rdgrep::discover::{classify, has_target_extension, is_excluded, Discovery, ReadFailure};
use rdgrep::scan::search;
use rdgrep::tally::{tally, FrequencyTable};

fn strings(v: &[&str]) -> Vec<String> {
    v.iter().map(|s| s.to_string()).collect()
}

fn report(v: &[(&str, usize)]) -> Vec<(String, usize)> {
    v.iter().map(|(s, c)| (s.to_string(), *c)).collect()
}

/// Walks an in-memory tree: each directory maps to its entries (name, is_dir);
/// a directory missing from the tree cannot be found.
fn walk(root: &str, tree: &[(&str, &[(&str, bool)])]) -> Result<Vec<String>, String> {
    let mut d = Discovery::new(root.to_string());
    while let Some(dir) = d.next_dir() {
        let entries = match tree.iter().find(|(p, _)| *p == dir.as_str()) {
            Some((_, e)) => *e,
            None => match d.on_read_failure(true) {
                ReadFailure::EmptyTree => return Ok(d.into_found()),
                ReadFailure::Fail => return Err(dir),
            },
        };
        for (name, is_dir) in entries {
            let path = format!("{}{}{}", dir, name, if *is_dir { "/" } else { "" });
            d.visit(path, name, *is_dir);
        }
    }
    let mut found = d.into_found();
    found.sort();
    Ok(found)
}

#[test]
fn test_find_ruby_files() {
    let tree: &[(&str, &[(&str, bool)])] = &[
        ("./testdata/ok/", &[("a.rb", false), ("b.rb", false), ("hoge", true), ("readme.md", false)]),
        ("./testdata/ok/hoge/", &[("c.rb", false)]),
    ];
    let paths = walk("./testdata/ok/", tree).unwrap();
    assert_eq!(
        paths,
        strings(&["./testdata/ok/a.rb", "./testdata/ok/b.rb", "./testdata/ok/hoge/c.rb"])
    );
}

#[test]
fn test_find_ruby_files_empty() {
    let tree: &[(&str, &[(&str, bool)])] = &[("./testdata/empty/", &[])];
    let paths = walk("./testdata/empty/", tree).unwrap();
    assert!(paths.is_empty());
}

#[test]
fn test_find_disabled_copss() {
    let content = "# rubocop:disable Metrics/AbcSize, Metrics/BlockLength\nputs 'R2-D2'# rubocop:disable Metrics/AbcSize, Metrics/BlockNesting";
    let result = find_disabled_copss(content);

    assert_eq!(
        result,
        vec![
            "Metrics/AbcSize",
            "Metrics/BlockLength",
            "Metrics/BlockNesting"
        ]
    );
}

#[test]
fn test_find_disabled_copss_empty() {
    let content = "A long time ago in a galaxy far, far awayâ€¦";
    let result = find_disabled_copss(content);

    assert!(result.is_empty());
}

#[test]
fn test_run() {
    let contents = vec![
        Some("# rubocop:disable Style/Alias, Style/AccessModifierDeclarations\n".to_string()),
        Some("# rubocop:disable Style/AccessModifierDeclarations\nx = 1\n# rubocop:disable Style/Alias, Style/AccessorGrouping\n".to_string()),
        Some("def f # rubocop:disable Style/AccessModifierDeclarations\nend\n".to_string()),
    ];
    let result = search(&contents);
    assert_eq!(
        result,
        vec![
            ("Style/AccessModifierDeclarations".to_string(), 3),
            ("Style/Alias".to_string(), 2),
            ("Style/AccessorGrouping".to_string(), 1),
        ]
    )
}

#[test]
fn test_run_empty() {
    let result = search(&Vec::new());
    assert_eq!(result, vec![])
}

#[test]
fn test_run_ruby_files_does_not_exists() {
    let paths = walk("./testdata/ruby_files_does_not_exists/", &[]).unwrap();
    assert!(paths.is_empty());
    let contents: Vec<Option<String>> = paths.iter().map(|_| None).collect();
    let result = search(&contents);
    assert_eq!(result, vec![])
}

#[test]
fn three_files_equal_counts() {
    let contents = vec![
        Some("# rubocop:disable Style/Alias".to_string()),
        Some("# rubocop:disable Style/Alias, Style/AccessModifierDeclarations".to_string()),
        Some("# rubocop:disable Style/AccessModifierDeclarations\nfoo\n# rubocop:disable Style/AccessModifierDeclarations".to_string()),
    ];
    let result = search(&contents);
    assert_eq!(result, report(&[("Style/AccessModifierDeclarations", 2), ("Style/Alias", 2)]));
}

#[test]
fn no_target_content_gives_empty_report() {
    let contents = vec![Some("puts 1\n".to_string()), Some(String::new())];
    assert_eq!(search(&contents), vec![]);
}

#[test]
fn unreadable_files_give_empty_report() {
    let contents: Vec<Option<String>> = vec![None, None, None];
    assert_eq!(search(&contents), vec![]);
}

#[test]
fn unreadable_file_among_readable_ones() {
    let contents = vec![None, Some("# rubocop:disable Lint/Foo".to_string()), None];
    assert_eq!(search(&contents), report(&[("Lint/Foo", 1)]));
}

#[test]
fn repeated_identifier_in_one_file_counts_once() {
    let content = "# rubocop:disable A/B\nx\n# rubocop:disable A/B, C/D\n";
    assert_eq!(find_disabled_copss(content), strings(&["A/B", "C/D"]));
    let mut t = FrequencyTable::new();
    t.add_file(&strings(&["A/B", "A/B", "C/D"]));
    assert_eq!(t.len(), 2);
    assert_eq!(t.report(), report(&[("A/B", 1), ("C/D", 1)]));
}

#[test]
fn report_sorted_by_count_descending() {
    let sets = vec![
        strings(&["X/One"]),
        strings(&["X/Two", "X/Three"]),
        strings(&["X/Two", "X/Three"]),
        strings(&["X/Three"]),
    ];
    let r = tally(&sets).report();
    assert_eq!(r, report(&[("X/Three", 3), ("X/Two", 2), ("X/One", 1)]));
    for w in r.windows(2) {
        assert!(w[0].1 >= w[1].1);
    }
}

#[test]
fn merge_order_does_not_change_report() {
    let a = strings(&["B/b", "A/a"]);
    let b = strings(&["C/c"]);
    let c = strings(&["A/a", "C/c", "D/d"]);
    let r1 = tally(&vec![a.clone(), b.clone(), c.clone()]).report();
    let r2 = tally(&vec![c, a, b]).report();
    assert_eq!(r1, r2);
    assert_eq!(r1, report(&[("A/a", 2), ("C/c", 2), ("B/b", 1), ("D/d", 1)]));
}

#[test]
fn tally_counts_files() {
    let t = tally(&vec![strings(&["A/a"]), Vec::new(), strings(&["A/a"])]);
    assert_eq!(t.len(), 1);
    assert_eq!(t.report(), report(&[("A/a", 2)]));
    assert_eq!(FrequencyTable::new().len(), 0);
    assert!(FrequencyTable::new().report().is_empty());
}

#[test]
fn excluded_paths_are_never_found() {
    let tree: &[(&str, &[(&str, bool)])] = &[
        ("./app/", &[("a.rb", false), ("vendor", true)]),
        ("./app/vendor/", &[("bundle", true), ("other.rb", false)]),
        ("./app/vendor/bundle/", &[("gem.rb", false)]),
    ];
    let paths = walk("./app/", tree).unwrap();
    assert_eq!(paths, strings(&["./app/a.rb", "./app/vendor/other.rb"]));
    assert!(is_excluded("./x/vendor/bundle/y.rb"));
    assert!(!is_excluded("./x/vendor/y.rb"));
    let v = classify("./x/vendor/bundle/y.rb", "y.rb", false);
    assert!(!v.collect && !v.descend);
    let v = classify("./x/lib", "lib", true);
    assert!(v.descend && !v.collect);
}

#[test]
fn target_extension() {
    assert!(has_target_extension("a.rb"));
    assert!(has_target_extension("x.tar.rb"));
    assert!(!has_target_extension(".rb"));
    assert!(!has_target_extension("rb"));
    assert!(!has_target_extension("a.rbx"));
    assert!(!has_target_extension("a.r"));
    assert!(!has_target_extension(".."));
    assert!(!has_target_extension(""));
}

#[test]
fn directive_stops_after_last_slash_run() {
    let r = find_disabled_copss("x = 1 # rubocop:disable Foo/Bar because of y\n");
    assert_eq!(r, strings(&["Foo/Bar"]));
}

#[test]
fn directive_reaches_last_slash_of_line() {
    let r = find_disabled_copss("# rubocop:disable Foo/Bar see a/b c");
    assert_eq!(r, strings(&["Foo/Barseea/b"]));
}

#[test]
fn bare_marker_and_trailing_comma_give_empty_identifier() {
    assert_eq!(find_disabled_copss("# rubocop:disable"), strings(&[""]));
    assert_eq!(find_disabled_copss("# rubocop:disable Foo/Bar,"), strings(&["", "Foo/Bar"]));
}

#[test]
fn crlf_lines() {
    let r = find_disabled_copss("# rubocop:disable A/B\r\n# rubocop:disable C/D\r\n");
    assert_eq!(r, strings(&["A/B", "C/D"]));
}

#[test]
fn matcher_extracts_directly() {
    let m = DirectiveMatcher::new();
    assert_eq!(m.extract("# rubocop:disable Z/z, A/a\n"), strings(&["A/a", "Z/z"]));
    assert!(m.extract("").is_empty());
}

#[test]
fn directories_are_not_collected() {
    let v = classify("./x/lib.rb", "lib.rb", true);
    assert!(v.descend && !v.collect);
    let tree: &[(&str, &[(&str, bool)])] = &[
        ("./t/", &[("odd.rb", true), ("a.rb", false)]),
        ("./t/odd.rb/", &[("b.rb", false)]),
    ];
    assert_eq!(walk("./t/", tree).unwrap(), strings(&["./t/a.rb", "./t/odd.rb/b.rb"]));
}

#[test]
fn missing_subdirectory_is_an_error() {
    let tree: &[(&str, &[(&str, bool)])] = &[("./t/", &[("gone", true)])];
    assert_eq!(walk("./t/", tree), Err("./t/gone/".to_string()));
}

#[test]
fn walk_reads_each_queued_directory_once() {
    let mut d = Discovery::new("./r/".to_string());
    assert!(matches!(d.on_read_failure(true), ReadFailure::Fail));
    assert_eq!(d.next_dir(), Some("./r/".to_string()));
    assert!(matches!(d.on_read_failure(true), ReadFailure::EmptyTree));
    assert!(matches!(d.on_read_failure(false), ReadFailure::Fail));
    d.visit("./r/vendor/bundle".to_string(), "bundle", true);
    d.visit("./r/lib".to_string(), "lib", true);
    assert_eq!(d.next_dir(), Some("./r/lib".to_string()));
    assert!(matches!(d.on_read_failure(true), ReadFailure::Fail));
    assert_eq!(d.next_dir(), None);
}
