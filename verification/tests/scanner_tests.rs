use todoscan::config::Args;
use todoscan::config::Config;
use todoscan::config::OutputFormat;
use todoscan::matcher::Pattern;
use todoscan::scanner::extension_matches;
use todoscan::scanner::file_extension;
use todoscan::scanner::is_binary;
use todoscan::scanner::scan_file;
use todoscan::scanner::scan_target;
use todoscan::scanner::should_scan;
use todoscan::scanner::split_lines;
use todoscan::scanner::ScanTarget;

fn test_config_for_file(path: &str) -> Config {
    Config {
        root: "/tmp".to_owned(),
        extensions: None,
        single_file: Some(path.to_owned()),
        pattern: Pattern::new("TODO|FIXME|HACK|XXX|BUG").unwrap(),
        respect_gitignore: true,
        color: false,
        context_lines: 0,
        output_format: OutputFormat::Text,
    }
}

const PATH: &str = "/tmp/sample.rs";

#[test]
fn test_scan_finds_match() {
    let config = test_config_for_file(PATH);
    let matches: Vec<String> = scan_file(PATH, b"line 1\n// TODO: fix this\nline 3\n", &config)
        .into_iter()
        .map(|m| m.tag.clone())
        .collect();
    assert_eq!(matches, vec!["TODO"]);
}

#[test]
fn test_scan_no_match() {
    let config = test_config_for_file(PATH);
    let matches = scan_file(PATH, b"no annotations here\n", &config);
    assert!(matches.is_empty());
}

#[test]
fn scanner_test_context_lines() {
    let content = "before\n// TODO: fix\nafter\n";
    let mut config = test_config_for_file(PATH);
    config.context_lines = 1;
    let results: Vec<(Vec<String>, Vec<String>)> = scan_file(PATH, content.as_bytes(), &config)
        .into_iter()
        .map(|m| (m.context_before.clone(), m.context_after.clone()))
        .collect();
    assert_eq!(results.len(), 1);
    assert_eq!(results[0].0, vec!["before"]);
    assert_eq!(results[0].1, vec!["after"]);
}

#[test]
fn test_binary_file_skipped() {
    let config = test_config_for_file(PATH);
    let matches = scan_file(PATH, b"hello\x00world", &config);
    assert!(matches.is_empty());
}

#[test]
fn test_extension_filter() {
    // A .txt file is filtered out when ext=["rs"].
    let config = Config {
        root: "/tmp/dir".to_owned(),
        extensions: Some(vec!["rs".to_owned()]),
        single_file: None,
        pattern: Pattern::new("TODO").unwrap(),
        respect_gitignore: false,
        color: false,
        context_lines: 0,
        output_format: OutputFormat::Text,
    };
    let mut matches: Vec<String> = Vec::new();
    if should_scan(false, Some("notes.txt"), &config) {
        for m in scan_file("/tmp/dir/notes.txt", b"// TODO: ignored\n", &config) {
            matches.push(m.tag.clone());
        }
    }
    assert!(matches.is_empty());
}

// ---- further cases ----

#[test]
fn scan_reports_every_matching_line_in_order() {
    let config = test_config_for_file(PATH);
    let content = "fn foo() -> i32 {\n    // TODO: implement error handling\n    42\n}\n\nfn bar() {\n    // FIXME: this is broken\n    let _ = foo();\n}\n\nfn baz() {\n    // HACK: workaround for issue #42\n    println!(\"baz\");\n}\n";
    let ms = scan_file(PATH, content.as_bytes(), &config);
    let got: Vec<(usize, usize, String)> =
        ms.iter().map(|m| (m.line_number, m.column, m.tag.clone())).collect();
    assert_eq!(
        got,
        vec![(2, 8, "TODO".to_owned()), (7, 8, "FIXME".to_owned()), (12, 8, "HACK".to_owned())]
    );
    assert!(ms.iter().all(|m| m.path == PATH));
    assert_eq!(ms[0].line_content, "    // TODO: implement error handling");
}

#[test]
fn context_is_clipped_at_file_edges() {
    let mut config = test_config_for_file(PATH);
    config.context_lines = 5;
    let ms = scan_file(PATH, b"TODO first\nmiddle\nlast BUG", &config);
    assert_eq!(ms.len(), 2);
    assert!(ms[0].context_before.is_empty());
    assert_eq!(ms[0].context_after, vec!["middle", "last BUG"]);
    assert_eq!(ms[1].context_before, vec!["TODO first", "middle"]);
    assert!(ms[1].context_after.is_empty());
}

#[test]
fn huge_context_takes_whole_file() {
    let mut config = test_config_for_file(PATH);
    config.context_lines = usize::MAX;
    let ms = scan_file(PATH, b"a\nXXX\nb\n", &config);
    assert_eq!(ms[0].context_before, vec!["a"]);
    assert_eq!(ms[0].context_after, vec!["b"]);
}

#[test]
fn lines_follow_bufread_rules() {
    assert_eq!(split_lines(b""), Vec::<String>::new());
    assert_eq!(split_lines(b"\n"), vec![""]);
    assert_eq!(split_lines(b"a\r\nb"), vec!["a", "b"]);
    assert_eq!(split_lines(b"a\rb\r"), vec!["a\rb\r"]);
    assert_eq!(split_lines(b"x\n\xff\xfe\ny\n"), vec!["x", "", "y"]);
    assert_eq!(split_lines("é\n".as_bytes()), vec!["é"]);
}

#[test]
fn binary_sniff_looks_at_first_512_bytes() {
    let mut late = vec![b'a'; 600];
    late[550] = 0;
    assert!(!is_binary(&late));
    let mut early = vec![b'a'; 600];
    early[511] = 0;
    assert!(is_binary(&early));
    assert!(!is_binary(b""));
}

#[test]
fn null_after_sniff_window_is_scanned() {
    let config = test_config_for_file(PATH);
    let mut content = vec![b'a'; 600];
    content.extend_from_slice(b"\nTODO\x00\n");
    let ms = scan_file(PATH, &content, &config);
    assert_eq!(ms.len(), 1);
    assert_eq!(ms[0].line_number, 2);
}

#[test]
fn extension_matching_rules() {
    let mut config = test_config_for_file(PATH);
    assert!(extension_matches(Some("anything"), &config));
    assert!(extension_matches(None, &config));
    config.extensions = Some(vec!["rs".to_owned(), "".to_owned()]);
    assert!(extension_matches(Some("RS"), &config));
    assert!(extension_matches(None, &config));
    assert!(!extension_matches(Some("py"), &config));
    assert!(!should_scan(true, Some("a.rs"), &config));
    assert!(should_scan(false, Some("a.RS"), &config));
    assert!(should_scan(false, Some("Makefile"), &config));
    assert!(!should_scan(false, Some("a.py"), &config));
}

#[test]
fn scan_target_choice() {
    let config = test_config_for_file(PATH);
    assert_eq!(scan_target(&config), ScanTarget::SingleFile(PATH.to_owned()));
    let args = Args {
        path: None,
        ext: None,
        file: None,
        pattern: None,
        ignore_case: false,
        no_gitignore: true,
        no_color: false,
        context: 0,
        output: "text".to_owned(),
    };
    let c = Config::from_args(args, Some("/r".to_owned()), None).unwrap();
    assert_eq!(scan_target(&c), ScanTarget::PlainWalk("/r".to_owned()));
}

#[test]
fn custom_pattern_reports_only_its_tag() {
    let mut config = test_config_for_file(PATH);
    config.pattern = Pattern::new("TODO").unwrap();
    let ms = scan_file(PATH, b"// TODO: a\n// FIXME: b\n", &config);
    assert_eq!(ms.len(), 1);
    assert_eq!(ms[0].tag, "TODO");
}

#[test]
fn file_extension_follows_path_rules() {
    assert_eq!(file_extension(Some("a.rs")), Some("rs".to_owned()));
    assert_eq!(file_extension(Some("a.b.c")), Some("c".to_owned()));
    assert_eq!(file_extension(Some("foo.")), Some("".to_owned()));
    assert_eq!(file_extension(Some(".x.y")), Some("y".to_owned()));
    assert_eq!(file_extension(Some(".bashrc")), None);
    assert_eq!(file_extension(Some("foo")), None);
    assert_eq!(file_extension(None), None);
    for name in ["a.rs", "a.b.c", "foo.", ".x.y", ".bashrc", "foo", "é.Ü"] {
        let expected = std::path::Path::new(name)
            .extension()
            .and_then(|e| e.to_str())
            .map(|e| e.to_owned());
        assert_eq!(file_extension(Some(name)), expected);
    }
}
