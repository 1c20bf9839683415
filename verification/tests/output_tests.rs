use todoscan::config::Args;
use todoscan::config::Config;
use todoscan::config::OutputFormat;
use todoscan::output::csv_escape;
use todoscan::output::csv_output;
use todoscan::output::csv_row;
use todoscan::output::render_text;
use todoscan::output::Finished;
use todoscan::output::Printer;
use todoscan::output::TextBody;
use todoscan::scanner::Match;

#[test]
fn test_csv_escape_plain() {
    assert_eq!(csv_escape("hello"), "hello");
}

#[test]
fn test_csv_escape_comma() {
    assert_eq!(csv_escape("foo(a, b)"), "\"foo(a, b)\"");
}

#[test]
fn test_csv_escape_quotes() {
    assert_eq!(csv_escape("say \"hi\""), "\"say \"\"hi\"\"\"");
}

#[test]
fn test_csv_escape_newline() {
    assert_eq!(csv_escape("line1\nline2"), "\"line1\nline2\"");
}

// ---- further cases ----

fn sample_match() -> Match {
    Match {
        path: "src/a.rs".to_owned(),
        line_number: 12,
        column: 4,
        tag: "TODO".to_owned(),
        line_content: "// TODO: fix, now".to_owned(),
        context_before: vec!["fn a() {".to_owned()],
        context_after: vec!["}".to_owned()],
    }
}

fn config_with(output: &str) -> Config {
    let args = Args {
        path: None,
        ext: None,
        file: None,
        pattern: None,
        ignore_case: false,
        no_gitignore: false,
        no_color: false,
        context: 0,
        output: output.to_owned(),
    };
    Config::from_args(args, Some("/work".to_owned()), None).unwrap()
}

/// Reads a CSV field back (the inverse of csv_escape).
fn read_field(f: &str) -> String {
    if f.len() >= 2 && f.starts_with('"') && f.ends_with('"') {
        f[1..f.len() - 1].replace("\"\"", "\"")
    } else {
        f.to_owned()
    }
}

#[test]
fn csv_escape_round_trips() {
    for s in ["", "plain", "a,b", "\"", "x\"\"y", "multi\nline", "\"quoted\", too"] {
        assert_eq!(read_field(&csv_escape(s)), s);
    }
}

#[test]
fn csv_escape_empty_and_quote_only() {
    assert_eq!(csv_escape(""), "");
    assert_eq!(csv_escape("\""), "\"\"\"\"");
}

#[test]
fn csv_row_layout() {
    assert_eq!(csv_row(&sample_match()), "src/a.rs,12,4,TODO,\"// TODO: fix, now\"");
}

#[test]
fn csv_output_has_header_then_rows() {
    let out = csv_output(&vec![sample_match(), sample_match()]);
    assert_eq!(out.len(), 3);
    assert_eq!(out[0], "path,line_number,column,tag,line_content");
    assert_eq!(out[1], out[2]);
    assert_eq!(csv_output(&Vec::new()), vec!["path,line_number,column,tag,line_content".to_owned()]);
}

#[test]
fn text_render_highlights_tag() {
    let r = render_text(&sample_match());
    assert_eq!(r.location, "src/a.rs:12:4:");
    match &r.body {
        TextBody::Highlighted { tag, after } => {
            assert_eq!(tag, "TODO");
            assert_eq!(after, ": fix, now");
            assert_eq!(format!("// {}{}", tag, after), sample_match().line_content);
        }
        TextBody::Plain(_) => panic!("expected a highlighted line"),
    }
    assert_eq!(r.context, vec!["fn a() {".to_owned(), "}".to_owned()]);
}

#[test]
fn text_render_readme_example() {
    // The README's output: `src/main.rs:42:4: TODO: handle error case`.
    let m = Match {
        path: "src/main.rs".to_owned(),
        line_number: 42,
        column: 4,
        tag: "TODO".to_owned(),
        line_content: "   TODO: handle error case".to_owned(),
        context_before: vec![],
        context_after: vec![],
    };
    let r = render_text(&m);
    let shown = match &r.body {
        TextBody::Highlighted { tag, after } => format!("{} {}{}", r.location, tag, after),
        TextBody::Plain(line) => format!("{} {}", r.location, line),
    };
    assert_eq!(shown, "src/main.rs:42:4: TODO: handle error case");
    assert!(r.context.is_empty());
}

#[test]
fn text_render_plain_when_tag_does_not_fit() {
    let mut m = sample_match();
    m.column = 100;
    let r = render_text(&m);
    match &r.body {
        TextBody::Plain(line) => assert_eq!(line, "// TODO: fix, now"),
        TextBody::Highlighted { .. } => panic!("expected a plain line"),
    }
}

#[test]
fn text_render_column_zero_starts_at_line_start() {
    let mut m = sample_match();
    m.column = 0;
    m.line_content = "TODO later".to_owned();
    let r = render_text(&m);
    assert_eq!(r.location, "src/a.rs:12:0:");
    match &r.body {
        TextBody::Highlighted { tag, after } => {
            assert_eq!(tag, "TODO");
            assert_eq!(after, " later");
        }
        TextBody::Plain(_) => panic!("expected a highlighted line"),
    }
}

#[test]
fn text_printer_shows_at_once_and_keeps_nothing() {
    let config = config_with("text");
    let mut p = Printer::new(&config);
    assert!(p.print(sample_match()).is_some());
    assert!(p.print(sample_match()).is_some());
    assert!(matches!(p.finish(), Finished::Nothing));
}

#[test]
fn csv_printer_holds_until_finish() {
    let config = config_with("csv");
    assert_eq!(config.output_format, OutputFormat::Csv);
    let mut p = Printer::new(&config);
    assert!(p.print(sample_match()).is_none());
    match p.finish() {
        Finished::Csv(lines) => {
            assert_eq!(lines.len(), 2);
            assert_eq!(lines[1], "src/a.rs,12,4,TODO,\"// TODO: fix, now\"");
        }
        _ => panic!("expected CSV output"),
    }
}

#[test]
fn json_printer_returns_matches_in_order() {
    let config = config_with("json");
    let mut p = Printer::new(&config);
    let mut second = sample_match();
    second.line_number = 20;
    assert!(p.print(sample_match()).is_none());
    assert!(p.print(second).is_none());
    match p.finish() {
        Finished::Json(ms) => {
            assert_eq!(ms.len(), 2);
            assert_eq!(ms[0].line_number, 12);
            assert_eq!(ms[1].line_number, 20);
        }
        _ => panic!("expected JSON output"),
    }
}

#[test]
fn printer_sequence_keeps_print_order() {
    for (format, expect_rows) in [("csv", true), ("json", false)] {
        let config = config_with(format);
        let mut p = Printer::new(&config);
        for n in 1..=3 {
            let mut m = sample_match();
            m.line_number = n;
            assert!(p.print(m).is_none());
        }
        match p.finish() {
            Finished::Csv(lines) if expect_rows => {
                assert_eq!(lines.len(), 4);
                assert!(lines[1].starts_with("src/a.rs,1,"));
                assert!(lines[3].starts_with("src/a.rs,3,"));
            }
            Finished::Json(ms) if !expect_rows => {
                let numbers: Vec<usize> = ms.iter().map(|m| m.line_number).collect();
                assert_eq!(numbers, vec![1, 2, 3]);
            }
            _ => panic!("unexpected output"),
        }
    }
}
