use todoscan::matcher::find_match;
use todoscan::matcher::line_match_from;
use todoscan::matcher::Pattern;

fn re(s: &str) -> Pattern {
    Pattern::new(s).unwrap()
}

#[test]
fn test_basic_match() {
    let m = find_match("// TODO: fix this", &re("TODO|FIXME")).unwrap();
    assert_eq!(m.tag, "TODO");
    assert_eq!(m.column, 4);
}

#[test]
fn test_no_match() {
    assert!(find_match("no annotation here", &re("TODO|FIXME")).is_none());
}

#[test]
fn test_match_at_column_1() {
    let m = find_match("FIXME: urgent", &re("TODO|FIXME")).unwrap();
    assert_eq!(m.tag, "FIXME");
    assert_eq!(m.column, 1);
}

#[test]
fn test_case_insensitive() {
    let m = find_match("// todo: fix", &re("(?i)TODO|FIXME")).unwrap();
    assert_eq!(m.tag, "todo");
}

#[test]
fn test_whitespace_only_no_match() {
    assert!(find_match("   \t  ", &re("TODO|FIXME|HACK|XXX|BUG")).is_none());
}

#[test]
fn test_bug_in_comment() {
    let m = find_match("# BUG in loop", &re("TODO|FIXME|HACK|XXX|BUG")).unwrap();
    assert_eq!(m.tag, "BUG");
}

#[test]
fn test_no_word_boundary_notabug() {
    // Intentional: default pattern has no \b, so "NOTABUG" matches BUG.
    let m = find_match("// NOTABUG comment", &re("TODO|FIXME|HACK|XXX|BUG"));
    assert!(m.is_some());
    assert_eq!(m.unwrap().tag, "BUG");
}

#[test]
fn test_first_match_returned() {
    // Line has both TODO and FIXME; only the first (TODO) is returned.
    let m = find_match("// TODO: also FIXME", &re("TODO|FIXME")).unwrap();
    assert_eq!(m.tag, "TODO");
}

// ---- further cases ----

#[test]
fn column_counts_bytes() {
    // "é" takes two bytes, so six bytes precede the tag: column 7.
    let m = find_match("// é TODO", &re("TODO")).unwrap();
    assert_eq!(m.column, 7);
    assert_eq!(&"// é TODO"[m.column - 1..m.column - 1 + m.tag.len()], "TODO");
}

#[test]
fn word_boundary_pattern_skips_notabug() {
    assert!(find_match("// NOTABUG comment", &re(r"\bBUG\b")).is_none());
}

#[test]
fn invalid_pattern_is_reported() {
    let e = Pattern::new("[invalid").err().unwrap();
    assert!(!e.is_empty());
}

#[test]
fn pattern_keeps_its_source() {
    assert_eq!(re("TODO|FIXME").as_str(), "TODO|FIXME");
}

#[test]
fn find_gives_offset_and_text() {
    let m = find_match("a FIXME", &re("FIX")).unwrap();
    assert_eq!((m.column, m.tag.as_str()), (3, "FIX"));
    assert!(re("FIX").is_match("a FIXME"));
    assert!(!re("FIX").is_match("nothing"));
}

#[test]
fn line_match_from_shifts_column() {
    let m = line_match_from(Some((0, "TODO".to_owned()))).unwrap();
    assert_eq!(m.column, 1);
    assert_eq!(m.tag, "TODO");
    assert!(line_match_from(None).is_none());
}
