use todoscan::config::Args;
use todoscan::config::Config;
use todoscan::config::ConfigError;
use todoscan::config::OutputFormat;
use todoscan::config::ResolvedPath;
use todoscan::config::parse_extensions;
use todoscan::config::pattern_source;

fn make_args(overrides: impl FnOnce(&mut Args)) -> Args {
    let mut args = Args {
        path: None,
        ext: None,
        file: None,
        pattern: None,
        ignore_case: false,
        no_gitignore: false,
        no_color: false,
        context: 0,
        output: "text".to_owned(),
    };
    overrides(&mut args);
    args
}

/// The current directory as the program would have resolved it.
fn cwd() -> Option<String> {
    Some("/work".to_owned())
}

#[test]
fn test_invalid_regex() {
    let args = make_args(|a| a.pattern = Some("[invalid".to_owned()));
    assert!(Config::from_args(args, cwd(), None).is_err());
}

#[test]
fn config_test_nonexistent_path() {
    let args = make_args(|a| a.path = Some("/nonexistent/path/xyz".to_owned()));
    // Resolving the path failed, so there is no canonical root.
    let result = Config::from_args(args, None, None);
    assert!(result.is_err());
    assert!(result.err().unwrap().message().contains("does not exist"));
}

#[test]
fn test_extension_strip_dot() {
    let args = make_args(|a| a.ext = Some(".rs".to_owned()));
    let config = Config::from_args(args, cwd(), None).unwrap();
    assert_eq!(config.extensions, Some(vec!["rs".to_owned()]));
}

#[test]
fn test_extension_multiple() {
    let args = make_args(|a| a.ext = Some("rs,py,js".to_owned()));
    let config = Config::from_args(args, cwd(), None).unwrap();
    assert_eq!(
        config.extensions,
        Some(vec!["rs".to_owned(), "py".to_owned(), "js".to_owned()])
    );
}

#[test]
fn test_default_pattern_matches() {
    let args = make_args(|_| {});
    let config = Config::from_args(args, cwd(), None).unwrap();
    assert!(config.pattern.is_match("// TODO: fix this"));
    assert!(config.pattern.is_match("// FIXME: broken"));
    assert!(config.pattern.is_match("# HACK: workaround"));
    assert!(config.pattern.is_match("/* XXX: unclear */"));
    assert!(config.pattern.is_match("// BUG: crash here"));
}

#[test]
fn test_ignore_case_wraps_pattern() {
    let args = make_args(|a| {
        a.pattern = Some("todo".to_owned());
        a.ignore_case = true;
    });
    let config = Config::from_args(args, cwd(), None).unwrap();
    assert!(config.pattern.is_match("// TODO: fix"));
    assert!(config.pattern.is_match("// todo: fix"));
}

#[test]
fn test_output_format_invalid() {
    let args = make_args(|a| a.output = "xml".to_owned());
    assert!(Config::from_args(args, cwd(), None).is_err());
}

#[test]
fn test_respect_gitignore_default() {
    let args = make_args(|_| {});
    let config = Config::from_args(args, cwd(), None).unwrap();
    assert!(config.respect_gitignore);
}

#[test]
fn config_test_no_gitignore_flag() {
    let args = make_args(|a| a.no_gitignore = true);
    let config = Config::from_args(args, cwd(), None).unwrap();
    assert!(!config.respect_gitignore);
}

// ---- further cases ----

#[test]
fn output_format_names_ignore_case() {
    assert_eq!(OutputFormat::from_str("JSON"), Ok(OutputFormat::Json));
    assert_eq!(OutputFormat::from_str("Csv"), Ok(OutputFormat::Csv));
    assert_eq!(OutputFormat::from_str("text"), Ok(OutputFormat::Text));
    assert_eq!("Json".parse::<OutputFormat>(), Ok(OutputFormat::Json));
    assert!("xml".parse::<OutputFormat>().is_err());
}

#[test]
fn output_format_error_is_lowercased() {
    let e = OutputFormat::from_str("XML").unwrap_err();
    assert_eq!(e, ConfigError::UnknownOutputFormat("xml".to_owned()));
    assert_eq!(
        e.message(),
        "unknown output format 'xml'; expected text, json, or csv"
    );
}

#[test]
fn output_format_from_lowercase_is_exact() {
    assert_eq!(OutputFormat::from_lowercase("json"), Ok(OutputFormat::Json));
    assert!(OutputFormat::from_lowercase("JSON").is_err());
}

#[test]
fn format_error_comes_before_path_error() {
    let args = make_args(|a| {
        a.output = "yaml".to_owned();
        a.path = Some("/missing".to_owned());
    });
    let e = Config::from_args(args, None, None).err().unwrap();
    assert_eq!(e, ConfigError::UnknownOutputFormat("yaml".to_owned()));
}

#[test]
fn missing_current_dir_error() {
    let args = make_args(|_| {});
    let e = Config::from_args(args, None, None).err().unwrap();
    assert_eq!(e, ConfigError::NoCurrentDir);
    assert_eq!(e.message(), "failed to get current directory");
}

#[test]
fn single_file_must_exist() {
    let args = make_args(|a| a.file = Some("missing.rs".to_owned()));
    let e = Config::from_args(args, cwd(), None).err().unwrap();
    assert_eq!(e, ConfigError::PathNotFound("missing.rs".to_owned()));
    assert_eq!(e.message(), "path does not exist: missing.rs");
}

#[test]
fn single_file_must_be_a_file() {
    let args = make_args(|a| a.file = Some("src".to_owned()));
    let resolved = ResolvedPath { canonical: "/work/src".to_owned(), is_file: false };
    let e = Config::from_args(args, cwd(), Some(resolved)).err().unwrap();
    assert_eq!(e, ConfigError::NotAFile("src".to_owned()));
    assert_eq!(e.message(), "'src' is not a file");
}

#[test]
fn single_file_is_canonicalised() {
    let args = make_args(|a| a.file = Some("a.rs".to_owned()));
    let resolved = ResolvedPath { canonical: "/work/a.rs".to_owned(), is_file: true };
    let c = Config::from_args(args, cwd(), Some(resolved)).unwrap();
    assert_eq!(c.single_file, Some("/work/a.rs".to_owned()));
    assert_eq!(c.root, "/work");
}

#[test]
fn invalid_pattern_error_names_the_raw_pattern() {
    let args = make_args(|a| {
        a.pattern = Some("(unclosed".to_owned());
        a.ignore_case = true;
    });
    let e = Config::from_args(args, cwd(), None).err().unwrap();
    match &e {
        ConfigError::InvalidPattern { pattern, reason } => {
            assert_eq!(pattern, "(unclosed");
            assert!(!reason.is_empty());
        }
        other => panic!("unexpected error {:?}", other),
    }
    assert_eq!(e.message(), "invalid regex pattern: (unclosed");
}

#[test]
fn flags_are_carried_over() {
    let args = make_args(|a| {
        a.no_color = true;
        a.context = 3;
        a.output = "CSV".to_owned();
    });
    let c = Config::from_args(args, cwd(), None).unwrap();
    assert!(!c.color);
    assert_eq!(c.context_lines, 3);
    assert_eq!(c.output_format, OutputFormat::Csv);
    assert_eq!(c.extensions, None);
    assert_eq!(c.pattern.as_str(), "TODO|FIXME|HACK|XXX|BUG");
}

#[test]
fn extension_list_is_normalised() {
    assert_eq!(
        parse_extensions(" .RS , ..py,,\tJs ,"),
        vec!["rs".to_owned(), "py".to_owned(), "js".to_owned()]
    );
    assert_eq!(parse_extensions(""), Vec::<String>::new());
    assert_eq!(parse_extensions(" . , "), Vec::<String>::new());
}

#[test]
fn pattern_source_cases() {
    assert_eq!(pattern_source(None, false), "TODO|FIXME|HACK|XXX|BUG");
    assert_eq!(pattern_source(None, true), "(?i)TODO|FIXME|HACK|XXX|BUG");
    assert_eq!(pattern_source(Some("x"), true), "(?i)x");
    assert_eq!(pattern_source(Some("x"), false), "x");
}
