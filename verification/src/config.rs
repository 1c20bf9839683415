//! Command-line options and the validated configuration built from them.
use vstd::prelude::*;
use vstd::string::StringExecFns;

use crate::matcher::regex_compile;
use crate::matcher::Pattern;
use crate::text::chars_equal;
use crate::text::chars_of;
use crate::text::split_on;
use crate::text::strip_dots;
use crate::text::strip_leading_dots;
use crate::text::string_from_chars;
use crate::text::to_lowercase;
use crate::text::trim;
use crate::text::trim_ws;
use crate::text::unicode_lowercase;

verus! {

/// How matches are reported.
#[derive(Debug, Clone, Copy, PartialEq, Eq, Structural)]
pub enum OutputFormat {
    Text,
    Json,
    Csv,
}

/// The format a lowercase name denotes, if any.
pub open spec fn format_named(name: Seq<char>) -> Option<OutputFormat> {
    if name == "text"@ {
        Some(OutputFormat::Text)
    } else if name == "json"@ {
        Some(OutputFormat::Json)
    } else if name == "csv"@ {
        Some(OutputFormat::Csv)
    } else {
        None
    }
}

/// Why a configuration could not be built.
#[derive(Debug, PartialEq, Eq)]
pub enum ConfigError {
    /// The output format (given here lowercased) is none of text, json, csv.
    UnknownOutputFormat(String),
    /// The given path could not be resolved.
    PathNotFound(String),
    /// No path was given and the current directory could not be determined.
    NoCurrentDir,
    /// The path given for single-file mode is not a regular file.
    NotAFile(String),
    /// The pattern (as the user gave it) does not compile.
    InvalidPattern { pattern: String, reason: String },
}

/// The mathematical content of a `ConfigError`.
pub enum ConfigErrorView {
    UnknownOutputFormat(Seq<char>),
    PathNotFound(Seq<char>),
    NoCurrentDir,
    NotAFile(Seq<char>),
    InvalidPattern(Seq<char>, Seq<char>),
}

impl View for ConfigError {
    type V = ConfigErrorView;

    open spec fn view(&self) -> ConfigErrorView {
        match self {
            ConfigError::UnknownOutputFormat(s) => ConfigErrorView::UnknownOutputFormat(s@),
            ConfigError::PathNotFound(s) => ConfigErrorView::PathNotFound(s@),
            ConfigError::NoCurrentDir => ConfigErrorView::NoCurrentDir,
            ConfigError::NotAFile(s) => ConfigErrorView::NotAFile(s@),
            ConfigError::InvalidPattern { pattern, reason } => ConfigErrorView::InvalidPattern(
                pattern@,
                reason@,
            ),
        }
    }
}

/// The one-line message for an error.
pub open spec fn error_message(e: ConfigErrorView) -> Seq<char> {
    match e {
        ConfigErrorView::UnknownOutputFormat(s) => "unknown output format '"@ + s
            + "'; expected text, json, or csv"@,
        ConfigErrorView::PathNotFound(p) => "path does not exist: "@ + p,
        ConfigErrorView::NoCurrentDir => "failed to get current directory"@,
        ConfigErrorView::NotAFile(p) => "'"@ + p + "' is not a file"@,
        ConfigErrorView::InvalidPattern(p, _) => "invalid regex pattern: "@ + p,
    }
}

impl ConfigError {
    /// The error's message, as the command line reports it.
    pub fn message(&self) -> (m: String)
        ensures
            m@ == error_message(self@),
    {
        match self {
            ConfigError::UnknownOutputFormat(s) => {
                let mut m = "unknown output format '".to_owned();
                m.append(s.as_str());
                m.append("'; expected text, json, or csv");
                m
            },
            ConfigError::PathNotFound(p) => {
                let mut m = "path does not exist: ".to_owned();
                m.append(p.as_str());
                m
            },
            ConfigError::NoCurrentDir => "failed to get current directory".to_owned(),
            ConfigError::NotAFile(p) => {
                let mut m = "'".to_owned();
                m.append(p.as_str());
                m.append("' is not a file");
                m
            },
            ConfigError::InvalidPattern { pattern, .. } => {
                let mut m = "invalid regex pattern: ".to_owned();
                m.append(pattern.as_str());
                m
            },
        }
    }
}

impl OutputFormat {
    /// The format named by an already lowercased string.
    pub fn from_lowercase(name: &str) -> (res: Result<OutputFormat, ConfigError>)
        ensures
            match format_named(name@) {
                Some(f) => res == Ok::<OutputFormat, ConfigError>(f),
                None => res matches Err(e) && e@ == ConfigErrorView::UnknownOutputFormat(name@),
            },
    {
        let chars = chars_of(name);
        let text = chars_of("text");
        let json = chars_of("json");
        let csv = chars_of("csv");
        if chars_equal(&chars, &text) {
            Ok(OutputFormat::Text)
        } else if chars_equal(&chars, &json) {
            Ok(OutputFormat::Json)
        } else if chars_equal(&chars, &csv) {
            Ok(OutputFormat::Csv)
        } else {
            Err(ConfigError::UnknownOutputFormat(name.to_owned()))
        }
    }

    /// Parses an output format name, ignoring case.
    pub fn from_str(s: &str) -> (res: Result<OutputFormat, ConfigError>)
        ensures
            match format_named(unicode_lowercase(s@)) {
                Some(f) => res == Ok::<OutputFormat, ConfigError>(f),
                None => res matches Err(e) && e@ == ConfigErrorView::UnknownOutputFormat(
                    unicode_lowercase(s@),
                ),
            },
    {
        let lower = to_lowercase(s);
        OutputFormat::from_lowercase(lower.as_str())
    }
}

impl std::str::FromStr for OutputFormat {
    type Err = ConfigError;

    /// Parses an output format name, ignoring case.
    fn from_str(s: &str) -> (res: Result<OutputFormat, ConfigError>)
        ensures
            match format_named(unicode_lowercase(s@)) {
                Some(f) => res == Ok::<OutputFormat, ConfigError>(f),
                None => res matches Err(e) && e@ == ConfigErrorView::UnknownOutputFormat(
                    unicode_lowercase(s@),
                ),
            },
    {
        OutputFormat::from_str(s)
    }
}

/// The command-line options.
pub struct Args {
    /// Directory or file to scan (default: current directory).
    pub path: Option<String>,
    /// Comma-separated file extensions to include (e.g. rs,py,js).
    pub ext: Option<String>,
    /// Scan a single specific file.
    pub file: Option<String>,
    /// Regex pattern to match (default: "TODO|FIXME|HACK|XXX|BUG").
    pub pattern: Option<String>,
    /// Case-insensitive matching.
    pub ignore_case: bool,
    /// Don't respect .gitignore rules.
    pub no_gitignore: bool,
    /// Disable colored output.
    pub no_color: bool,
    /// Show N lines of context around each match.
    pub context: usize,
    /// Output format: text, json, csv.
    pub output: String,
}

/// What the file system said about a path: its canonical form and whether
/// it is a regular file.
pub struct ResolvedPath {
    pub canonical: String,
    pub is_file: bool,
}

/// The validated configuration of a scan.
pub struct Config {
    pub root: String,
    pub extensions: Option<Vec<String>>,
    pub single_file: Option<String>,
    pub pattern: Pattern,
    pub respect_gitignore: bool,
    pub color: bool,
    pub context_lines: usize,
    pub output_format: OutputFormat,
}

/// The pattern searched for when none is given.
pub open spec fn default_pattern() -> Seq<char> {
    "TODO|FIXME|HACK|XXX|BUG"@
}

/// The pattern text the user asked for (or the default one).
pub open spec fn raw_pattern(pattern: Option<Seq<char>>) -> Seq<char> {
    match pattern {
        Some(p) => p,
        None => default_pattern(),
    }
}

/// The pattern text that is compiled: case-insensitive matching prefixes
/// the raw pattern with `(?i)`.
pub open spec fn pattern_text(pattern: Option<Seq<char>>, ignore_case: bool) -> Seq<char> {
    if ignore_case {
        "(?i)"@ + raw_pattern(pattern)
    } else {
        raw_pattern(pattern)
    }
}

/// An extension as written in the list, normalised: white space trimmed,
/// leading dots removed, lowercased.
pub open spec fn normalize_extension(piece: Seq<char>) -> Seq<char> {
    unicode_lowercase(strip_leading_dots(trim_ws(piece)))
}

/// The normalised extensions of `pieces`, in order, without the empty ones.
pub open spec fn extensions_from(pieces: Seq<Seq<char>>) -> Seq<Seq<char>>
    decreases pieces.len(),
{
    if pieces.len() == 0 {
        seq![]
    } else {
        let prev = extensions_from(pieces.drop_last());
        let e = normalize_extension(pieces.last());
        if e.len() > 0 {
            prev.push(e)
        } else {
            prev
        }
    }
}

/// The extensions a comma-separated list names.
pub open spec fn extension_list(list: Seq<char>) -> Seq<Seq<char>> {
    extensions_from(split_on(list, ','))
}

/// The characters of each string.
pub open spec fn string_views(v: Seq<String>) -> Seq<Seq<char>> {
    v.map_values(|s: String| s@)
}

pub open spec fn opt_view(o: Option<String>) -> Option<Seq<char>> {
    match o {
        Some(s) => Some(s@),
        None => None,
    }
}

fn normalize_piece(piece: &[char]) -> (e: String)
    ensures
        e@ == normalize_extension(piece@),
{
    let trimmed = trim(piece);
    let stripped = strip_dots(&trimmed);
    let s = string_from_chars(&stripped);
    to_lowercase(s.as_str())
}

/// Parses a comma-separated extension list: each item is trimmed, loses
/// its leading dots and is lowercased; empty items are dropped.
pub fn parse_extensions(list: &str) -> (res: Vec<String>)
    ensures
        string_views(res@) == extension_list(list@),
{
    let chars = chars_of(list);
    let n = chars.len();
    let mut res: Vec<String> = Vec::new();
    let mut start: usize = 0;
    proof {
        assert(chars@.take(0) =~= Seq::<char>::empty());
        assert(split_on(chars@.take(0), ',') =~= seq![Seq::<char>::empty()]);
        assert(split_on(chars@.take(0), ',').drop_last() =~= Seq::<Seq<char>>::empty());
        assert(string_views(res@) =~= Seq::<Seq<char>>::empty());
    }
    for i in 0..n
        invariant
            n == chars@.len(),
            start <= i,
            split_on(chars@.take(i as int), ',').len() >= 1,
            split_on(chars@.take(i as int), ',').last() == chars@.subrange(start as int, i as int),
            string_views(res@) == extensions_from(split_on(chars@.take(i as int), ',').drop_last()),
    {
        let ghost before = split_on(chars@.take(i as int), ',');
        proof {
            assert(chars@.take(i + 1).drop_last() =~= chars@.take(i as int));
            assert(chars@.take(i + 1).last() == chars@[i as int]);
        }
        if chars[i] == ',' {
            let piece = crate::text::char_range(&chars, start, i);
            let e = normalize_piece(&piece);
            let ghost old_res = res@;
            if !e.as_str().is_empty() {
                res.push(e);
            }
            proof {
                let after = split_on(chars@.take(i + 1), ',');
                assert(after == before.push(Seq::<char>::empty()));
                assert(after.drop_last() =~= before);
                if e@.len() > 0 {
                    assert(string_views(res@) =~= string_views(old_res).push(e@));
                }
            }
            start = i + 1;
            proof {
                assert(chars@.subrange(start as int, i + 1) =~= Seq::<char>::empty());
            }
        } else {
            proof {
                let after = split_on(chars@.take(i + 1), ',');
                assert(after == before.update(before.len() - 1, before.last().push(chars@[i as int])));
                assert(after.drop_last() =~= before.drop_last());
                assert(chars@.subrange(start as int, i + 1) =~= chars@.subrange(start as int, i as int).push(chars@[i as int]));
            }
        }
    }
    proof {
        assert(chars@.take(n as int) =~= chars@);
    }
    let piece = crate::text::char_range(&chars, start, n);
    let e = normalize_piece(&piece);
    let ghost old_res = res@;
    if !e.as_str().is_empty() {
        res.push(e);
    }
    proof {
        let all = split_on(chars@, ',');
        assert(all.drop_last().push(all.last()) =~= all);
        if e@.len() > 0 {
            assert(string_views(res@) =~= string_views(old_res).push(e@));
        }
    }
    res
}

/// The pattern text to compile, from the user's pattern and the
/// ignore-case flag.
pub fn pattern_source(pattern: Option<&str>, ignore_case: bool) -> (s: String)
    ensures
        s@ == pattern_text(
            match pattern {
                Some(p) => Some(p@),
                None => None,
            },
            ignore_case,
        ),
{
    let raw: &str = match pattern {
        Some(p) => p,
        None => "TODO|FIXME|HACK|XXX|BUG",
    };
    if ignore_case {
        let mut s = "(?i)".to_owned();
        s.append(raw);
        s
    } else {
        raw.to_owned()
    }
}

/// The first problem `Config::from_args` reports for these inputs, in the
/// order it checks them: the output format, the root, the single file,
/// the pattern.
pub open spec fn config_error(
    args: Args,
    root: Option<String>,
    file: Option<ResolvedPath>,
) -> Option<ConfigErrorView> {
    let lower = unicode_lowercase(args.output@);
    let source = pattern_text(opt_view(args.pattern), args.ignore_case);
    if format_named(lower) is None {
        Some(ConfigErrorView::UnknownOutputFormat(lower))
    } else if root is None {
        Some(
            match args.path {
                Some(p) => ConfigErrorView::PathNotFound(p@),
                None => ConfigErrorView::NoCurrentDir,
            },
        )
    } else if args.file is Some && file is None {
        Some(ConfigErrorView::PathNotFound(args.file.unwrap()@))
    } else if args.file is Some && !file.unwrap().is_file {
        Some(ConfigErrorView::NotAFile(args.file.unwrap()@))
    } else if regex_compile(source) is Err {
        Some(
            ConfigErrorView::InvalidPattern(
                raw_pattern(opt_view(args.pattern)),
                regex_compile(source)->Err_0,
            ),
        )
    } else {
        None
    }
}

impl Config {
    /// Builds the configuration from the options. `root` is the canonical
    /// form of the given path (or the current directory when none is given),
    /// `None` when it could not be resolved; `file` is what resolving the
    /// single-file path gave, `None` when it could not be resolved.
    pub fn from_args(args: Args, root: Option<String>, file: Option<ResolvedPath>) -> (res: Result<
        Config,
        ConfigError,
    >)
        ensures
            match config_error(args, root, file) {
                Some(e) => res matches Err(err) && err@ == e,
                None => res is Ok,
            },
            res matches Ok(c) ==> {
                &&& Some(c.output_format) == format_named(unicode_lowercase(args.output@))
                &&& c.root@ == root.unwrap()@
                &&& opt_view(c.single_file) == (if args.file is Some {
                    Some(file.unwrap().canonical@)
                } else {
                    None
                })
                &&& match args.ext {
                    Some(e) => c.extensions matches Some(v) && string_views(v@) == extension_list(
                        e@,
                    ),
                    None => c.extensions is None,
                }
                &&& c.pattern@ == pattern_text(opt_view(args.pattern), args.ignore_case)
                &&& c.respect_gitignore == !args.no_gitignore
                &&& c.color == !args.no_color
                &&& c.context_lines == args.context
            },
    {
        let output_format = match OutputFormat::from_str(args.output.as_str()) {
            Ok(f) => f,
            Err(e) => return Err(e),
        };
        let root = match root {
            Some(r) => r,
            None => {
                return Err(
                    match args.path {
                        Some(p) => ConfigError::PathNotFound(p),
                        None => ConfigError::NoCurrentDir,
                    },
                );
            },
        };
        let single_file = match args.file {
            Some(f) => match file {
                Some(r) => {
                    if !r.is_file {
                        return Err(ConfigError::NotAFile(f));
                    }
                    Some(r.canonical)
                },
                None => {
                    return Err(ConfigError::PathNotFound(f));
                },
            },
            None => None,
        };
        let extensions = match &args.ext {
            Some(e) => Some(parse_extensions(e.as_str())),
            None => None,
        };
        let raw: Option<&str> = match &args.pattern {
            Some(p) => Some(p.as_str()),
            None => None,
        };
        let source = pattern_source(raw, args.ignore_case);
        let pattern = match Pattern::new(source.as_str()) {
            Ok(p) => p,
            Err(reason) => {
                let given = match raw {
                    Some(p) => p.to_owned(),
                    None => "TODO|FIXME|HACK|XXX|BUG".to_owned(),
                };
                return Err(ConfigError::InvalidPattern { pattern: given, reason });
            },
        };
        Ok(
            Config {
                root,
                extensions,
                single_file,
                pattern,
                respect_gitignore: !args.no_gitignore,
                color: !args.no_color,
                context_lines: args.context,
                output_format,
            },
        )
    }
}

/// No extension of a parsed list is empty.
pub proof fn lemma_extension_list_nonempty(list: Seq<char>)
    ensures
        forall|k: int|
            0 <= k < extension_list(list).len() ==> #[trigger] extension_list(list)[k].len() > 0,
{
    lemma_extensions_from_nonempty(split_on(list, ','));
}

proof fn lemma_extensions_from_nonempty(pieces: Seq<Seq<char>>)
    ensures
        forall|k: int|
            0 <= k < extensions_from(pieces).len() ==> #[trigger] extensions_from(pieces)[k].len() > 0,
    decreases pieces.len(),
{
    if pieces.len() > 0 {
        lemma_extensions_from_nonempty(pieces.drop_last());
        let prev = extensions_from(pieces.drop_last());
        let r = extensions_from(pieces);
        assert forall|k: int| 0 <= k < r.len() implies #[trigger] r[k].len() > 0 by {
            if k < prev.len() {
                assert(r[k] == prev[k]);
            }
        }
    }
}


/// The parsed extension list is exactly the normalised pieces of the
/// comma-split list that are not empty, in order.
pub proof fn lemma_extension_list_is_nonempty_pieces(list: Seq<char>)
    ensures
        extension_list(list) == split_on(list, ',').map_values(|p: Seq<char>| normalize_extension(p)).filter(
            |e: Seq<char>| e.len() > 0,
        ),
{
    lemma_extensions_from_filter(split_on(list, ','));
}

proof fn lemma_extensions_from_filter(pieces: Seq<Seq<char>>)
    ensures
        extensions_from(pieces) == pieces.map_values(|p: Seq<char>| normalize_extension(p)).filter(
            |e: Seq<char>| e.len() > 0,
        ),
    decreases pieces.len(),
{
    reveal_with_fuel(Seq::<_>::filter, 1);
    let f = |p: Seq<char>| normalize_extension(p);
    let mapped = pieces.map_values(f);
    if pieces.len() > 0 {
        lemma_extensions_from_filter(pieces.drop_last());
        assert(mapped.drop_last() =~= pieces.drop_last().map_values(f));
        assert(mapped.last() == normalize_extension(pieces.last()));
    } else {
        assert(mapped =~= Seq::<Seq<char>>::empty());
    }
}


/// The output format names: `text`, `json` and `csv` name the text, JSON
/// and CSV formats, and no other name names a format.
pub proof fn lemma_format_names(name: Seq<char>)
    ensures
        format_named("text"@) == Some(OutputFormat::Text),
        format_named("json"@) == Some(OutputFormat::Json),
        format_named("csv"@) == Some(OutputFormat::Csv),
        format_named(name) is Some <==> (name == "text"@ || name == "json"@ || name == "csv"@),
{
    reveal_strlit("text");
    reveal_strlit("json");
    reveal_strlit("csv");
    assert("json"@ != "text"@) by {
        assert("json"@[0] != "text"@[0]);
    }
    assert("csv"@ != "text"@) by {
        assert("csv"@.len() != "text"@.len());
    }
    assert("csv"@ != "json"@) by {
        assert("csv"@.len() != "json"@.len());
    }
}

} // verus!
