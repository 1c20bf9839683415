//! Scanning the contents of one file for annotations, and the choice of
//! which files a scan reads.
use vstd::prelude::*;
use vstd::slice::slice_subrange;
use vstd::utf8::decode_utf8;
use vstd::utf8::encode_utf8;
use vstd::utf8::valid_utf8;

use crate::config::string_views;
use crate::config::Config;
use crate::matcher::find_match;
use crate::matcher::line_match_of;
use crate::matcher::line_match_view;
use crate::matcher::match_in_place;
use crate::matcher::regex_first_match;
use crate::matcher::Pattern;
use crate::text::chars_of;
use crate::text::split_on;
use crate::text::string_from_chars;
use crate::text::to_lowercase;
use crate::text::unicode_lowercase;
use crate::output::renderable;

verus! {

/// One annotation found in a file.
pub struct Match {
    pub path: String,
    /// 1-based line number.
    pub line_number: usize,
    /// 1-based byte column.
    pub column: usize,
    pub tag: String,
    pub line_content: String,
    pub context_before: Vec<String>,
    pub context_after: Vec<String>,
}

/// The mathematical content of a `Match`.
pub struct MatchView {
    pub path: Seq<char>,
    pub line_number: int,
    pub column: int,
    pub tag: Seq<char>,
    pub line_content: Seq<char>,
    pub context_before: Seq<Seq<char>>,
    pub context_after: Seq<Seq<char>>,
}

impl View for Match {
    type V = MatchView;

    open spec fn view(&self) -> MatchView {
        MatchView {
            path: self.path@,
            line_number: self.line_number as int,
            column: self.column as int,
            tag: self.tag@,
            line_content: self.line_content@,
            context_before: string_views(self.context_before@),
            context_after: string_views(self.context_after@),
        }
    }
}

/// The views of a sequence of matches.
pub open spec fn match_views(v: Seq<Match>) -> Seq<MatchView> {
    v.map_values(|m: Match| m@)
}

/// The tag of `m` sits in its line at byte column `column`, as a regex match
/// does.
pub open spec fn tag_in_place(m: MatchView) -> bool {
    m.column >= 1 && match_in_place(m.line_content, m.column - 1, m.tag)
}

/// Calls `std::str::from_utf8` and copies the result. Claimed, as its
/// documentation says: it succeeds exactly on valid UTF-8, giving the
/// characters the bytes encode.
#[verifier::external_body]
fn utf8_string(bytes: &[u8]) -> (res: Option<String>)
    ensures
        res is Some <==> valid_utf8(bytes@),
        res matches Some(s) ==> s@ == decode_utf8(bytes@),
{
    match std::str::from_utf8(bytes) {
        Ok(s) => Some(s.to_owned()),
        Err(_) => None,
    }
}

/// The text of one line read from a file, as `BufRead::lines` gives it and
/// the scan keeps it: a line that is not valid UTF-8 reads as empty; a line
/// ended by a newline also loses a carriage return just before it.
pub open spec fn line_text(piece: Seq<u8>, terminated: bool) -> Seq<char> {
    let t = if valid_utf8(piece) {
        decode_utf8(piece)
    } else {
        Seq::<char>::empty()
    };
    if terminated && t.len() > 0 && t.last() == '\r' {
        t.drop_last()
    } else {
        t
    }
}

/// The lines of a file's contents: the pieces between newline bytes, where a
/// final piece counts only when it is not empty.
pub open spec fn file_lines(contents: Seq<u8>) -> Seq<Seq<char>> {
    let pieces = split_on(contents, 10u8);
    let done = pieces.drop_last().map_values(|p: Seq<u8>| line_text(p, true));
    if pieces.last().len() > 0 {
        done.push(line_text(pieces.last(), false))
    } else {
        done
    }
}

/// How many leading bytes are inspected to tell binary files apart.
pub open spec fn sniff_len(len: nat) -> int {
    if len < 512 {
        len as int
    } else {
        512
    }
}

/// A file is binary when one of its first 512 bytes is a null byte.
pub open spec fn looks_binary(contents: Seq<u8>) -> bool {
    contents.take(sniff_len(contents.len())).contains(0u8)
}

fn line_of(piece: &[u8], terminated: bool) -> (s: String)
    ensures
        s@ == line_text(piece@, terminated),
        encode_utf8(s@).len() <= usize::MAX,
{
    let _ = piece.len();
    match utf8_string(piece) {
        Some(s) => {
            proof {
                vstd::utf8::decode_utf8_encode_utf8(piece@);
            }
            if terminated {
                let chars = chars_of(s.as_str());
                let n = chars.len();
                if n > 0 && chars[n - 1] == '\r' {
                    let kept = crate::text::char_range(&chars, 0, n - 1);
                    proof {
                        assert(chars@.subrange(0, n - 1) =~= chars@.drop_last());
                        assert(chars@ =~= chars@.drop_last() + seq![chars@.last()]);
                        crate::text::lemma_encode_utf8_concat(chars@.drop_last(), seq![chars@.last()]);
                    }
                    return string_from_chars(&kept);
                }
            }
            s
        },
        None => String::new(),
    }
}

/// Splits a file's contents into lines, as reading it line by line does.
pub fn split_lines(contents: &[u8]) -> (lines: Vec<String>)
    ensures
        string_views(lines@) == file_lines(contents@),
        forall|k: int| 0 <= k < lines@.len() ==> encode_utf8(#[trigger] lines@[k]@).len() <= usize::MAX,
{
    let n = contents.len();
    let mut lines: Vec<String> = Vec::new();
    let mut start: usize = 0;
    proof {
        assert(contents@.take(0) =~= Seq::<u8>::empty());
        assert(split_on(contents@.take(0), 10u8) =~= seq![Seq::<u8>::empty()]);
        assert(split_on(contents@.take(0), 10u8).drop_last().map_values(
            |p: Seq<u8>| line_text(p, true),
        ) =~= Seq::<Seq<char>>::empty());
        assert(string_views(lines@) =~= Seq::<Seq<char>>::empty());
    }
    for i in 0..n
        invariant
            n == contents@.len(),
            start <= i,
            split_on(contents@.take(i as int), 10u8).len() >= 1,
            split_on(contents@.take(i as int), 10u8).last() == contents@.subrange(
                start as int,
                i as int,
            ),
            string_views(lines@) == split_on(contents@.take(i as int), 10u8).drop_last().map_values(
                |p: Seq<u8>| line_text(p, true),
            ),
            forall|k: int| 0 <= k < lines@.len() ==> encode_utf8(#[trigger] lines@[k]@).len() <= usize::MAX,
    {
        let ghost before = split_on(contents@.take(i as int), 10u8);
        proof {
            assert(contents@.take(i + 1).drop_last() =~= contents@.take(i as int));
            assert(contents@.take(i + 1).last() == contents@[i as int]);
        }
        if contents[i] == 10u8 {
            let piece = slice_subrange(contents, start, i);
            let line = line_of(piece, true);
            let ghost old_lines = lines@;
            lines.push(line);
            proof {
                let after = split_on(contents@.take(i + 1), 10u8);
                assert(after == before.push(Seq::<u8>::empty()));
                assert(after.drop_last() =~= before);
                assert(before =~= before.drop_last().push(before.last()));
                assert(string_views(lines@) =~= string_views(old_lines).push(line@));
                assert(after.drop_last().map_values(|p: Seq<u8>| line_text(p, true))
                    =~= before.drop_last().map_values(|p: Seq<u8>| line_text(p, true)).push(
                    line_text(before.last(), true),
                ));
            }
            start = i + 1;
            proof {
                assert(contents@.subrange(start as int, i + 1) =~= Seq::<u8>::empty());
            }
        } else {
            proof {
                let after = split_on(contents@.take(i + 1), 10u8);
                assert(after == before.update(
                    before.len() - 1,
                    before.last().push(contents@[i as int]),
                ));
                assert(after.drop_last() =~= before.drop_last());
                assert(contents@.subrange(start as int, i + 1) =~= contents@.subrange(
                    start as int,
                    i as int,
                ).push(contents@[i as int]));
            }
        }
    }
    proof {
        assert(contents@.take(n as int) =~= contents@);
    }
    if start < n {
        let piece = slice_subrange(contents, start, n);
        let line = line_of(piece, false);
        let ghost old_lines = lines@;
        lines.push(line);
        proof {
            assert(string_views(lines@) =~= string_views(old_lines).push(line@));
        }
    }
    lines
}

/// Whether a file's contents look binary: a null byte among the first 512.
pub fn is_binary(contents: &[u8]) -> (res: bool)
    ensures
        res == looks_binary(contents@),
{
    let n: usize = if contents.len() < 512 {
        contents.len()
    } else {
        512
    };
    for i in 0..n
        invariant
            n == sniff_len(contents@.len()),
            n <= contents@.len(),
            forall|k: int| 0 <= k < i ==> contents@[k] != 0u8,
    {
        if contents[i] == 0u8 {
            assert(contents@.take(n as int)[i as int] == 0u8);
            return true;
        }
    }
    proof {
        assert forall|k: int| 0 <= k < n implies contents@.take(n as int)[k] != 0u8 by {}
    }
    false
}

/// The lines shown before line `i` (0-based): up to `n` of them.
pub open spec fn lines_before(lines: Seq<Seq<char>>, i: int, n: int) -> Seq<Seq<char>> {
    lines.subrange(
        if i >= n {
            i - n
        } else {
            0
        },
        i,
    )
}

/// The lines shown after line `i` (0-based): up to `n` of them.
pub open spec fn lines_after(lines: Seq<Seq<char>>, i: int, n: int) -> Seq<Seq<char>> {
    lines.subrange(
        i + 1,
        if i + 1 + n <= lines.len() {
            i + 1 + n
        } else {
            lines.len() as int
        },
    )
}

/// The matches found in the first `upto` lines, in line order: one for
/// every line on which the pattern matches, with `n` lines of context.
pub open spec fn scan_spec(
    path: Seq<char>,
    lines: Seq<Seq<char>>,
    pattern: Seq<char>,
    n: int,
    upto: int,
) -> Seq<MatchView>
    decreases upto,
{
    if upto <= 0 {
        seq![]
    } else {
        let prev = scan_spec(path, lines, pattern, n, upto - 1);
        let i = upto - 1;
        match line_match_of(regex_first_match(pattern, lines[i])) {
            Some((column, tag)) => prev.push(
                MatchView {
                    path,
                    line_number: i + 1,
                    column,
                    tag,
                    line_content: lines[i],
                    context_before: lines_before(lines, i, n),
                    context_after: lines_after(lines, i, n),
                },
            ),
            None => prev,
        }
    }
}

fn clone_range(lines: &Vec<String>, a: usize, b: usize) -> (r: Vec<String>)
    requires
        a <= b <= lines@.len(),
    ensures
        string_views(r@) == string_views(lines@).subrange(a as int, b as int),
{
    let mut r: Vec<String> = Vec::new();
    for k in a..b
        invariant
            a <= b <= lines@.len(),
            string_views(r@) == string_views(lines@).subrange(a as int, k as int),
    {
        let ghost old_r = r@;
        r.push(lines[k].clone());
        proof {
            assert(string_views(r@) =~= string_views(old_r).push(lines@[k as int]@));
            assert(string_views(lines@).subrange(a as int, k + 1) =~= string_views(
                lines@,
            ).subrange(a as int, k as int).push(lines@[k as int]@));
        }
    }
    r
}

/// Reports every line of `lines` on which `pattern` matches, in order,
/// each with up to `context` lines before and after it.
pub fn scan_lines(path: &str, lines: &Vec<String>, pattern: &Pattern, context: usize) -> (res: Vec<
    Match,
>)
    requires
        forall|k: int| 0 <= k < lines@.len() ==> encode_utf8(#[trigger] lines@[k]@).len() <= usize::MAX,
    ensures
        match_views(res@) == scan_spec(
            path@,
            string_views(lines@),
            pattern@,
            context as int,
            lines@.len() as int,
        ),
        forall|k: int| 0 <= k < res@.len() ==> tag_in_place(#[trigger] res@[k]@),
        forall|k: int| 0 <= k < res@.len() ==> renderable(#[trigger] res@[k]@),
{
    let ghost views = string_views(lines@);
    let len = lines.len();
    let mut res: Vec<Match> = Vec::new();
    for i in 0..len
        invariant
            len == lines@.len(),
            views == string_views(lines@),
            match_views(res@) == scan_spec(path@, views, pattern@, context as int, i as int),
            forall|k: int| 0 <= k < res@.len() ==> tag_in_place(#[trigger] res@[k]@),
            forall|k: int| 0 <= k < res@.len() ==> renderable(#[trigger] res@[k]@),
            forall|k: int| 0 <= k < lines@.len() ==> encode_utf8(#[trigger] lines@[k]@).len() <= usize::MAX,
    {
        let ghost old_res = res@;
        let hit = find_match(lines[i].as_str(), pattern);
        match hit {
            Some(hit) => {
                let before_start = if i >= context {
                    i - context
                } else {
                    0
                };
                let after_end = if context <= len - (i + 1) {
                    i + 1 + context
                } else {
                    len
                };
                let context_before = clone_range(lines, before_start, i);
                let context_after = clone_range(lines, i + 1, after_end);
                let m = Match {
                    path: path.to_owned(),
                    line_number: i + 1,
                    column: hit.column,
                    tag: hit.tag,
                    line_content: lines[i].clone(),
                    context_before,
                    context_after,
                };
                proof {
                    crate::output::lemma_in_place_renderable(m@);
                }
                res.push(m);
                proof {
                    assert(views[i as int] == lines@[i as int]@);
                    assert(match_views(res@) =~= match_views(old_res).push(m@));
                }
            },
            None => {
                proof {
                    assert(views[i as int] == lines@[i as int]@);
                }
            },
        }
    }
    res
}

/// Scans a file's contents: binary files give nothing; otherwise every
/// line on which the configured pattern matches is reported, in order.
pub fn scan_file(path: &str, contents: &[u8], config: &Config) -> (res: Vec<Match>)
    ensures
        looks_binary(contents@) ==> res@.len() == 0,
        !looks_binary(contents@) ==> match_views(res@) == scan_spec(
            path@,
            file_lines(contents@),
            config.pattern@,
            config.context_lines as int,
            file_lines(contents@).len() as int,
        ),
        forall|k: int| 0 <= k < res@.len() ==> tag_in_place(#[trigger] res@[k]@),
        forall|k: int| 0 <= k < res@.len() ==> renderable(#[trigger] res@[k]@),
{
    if is_binary(contents) {
        return Vec::new();
    }
    let lines = split_lines(contents);
    scan_lines(path, &lines, &config.pattern, config.context_lines)
}

/// Whether a file with this extension is scanned: always when no extension
/// list is configured; otherwise when its lowercased extension (the empty
/// string for a file without one) is in the list.
pub open spec fn extension_selected(extension: Option<Seq<char>>, extensions: Option<Seq<Seq<char>>>) -> bool {
    match extensions {
        None => true,
        Some(list) => list.contains(
            match extension {
                Some(e) => unicode_lowercase(e),
                None => Seq::<char>::empty(),
            },
        ),
    }
}

pub open spec fn extensions_view(e: Option<Vec<String>>) -> Option<Seq<Seq<char>>> {
    match e {
        Some(v) => Some(string_views(v@)),
        None => None,
    }
}

/// Whether the configured extension filter lets a file with this extension
/// through. `extension` is the file's extension, `None` when it has none or
/// it is not valid UTF-8.
pub fn extension_matches(extension: Option<&str>, config: &Config) -> (res: bool)
    ensures
        res == extension_selected(
            match extension {
                Some(e) => Some(e@),
                None => None,
            },
            extensions_view(config.extensions),
        ),
{
    match &config.extensions {
        None => true,
        Some(exts) => {
            let file_ext = match extension {
                Some(e) => to_lowercase(e),
                None => String::new(),
            };
            let n = exts.len();
            for i in 0..n
                invariant
                    n == exts@.len(),
                    forall|k: int| 0 <= k < i ==> exts@[k]@ != file_ext@,
                    extensions_view(config.extensions) == Some(string_views(exts@)),
                    file_ext@ == match extension {
                        Some(e) => unicode_lowercase(e@),
                        None => Seq::<char>::empty(),
                    },
            {
                if exts[i].eq(&file_ext) {
                    assert(string_views(exts@)[i as int] == file_ext@);
                    assert(string_views(exts@).contains(file_ext@));
                    return true;
                }
            }
            proof {
                assert forall|k: int| 0 <= k < n implies string_views(exts@)[k] != file_ext@ by {
                    assert(string_views(exts@)[k] == exts@[k]@);
                }
            }
            false
        },
    }
}

/// The index of the last `.` in `name`, or -1 when there is none.
pub open spec fn last_dot(name: Seq<char>) -> int
    decreases name.len(),
{
    if name.len() == 0 {
        -1
    } else if name.last() == '.' {
        name.len() - 1
    } else {
        last_dot(name.drop_last())
    }
}

/// The extension of a file name, as `Path::extension` defines it: `None`
/// when there is no file name, when the name holds no `.`, or when its only
/// `.` is its first character; otherwise the part after the final `.`.
pub open spec fn name_extension(file_name: Option<Seq<char>>) -> Option<Seq<char>> {
    match file_name {
        None => None,
        Some(name) => if last_dot(name) <= 0 {
            None
        } else {
            Some(name.subrange(last_dot(name) + 1, name.len() as int))
        },
    }
}

/// The extension of a file name (see `name_extension`).
pub fn file_extension(file_name: Option<&str>) -> (res: Option<String>)
    ensures
        opt_string_view(res) == name_extension(
            match file_name {
                Some(n) => Some(n@),
                None => None,
            },
        ),
{
    match file_name {
        None => None,
        Some(name) => {
            let chars = chars_of(name);
            let n = chars.len();
            let mut k: usize = n;
            proof {
                assert(chars@.take(n as int) =~= chars@);
            }
            while k > 0 && chars[k - 1] != '.'
                invariant
                    n == chars@.len(),
                    k <= n,
                    last_dot(chars@) == last_dot(chars@.take(k as int)),
                decreases k,
            {
                assert(chars@.take(k as int).drop_last() =~= chars@.take(k - 1));
                k = k - 1;
            }
            proof {
                if k > 0 {
                    assert(chars@.take(k as int).last() == chars@[k - 1]);
                }
            }
            // Now the last dot is at k - 1, or there is none when k == 0.
            if k <= 1 {
                None
            } else {
                let ext = crate::text::char_range(&chars, k, n);
                Some(string_from_chars(&ext))
            }
        },
    }
}

pub open spec fn opt_string_view(o: Option<String>) -> Option<Seq<char>> {
    match o {
        Some(s) => Some(s@),
        None => None,
    }
}

/// Whether a walked directory entry is scanned: directories never are;
/// files when the extension filter lets their extension through.
/// `file_name` is the entry's file name, `None` when it has none.
pub fn should_scan(is_dir: bool, file_name: Option<&str>, config: &Config) -> (res: bool)
    ensures
        res == (!is_dir && extension_selected(
            name_extension(
                match file_name {
                    Some(n) => Some(n@),
                    None => None,
                },
            ),
            extensions_view(config.extensions),
        )),
{
    if is_dir {
        return false;
    }
    let ext = file_extension(file_name);
    match &ext {
        Some(e) => extension_matches(Some(e.as_str()), config),
        None => extension_matches(None, config),
    }
}

/// Where a scan looks.
#[derive(Debug, PartialEq, Eq)]
pub enum ScanTarget {
    /// Only this file.
    SingleFile(String),
    /// Every file under this root, skipping what `.gitignore` files exclude.
    GitAwareWalk(String),
    /// Every file under this root.
    PlainWalk(String),
}

/// Chooses where a scan looks: a single file when one is configured, else
/// the root, walked with or without `.gitignore` rules.
pub fn scan_target(config: &Config) -> (t: ScanTarget)
    ensures
        match config.single_file {
            Some(f) => t matches ScanTarget::SingleFile(p) && p@ == f@,
            None => if config.respect_gitignore {
                t matches ScanTarget::GitAwareWalk(r) && r@ == config.root@
            } else {
                t matches ScanTarget::PlainWalk(r) && r@ == config.root@
            },
        },
{
    match &config.single_file {
        Some(f) => ScanTarget::SingleFile(f.clone()),
        None => {
            if config.respect_gitignore {
                ScanTarget::GitAwareWalk(config.root.clone())
            } else {
                ScanTarget::PlainWalk(config.root.clone())
            }
        },
    }
}

/// What a scan reports, for the first `upto` lines: each report is a line
/// on which the pattern matches, carrying that line, its first match and up
/// to `n` lines of context on either side taken from the neighbouring lines;
/// reports come in increasing line order; and every line on which the
/// pattern matches is reported.
pub proof fn lemma_scan_reports_matching_lines(
    path: Seq<char>,
    lines: Seq<Seq<char>>,
    pattern: Seq<char>,
    n: int,
    upto: int,
)
    requires
        0 <= upto <= lines.len(),
        0 <= n,
    ensures
        ({
            let r = scan_spec(path, lines, pattern, n, upto);
            &&& forall|k: int|
                #![trigger r[k]]
                0 <= k < r.len() ==> {
                    let i = r[k].line_number - 1;
                    &&& 0 <= i < upto
                    &&& r[k].path == path
                    &&& r[k].line_content == lines[i]
                    &&& line_match_of(regex_first_match(pattern, lines[i])) == Some(
                        (r[k].column, r[k].tag),
                    )
                    &&& r[k].context_before == lines_before(lines, i, n)
                    &&& r[k].context_after == lines_after(lines, i, n)
                    &&& r[k].context_before.len() <= n
                    &&& r[k].context_after.len() <= n
                }
            &&& forall|k1: int, k2: int|
                #![trigger r[k1], r[k2]]
                0 <= k1 < k2 < r.len() ==> r[k1].line_number < r[k2].line_number
            &&& forall|i: int|
                0 <= i < upto && regex_first_match(pattern, lines[i]) is Some ==> exists|k: int|
                    0 <= k < r.len() && #[trigger] r[k].line_number == i + 1
        }),
    decreases upto,
{
    if upto > 0 {
        lemma_scan_reports_matching_lines(path, lines, pattern, n, upto - 1);
        let prev = scan_spec(path, lines, pattern, n, upto - 1);
        let r = scan_spec(path, lines, pattern, n, upto);
        let i = upto - 1;
        if regex_first_match(pattern, lines[i]) is Some {
            assert(r == prev.push(r.last()));
            assert(r[r.len() - 1].line_number == i + 1);
            assert forall|j: int|
                0 <= j < upto && regex_first_match(pattern, lines[j]) is Some implies exists|k: int|
                0 <= k < r.len() && #[trigger] r[k].line_number == j + 1 by {
                if j < i {
                    let k = choose|k: int| 0 <= k < prev.len() && #[trigger] prev[k].line_number == j + 1;
                    assert(r[k] == prev[k]);
                } else {
                    assert(r[r.len() - 1].line_number == j + 1);
                }
            }
        } else {
            assert(r == prev);
        }
    }
}


/// A file's contents count as binary exactly when a null byte occurs among
/// its first 512 bytes (all of them when it is shorter); any other bytes,
/// such as those of non-ASCII UTF-8 text, never make it binary.
pub proof fn lemma_binary_iff_null_in_first_512(contents: Seq<u8>)
    ensures
        looks_binary(contents) <==> exists|k: int|
            0 <= k < contents.len() && k < 512 && #[trigger] contents[k] == 0u8,
{
    let n = sniff_len(contents.len());
    let head = contents.take(n);
    if looks_binary(contents) {
        let k = choose|k: int| 0 <= k < head.len() && head[k] == 0u8;
        assert(contents[k] == 0u8);
    }
    if exists|k: int| 0 <= k < contents.len() && k < 512 && #[trigger] contents[k] == 0u8 {
        let k = choose|k: int| 0 <= k < contents.len() && k < 512 && #[trigger] contents[k] == 0u8;
        assert(head[k] == 0u8);
        assert(head.contains(0u8));
    }
}

/// The extension filter: with no list every file passes; with a list, a file
/// passes exactly when some entry equals its lowercased extension, and a
/// file without an extension passes exactly when the list has an empty entry.
pub proof fn lemma_extension_filter(extension: Option<Seq<char>>, list: Seq<Seq<char>>)
    ensures
        extension_selected(extension, None),
        extension is None ==> (extension_selected(extension, Some(list)) <==> exists|k: int|
            0 <= k < list.len() && (#[trigger] list[k]).len() == 0),
        extension matches Some(e) ==> (extension_selected(extension, Some(list)) <==> exists|
            k: int,
        | 0 <= k < list.len() && #[trigger] list[k] == unicode_lowercase(e)),
{
    if extension is None {
        if exists|k: int| 0 <= k < list.len() && (#[trigger] list[k]).len() == 0 {
            let k = choose|k: int| 0 <= k < list.len() && (#[trigger] list[k]).len() == 0;
            assert(list[k] =~= Seq::<char>::empty());
        }
    }
}


proof fn lemma_last_dot_facts(name: Seq<char>)
    ensures
        -1 <= last_dot(name) < name.len(),
        last_dot(name) >= 0 ==> name[last_dot(name)] == '.',
        forall|k: int| last_dot(name) < k < name.len() ==> #[trigger] name[k] != '.',
    decreases name.len(),
{
    if name.len() > 0 && name.last() != '.' {
        lemma_last_dot_facts(name.drop_last());
        assert forall|k: int| last_dot(name) < k < name.len() implies #[trigger] name[k] != '.' by {
            if k < name.len() - 1 {
                assert(name[k] == name.drop_last()[k]);
            }
        }
    }
}

/// A file name's extension is what follows its final `.`, provided that
/// `.` is not the name's first character: when there is one, the name is
/// some non-empty stem, a `.`, then the extension, which holds no `.`; when
/// there is none, no `.` occurs in the name past its first character.
pub proof fn lemma_extension_after_final_dot(name: Seq<char>)
    ensures
        name_extension(Some(name)) matches Some(e) ==> exists|k: int|
            0 < k < name.len() && #[trigger] name[k] == '.' && e == name.subrange(k + 1, name.len() as int),
        name_extension(Some(name)) matches Some(e) ==> !e.contains('.'),
        name_extension(Some(name)) is None ==> forall|k: int| 0 < k < name.len() ==> #[trigger] name[k] != '.',
        name_extension(None) is None,
{
    lemma_last_dot_facts(name);
    let d = last_dot(name);
    if d > 0 {
        let e = name.subrange(d + 1, name.len() as int);
        assert(name[d] == '.');
        if e.contains('.') {
            let j = choose|j: int| 0 <= j < e.len() && e[j] == '.';
            assert(name[d + 1 + j] == e[j]);
        }
    }
}

/// The context windows: before line `i` (0-based) come the `min(i, n)` lines
/// just above it, after it the `min(n, lines after it)` lines just below,
/// each in file order.
pub proof fn lemma_context_windows(lines: Seq<Seq<char>>, i: int, n: int)
    requires
        0 <= i < lines.len(),
        0 <= n,
    ensures
        lines_before(lines, i, n).len() == (if i < n { i } else { n }),
        forall|k: int|
            0 <= k < lines_before(lines, i, n).len() ==> #[trigger] lines_before(lines, i, n)[k]
                == lines[i - lines_before(lines, i, n).len() + k],
        lines_after(lines, i, n).len() == (if n < lines.len() - i - 1 {
            n
        } else {
            lines.len() - i - 1
        }),
        forall|k: int|
            0 <= k < lines_after(lines, i, n).len() ==> #[trigger] lines_after(lines, i, n)[k]
                == lines[i + 1 + k],
{
}


/// How many times `b` occurs in `s`.
pub open spec fn count_byte(s: Seq<u8>, b: u8) -> nat
    decreases s.len(),
{
    if s.len() == 0 {
        0
    } else {
        count_byte(s.drop_last(), b) + (if s.last() == b {
            1nat
        } else {
            0nat
        })
    }
}

proof fn lemma_split_pieces_count(s: Seq<u8>)
    ensures
        split_on(s, 10u8).len() == count_byte(s, 10u8) + 1,
        split_on(s, 10u8).last().len() == 0 <==> (s.len() == 0 || s.last() == 10u8),
    decreases s.len(),
{
    if s.len() > 0 {
        lemma_split_pieces_count(s.drop_last());
    }
}

/// A file has one line per newline byte, plus one for a final line that
/// does not end with a newline.
pub proof fn lemma_line_count(contents: Seq<u8>)
    ensures
        file_lines(contents).len() == count_byte(contents, 10u8) + (if contents.len() > 0
            && contents.last() != 10u8 {
            1int
        } else {
            0int
        }),
{
    lemma_split_pieces_count(contents);
}

/// What a line keeps of its bytes: invalid UTF-8 reads as an empty line; a
/// line that does not end with a newline is its decoded text unchanged; a
/// line that does is its decoded text, less one carriage return at the very
/// end if there is one.
pub proof fn lemma_line_text_keeps_text(piece: Seq<u8>, terminated: bool)
    ensures
        !valid_utf8(piece) ==> line_text(piece, terminated).len() == 0,
        valid_utf8(piece) && !terminated ==> line_text(piece, terminated) == decode_utf8(piece),
        valid_utf8(piece) && terminated ==> (decode_utf8(piece) == line_text(piece, terminated) || (
        decode_utf8(piece) == line_text(piece, terminated).push('\r'))),
        valid_utf8(piece) && terminated && line_text(piece, terminated) != decode_utf8(piece)
            ==> decode_utf8(piece).last() == '\r',
{
    if valid_utf8(piece) && terminated {
        let t = decode_utf8(piece);
        if t.len() > 0 && t.last() == '\r' {
            assert(t.drop_last().push('\r') =~= t);
        }
    }
}


/// Line `k` of a file is the text of the `k`-th newline-separated piece of
/// its bytes, in order; every piece but the last ended with a newline.
pub proof fn lemma_lines_in_file_order(contents: Seq<u8>)
    ensures
        forall|k: int|
            0 <= k < file_lines(contents).len() ==> #[trigger] file_lines(contents)[k] == line_text(
                split_on(contents, 10u8)[k],
                k + 1 < split_on(contents, 10u8).len(),
            ),
{
    lemma_split_pieces_count(contents);
}

} // verus!
