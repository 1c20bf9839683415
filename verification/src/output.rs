//! Rendering matches: the highlighted text form, CSV rows, and the printer
//! that decides what is shown at once and what is held for the end.
use vstd::prelude::*;
use vstd::string::StringExecFns;
use vstd::string::StringSliceAdditionalSpecFns;
use vstd::utf8::decode_utf8;
use vstd::utf8::encode_utf8;
use vstd::utf8::is_char_boundary;

use crate::config::string_views;
use crate::config::Config;
use crate::config::OutputFormat;
use crate::scanner::match_views;
use crate::scanner::Match;
use crate::scanner::MatchView;
use crate::text::chars_of;
use crate::text::contains_char;
use crate::text::decimal;
use crate::text::push_char;
use crate::text::push_decimal;

verus! {

/// The characters of `s` with every double quote doubled.
pub open spec fn double_quotes(s: Seq<char>) -> Seq<char>
    decreases s.len(),
{
    if s.len() == 0 {
        seq![]
    } else {
        let prev = double_quotes(s.drop_last());
        if s.last() == '"' {
            prev + seq!['"', '"']
        } else {
            prev.push(s.last())
        }
    }
}

/// A field needs quoting when it holds a comma, a double quote or a newline.
pub open spec fn needs_quoting(s: Seq<char>) -> bool {
    s.contains(',') || s.contains('"') || s.contains('\n')
}

/// A value written as a CSV field: wrapped in double quotes, with embedded
/// double quotes doubled, when it needs quoting; unchanged otherwise.
pub open spec fn csv_field(s: Seq<char>) -> Seq<char> {
    if needs_quoting(s) {
        seq!['"'] + double_quotes(s) + seq!['"']
    } else {
        s
    }
}

/// Escape a CSV field: wrap in double-quotes if the value contains a comma,
/// double-quote, or newline; double any embedded double-quotes.
pub fn csv_escape(s: &str) -> (res: String)
    ensures
        res@ == csv_field(s@),
{
    let chars = chars_of(s);
    if contains_char(&chars, ',') || contains_char(&chars, '"') || contains_char(&chars, '\n') {
        let mut out = String::new();
        push_char(&mut out, '"');
        let n = chars.len();
        for i in 0..n
            invariant
                n == chars@.len(),
                out@ == seq!['"'] + double_quotes(chars@.take(i as int)),
        {
            let c = chars[i];
            proof {
                assert(chars@.take(i + 1).drop_last() =~= chars@.take(i as int));
                assert(chars@.take(i + 1).last() == c);
            }
            if c == '"' {
                push_char(&mut out, '"');
                push_char(&mut out, '"');
            } else {
                push_char(&mut out, c);
            }
            proof {
                assert(out@ =~= seq!['"'] + double_quotes(chars@.take(i + 1)));
            }
        }
        push_char(&mut out, '"');
        proof {
            assert(chars@.take(n as int) =~= chars@);
        }
        out
    } else {
        s.to_owned()
    }
}

/// The first line of CSV output.
pub open spec fn csv_header() -> Seq<char> {
    "path,line_number,column,tag,line_content"@
}

/// The CSV row of a match: path, line number, column, tag and line.
pub open spec fn csv_row_text(m: MatchView) -> Seq<char> {
    csv_field(m.path) + ","@ + decimal(m.line_number as nat) + ","@ + decimal(m.column as nat)
        + ","@ + csv_field(m.tag) + ","@ + csv_field(m.line_content)
}

/// The whole CSV output for the given matches: the header, then one row per
/// match, in order.
pub open spec fn csv_lines(ms: Seq<MatchView>) -> Seq<Seq<char>> {
    seq![csv_header()] + ms.map_values(|m: MatchView| csv_row_text(m))
}

/// The CSV row of a match.
pub fn csv_row(m: &Match) -> (row: String)
    ensures
        row@ == csv_row_text(m@),
{
    let mut row = csv_escape(m.path.as_str());
    row.append(",");
    push_decimal(&mut row, m.line_number);
    row.append(",");
    push_decimal(&mut row, m.column);
    row.append(",");
    let tag = csv_escape(m.tag.as_str());
    row.append(tag.as_str());
    row.append(",");
    let line = csv_escape(m.line_content.as_str());
    row.append(line.as_str());
    row
}

/// The CSV output: header first, then a row for each match.
pub fn csv_output(ms: &Vec<Match>) -> (lines: Vec<String>)
    ensures
        string_views(lines@) == csv_lines(match_views(ms@)),
{
    let mut lines: Vec<String> = Vec::new();
    lines.push("path,line_number,column,tag,line_content".to_owned());
    let n = ms.len();
    for i in 0..n
        invariant
            n == ms@.len(),
            string_views(lines@) == seq![csv_header()] + match_views(ms@).take(i as int).map_values(
                |m: MatchView| csv_row_text(m),
            ),
    {
        let ghost old_lines = lines@;
        let row = csv_row(&ms[i]);
        lines.push(row);
        proof {
            assert(string_views(lines@) =~= string_views(old_lines).push(row@));
            assert(match_views(ms@).take(i + 1) =~= match_views(ms@).take(i as int).push(
                ms@[i as int]@,
            ));
            assert(match_views(ms@).take(i + 1).map_values(|m: MatchView| csv_row_text(m))
                =~= match_views(ms@).take(i as int).map_values(|m: MatchView| csv_row_text(m)).push(
                csv_row_text(ms@[i as int]@),
            ));
        }
    }
    proof {
        assert(match_views(ms@).take(n as int) =~= match_views(ms@));
    }
    lines
}

/// The text shown for a text-format match: when the tag can be located,
/// the line from the tag on, with the tag set apart for highlighting;
/// otherwise the whole line.
pub enum TextBody {
    Highlighted { tag: String, after: String },
    Plain(String),
}

/// A match as the text format shows it: a `path:line:column:` location,
/// the shown text, and the context lines (those before, then those after).
pub struct TextRecord {
    pub location: String,
    pub body: TextBody,
    pub context: Vec<String>,
}

pub enum TextBodyView {
    Highlighted(Seq<char>, Seq<char>),
    Plain(Seq<char>),
}

pub struct TextRecordView {
    pub location: Seq<char>,
    pub body: TextBodyView,
    pub context: Seq<Seq<char>>,
}

impl View for TextRecord {
    type V = TextRecordView;

    open spec fn view(&self) -> TextRecordView {
        TextRecordView {
            location: self.location@,
            body: match self.body {
                TextBody::Highlighted { tag, after } => TextBodyView::Highlighted(tag@, after@),
                TextBody::Plain(line) => TextBodyView::Plain(line@),
            },
            context: string_views(self.context@),
        }
    }
}

/// `path:line:column:`.
pub open spec fn location_text(m: MatchView) -> Seq<char> {
    m.path + ":"@ + decimal(m.line_number as nat) + ":"@ + decimal(m.column as nat) + ":"@
}

/// The byte offset where the tag is expected in the line.
pub open spec fn tag_offset(m: MatchView) -> int {
    if m.column >= 1 {
        m.column - 1
    } else {
        0
    }
}

/// The byte offset just past the tag.
pub open spec fn tag_end(m: MatchView) -> int {
    tag_offset(m) + encode_utf8(m.tag).len()
}

/// The tag's bytes lie within the line.
pub open spec fn tag_fits(m: MatchView) -> bool {
    tag_end(m) <= encode_utf8(m.line_content).len()
}

/// The line can be cut around the tag: the encoded line and tag have
/// lengths a `usize` can hold, and when the tag fits, both of its ends are
/// character boundaries of the line.
pub open spec fn renderable(m: MatchView) -> bool {
    &&& encode_utf8(m.line_content).len() <= usize::MAX
    &&& encode_utf8(m.tag).len() <= usize::MAX
    &&& tag_fits(m) ==> {
        &&& is_char_boundary(encode_utf8(m.line_content), tag_offset(m))
        &&& is_char_boundary(encode_utf8(m.line_content), tag_end(m))
    }
}

/// The text the text format shows: when the tag fits, the line from the
/// tag on, as the tag's bytes and the rest of the line; the whole line
/// otherwise.
pub open spec fn text_body(m: MatchView) -> TextBodyView {
    let bytes = encode_utf8(m.line_content);
    if tag_fits(m) {
        TextBodyView::Highlighted(
            decode_utf8(bytes.subrange(tag_offset(m), tag_end(m))),
            decode_utf8(bytes.subrange(tag_end(m), bytes.len() as int)),
        )
    } else {
        TextBodyView::Plain(m.line_content)
    }
}

/// How the text format shows a match.
pub open spec fn text_record(m: MatchView) -> TextRecordView {
    TextRecordView {
        location: location_text(m),
        body: text_body(m),
        context: m.context_before + m.context_after,
    }
}

/// Within a valid byte string, the bytes between two boundaries are valid,
/// and a boundary between them is a boundary of that piece.
proof fn lemma_sub_boundary(bytes: Seq<u8>, lo: int, hi: int, i: int)
    requires
        vstd::utf8::valid_utf8(bytes),
        is_char_boundary(bytes, lo),
        is_char_boundary(bytes, hi),
        is_char_boundary(bytes, i),
        0 <= lo <= i <= hi <= bytes.len(),
    ensures
        vstd::utf8::valid_utf8(bytes.subrange(lo, hi)),
        is_char_boundary(bytes.subrange(lo, hi), i - lo),
{
    broadcast use vstd::utf8::is_char_boundary_iff_not_is_continuation_byte;
    broadcast use vstd::utf8::is_char_boundary_start_end_of_seq;

    let p = bytes.subrange(0, hi);
    vstd::utf8::valid_utf8_split(bytes, hi);
    if lo < hi {
        assert(p[lo] == bytes[lo]);
        assert(is_char_boundary(bytes, lo) <==> !vstd::utf8::is_continuation_byte(bytes[lo]));
        assert(is_char_boundary(p, lo) <==> !vstd::utf8::is_continuation_byte(p[lo]));
    } else {
        assert(is_char_boundary(p, p.len() as int));
    }
    vstd::utf8::valid_utf8_split(p, lo);
    let sub = bytes.subrange(lo, hi);
    assert(p.subrange(lo, p.len() as int) =~= sub);
    if i < hi {
        assert(sub[i - lo] == bytes[i]);
        assert(is_char_boundary(bytes, i) <==> !vstd::utf8::is_continuation_byte(bytes[i]));
        assert(is_char_boundary(sub, i - lo) <==> !vstd::utf8::is_continuation_byte(sub[i - lo]));
    } else {
        assert(is_char_boundary(sub, sub.len() as int));
    }
}

/// The view of a `str` is the decoding of its bytes.
proof fn lemma_str_bytes(s: &str)
    ensures
        vstd::utf8::valid_utf8(s.spec_bytes()),
        decode_utf8(s.spec_bytes()) == s@,
{
    vstd::utf8::encode_utf8_valid_utf8(s@);
    vstd::utf8::encode_utf8_decode_utf8(s@);
}

/// Renders a match for the text format.
pub fn render_text(m: &Match) -> (r: TextRecord)
    requires
        renderable(m@),
    ensures
        r@ == text_record(m@),
{
    let mut location = m.path.clone();
    location.append(":");
    push_decimal(&mut location, m.line_number);
    location.append(":");
    push_decimal(&mut location, m.column);
    location.append(":");

    let line: &str = m.line_content.as_str();
    let col0: usize = if m.column >= 1 {
        m.column - 1
    } else {
        0
    };
    let tag_str: &str = m.tag.as_str();
    let tag_len = tag_str.len();
    let line_len = line.len();
    proof {
        lemma_str_bytes(line);
        lemma_str_bytes(tag_str);
        assert(line.spec_bytes() == encode_utf8(m.line_content@));
    }
    let body = if tag_len <= line_len && col0 <= line_len - tag_len {
        let end = col0 + tag_len;
        let (head, after) = line.split_at(end);
        proof {
            broadcast use vstd::utf8::is_char_boundary_start_end_of_seq;
            lemma_sub_boundary(line.spec_bytes(), 0, end as int, col0 as int);
            assert(line.spec_bytes().subrange(0, end as int) =~= head.spec_bytes());
        }
        let (_, tag) = head.split_at(col0);
        proof {
            lemma_str_bytes(tag);
            lemma_str_bytes(after);
            assert(head.spec_bytes().subrange(col0 as int, head.spec_bytes().len() as int)
                =~= line.spec_bytes().subrange(col0 as int, end as int));
        }
        TextBody::Highlighted { tag: tag.to_owned(), after: after.to_owned() }
    } else {
        TextBody::Plain(m.line_content.clone())
    };

    let mut context: Vec<String> = Vec::new();
    let nb = m.context_before.len();
    for i in 0..nb
        invariant
            nb == m.context_before@.len(),
            string_views(context@) == string_views(m.context_before@).take(i as int),
    {
        let ghost old_c = context@;
        context.push(m.context_before[i].clone());
        proof {
            assert(string_views(context@) =~= string_views(old_c).push(m.context_before@[i as int]@));
            assert(string_views(m.context_before@).take(i + 1) =~= string_views(m.context_before@).take(
                i as int,
            ).push(m.context_before@[i as int]@));
        }
    }
    let na = m.context_after.len();
    proof {
        assert(string_views(m.context_before@).take(nb as int) =~= string_views(m.context_before@));
    }
    for i in 0..na
        invariant
            na == m.context_after@.len(),
            string_views(context@) == string_views(m.context_before@) + string_views(
                m.context_after@,
            ).take(i as int),
    {
        let ghost old_c = context@;
        context.push(m.context_after[i].clone());
        proof {
            assert(string_views(context@) =~= string_views(old_c).push(m.context_after@[i as int]@));
            assert(string_views(m.context_after@).take(i + 1) =~= string_views(m.context_after@).take(
                i as int,
            ).push(m.context_after@[i as int]@));
        }
    }
    proof {
        assert(string_views(m.context_after@).take(na as int) =~= string_views(m.context_after@));
    }
    TextRecord { location, body, context }
}

/// What is left to print when a printer finishes.
pub enum Finished {
    /// Nothing: the text format printed every match as it came.
    Nothing,
    /// The matches, to be printed as a JSON array.
    Json(Vec<Match>),
    /// The lines of CSV output.
    Csv(Vec<String>),
}

pub enum FinishedView {
    Nothing,
    Json(Seq<MatchView>),
    Csv(Seq<Seq<char>>),
}

impl View for Finished {
    type V = FinishedView;

    open spec fn view(&self) -> FinishedView {
        match self {
            Finished::Nothing => FinishedView::Nothing,
            Finished::Json(ms) => FinishedView::Json(match_views(ms@)),
            Finished::Csv(lines) => FinishedView::Csv(string_views(lines@)),
        }
    }
}

/// A printer's state: its format and the matches held back so far.
pub type PrinterState = (OutputFormat, Seq<MatchView>);

/// The state after printing `m`: text holds nothing back, JSON and CSV
/// append the match.
pub open spec fn print_state(p: PrinterState, m: MatchView) -> PrinterState {
    if p.0 == OutputFormat::Text {
        p
    } else {
        (p.0, p.1.push(m))
    }
}

/// What printing `m` shows at once: its text record for the text format,
/// nothing otherwise.
pub open spec fn print_shown(p: PrinterState, m: MatchView) -> Option<TextRecordView> {
    if p.0 == OutputFormat::Text {
        Some(text_record(m))
    } else {
        None
    }
}

/// What finishing shows: nothing for text, the held matches for JSON, the
/// CSV header and one row per held match for CSV.
pub open spec fn finish_output(p: PrinterState) -> FinishedView {
    match p.0 {
        OutputFormat::Text => FinishedView::Nothing,
        OutputFormat::Json => FinishedView::Json(p.1),
        OutputFormat::Csv => FinishedView::Csv(csv_lines(p.1)),
    }
}

pub open spec fn record_view(r: Option<TextRecord>) -> Option<TextRecordView> {
    match r {
        Some(t) => Some(t@),
        None => None,
    }
}

/// Shows matches in the configured format: text immediately, JSON and CSV
/// all together when the scan is finished.
pub struct Printer {
    format: OutputFormat,
    buffer: Vec<Match>,
}

impl View for Printer {
    type V = PrinterState;

    /// The format and the matches held back so far.
    closed spec fn view(&self) -> PrinterState {
        (self.format, match_views(self.buffer@))
    }
}

impl Printer {
    /// A printer for the configured output format, holding nothing yet.
    pub fn new(config: &Config) -> (p: Printer)
        ensures
            p@ == (config.output_format, Seq::<MatchView>::empty()),
    {
        let p = Printer { format: config.output_format, buffer: Vec::new() };
        proof {
            assert(match_views(p.buffer@) =~= Seq::<MatchView>::empty());
        }
        p
    }

    /// Takes one match: the text format hands it back rendered, to be shown
    /// now; JSON and CSV hold it for the end.
    pub fn print(&mut self, m: Match) -> (shown: Option<TextRecord>)
        requires
            old(self)@.0 == OutputFormat::Text ==> renderable(m@),
        ensures
            record_view(shown) == print_shown(old(self)@, m@),
            final(self)@ == print_state(old(self)@, m@),
    {
        match self.format {
            OutputFormat::Text => Some(render_text(&m)),
            OutputFormat::Json | OutputFormat::Csv => {
                let ghost old_buffer = self.buffer@;
                self.buffer.push(m);
                proof {
                    assert(match_views(self.buffer@) =~= match_views(old_buffer).push(m@));
                }
                None
            },
        }
    }

    /// Ends the output: nothing is left for text; JSON gets every match held
    /// back, CSV the header and one row per match, in the order they came.
    pub fn finish(self) -> (out: Finished)
        ensures
            out@ == finish_output(self@),
    {
        match self.format {
            OutputFormat::Text => Finished::Nothing,
            OutputFormat::Json => Finished::Json(self.buffer),
            OutputFormat::Csv => Finished::Csv(csv_output(&self.buffer)),
        }
    }
}

/// The state of a fresh printer for `format` after printing `ms` in order.
pub open spec fn after_prints(format: OutputFormat, ms: Seq<MatchView>) -> PrinterState
    decreases ms.len(),
{
    if ms.len() == 0 {
        (format, Seq::<MatchView>::empty())
    } else {
        print_state(after_prints(format, ms.drop_last()), ms.last())
    }
}

/// A fresh printer fed `ms` one by one: the text format shows each match's
/// record during its own print and nothing at the end; JSON and CSV show
/// nothing while printing, and at the end every printed match once, in
/// print order (JSON), or the header and one row per match in print order
/// (CSV).
pub proof fn lemma_printer_sequence(format: OutputFormat, ms: Seq<MatchView>)
    ensures
        forall|i: int|
            0 <= i < ms.len() ==> #[trigger] print_shown(after_prints(format, ms.take(i)), ms[i])
                == (if format == OutputFormat::Text {
                Some(text_record(ms[i]))
            } else {
                None
            }),
        finish_output(after_prints(format, ms)) == match format {
            OutputFormat::Text => FinishedView::Nothing,
            OutputFormat::Json => FinishedView::Json(ms),
            OutputFormat::Csv => FinishedView::Csv(csv_lines(ms)),
        },
    decreases ms.len(),
{
    lemma_after_prints(format, ms);
    assert forall|i: int| 0 <= i < ms.len() implies #[trigger] print_shown(
        after_prints(format, ms.take(i)),
        ms[i],
    ) == (if format == OutputFormat::Text {
        Some(text_record(ms[i]))
    } else {
        None
    }) by {
        lemma_after_prints(format, ms.take(i));
    }
}

proof fn lemma_after_prints(format: OutputFormat, ms: Seq<MatchView>)
    ensures
        after_prints(format, ms) == (format, if format == OutputFormat::Text {
            Seq::<MatchView>::empty()
        } else {
            ms
        }),
    decreases ms.len(),
{
    if ms.len() > 0 {
        lemma_after_prints(format, ms.drop_last());
        if format != OutputFormat::Text {
            assert(ms.drop_last().push(ms.last()) =~= ms);
        }
    }
}

/// The highlighted text form shows the line from the tag on: the tag's
/// part and the rest together are the line with the bytes before the tag
/// removed, and the line is those bytes followed by the shown text.
pub proof fn lemma_highlight_shows_line_from_tag(m: MatchView)
    requires
        renderable(m),
        tag_fits(m),
    ensures
        text_body(m) matches TextBodyView::Highlighted(t, a) && {
            let bytes = encode_utf8(m.line_content);
            &&& t + a == decode_utf8(bytes.subrange(tag_offset(m), bytes.len() as int))
            &&& decode_utf8(bytes.subrange(0, tag_offset(m))) + (t + a) == m.line_content
        },
{
    broadcast use vstd::utf8::is_char_boundary_start_end_of_seq;

    let bytes = encode_utf8(m.line_content);
    let o = tag_offset(m);
    let e = tag_end(m);
    let n = bytes.len() as int;
    vstd::utf8::encode_utf8_valid_utf8(m.line_content);
    vstd::utf8::encode_utf8_decode_utf8(m.line_content);
    vstd::utf8::decode_utf8_split(bytes, o);
    lemma_sub_boundary(bytes, o, n, e);
    let rest = bytes.subrange(o, n);
    vstd::utf8::decode_utf8_split(rest, e - o);
    assert(rest.subrange(0, e - o) =~= bytes.subrange(o, e));
    assert(rest.subrange(e - o, rest.len() as int) =~= bytes.subrange(e, n));
}

/// A match whose tag sits in its line where a regex search put it can be
/// rendered, and its highlighted part is exactly the tag.
pub proof fn lemma_in_place_renderable(m: MatchView)
    requires
        crate::scanner::tag_in_place(m),
        encode_utf8(m.line_content).len() <= usize::MAX,
    ensures
        renderable(m),
        tag_fits(m),
        text_body(m) matches TextBodyView::Highlighted(t, _) && t == m.tag,
{
    vstd::utf8::encode_utf8_decode_utf8(m.tag);
}

/// Reads back the text inside a quoted CSV field: each doubled double
/// quote stands for one double quote.
pub open spec fn undouble_quotes(s: Seq<char>) -> Seq<char>
    decreases s.len(),
{
    if s.len() == 0 {
        s
    } else if s.len() >= 2 && s[0] == '"' && s[1] == '"' {
        seq!['"'] + undouble_quotes(s.subrange(2, s.len() as int))
    } else {
        seq![s[0]] + undouble_quotes(s.drop_first())
    }
}

/// The value a CSV field stands for: a field in double quotes holds its
/// inside with doubled quotes read back; any other field holds itself.
pub open spec fn csv_field_value(f: Seq<char>) -> Seq<char> {
    if f.len() >= 2 && f[0] == '"' && f.last() == '"' {
        undouble_quotes(f.subrange(1, f.len() - 1))
    } else {
        f
    }
}

proof fn lemma_double_quotes_concat(a: Seq<char>, b: Seq<char>)
    ensures
        double_quotes(a + b) == double_quotes(a) + double_quotes(b),
    decreases b.len(),
{
    if b.len() == 0 {
        assert(a + b =~= a);
        assert(double_quotes(a) + double_quotes(b) =~= double_quotes(a));
    } else {
        assert((a + b).drop_last() =~= a + b.drop_last());
        assert((a + b).last() == b.last());
        lemma_double_quotes_concat(a, b.drop_last());
        if b.last() == '"' {
            assert(double_quotes(a) + (double_quotes(b.drop_last()) + seq!['"', '"'])
                =~= (double_quotes(a) + double_quotes(b.drop_last())) + seq!['"', '"']);
        } else {
            assert(double_quotes(a) + double_quotes(b.drop_last()).push(b.last())
                =~= (double_quotes(a) + double_quotes(b.drop_last())).push(b.last()));
        }
    }
}

proof fn lemma_undouble_double(s: Seq<char>)
    ensures
        undouble_quotes(double_quotes(s)) == s,
    decreases s.len(),
{
    if s.len() > 0 {
        let c = s[0];
        let rest = s.drop_first();
        assert(s =~= seq![c] + rest);
        lemma_double_quotes_concat(seq![c], rest);
        assert(seq![c].drop_last() =~= Seq::<char>::empty());
        assert(double_quotes(Seq::<char>::empty()) =~= Seq::<char>::empty());
        lemma_undouble_double(rest);
        let d = double_quotes(s);
        if c == '"' {
            assert(double_quotes(seq![c]) =~= seq!['"', '"']);
            assert(d.subrange(2, d.len() as int) =~= double_quotes(rest));
        } else {
            assert(double_quotes(seq![c]) =~= seq![c]);
            assert(d.drop_first() =~= double_quotes(rest));
        }
        assert(seq![c] + rest =~= s);
    }
}

/// Writing a value as a CSV field loses nothing: reading the field back
/// gives the value.
pub proof fn lemma_csv_field_round_trip(s: Seq<char>)
    ensures
        csv_field_value(csv_field(s)) == s,
{
    if needs_quoting(s) {
        let f = csv_field(s);
        lemma_undouble_double(s);
        assert(f.subrange(1, f.len() - 1) =~= double_quotes(s));
    } else {
        if s.len() >= 1 {
            assert(s[0] != '"') by {
                if s[0] == '"' {
                    assert(s.contains('"'));
                }
            }
        }
    }
}

/// A CSV field holds an unquoted comma, double quote or newline only when
/// the field is quoted: a field that does not start with a double quote
/// holds none of them.
pub proof fn lemma_csv_field_unquoted_is_plain(s: Seq<char>)
    ensures
        !(csv_field(s).len() > 0 && csv_field(s)[0] == '"') ==> !needs_quoting(csv_field(s)),
{
    if needs_quoting(s) {
        assert(csv_field(s)[0] == '"');
    }
}


/// The context a text record shows is the lines before the match in their
/// file order, then the lines after it in their file order.
pub proof fn lemma_text_context_in_file_order(m: MatchView)
    ensures
        text_record(m).context.len() == m.context_before.len() + m.context_after.len(),
        forall|k: int|
            0 <= k < m.context_before.len() ==> #[trigger] text_record(m).context[k]
                == m.context_before[k],
        forall|k: int|
            0 <= k < m.context_after.len() ==> text_record(m).context[m.context_before.len() + k]
                == #[trigger] m.context_after[k],
{
}


/// Where a CSV reader stands inside a row.
pub enum CsvMode {
    /// At the start of a field.
    Start,
    /// Inside a field without quotes.
    Unquoted,
    /// Inside a quoted field.
    Quoted,
    /// Just after a double quote inside a quoted field.
    QuoteSeen,
    /// The row is not well-formed CSV.
    Failed,
}

/// A CSV reader's state: the fields read so far and the field being read.
pub struct CsvReader {
    pub fields: Seq<Seq<char>>,
    pub current: Seq<char>,
    pub mode: CsvMode,
}

/// Reads one character of a CSV row, by RFC 4180's rules: a field is
/// either free of commas, double quotes and newlines, or enclosed in double
/// quotes with each double quote inside written twice; commas separate
/// fields.
pub open spec fn csv_read_char(r: CsvReader, c: char) -> CsvReader {
    let failed = CsvReader { mode: CsvMode::Failed, ..r };
    match r.mode {
        CsvMode::Start => if c == '"' {
            CsvReader { mode: CsvMode::Quoted, ..r }
        } else if c == ',' {
            CsvReader { fields: r.fields.push(r.current), current: Seq::empty(), mode: CsvMode::Start }
        } else if c == '\n' {
            failed
        } else {
            CsvReader { current: r.current.push(c), mode: CsvMode::Unquoted, ..r }
        },
        CsvMode::Unquoted => if c == ',' {
            CsvReader { fields: r.fields.push(r.current), current: Seq::empty(), mode: CsvMode::Start }
        } else if c == '"' || c == '\n' {
            failed
        } else {
            CsvReader { current: r.current.push(c), ..r }
        },
        CsvMode::Quoted => if c == '"' {
            CsvReader { mode: CsvMode::QuoteSeen, ..r }
        } else {
            CsvReader { current: r.current.push(c), ..r }
        },
        CsvMode::QuoteSeen => if c == '"' {
            CsvReader { current: r.current.push('"'), mode: CsvMode::Quoted, ..r }
        } else if c == ',' {
            CsvReader { fields: r.fields.push(r.current), current: Seq::empty(), mode: CsvMode::Start }
        } else {
            failed
        },
        CsvMode::Failed => r,
    }
}

/// A reader in the given state.
pub open spec fn csv_reader(fields: Seq<Seq<char>>, current: Seq<char>, mode: CsvMode) -> CsvReader {
    CsvReader { fields, current, mode }
}

/// Reads the characters of `s` in order.
pub open spec fn csv_read(r: CsvReader, s: Seq<char>) -> CsvReader
    decreases s.len(),
{
    if s.len() == 0 {
        r
    } else {
        csv_read(csv_read_char(r, s[0]), s.drop_first())
    }
}

/// The fields of a CSV row, or `None` when it is not well-formed.
pub open spec fn parse_csv_row(row: Seq<char>) -> Option<Seq<Seq<char>>> {
    let r = csv_read(
        CsvReader { fields: Seq::empty(), current: Seq::empty(), mode: CsvMode::Start },
        row,
    );
    match r.mode {
        CsvMode::Start | CsvMode::Unquoted | CsvMode::QuoteSeen => Some(r.fields.push(r.current)),
        _ => None,
    }
}

proof fn lemma_csv_read_concat(r: CsvReader, a: Seq<char>, b: Seq<char>)
    ensures
        csv_read(r, a + b) == csv_read(csv_read(r, a), b),
    decreases a.len(),
{
    if a.len() == 0 {
        assert(a + b =~= b);
    } else {
        assert((a + b).drop_first() =~= a.drop_first() + b);
        assert((a + b)[0] == a[0]);
        lemma_csv_read_concat(csv_read_char(r, a[0]), a.drop_first(), b);
    }
}

proof fn lemma_csv_read_last(r: CsvReader, a: Seq<char>)
    requires
        a.len() > 0,
    ensures
        csv_read(r, a) == csv_read_char(csv_read(r, a.drop_last()), a.last()),
{
    let c = a.last();
    lemma_csv_read_concat(r, a.drop_last(), seq![c]);
    assert(a.drop_last() + seq![c] =~= a);
    let x = csv_read(r, a.drop_last());
    assert(seq![c][0] == c);
    assert(seq![c].drop_first() =~= Seq::<char>::empty());
    assert(csv_read(x, seq![c]) == csv_read(csv_read_char(x, c), seq![c].drop_first()));
    assert(csv_read(csv_read_char(x, c), Seq::<char>::empty()) == csv_read_char(x, c));
}

/// A plain value read from the start of a field leaves the reader inside it.
proof fn lemma_csv_read_plain(fields: Seq<Seq<char>>, v: Seq<char>)
    requires
        !needs_quoting(v),
    ensures
        csv_read(csv_reader(fields, Seq::empty(), CsvMode::Start), v) == (if v.len() == 0 {
            csv_reader(fields, Seq::empty(), CsvMode::Start)
        } else {
            csv_reader(fields, v, CsvMode::Unquoted)
        }),
    decreases v.len(),
{
    let r0 = csv_reader(fields, Seq::<char>::empty(), CsvMode::Start);
    if v.len() > 0 {
        let w = v.drop_last();
        let c = v.last();
        assert(!needs_quoting(w)) by {
            if w.contains(',') || w.contains('"') || w.contains('\n') {
                let k = choose|k: int| 0 <= k < w.len() && (w[k] == ',' || w[k] == '"' || w[k] == '\n');
                assert(v[k] == w[k]);
            }
        }
        assert(c != ',' && c != '"' && c != '\n') by {
            assert(v[v.len() - 1] == c);
        }
        lemma_csv_read_plain(fields, w);
        lemma_csv_read_last(r0, v);
        if w.len() == 0 {
            assert(Seq::<char>::empty().push(c) =~= v);
        } else {
            assert(w.push(c) =~= v);
        }
    }
}

/// Reading a value with its double quotes doubled, inside a quoted field,
/// adds the value to the field.
proof fn lemma_csv_read_doubled(fields: Seq<Seq<char>>, cur: Seq<char>, v: Seq<char>)
    ensures
        csv_read(csv_reader(fields, cur, CsvMode::Quoted), double_quotes(v)) == csv_reader(
            fields,
            cur + v,
            CsvMode::Quoted,
        ),
    decreases v.len(),
{
    let r0 = csv_reader(fields, cur, CsvMode::Quoted);
    if v.len() == 0 {
        assert(double_quotes(v) =~= Seq::<char>::empty());
        assert(cur + v =~= cur);
    } else {
        let w = v.drop_last();
        let c = v.last();
        lemma_csv_read_doubled(fields, cur, w);
        let d = double_quotes(v);
        let mid = csv_reader(fields, cur + w, CsvMode::Quoted);
        assert(csv_read(r0, double_quotes(w)) == mid);
        if c == '"' {
            assert(d =~= double_quotes(w).push('"').push('"'));
            lemma_csv_read_last(r0, d);
            assert(d.drop_last() =~= double_quotes(w).push('"'));
            lemma_csv_read_last(r0, d.drop_last());
            assert(d.drop_last().drop_last() =~= double_quotes(w));
        } else {
            assert(d =~= double_quotes(w).push(c));
            lemma_csv_read_last(r0, d);
            assert(d.drop_last() =~= double_quotes(w));
        }
        assert((cur + w).push(c) =~= cur + v);
    }
}

/// Reading a value written as a CSV field, from the start of a field, ends
/// inside that field holding exactly the value.
proof fn lemma_csv_read_field(fields: Seq<Seq<char>>, v: Seq<char>)
    ensures
        ({
            let r = csv_read(csv_reader(fields, Seq::empty(), CsvMode::Start), csv_field(v));
            &&& r.fields == fields
            &&& r.current == v
            &&& (r.mode is Start || r.mode is Unquoted || r.mode is QuoteSeen)
        }),
{
    let r0 = csv_reader(fields, Seq::<char>::empty(), CsvMode::Start);
    if needs_quoting(v) {
        let f = csv_field(v);
        let rest = double_quotes(v) + seq!['"'];
        assert(f =~= seq!['"'] + rest);
        lemma_csv_read_concat(r0, seq!['"'], rest);
        lemma_csv_read_last(r0, seq!['"']);
        assert(seq!['"'].drop_last() =~= Seq::<char>::empty());
        let rq = csv_reader(fields, Seq::<char>::empty(), CsvMode::Quoted);
        assert(csv_read(r0, seq!['"']) == rq);
        lemma_csv_read_last(rq, rest);
        assert(rest.drop_last() =~= double_quotes(v));
        lemma_csv_read_doubled(fields, Seq::<char>::empty(), v);
        assert(Seq::<char>::empty() + v =~= v);
    } else {
        lemma_csv_read_plain(fields, v);
    }
}

/// Reading a value written as a CSV field and a comma adds the value as a
/// whole field.
proof fn lemma_csv_read_field_comma(fields: Seq<Seq<char>>, v: Seq<char>)
    ensures
        csv_read(csv_reader(fields, Seq::empty(), CsvMode::Start), csv_field(v) + seq![','])
            == csv_reader(fields.push(v), Seq::empty(), CsvMode::Start),
{
    let r0 = csv_reader(fields, Seq::<char>::empty(), CsvMode::Start);
    lemma_csv_read_field(fields, v);
    let f = csv_field(v) + seq![','];
    lemma_csv_read_last(r0, f);
    assert(f.drop_last() =~= csv_field(v));
}

/// A value written as a CSV field reads back as a row of that one field.
pub proof fn lemma_csv_field_reads_back(v: Seq<char>)
    ensures
        parse_csv_row(csv_field(v)) == Some(seq![v]),
{
    lemma_csv_read_field(Seq::empty(), v);
    assert(Seq::<Seq<char>>::empty().push(v) =~= seq![v]);
}

/// The digits of a number need no quoting.
proof fn lemma_decimal_plain(n: nat)
    ensures
        csv_field(decimal(n)) == decimal(n),
{
    crate::text::lemma_decimal_denotes(n);
    let d = decimal(n);
    assert(!needs_quoting(d)) by {
        if d.contains(',') || d.contains('"') || d.contains('\n') {
            let k = choose|k: int| 0 <= k < d.len() && (d[k] == ',' || d[k] == '"' || d[k] == '\n');
            assert(crate::text::is_digit(d[k]));
        }
    }
}

/// A CSV row reads back, by CSV rules, as exactly five fields: the match's
/// path, line number, column, tag and line.
pub proof fn lemma_csv_row_reads_back(m: MatchView)
    ensures
        parse_csv_row(csv_row_text(m)) == Some(
            seq![
                m.path,
                decimal(m.line_number as nat),
                decimal(m.column as nat),
                m.tag,
                m.line_content,
            ],
        ),
{
    reveal_strlit(",");
    assert(","@ =~= seq![',']);
    let d1 = decimal(m.line_number as nat);
    let d2 = decimal(m.column as nat);
    lemma_decimal_plain(m.line_number as nat);
    lemma_decimal_plain(m.column as nat);
    let a1 = csv_field(m.path) + seq![','];
    let a2 = csv_field(d1) + seq![','];
    let a3 = csv_field(d2) + seq![','];
    let a4 = csv_field(m.tag) + seq![','];
    let a5 = csv_field(m.line_content);
    assert(csv_row_text(m) =~= a1 + (a2 + (a3 + (a4 + a5))));
    let e = Seq::<Seq<char>>::empty();
    let st = |f: Seq<Seq<char>>| CsvReader { fields: f, current: Seq::<char>::empty(), mode: CsvMode::Start };
    let f1 = e.push(m.path);
    let f2 = f1.push(d1);
    let f3 = f2.push(d2);
    let f4 = f3.push(m.tag);
    lemma_csv_read_concat(st(e), a1, a2 + (a3 + (a4 + a5)));
    lemma_csv_read_field_comma(e, m.path);
    lemma_csv_read_concat(st(f1), a2, a3 + (a4 + a5));
    lemma_csv_read_field_comma(f1, d1);
    lemma_csv_read_concat(st(f2), a3, a4 + a5);
    lemma_csv_read_field_comma(f2, d2);
    lemma_csv_read_concat(st(f3), a4, a5);
    lemma_csv_read_field_comma(f3, m.tag);
    lemma_csv_read_field(f4, m.line_content);
    assert(f4.push(m.line_content) =~= seq![
        m.path,
        d1,
        d2,
        m.tag,
        m.line_content,
    ]);
}


/// The CSV output is the header line, then exactly one row per match, the
/// row of the `k`-th match on line `k + 1`.
pub proof fn lemma_csv_lines_one_row_per_match(ms: Seq<MatchView>)
    ensures
        csv_lines(ms).len() == ms.len() + 1,
        csv_lines(ms)[0] == csv_header(),
        forall|k: int| 0 <= k < ms.len() ==> #[trigger] csv_lines(ms)[k + 1] == csv_row_text(ms[k]),
{
}

} // verus!
