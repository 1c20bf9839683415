//! Character-level helpers: moving between `str`, `String` and `Vec<char>`,
//! decimal rendering, trimming (by the Unicode White_Space property), and
//! std's Unicode lowercasing, which the library relies on.
use vstd::prelude::*;
use vstd::slice::slice_subrange;
use vstd::slice::slice_to_vec;

verus! {

/// What `str::to_lowercase` returns for a string: its Unicode lowercase
/// mapping (a function of the characters alone).
pub uninterp spec fn unicode_lowercase(s: Seq<char>) -> Seq<char>;

/// The Unicode `White_Space` property, which `char::is_whitespace` tests:
/// U+0009..U+000D, U+0020, U+0085, U+00A0, U+1680, U+2000..U+200A, U+2028,
/// U+2029, U+202F, U+205F and U+3000.
pub open spec fn unicode_white_space(c: char) -> bool {
    let u = c as u32;
    ||| 0x09 <= u <= 0x0D
    ||| u == 0x20
    ||| u == 0x85
    ||| u == 0xA0
    ||| u == 0x1680
    ||| 0x2000 <= u <= 0x200A
    ||| u == 0x2028
    ||| u == 0x2029
    ||| u == 0x202F
    ||| u == 0x205F
    ||| u == 0x3000
}

/// Calls `str::to_lowercase`. Claimed: the result is the string's Unicode
/// lowercase mapping, named `unicode_lowercase`; nothing more is claimed
/// of that mapping here.
#[verifier::external_body]
pub(crate) fn to_lowercase(s: &str) -> (res: String)
    ensures
        res@ == unicode_lowercase(s@),
{
    s.to_lowercase()
}

/// Whether `c` is white space, as `char::is_whitespace` answers.
pub fn is_whitespace(c: char) -> (res: bool)
    ensures
        res == unicode_white_space(c),
{
    let u = c as u32;
    (0x09 <= u && u <= 0x0D) || u == 0x20 || u == 0x85 || u == 0xA0 || u == 0x1680 || (0x2000
        <= u && u <= 0x200A) || u == 0x2028 || u == 0x2029 || u == 0x202F || u == 0x205F || u
        == 0x3000
}

/// Calls `String::push`. Claimed: the character is appended at the end.
#[verifier::external_body]
pub(crate) fn push_char(s: &mut String, c: char)
    ensures
        final(s)@ == old(s)@.push(c),
{
    s.push(c)
}

/// The characters of `s`, in order.
pub fn chars_of(s: &str) -> (v: Vec<char>)
    ensures
        v@ == s@,
{
    let mut v: Vec<char> = Vec::new();
    for c in it: s.chars()
        invariant
            v@ == it.seq().take(it.index() as int),
            it.seq() == s@,
    {
        v.push(c);
    }
    v
}

/// Appends the characters of `chars` to `out`.
pub fn push_chars(out: &mut String, chars: &[char])
    ensures
        final(out)@ == old(out)@ + chars@,
{
    let ghost start = out@;
    let n = chars.len();
    for i in 0..n
        invariant
            n == chars@.len(),
            out@ == start + chars@.take(i as int),
    {
        push_char(out, chars[i]);
        assert(chars@.take(i + 1) == chars@.take(i as int).push(chars@[i as int]));
    }
    assert(chars@.take(n as int) == chars@);
}

/// A `String` holding exactly the characters of `chars`.
pub fn string_from_chars(chars: &[char]) -> (s: String)
    ensures
        s@ == chars@,
{
    let mut s = String::new();
    push_chars(&mut s, chars);
    s
}

/// A copy of the characters `v[i..j]`.
pub fn char_range(v: &[char], i: usize, j: usize) -> (r: Vec<char>)
    requires
        i <= j <= v@.len(),
    ensures
        r@ == v@.subrange(i as int, j as int),
{
    slice_to_vec(slice_subrange(v, i, j))
}

/// Whether `c` occurs in `s`.
pub fn contains_char(s: &[char], c: char) -> (res: bool)
    ensures
        res == s@.contains(c),
{
    let n = s.len();
    for i in 0..n
        invariant
            n == s@.len(),
            forall|k: int| 0 <= k < i ==> s@[k] != c,
    {
        if s[i] == c {
            assert(s@[i as int] == c);
            return true;
        }
    }
    false
}

/// Whether two character sequences are equal.
pub fn chars_equal(a: &[char], b: &[char]) -> (res: bool)
    ensures
        res == (a@ == b@),
{
    if a.len() != b.len() {
        return false;
    }
    let n = a.len();
    for i in 0..n
        invariant
            n == a@.len(),
            n == b@.len(),
            forall|k: int| 0 <= k < i ==> a@[k] == b@[k],
    {
        if a[i] != b[i] {
            return false;
        }
    }
    assert(a@ =~= b@);
    true
}

/// The ASCII digit for `d` (which is below ten).
pub open spec fn digit_char(d: nat) -> char {
    (d + 48) as char
}

/// The decimal rendering of `n`, most significant digit first, without
/// leading zeros (zero is the single digit `0`).
pub open spec fn decimal(n: nat) -> Seq<char>
    decreases n,
{
    if n < 10 {
        seq![digit_char(n)]
    } else {
        decimal(n / 10).push(digit_char(n % 10))
    }
}

fn digit(d: usize) -> (c: char)
    requires
        d < 10,
    ensures
        c == digit_char(d as nat),
{
    let b: u8 = d as u8 + 48;
    b as char
}

/// Appends the decimal rendering of `n` to `out`.
pub fn push_decimal(out: &mut String, n: usize)
    ensures
        final(out)@ == old(out)@ + decimal(n as nat),
    decreases n,
{
    if n >= 10 {
        push_decimal(out, n / 10);
    }
    let c = digit(n % 10);
    push_char(out, c);
}

/// `s` with its leading `White_Space` characters removed.
pub open spec fn trim_start_ws(s: Seq<char>) -> Seq<char>
    decreases s.len(),
{
    if s.len() > 0 && unicode_white_space(s[0]) {
        trim_start_ws(s.drop_first())
    } else {
        s
    }
}

/// `s` with its trailing `White_Space` characters removed.
pub open spec fn trim_end_ws(s: Seq<char>) -> Seq<char>
    decreases s.len(),
{
    if s.len() > 0 && unicode_white_space(s.last()) {
        trim_end_ws(s.drop_last())
    } else {
        s
    }
}

/// `s` with leading and trailing `White_Space` removed, as `str::trim` does.
pub open spec fn trim_ws(s: Seq<char>) -> Seq<char> {
    trim_end_ws(trim_start_ws(s))
}

/// Removes leading and trailing white space.
pub fn trim(s: &[char]) -> (r: Vec<char>)
    ensures
        r@ == trim_ws(s@),
{
    let n = s.len();
    let mut i: usize = 0;
    assert(s@.skip(0) == s@);
    while i < n && is_whitespace(s[i])
        invariant
            n == s@.len(),
            i <= n,
            trim_start_ws(s@) == trim_start_ws(s@.skip(i as int)),
        decreases n - i,
    {
        assert(s@.skip(i as int).drop_first() == s@.skip(i + 1));
        i = i + 1;
    }
    assert(trim_start_ws(s@) == s@.skip(i as int));
    assert(s@.skip(i as int) == s@.subrange(i as int, n as int));
    let mut j: usize = n;
    while j > i && is_whitespace(s[j - 1])
        invariant
            n == s@.len(),
            i <= j <= n,
            trim_ws(s@) == trim_end_ws(s@.subrange(i as int, j as int)),
        decreases j,
    {
        assert(s@.subrange(i as int, j as int).drop_last() == s@.subrange(i as int, j - 1));
        j = j - 1;
    }
    char_range(s, i, j)
}

/// `s` with all its leading `.` characters removed.
pub open spec fn strip_leading_dots(s: Seq<char>) -> Seq<char>
    decreases s.len(),
{
    if s.len() > 0 && s[0] == '.' {
        strip_leading_dots(s.drop_first())
    } else {
        s
    }
}

/// Removes all leading `.` characters, as `trim_start_matches('.')` does.
pub fn strip_dots(s: &[char]) -> (r: Vec<char>)
    ensures
        r@ == strip_leading_dots(s@),
{
    let n = s.len();
    let mut i: usize = 0;
    assert(s@.skip(0) == s@);
    while i < n && s[i] == '.'
        invariant
            n == s@.len(),
            i <= n,
            strip_leading_dots(s@) == strip_leading_dots(s@.skip(i as int)),
        decreases n - i,
    {
        assert(s@.skip(i as int).drop_first() == s@.skip(i + 1));
        i = i + 1;
    }
    assert(s@.skip(i as int) == s@.subrange(i as int, n as int));
    char_range(s, i, n)
}

/// `s` cut at every occurrence of `sep` (the separators dropped), as
/// `split` does: there is always at least one piece, and `n` separators give
/// `n + 1` pieces.
pub open spec fn split_on<T>(s: Seq<T>, sep: T) -> Seq<Seq<T>>
    decreases s.len(),
{
    if s.len() == 0 {
        seq![Seq::<T>::empty()]
    } else {
        let prev = split_on(s.drop_last(), sep);
        if s.last() == sep {
            prev.push(Seq::<T>::empty())
        } else {
            prev.update(prev.len() - 1, prev.last().push(s.last()))
        }
    }
}

/// Encoding a concatenation encodes the parts one after the other.
pub proof fn lemma_encode_utf8_concat(a: Seq<char>, b: Seq<char>)
    ensures
        vstd::utf8::encode_utf8(a + b) == vstd::utf8::encode_utf8(a) + vstd::utf8::encode_utf8(b),
    decreases a.len(),
{
    if a.len() == 0 {
        assert(a + b =~= b);
        assert(vstd::utf8::encode_utf8(a) =~= Seq::<u8>::empty());
        assert(Seq::<u8>::empty() + vstd::utf8::encode_utf8(b) =~= vstd::utf8::encode_utf8(b));
    } else {
        assert((a + b).drop_first() =~= a.drop_first() + b);
        assert((a + b)[0] == a[0]);
        lemma_encode_utf8_concat(a.drop_first(), b);
        let e0 = vstd::utf8::encode_scalar(a[0] as u32);
        assert(e0 + (vstd::utf8::encode_utf8(a.drop_first()) + vstd::utf8::encode_utf8(b))
            =~= (e0 + vstd::utf8::encode_utf8(a.drop_first())) + vstd::utf8::encode_utf8(b));
    }
}


/// An ASCII decimal digit.
pub open spec fn is_digit(c: char) -> bool {
    '0' <= c && c <= '9'
}

/// The number a string of decimal digits denotes.
pub open spec fn digits_value(s: Seq<char>) -> int
    decreases s.len(),
{
    if s.len() == 0 {
        0
    } else {
        digits_value(s.drop_last()) * 10 + (s.last() as u32 - 48)
    }
}

/// The decimal rendering of `n` is a non-empty string of digits that
/// denotes `n`, with no leading zero unless `n` is zero.
pub proof fn lemma_decimal_denotes(n: nat)
    ensures
        decimal(n).len() >= 1,
        forall|i: int| 0 <= i < decimal(n).len() ==> is_digit(#[trigger] decimal(n)[i]),
        digits_value(decimal(n)) == n,
        decimal(n)[0] == '0' ==> n == 0,
    decreases n,
{
    assert(digit_char(n % 10) as u32 == (n % 10) + 48);
    if n >= 10 {
        lemma_decimal_denotes(n / 10);
        assert(n == (n / 10) * 10 + n % 10);
        let d = decimal(n);
        assert(d.drop_last() =~= decimal(n / 10));
        assert(d[0] == decimal(n / 10)[0]);
        assert(d.last() == digit_char(n % 10));
        assert(digits_value(d) == digits_value(decimal(n / 10)) * 10 + (n % 10));
        assert(digits_value(d) == n);
    } else {
        let d = decimal(n);
        assert(d.drop_last() =~= Seq::<char>::empty());
        assert(d.last() == digit_char(n));
        assert(digits_value(d.drop_last()) == 0);
        assert(digits_value(d) == (digit_char(n) as u32 - 48));
    }
}


/// The pieces joined back together with `sep` between them.
pub open spec fn join_with<T>(pieces: Seq<Seq<T>>, sep: T) -> Seq<T>
    decreases pieces.len(),
{
    if pieces.len() == 0 {
        Seq::empty()
    } else if pieces.len() == 1 {
        pieces[0]
    } else {
        join_with(pieces.drop_last(), sep).push(sep) + pieces.last()
    }
}

/// Splitting cuts at separators only: no piece holds the separator, there
/// is at least one piece, and joining the pieces with the separator gives
/// back the input.
pub proof fn lemma_split_on_inverts_join<T>(s: Seq<T>, sep: T)
    ensures
        split_on(s, sep).len() >= 1,
        forall|k: int| 0 <= k < split_on(s, sep).len() ==> !(#[trigger] split_on(s, sep)[k]).contains(sep),
        join_with(split_on(s, sep), sep) == s,
    decreases s.len(),
{
    if s.len() > 0 {
        let w = s.drop_last();
        let c = s.last();
        lemma_split_on_inverts_join(w, sep);
        let prev = split_on(w, sep);
        let cur = split_on(s, sep);
        if c == sep {
            assert(cur == prev.push(Seq::<T>::empty()));
            assert(cur.drop_last() =~= prev);
            assert forall|k: int| 0 <= k < cur.len() implies !(#[trigger] cur[k]).contains(sep) by {
                if k < prev.len() {
                    assert(cur[k] == prev[k]);
                }
            }
            assert(join_with(cur, sep) =~= w.push(sep) + Seq::<T>::empty());
            assert(w.push(sep) + Seq::<T>::empty() =~= s);
        } else {
            let last = prev.last().push(c);
            assert(cur == prev.update(prev.len() - 1, last));
            assert forall|k: int| 0 <= k < cur.len() implies !(#[trigger] cur[k]).contains(sep) by {
                if k < prev.len() - 1 {
                    assert(cur[k] == prev[k]);
                } else {
                    assert(cur[k] == last);
                    assert(!prev.last().contains(sep)) by {
                        assert(prev[prev.len() - 1] == prev.last());
                    }
                    if last.contains(sep) {
                        let j = choose|j: int| 0 <= j < last.len() && last[j] == sep;
                        if j < prev.last().len() {
                            assert(prev.last()[j] == sep);
                        }
                    }
                }
            }
            if prev.len() == 1 {
                assert(join_with(prev, sep) == prev[0]);
                assert(cur.len() == 1);
                assert(join_with(cur, sep) == cur[0]);
                assert(w.push(c) =~= s);
            } else {
                assert(cur.drop_last() =~= prev.drop_last());
                assert(join_with(prev, sep) == join_with(prev.drop_last(), sep).push(sep) + prev.last());
                assert(join_with(cur, sep) == join_with(prev.drop_last(), sep).push(sep) + last);
                assert((join_with(prev.drop_last(), sep).push(sep) + prev.last()).push(c)
                    =~= join_with(prev.drop_last(), sep).push(sep) + last);
                assert(w.push(c) =~= s);
            }
        }
    }
}

/// Trimming removes white space at both ends and nothing else: the result
/// is a stretch `s[i..j]` of the input with only white space outside it,
/// and it neither starts nor ends with white space.
pub proof fn lemma_trim_removes_outer_white_space(s: Seq<char>)
    ensures
        exists|i: int, j: int|
            0 <= i <= j <= s.len() && trim_ws(s) == s.subrange(i, j) && (forall|k: int|
                0 <= k < i ==> unicode_white_space(#[trigger] s[k])) && (forall|k: int|
                j <= k < s.len() ==> unicode_white_space(#[trigger] s[k])),
        trim_ws(s).len() > 0 ==> !unicode_white_space(trim_ws(s)[0]) && !unicode_white_space(
            trim_ws(s).last(),
        ),
{
    lemma_trim_start(s);
    let t = trim_start_ws(s);
    let i = s.len() - t.len();
    lemma_trim_end(t);
    let r = trim_end_ws(t);
    let j = i + r.len();
    assert(trim_ws(s) == s.subrange(i, j)) by {
        assert(t.subrange(0, r.len() as int) =~= s.subrange(i, j));
    }
    assert forall|k: int| j <= k < s.len() implies unicode_white_space(#[trigger] s[k]) by {
        assert(s[k] == t[k - i]);
    }
    if r.len() > 0 {
        assert(r[0] == t[0]);
    }
}

proof fn lemma_trim_start(s: Seq<char>)
    ensures
        trim_start_ws(s).len() <= s.len(),
        trim_start_ws(s) == s.subrange(s.len() - trim_start_ws(s).len(), s.len() as int),
        forall|k: int|
            0 <= k < s.len() - trim_start_ws(s).len() ==> unicode_white_space(#[trigger] s[k]),
        trim_start_ws(s).len() > 0 ==> !unicode_white_space(trim_start_ws(s)[0]),
    decreases s.len(),
{
    if s.len() > 0 && unicode_white_space(s[0]) {
        lemma_trim_start(s.drop_first());
        let t = trim_start_ws(s);
        assert forall|k: int| 0 <= k < s.len() - t.len() implies unicode_white_space(
            #[trigger] s[k],
        ) by {
            if k > 0 {
                assert(s[k] == s.drop_first()[k - 1]);
            }
        }
        assert(s.drop_first().subrange(s.drop_first().len() - t.len(), s.drop_first().len() as int)
            =~= s.subrange(s.len() - t.len(), s.len() as int));
    } else {
        assert(s.subrange(0, s.len() as int) =~= s);
    }
}

proof fn lemma_trim_end(s: Seq<char>)
    ensures
        trim_end_ws(s).len() <= s.len(),
        trim_end_ws(s) == s.subrange(0, trim_end_ws(s).len() as int),
        forall|k: int| trim_end_ws(s).len() <= k < s.len() ==> unicode_white_space(#[trigger] s[k]),
        trim_end_ws(s).len() > 0 ==> !unicode_white_space(trim_end_ws(s).last()),
    decreases s.len(),
{
    if s.len() > 0 && unicode_white_space(s.last()) {
        lemma_trim_end(s.drop_last());
        let t = trim_end_ws(s);
        assert forall|k: int| t.len() <= k < s.len() implies unicode_white_space(#[trigger] s[k]) by {
            if k < s.len() - 1 {
                assert(s[k] == s.drop_last()[k]);
            }
        }
        assert(s.drop_last().subrange(0, t.len() as int) =~= s.subrange(0, t.len() as int));
    } else {
        assert(s.subrange(0, s.len() as int) =~= s);
    }
}

/// Stripping leading dots removes a run of `.` from the front and nothing
/// else: the input is that run followed by the result, which does not start
/// with `.`.
pub proof fn lemma_strip_leading_dots(s: Seq<char>)
    ensures
        strip_leading_dots(s).len() <= s.len(),
        s == s.take(s.len() - strip_leading_dots(s).len()) + strip_leading_dots(s),
        forall|k: int|
            0 <= k < s.len() - strip_leading_dots(s).len() ==> #[trigger] s[k] == '.',
        strip_leading_dots(s).len() > 0 ==> strip_leading_dots(s)[0] != '.',
    decreases s.len(),
{
    if s.len() > 0 && s[0] == '.' {
        lemma_strip_leading_dots(s.drop_first());
        let r = strip_leading_dots(s);
        let n = s.len() - r.len();
        assert forall|k: int| 0 <= k < n implies #[trigger] s[k] == '.' by {
            if k > 0 {
                assert(s[k] == s.drop_first()[k - 1]);
            }
        }
        let d = s.drop_first();
        assert(d =~= d.take(d.len() - r.len()) + r);
        assert(s =~= s.take(n) + r) by {
            assert forall|k: int| 0 <= k < s.len() implies s[k] == (s.take(n) + r)[k] by {
                if k >= n {
                    assert(s[k] == d[k - 1]);
                    assert(d[k - 1] == (d.take(d.len() - r.len()) + r)[k - 1]);
                }
            }
        }
    } else {
        assert(s =~= s.take(0) + s);
    }
}

} // verus!
