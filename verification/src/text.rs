//! Unicode-aware text helpers: whitespace as Rust's `char::is_whitespace`
//! defines it, trimming, splitting into words, and decimal numbers.

use vstd::prelude::*;

use vstd::std_specs::iter::IteratorSpec;

verus! {

broadcast use vstd::string::group_string_axioms;

/// The characters of `s`, in order.
pub fn chars_of(s: &str) -> (res: Vec<char>)
    ensures
        res@ == s@,
{
    let mut it = s.chars();
    let mut out: Vec<char> = Vec::new();
    loop
        invariant
            out@ + it.remaining() == s@,
            it.obeys_prophetic_iter_laws(),
            it.decrease() is Some,
        ensures
            out@ == s@,
        decreases it.decrease()->0,
    {
        let ghost before = it.remaining();
        match it.next() {
            Some(c) => {
                out.push(c);
                assert(out@ + it.remaining() =~= s@);
            },
            None => {
                assert(out@ + before =~= out@);
                break;
            },
        }
    }
    out
}

/// Calls `String::push`, which appends one character to the string.
#[verifier::external_body]
fn push_char(s: &mut String, c: char)
    ensures
        final(s)@ == old(s)@.push(c),
{
    s.push(c);
}

/// The characters `lo..hi` of `v` as a string.
pub fn string_from_chars(v: &[char], lo: usize, hi: usize) -> (res: String)
    requires
        lo <= hi <= v@.len(),
    ensures
        res@ == v@.subrange(lo as int, hi as int),
{
    let mut out = String::new();
    let mut k = lo;
    while k < hi
        invariant
            lo <= k <= hi,
            hi <= v@.len(),
            out@ == v@.subrange(lo as int, k as int),
        decreases hi - k,
    {
        push_char(&mut out, v[k]);
        assert(v@.subrange(lo as int, k + 1) =~= v@.subrange(lo as int, k as int).push(v@[k as int]));
        k += 1;
    }
    out
}

/// Unicode `White_Space`, the property behind `char::is_whitespace`.
pub open spec fn is_white_space(c: char) -> bool {
    let v = c as u32;
    (0x09 <= v <= 0x0d) || v == 0x20 || v == 0x85 || v == 0xa0 || v == 0x1680 || (0x2000 <= v
        <= 0x200a) || v == 0x2028 || v == 0x2029 || v == 0x202f || v == 0x205f || v == 0x3000
}

/// Whether `c` is Unicode white space.
pub fn white_space(c: char) -> (res: bool)
    ensures
        res == is_white_space(c),
{
    let v = c as u32;
    (0x09 <= v && v <= 0x0d) || v == 0x20 || v == 0x85 || v == 0xa0 || v == 0x1680 || (0x2000 <= v
        && v <= 0x200a) || v == 0x2028 || v == 0x2029 || v == 0x202f || v == 0x205f || v == 0x3000
}

/// A carriage return or a line feed.
pub open spec fn is_line_break(c: char) -> bool {
    c == '\r' || c == '\n'
}

/// `s` without leading white space.
pub open spec fn trim_start_spec(s: Seq<char>) -> Seq<char>
    decreases s.len(),
{
    if s.len() > 0 && is_white_space(s[0]) {
        trim_start_spec(s.drop_first())
    } else {
        s
    }
}

/// `s` without trailing white space.
pub open spec fn trim_end_spec(s: Seq<char>) -> Seq<char>
    decreases s.len(),
{
    if s.len() > 0 && is_white_space(s.last()) {
        trim_end_spec(s.drop_last())
    } else {
        s
    }
}

/// `s` without leading or trailing white space.
pub open spec fn trim_spec(s: Seq<char>) -> Seq<char> {
    trim_end_spec(trim_start_spec(s))
}

/// `s` without leading carriage returns and line feeds.
pub open spec fn trim_start_line_breaks_spec(s: Seq<char>) -> Seq<char>
    decreases s.len(),
{
    if s.len() > 0 && is_line_break(s[0]) {
        trim_start_line_breaks_spec(s.drop_first())
    } else {
        s
    }
}

fn skippable(c: char, line_breaks_only: bool) -> (res: bool)
    ensures
        res == if line_breaks_only {
            is_line_break(c)
        } else {
            is_white_space(c)
        },
{
    if line_breaks_only {
        c == '\r' || c == '\n'
    } else {
        white_space(c)
    }
}

/// The first index at or after `lo` (up to `hi`) whose character is not white
/// space (`line_breaks_only` narrows "white space" to `\r` and `\n`).
fn skip_leading(v: &[char], lo: usize, hi: usize, line_breaks_only: bool) -> (res: usize)
    requires
        lo <= hi <= v@.len(),
    ensures
        lo <= res <= hi,
        !line_breaks_only ==> trim_start_spec(v@.subrange(lo as int, hi as int)) == v@.subrange(
            res as int,
            hi as int,
        ),
        line_breaks_only ==> trim_start_line_breaks_spec(v@.subrange(lo as int, hi as int))
            == v@.subrange(res as int, hi as int),
{
    let mut k = lo;
    while k < hi && skippable(v[k], line_breaks_only)
        invariant
            lo <= k <= hi,
            hi <= v@.len(),
            !line_breaks_only ==> trim_start_spec(v@.subrange(lo as int, hi as int))
                == trim_start_spec(v@.subrange(k as int, hi as int)),
            line_breaks_only ==> trim_start_line_breaks_spec(v@.subrange(lo as int, hi as int))
                == trim_start_line_breaks_spec(v@.subrange(k as int, hi as int)),
        decreases hi - k,
    {
        assert(v@.subrange(k as int, hi as int).drop_first() =~= v@.subrange(k + 1, hi as int));
        k += 1;
    }
    k
}

/// The index up to which (from `lo`, before `hi`) the characters remain once
/// trailing white space is removed.
fn skip_trailing(v: &[char], lo: usize, hi: usize) -> (res: usize)
    requires
        lo <= hi <= v@.len(),
    ensures
        lo <= res <= hi,
        trim_end_spec(v@.subrange(lo as int, hi as int)) == v@.subrange(lo as int, res as int),
{
    let mut k = hi;
    while k > lo && white_space(v[k - 1])
        invariant
            lo <= k <= hi,
            hi <= v@.len(),
            trim_end_spec(v@.subrange(lo as int, hi as int)) == trim_end_spec(
                v@.subrange(lo as int, k as int),
            ),
        decreases k - lo,
    {
        assert(v@.subrange(lo as int, k as int).drop_last() =~= v@.subrange(lo as int, k - 1));
        k -= 1;
    }
    k
}

/// `s` with leading and trailing white space removed, as `str::trim` does.
pub fn trim(s: &str) -> (res: String)
    ensures
        res@ == trim_spec(s@),
{
    let v = chars_of(s);
    let lo = skip_leading(v.as_slice(), 0, v.len(), false);
    let hi = skip_trailing(v.as_slice(), lo, v.len());
    assert(v@.subrange(0, v@.len() as int) =~= v@);
    string_from_chars(v.as_slice(), lo, hi)
}

/// `s` with leading carriage returns and line feeds removed, then trailing
/// white space removed, as `s.trim_start_matches(['\r', '\n']).trim_end()`.
pub fn trim_output(s: &str) -> (res: String)
    ensures
        res@ == trim_end_spec(trim_start_line_breaks_spec(s@)),
{
    let v = chars_of(s);
    let lo = skip_leading(v.as_slice(), 0, v.len(), true);
    let hi = skip_trailing(v.as_slice(), lo, v.len());
    assert(v@.subrange(0, v@.len() as int) =~= v@);
    string_from_chars(v.as_slice(), lo, hi)
}

/// The words of `s` from position `i` on, `cur` being the part of a word
/// already read: maximal runs of characters that are not white space.
pub open spec fn words_from(s: Seq<char>, i: int, cur: Seq<char>) -> Seq<Seq<char>>
    decreases s.len() - i,
{
    if i < 0 || i >= s.len() {
        if cur.len() > 0 {
            seq![cur]
        } else {
            Seq::empty()
        }
    } else if is_white_space(s[i]) {
        (if cur.len() > 0 {
            seq![cur]
        } else {
            Seq::empty()
        }) + words_from(s, i + 1, Seq::empty())
    } else {
        words_from(s, i + 1, cur.push(s[i]))
    }
}

/// The words of `s`, as `str::split_whitespace` yields them.
pub open spec fn split_whitespace_spec(s: Seq<char>) -> Seq<Seq<char>> {
    words_from(s, 0, Seq::empty())
}

/// The text of each string.
pub open spec fn strings_view(v: Seq<String>) -> Seq<Seq<char>> {
    v.map_values(|w: String| w@)
}

/// Appends the words of `s` to `out`, as `str::split_whitespace` yields them.
pub fn push_words(out: &mut Vec<String>, s: &str)
    ensures
        strings_view(final(out)@) == strings_view(old(out)@) + split_whitespace_spec(s@),
{
    let v = chars_of(s);
    let len = v.len();
    let mut start: usize = 0;
    let mut k: usize = 0;
    let ghost first = strings_view(old(out)@);
    assert(v@.subrange(0, 0) =~= Seq::<char>::empty());
    while k < len
        invariant
            len == v@.len(),
            v@ == s@,
            start <= k <= len,
            strings_view(out@) + words_from(v@, k as int, v@.subrange(start as int, k as int))
                == first + split_whitespace_spec(s@),
        decreases len - k,
    {
        let ghost before = strings_view(out@);
        if white_space(v[k]) {
            if start < k {
                let w = string_from_chars(v.as_slice(), start, k);
                out.push(w);
                assert(strings_view(out@) =~= before + seq![v@.subrange(start as int, k as int)]);
            } else {
                assert(before + Seq::<Seq<char>>::empty() =~= before);
            }
            assert(v@.subrange(k + 1, k + 1) =~= Seq::<char>::empty());
            start = k + 1;
        } else {
            assert(v@.subrange(start as int, k + 1) =~= v@.subrange(start as int, k as int).push(
                v@[k as int],
            ));
        }
        k += 1;
    }
    if start < k {
        let w = string_from_chars(v.as_slice(), start, k);
        let ghost before = strings_view(out@);
        out.push(w);
        assert(strings_view(out@) =~= before + seq![v@.subrange(start as int, k as int)]);
    } else {
        assert(strings_view(out@) + Seq::<Seq<char>>::empty() =~= strings_view(out@));
    }
}

/// The character of decimal digit `d`.
pub open spec fn digit_char(d: int) -> char {
    (48 + d) as char
}

/// The value of a decimal digit character.
pub open spec fn digit_value(c: char) -> Option<int> {
    if 48 <= (c as u32) <= 57 {
        Some((c as u32) - 48)
    } else {
        None
    }
}

/// The decimal representation of `n`, without sign or leading zeros.
pub open spec fn decimal_spec(n: nat) -> Seq<char>
    decreases n,
{
    if n < 10 {
        seq![digit_char(n as int)]
    } else {
        decimal_spec(n / 10).push(digit_char((n % 10) as int))
    }
}

/// Appends the decimal representation of `n` to `s`.
pub fn push_decimal(s: &mut String, n: u64)
    ensures
        final(s)@ == old(s)@ + decimal_spec(n as nat),
    decreases n,
{
    if n >= 10 {
        push_decimal(s, n / 10);
    }
    let d = (n % 10) as u8;
    let c = (48u8 + d) as char;
    assert(c == digit_char((n % 10) as int));
    push_char(s, c);
    assert(s@ =~= old(s)@ + decimal_spec(n as nat));
}

/// Why a text is not a `u32`, as `u32::from_str` reports it.
#[derive(Clone, Copy, Debug, PartialEq, Eq, Structural)]
pub enum IntParseFailure {
    /// The text is empty.
    Empty,
    /// A character is not a decimal digit (or the text is a lone sign).
    InvalidDigit,
    /// The value does not fit in a `u32`.
    PosOverflow,
}

/// Reads decimal digits from left to right, reporting the first character
/// that is not a digit or that takes the value past `u32::MAX`.
pub open spec fn digits_value(ds: Seq<char>) -> Result<int, IntParseFailure>
    decreases ds.len(),
{
    if ds.len() == 0 {
        Ok(0)
    } else {
        match digits_value(ds.drop_last()) {
            Err(e) => Err(e),
            Ok(acc) => match digit_value(ds.last()) {
                None => Err(IntParseFailure::InvalidDigit),
                Some(d) => if acc * 10 + d > u32::MAX {
                    Err(IntParseFailure::PosOverflow)
                } else {
                    Ok(acc * 10 + d)
                },
            },
        }
    }
}

/// What `u32::from_str` gives for `s`: an optional leading `+`, then decimal
/// digits.
pub open spec fn parse_u32_spec(s: Seq<char>) -> Result<int, IntParseFailure> {
    if s.len() == 0 {
        Err(IntParseFailure::Empty)
    } else if s.len() == 1 && (s[0] == '+' || s[0] == '-') {
        Err(IntParseFailure::InvalidDigit)
    } else if s[0] == '+' {
        digits_value(s.drop_first())
    } else {
        digits_value(s)
    }
}

/// Digits that read successfully give a value that fits in a `u32`.
pub proof fn lemma_digits_value_bound(ds: Seq<char>)
    ensures
        digits_value(ds) matches Ok(v) ==> 0 <= v <= u32::MAX,
    decreases ds.len(),
{
    if ds.len() > 0 {
        lemma_digits_value_bound(ds.drop_last());
    }
}

/// A text that `u32::from_str` reads gives a value that fits in a `u32`.
pub proof fn lemma_parse_u32_in_range(s: Seq<char>)
    ensures
        parse_u32_spec(s) matches Ok(v) ==> 0 <= v <= u32::MAX,
{
    if s.len() > 0 {
        lemma_digits_value_bound(s);
        lemma_digits_value_bound(s.drop_first());
    }
}

/// Parses the characters of `v` as a `u32`, as `u32::from_str` does.
pub fn parse_u32(v: &[char]) -> (res: Result<u32, IntParseFailure>)
    ensures
        match res {
            Ok(n) => parse_u32_spec(v@) == Ok::<int, IntParseFailure>(n as int),
            Err(e) => parse_u32_spec(v@) == Err::<int, IntParseFailure>(e),
        },
{
    let len = v.len();
    if len == 0 {
        return Err(IntParseFailure::Empty);
    }
    if len == 1 && (v[0] == '+' || v[0] == '-') {
        return Err(IntParseFailure::InvalidDigit);
    }
    let start: usize = if v[0] == '+' {
        1
    } else {
        0
    };
    let ghost ds = v@.subrange(start as int, len as int);
    assert(v[0] == '+' ==> ds =~= v@.drop_first());
    assert(v[0] != '+' ==> ds =~= v@);
    let mut acc: u32 = 0;
    let mut k = start;
    assert(ds.subrange(0, 0) =~= Seq::<char>::empty());
    while k < len
        invariant
            start <= k <= len,
            len == v@.len(),
            ds == v@.subrange(start as int, len as int),
            parse_u32_spec(v@) == digits_value(ds),
            digits_value(ds.subrange(0, k - start)) == Ok::<int, IntParseFailure>(acc as int),
        decreases len - k,
    {
        let c = v[k];
        let ghost pre = ds.subrange(0, k - start);
        let ghost cur = ds.subrange(0, k - start + 1);
        assert(cur.drop_last() =~= pre);
        assert(cur.last() == c);
        let code = c as u32;
        if code < 48 || code > 57 {
            proof {
                lemma_digits_value_prefix_err(ds, (k - start + 1) as int, IntParseFailure::InvalidDigit);
            }
            return Err(IntParseFailure::InvalidDigit);
        }
        let d = code - 48;
        if acc > 429496729 || (acc == 429496729 && d > 5) {
            proof {
                lemma_digits_value_prefix_err(ds, (k - start + 1) as int, IntParseFailure::PosOverflow);
            }
            return Err(IntParseFailure::PosOverflow);
        }
        acc = acc * 10 + d;
        k += 1;
    }
    assert(ds.subrange(0, len - start) =~= ds);
    Ok(acc)
}

/// Once a prefix of the digits fails, the whole fails the same way.
proof fn lemma_digits_value_prefix_err(ds: Seq<char>, n: int, e: IntParseFailure)
    requires
        0 <= n <= ds.len(),
        digits_value(ds.subrange(0, n)) == Err::<int, IntParseFailure>(e),
    ensures
        digits_value(ds) == Err::<int, IntParseFailure>(e),
    decreases ds.len() - n,
{
    if n < ds.len() {
        let next = ds.subrange(0, n + 1);
        assert(next.drop_last() =~= ds.subrange(0, n));
        lemma_digits_value_prefix_err(ds, n + 1, e);
    } else {
        assert(ds.subrange(0, n) =~= ds);
    }
}

/// Decimal digits read back give the number they were written from.
pub proof fn lemma_decimal_roundtrip(n: nat)
    requires
        n <= u32::MAX,
    ensures
        digits_value(decimal_spec(n)) == Ok::<int, IntParseFailure>(n as int),
        decimal_spec(n).len() > 0,
        digit_value(decimal_spec(n)[0]) is Some,
    decreases n,
{
    assert(digit_char((n % 10) as int) as u32 == 48 + n % 10);
    if n < 10 {
        let ds = decimal_spec(n);
        assert(ds.drop_last() =~= Seq::<char>::empty());
        assert(digits_value(ds.drop_last()) == Ok::<int, IntParseFailure>(0));
    } else {
        lemma_decimal_roundtrip(n / 10);
        let ds = decimal_spec(n);
        assert(ds.drop_last() =~= decimal_spec(n / 10));
    }
}

} // verus!
