//! Verified text building blocks for the report renderer: decimal
//! rendering of integers, fixed-point rendering with one fractional
//! digit, and left-aligned / centered padding.

use vstd::prelude::*;
use vstd::string::StrSliceExecFns;
use vstd::string::StringExecFns;

verus! {

/// The character for one decimal digit value.
pub open spec fn digit_char(d: int) -> char
    recommends
        0 <= d < 10,
{
    ((d + 48) as u8) as char
}

/// Decimal digits of a non-negative number, most significant first.
pub open spec fn dec_chars(n: int) -> Seq<char>
    recommends
        n >= 0,
    decreases n,
{
    if n < 10 {
        seq![digit_char(n)]
    } else {
        dec_chars(n / 10).push(digit_char(n % 10))
    }
}

/// One decimal digit as a string slice.
fn digit_str(d: u64) -> (r: &'static str)
    requires
        d < 10,
    ensures
        r@ == seq![digit_char(d as int)],
{
    proof {
        reveal_strlit("0");
        reveal_strlit("1");
        reveal_strlit("2");
        reveal_strlit("3");
        reveal_strlit("4");
        reveal_strlit("5");
        reveal_strlit("6");
        reveal_strlit("7");
        reveal_strlit("8");
        reveal_strlit("9");
    }
    match d {
        0 => "0",
        1 => "1",
        2 => "2",
        3 => "3",
        4 => "4",
        5 => "5",
        6 => "6",
        7 => "7",
        8 => "8",
        _ => "9",
    }
}

/// Appends the decimal form of `n` to `out`.
pub fn push_u64(out: &mut String, n: u64)
    ensures
        final(out)@ == old(out)@ + dec_chars(n as int),
    decreases n,
{
    if n >= 10 {
        push_u64(out, n / 10);
        out.append(digit_str(n % 10));
    } else {
        out.append(digit_str(n));
    }
}

/// Decimal form of a signed number: a minus sign, then the magnitude.
pub open spec fn signed_chars(v: int) -> Seq<char> {
    if v < 0 {
        seq!['-'] + dec_chars(-v)
    } else {
        dec_chars(v)
    }
}

/// Appends the decimal form of `v` to `out`.
pub fn push_i64(out: &mut String, v: i64)
    ensures
        final(out)@ == old(out)@ + signed_chars(v as int),
{
    proof {
        reveal_strlit("-");
    }
    if v < 0 {
        out.append("-");
        let m: u64 = (-(v as i128)) as u64;
        push_u64(out, m);
    } else {
        push_u64(out, v as u64);
    }
}

/// Rendering of a non-negative fixed-point value (in ten-thousandths)
/// with exactly one fractional digit, truncated.
pub open spec fn fixed_mag_chars(m: int) -> Seq<char>
    recommends
        m >= 0,
{
    dec_chars(m / 10000) + seq!['.', digit_char((m / 1000) % 10)]
}

/// Rendering of a fixed-point value in ten-thousandths, sign included.
pub open spec fn fixed_chars(v: int) -> Seq<char> {
    if v < 0 {
        seq!['-'] + fixed_mag_chars(-v)
    } else {
        fixed_mag_chars(v)
    }
}

/// Appends the fixed-point form of `v` (in ten-thousandths) to `out`.
pub fn push_fixed(out: &mut String, v: i64)
    ensures
        final(out)@ == old(out)@ + fixed_chars(v as int),
{
    proof {
        reveal_strlit("-");
        reveal_strlit(".");
    }
    let m: u64 = if v < 0 {
        out.append("-");
        (-(v as i128)) as u64
    } else {
        v as u64
    };
    push_u64(out, m / 10000);
    out.append(".");
    out.append(digit_str(m / 1000 % 10));
    proof {
        if v < 0 {
            assert(final(out)@ =~= old(out)@ + fixed_chars(v as int));
        } else {
            assert(final(out)@ =~= old(out)@ + fixed_chars(v as int));
        }
    }
}

/// A run of one repeated character.
pub open spec fn repeat_char(c: char, n: int) -> Seq<char>
    recommends
        n >= 0,
{
    Seq::new(n as nat, |i: int| c)
}

/// Appends `n` spaces to `out`.
pub fn push_spaces(out: &mut String, n: usize)
    ensures
        final(out)@ == old(out)@ + repeat_char(' ', n as int),
{
    proof {
        reveal_strlit(" ");
    }
    let mut i: usize = 0;
    while i < n
        invariant
            i <= n,
            out@ == old(out)@ + repeat_char(' ', i as int),
        decreases n - i,
    {
        out.append(" ");
        i = i + 1;
        proof {
            reveal_strlit(" ");
            assert(out@ =~= old(out)@ + repeat_char(' ', i as int));
        }
    }
}

/// Appends `n` dashes to `out`.
pub fn push_dashes(out: &mut String, n: usize)
    ensures
        final(out)@ == old(out)@ + repeat_char('-', n as int),
{
    proof {
        reveal_strlit("-");
    }
    let mut i: usize = 0;
    while i < n
        invariant
            i <= n,
            out@ == old(out)@ + repeat_char('-', i as int),
        decreases n - i,
    {
        out.append("-");
        i = i + 1;
        proof {
            reveal_strlit("-");
            assert(out@ =~= old(out)@ + repeat_char('-', i as int));
        }
    }
}

/// A string left-aligned in a field of `w` characters: text that is
/// already wide enough is kept whole, never cut.
pub open spec fn left_aligned(s: Seq<char>, w: int) -> Seq<char> {
    if s.len() >= w {
        s
    } else {
        s + repeat_char(' ', w - s.len())
    }
}

/// Appends `s`, padded on the right with spaces to `w` characters.
pub fn push_left_aligned(out: &mut String, s: &str, w: usize)
    ensures
        final(out)@ == old(out)@ + left_aligned(s@, w as int),
{
    out.append(s);
    let n = s.unicode_len();
    if n < w {
        push_spaces(out, w - n);
    }
}

/// A string centered in a field of `w` characters; when the padding is
/// odd, the extra space goes to the right.
pub open spec fn centered(s: Seq<char>, w: int) -> Seq<char> {
    if s.len() >= w {
        s
    } else {
        let extra = w - s.len();
        repeat_char(' ', extra / 2) + s + repeat_char(' ', extra - extra / 2)
    }
}

/// Appends `s`, centered in a field of `w` characters.
pub fn push_centered(out: &mut String, s: &str, w: usize)
    ensures
        final(out)@ == old(out)@ + centered(s@, w as int),
{
    let n = s.unicode_len();
    if n < w {
        let extra = w - n;
        push_spaces(out, extra / 2);
        out.append(s);
        push_spaces(out, extra - extra / 2);
    } else {
        out.append(s);
    }
}

/// Whether the text is one or more decimal digits.
pub open spec fn is_dec_chars(s: Seq<char>) -> bool {
    s.len() > 0 && forall|i: int| 0 <= i < s.len() ==> '0' <= #[trigger] s[i] <= '9'
}

/// Value of the first `n` decimal digits.
pub open spec fn dec_val_upto(s: Seq<char>, n: int) -> int
    decreases n,
{
    if n <= 0 {
        0
    } else {
        dec_val_upto(s, n - 1) * 10 + (s[n - 1] as int - 48)
    }
}

/// Value of a run of decimal digits.
pub open spec fn dec_val(s: Seq<char>) -> int {
    dec_val_upto(s, s.len() as int)
}

/// Whether the text is a run of decimal digits whose value fits a
/// 64-bit counter.
pub open spec fn spec_parse_u64(t: Seq<char>) -> Option<u64> {
    if is_dec_chars(t) && dec_val(t) <= u64::MAX {
        Some(dec_val(t) as u64)
    } else {
        None
    }
}

/// Parses a run of decimal digits; anything else, or a value too large
/// for 64 bits, is no number.
pub fn parse_u64(t: &str) -> (r: Option<u64>)
    ensures
        r == spec_parse_u64(t@),
{
    let n = t.unicode_len();
    if n == 0 {
        return None;
    }
    let mut val: u64 = 0;
    let mut big = false;
    let mut i: usize = 0;
    while i < n
        invariant
            i <= n,
            n == t@.len(),
            forall|k: int| 0 <= k < i ==> '0' <= #[trigger] t@[k] <= '9',
            !big ==> val == dec_val_upto(t@, i as int),
            big ==> dec_val_upto(t@, i as int) > u64::MAX,
        decreases n - i,
    {
        let c = t.get_char(i);
        if !(c >= '0' && c <= '9') {
            return None;
        }
        let d: u64 = (c as u64) - 48;
        if big || val > (u64::MAX - d) / 10 {
            big = true;
        } else {
            val = val * 10 + d;
        }
        i = i + 1;
    }
    if big {
        None
    } else {
        Some(val)
    }
}

/// The whitespace that separates fields in the counter files.
pub open spec fn is_ws(c: char) -> bool {
    c == ' ' || c == '\t' || c == '\n' || c == '\r'
}

fn is_ws_exec(c: char) -> (r: bool)
    ensures
        r == is_ws(c),
{
    c == ' ' || c == '\t' || c == '\n' || c == '\r'
}

/// Length of the leading run of non-whitespace characters.
pub open spec fn token_end(s: Seq<char>) -> int
    decreases s.len(),
{
    if s.len() == 0 {
        0
    } else if is_ws(s[0]) {
        0
    } else {
        1 + token_end(s.drop_first())
    }
}

proof fn lemma_token_end_bounds(s: Seq<char>)
    ensures
        0 <= token_end(s) <= s.len(),
    decreases s.len(),
{
    if s.len() > 0 && !is_ws(s[0]) {
        lemma_token_end_bounds(s.drop_first());
    }
}

/// The whitespace-separated tokens of a text, in order.
pub open spec fn spec_tokens(s: Seq<char>) -> Seq<Seq<char>>
    decreases s.len(),
    via spec_tokens_decreases
{
    if s.len() == 0 {
        Seq::<Seq<char>>::empty()
    } else if is_ws(s[0]) {
        spec_tokens(s.drop_first())
    } else {
        seq![s.take(token_end(s))] + spec_tokens(s.skip(token_end(s)))
    }
}

#[via_fn]
proof fn spec_tokens_decreases(s: Seq<char>) {
    if s.len() > 0 && !is_ws(s[0]) {
        lemma_token_end_bounds(s);
        lemma_token_end_bounds(s.drop_first());
        assert(token_end(s) == 1 + token_end(s.drop_first()));
        assert(s.skip(token_end(s)).len() < s.len());
    }
}

/// A run of non-whitespace from `i` to `j` (with `j` at whitespace or
/// the end) is exactly the token that starts at `i`.
proof fn lemma_token_end_run(s: Seq<char>, i: int, j: int)
    requires
        0 <= i <= j <= s.len(),
        forall|k: int| i <= k < j ==> !is_ws(#[trigger] s[k]),
        j == s.len() || is_ws(s[j]),
    ensures
        token_end(s.skip(i)) == j - i,
    decreases j - i,
{
    let t = s.skip(i);
    if i == j {
        if i < s.len() {
            assert(t[0] == s[i]);
        }
    } else {
        assert(t[0] == s[i]);
        assert(!is_ws(t[0]));
        lemma_token_end_run(s, i + 1, j);
        assert(t.drop_first() =~= s.skip(i + 1));
    }
}

/// The views of a vector of strings.
pub open spec fn views_of(ts: Seq<String>) -> Seq<Seq<char>> {
    ts.map_values(|t: String| t@)
}

/// Splits a text into its whitespace-separated tokens.
pub fn split_ws(s: &str) -> (r: Vec<String>)
    ensures
        views_of(r@) == spec_tokens(s@),
{
    let n = s.unicode_len();
    let mut r: Vec<String> = Vec::new();
    let mut i: usize = 0;
    proof {
        assert(s@.skip(0) =~= s@);
        assert(views_of(r@) =~= Seq::<Seq<char>>::empty());
    }
    while i < n
        invariant
            i <= n,
            n == s@.len(),
            spec_tokens(s@) == views_of(r@) + spec_tokens(s@.skip(i as int)),
        decreases n - i,
    {
        let c = s.get_char(i);
        if is_ws_exec(c) {
            proof {
                assert(s@.skip(i as int).drop_first() =~= s@.skip(i + 1));
            }
            i = i + 1;
        } else {
            let start = i;
            let mut j: usize = i;
            loop
                invariant
                    i <= j <= n,
                    n == s@.len(),
                    forall|k: int| i <= k < j ==> !is_ws(#[trigger] s@[k]),
                ensures
                    i <= j <= n,
                    forall|k: int| i <= k < j ==> !is_ws(#[trigger] s@[k]),
                    j == n || is_ws(s@[j as int]),
                decreases n - j,
            {
                if j == n {
                    break;
                }
                if is_ws_exec(s.get_char(j)) {
                    break;
                }
                j = j + 1;
            }
            let tok = s.substring_char(start, j).to_owned();
            let ghost old_r = r@;
            r.push(tok);
            proof {
                lemma_token_end_run(s@, i as int, j as int);
                let t = s@.skip(i as int);
                assert(t.take(j - i) =~= s@.subrange(i as int, j as int));
                assert(t.skip(j - i) =~= s@.skip(j as int));
                assert(tok@ == s@.subrange(i as int, j as int));
                assert(views_of(r@) =~= views_of(old_r).push(tok@));
                assert(views_of(old_r) + spec_tokens(t) =~= views_of(r@) + spec_tokens(
                    s@.skip(j as int),
                ));
            }
            i = j;
        }
    }
    proof {
        assert(s@.skip(n as int) =~= Seq::<char>::empty());
        assert(views_of(r@) + spec_tokens(s@.skip(n as int)) =~= views_of(r@));
    }
    r
}

/// Length of the leading run of characters before a line break.
pub open spec fn line_end(s: Seq<char>) -> int
    decreases s.len(),
{
    if s.len() == 0 {
        0
    } else if s[0] == '\n' {
        0
    } else {
        1 + line_end(s.drop_first())
    }
}

proof fn lemma_line_end_bounds(s: Seq<char>)
    ensures
        0 <= line_end(s) <= s.len(),
    decreases s.len(),
{
    if s.len() > 0 && s[0] != '\n' {
        lemma_line_end_bounds(s.drop_first());
    }
}

/// A line with a trailing carriage return stripped.
pub open spec fn strip_cr(l: Seq<char>) -> Seq<char> {
    if l.len() > 0 && l.last() == '\r' {
        l.drop_last()
    } else {
        l
    }
}

/// The lines of a text: split at newlines, carriage returns stripped,
/// no empty line after a final newline.
pub open spec fn spec_lines(s: Seq<char>) -> Seq<Seq<char>>
    decreases s.len(),
    via spec_lines_decreases
{
    if s.len() == 0 {
        Seq::<Seq<char>>::empty()
    } else {
        let k = line_end(s);
        if k == s.len() {
            seq![strip_cr(s)]
        } else {
            seq![strip_cr(s.take(k))] + spec_lines(s.skip(k + 1))
        }
    }
}

#[via_fn]
proof fn spec_lines_decreases(s: Seq<char>) {
    if s.len() > 0 {
        lemma_line_end_bounds(s);
    }
}

proof fn lemma_line_end_run(s: Seq<char>, i: int, j: int)
    requires
        0 <= i <= j <= s.len(),
        forall|k: int| i <= k < j ==> #[trigger] s[k] != '\n',
        j == s.len() || s[j] == '\n',
    ensures
        line_end(s.skip(i)) == j - i,
    decreases j - i,
{
    let t = s.skip(i);
    if i == j {
        if i < s.len() {
            assert(t[0] == s[i]);
        }
    } else {
        assert(t[0] == s[i]);
        lemma_line_end_run(s, i + 1, j);
        assert(t.drop_first() =~= s.skip(i + 1));
    }
}

/// Strips one trailing carriage return from a string.
fn strip_cr_exec(l: &str) -> (r: String)
    ensures
        r@ == strip_cr(l@),
{
    let n = l.unicode_len();
    if n > 0 && l.get_char(n - 1) == '\r' {
        let r = l.substring_char(0, n - 1).to_owned();
        proof {
            assert(l@.subrange(0, n - 1) =~= l@.drop_last());
        }
        r
    } else {
        l.to_owned()
    }
}

/// Splits a text into lines, as the line-oriented counter files are
/// read: newline-separated, an optional carriage return stripped.
pub fn split_lines(s: &str) -> (r: Vec<String>)
    ensures
        views_of(r@) == spec_lines(s@),
{
    let n = s.unicode_len();
    let mut r: Vec<String> = Vec::new();
    let mut i: usize = 0;
    proof {
        assert(s@.skip(0) =~= s@);
        assert(views_of(r@) =~= Seq::<Seq<char>>::empty());
    }
    while i < n
        invariant
            i <= n,
            n == s@.len(),
            spec_lines(s@) == views_of(r@) + spec_lines(s@.skip(i as int)),
        decreases n - i,
    {
        let start = i;
        let mut j: usize = i;
        loop
            invariant
                i <= j <= n,
                n == s@.len(),
                forall|k: int| i <= k < j ==> #[trigger] s@[k] != '\n',
            ensures
                i <= j <= n,
                forall|k: int| i <= k < j ==> #[trigger] s@[k] != '\n',
                j == n || s@[j as int] == '\n',
            decreases n - j,
        {
            if j == n {
                break;
            }
            if s.get_char(j) == '\n' {
                break;
            }
            j = j + 1;
        }
        let line = strip_cr_exec(s.substring_char(start, j));
        let ghost old_r = r@;
        r.push(line);
        proof {
            lemma_line_end_run(s@, i as int, j as int);
            let t = s@.skip(i as int);
            assert(t.take(j - i) =~= s@.subrange(i as int, j as int));
            assert(line@ == strip_cr(s@.subrange(i as int, j as int)));
            assert(views_of(r@) =~= views_of(old_r).push(line@));
            if j == n {
                assert(t.take(j - i) =~= t);
                assert(spec_lines(s@) =~= views_of(r@));
            } else {
                assert(t.skip(j - i + 1) =~= s@.skip(j + 1));
                assert(views_of(old_r) + spec_lines(t) =~= views_of(r@) + spec_lines(
                    s@.skip(j + 1),
                ));
            }
        }
        if j == n {
            i = n;
            proof {
                assert(s@.skip(n as int) =~= Seq::<char>::empty());
                assert(views_of(r@) + spec_lines(s@.skip(n as int)) =~= views_of(r@));
            }
        } else {
            i = j + 1;
        }
    }
    proof {
        assert(s@.skip(n as int) =~= Seq::<char>::empty());
        assert(views_of(r@) + spec_lines(s@.skip(n as int)) =~= views_of(r@));
    }
    r
}

/// Whether `t` starts with `p`, character for character.
pub(crate) fn str_starts_with(t: &str, p: &str) -> (r: bool)
    ensures
        r == p@.is_prefix_of(t@),
{
    let pl = p.unicode_len();
    let tl = t.unicode_len();
    if pl > tl {
        return false;
    }
    let mut i: usize = 0;
    while i < pl
        invariant
            i <= pl,
            pl == p@.len(),
            tl == t@.len(),
            pl <= tl,
            forall|k: int| 0 <= k < i ==> p@[k] == t@[k],
        decreases pl - i,
    {
        if t.get_char(i) != p.get_char(i) {
            return false;
        }
        i = i + 1;
    }
    proof {
        assert(p@ =~= t@.subrange(0, p@.len() as int));
    }
    true
}

} // verus!
