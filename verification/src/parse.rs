//! Parsing of the problem and solution file formats: whitespace-separated
//! decimal tokens, lines beginning with `#` ignored where the format says so.
//! Everything is defined over byte sequences; the caller only reads the file.

use vstd::prelude::*;

use crate::grid::Grid;
use crate::point::{on_grid, Point};
use crate::text::{dec_digits, digit_char, micros_str, padded_digits};

verus! {

/// Whitespace: space, tab, carriage return, line feed.
pub open spec fn is_ws(b: u8) -> bool {
    b == 32 || b == 9 || b == 13 || b == 10
}

/// An ASCII decimal digit.
pub open spec fn is_digit(b: u8) -> bool {
    48 <= b <= 57
}

/// The first position at or after `i` holding a non-whitespace byte, or the
/// end of the input.
pub open spec fn skip_ws(s: Seq<u8>, i: int) -> int
    decreases s.len() - i,
{
    if i < 0 || i >= s.len() || !is_ws(s[i]) {
        i
    } else {
        skip_ws(s, i + 1)
    }
}

/// The end of the token starting at `i`: the first position at or after `i`
/// holding whitespace, or the end of the input.
pub open spec fn token_end(s: Seq<u8>, i: int) -> int
    decreases s.len() - i,
{
    if i < 0 || i >= s.len() || is_ws(s[i]) {
        i
    } else {
        token_end(s, i + 1)
    }
}

pub proof fn lemma_skip_ws_bounds(s: Seq<u8>, i: int)
    requires
        0 <= i <= s.len(),
    ensures
        i <= skip_ws(s, i) <= s.len(),
        skip_ws(s, i) < s.len() ==> !is_ws(s[skip_ws(s, i)]),
    decreases s.len() - i,
{
    if !(i >= s.len() || !is_ws(s[i])) {
        lemma_skip_ws_bounds(s, i + 1);
    }
}

pub proof fn lemma_token_end_bounds(s: Seq<u8>, i: int)
    requires
        0 <= i <= s.len(),
    ensures
        i <= token_end(s, i) <= s.len(),
        token_end(s, i) < s.len() ==> is_ws(s[token_end(s, i)]),
        i < s.len() && !is_ws(s[i]) ==> token_end(s, i) > i,
    decreases s.len() - i,
{
    if !(i >= s.len() || is_ws(s[i])) {
        lemma_token_end_bounds(s, i + 1);
    }
}

/// The spans `(start, end)` of the whitespace-separated tokens of `s`,
/// scanning from position `i`.
pub open spec fn spec_spans(s: Seq<u8>, i: int) -> Seq<(int, int)>
    decreases s.len() - i,
    via spec_spans_dec
{
    let j = skip_ws(s, i);
    if j < 0 || j >= s.len() {
        Seq::empty()
    } else {
        seq![(j, token_end(s, j))] + spec_spans(s, token_end(s, j))
    }
}

#[via_fn]
proof fn spec_spans_dec(s: Seq<u8>, i: int) {
    let j = skip_ws(s, i);
    if 0 <= j < s.len() {
        if i < 0 {
            assert(j == i);
            assert(false);
        }
        lemma_skip_ws_bounds(s, i);
        lemma_token_end_bounds(s, j);
    }
}

/// The `(int, int)` view of a span vector.
pub open spec fn spans_view(r: Seq<(usize, usize)>) -> Seq<(int, int)> {
    r.map_values(|p: (usize, usize)| (p.0 as int, p.1 as int))
}

/// Every byte in `[a, b)` is a decimal digit.
pub open spec fn all_digits(s: Seq<u8>, a: int, b: int) -> bool {
    forall|k: int| a <= k < b ==> is_digit(#[trigger] s[k])
}

/// The value of the decimal digits in `[a, b)`, most significant first.
pub open spec fn digits_val(s: Seq<u8>, a: int, b: int) -> nat
    decreases b - a,
{
    if b <= a {
        0
    } else {
        digits_val(s, a, b - 1) * 10 + (if is_digit(s[b - 1]) {
            (s[b - 1] - 48) as nat
        } else {
            0
        })
    }
}

/// A longer digit prefix never has a smaller value.
pub proof fn lemma_digits_val_monotone(s: Seq<u8>, a: int, k: int, b: int)
    requires
        a <= k <= b,
    ensures
        digits_val(s, a, k) <= digits_val(s, a, b),
    decreases b - k,
{
    if k < b {
        lemma_digits_val_monotone(s, a, k, b - 1);
        assert(digits_val(s, a, b - 1) * 10 >= digits_val(s, a, b - 1)) by (nonlinear_arith);
    }
}

/// Parses the digits in `[a, b)` as an unsigned value, if they are all
/// digits and the value fits in a u64.
pub fn parse_u64_digits(bytes: &[u8], a: usize, b: usize) -> (r: Option<u64>)
    requires
        a <= b <= bytes@.len(),
    ensures
        match r {
            Some(v) => a < b && all_digits(bytes@, a as int, b as int) && v == digits_val(bytes@, a as int, b as int),
            None => a >= b || !all_digits(bytes@, a as int, b as int) || digits_val(bytes@, a as int, b as int) > u64::MAX,
        },
{
    let ghost s = bytes@;
    if a >= b {
        return None;
    }
    let mut acc: u64 = 0;
    let mut k: usize = a;
    while k < b
        invariant
            a <= k <= b,
            b <= s.len(),
            s == bytes@,
            all_digits(s, a as int, k as int),
            acc == digits_val(s, a as int, k as int),
        decreases b - k,
    {
        let c = bytes[k];
        if !(48 <= c && c <= 57) {
            return None;
        }
        let d = (c - 48) as u64;
        let wide: u128 = (acc as u128) * 10 + (d as u128);
        proof {
            assert(digits_val(s, a as int, k + 1) == digits_val(s, a as int, k as int) * 10 + (
            (s[k as int] - 48) as nat));
        }
        if wide > u64::MAX as u128 {
            proof {
                lemma_digits_val_monotone(s, a as int, k + 1, b as int);
            }
            return None;
        }
        acc = (wide) as u64;
        k += 1;
    }
    Some(acc)
}

/// A token that is an optionally signed decimal integer.
pub open spec fn is_int_token(s: Seq<u8>, a: int, b: int) -> bool {
    if a < b && s[a] == 45 {
        a + 1 < b && all_digits(s, a + 1, b)
    } else {
        a < b && all_digits(s, a, b)
    }
}

/// The signed value of such a token.
pub open spec fn int_token_val(s: Seq<u8>, a: int, b: int) -> int {
    if a < b && s[a] == 45 {
        -(digits_val(s, a + 1, b) as int)
    } else {
        digits_val(s, a, b) as int
    }
}

/// Parses the token in `[a, b)` as a signed 32-bit integer.
pub fn parse_i32_token(bytes: &[u8], a: usize, b: usize) -> (r: Option<i32>)
    requires
        a <= b <= bytes@.len(),
    ensures
        match r {
            Some(v) => is_int_token(bytes@, a as int, b as int) && i32::MIN <= int_token_val(bytes@, a as int, b as int)
                <= i32::MAX && v == int_token_val(bytes@, a as int, b as int),
            None => !is_int_token(bytes@, a as int, b as int) || int_token_val(bytes@, a as int, b as int) < i32::MIN
                || int_token_val(bytes@, a as int, b as int) > i32::MAX,
        },
{
    if a >= b {
        return None;
    }
    if bytes[a] == 45 {
        match parse_u64_digits(bytes, a + 1, b) {
            Some(m) => {
                if m <= 2147483648 {
                    Some((-(m as i64)) as i32)
                } else {
                    None
                }
            },
            None => None,
        }
    } else {
        match parse_u64_digits(bytes, a, b) {
            Some(m) => {
                if m <= 2147483647 {
                    Some(m as i32)
                } else {
                    None
                }
            },
            None => None,
        }
    }
}

/// Powers of ten.
pub open spec fn pow10(e: nat) -> nat
    decreases e,
{
    if e == 0 {
        1
    } else {
        10 * pow10((e - 1) as nat)
    }
}

/// The position of the first `.` in `[a, b)`, or `b` if there is none.
pub open spec fn dot_pos(s: Seq<u8>, a: int, b: int) -> int
    decreases b - a,
{
    if a >= b || s[a] == 46 {
        a
    } else {
        dot_pos(s, a + 1, b)
    }
}

pub proof fn lemma_dot_pos_bounds(s: Seq<u8>, a: int, b: int)
    requires
        0 <= a <= b <= s.len(),
    ensures
        a <= dot_pos(s, a, b) <= b,
        dot_pos(s, a, b) < b ==> s[dot_pos(s, a, b)] == 46,
        forall|k: int| a <= k < dot_pos(s, a, b) ==> s[k] != 46,
    decreases b - a,
{
    if !(a >= b || s[a] == 46) {
        lemma_dot_pos_bounds(s, a + 1, b);
    }
}

/// The value, in millionths, of a token written as a decimal fraction:
/// digits, an optional point, and up to six fraction digits (further
/// fraction digits are ignored). `None` when the token has another shape.
pub open spec fn spec_decimal_micros(s: Seq<u8>, a: int, b: int) -> Option<nat> {
    let d = dot_pos(s, a, b);
    let fe = if d + 7 <= b {
        d + 7
    } else {
        b
    };
    if a < b && all_digits(s, a, d) && (d >= b || all_digits(s, d + 1, b)) && (d > a || d + 1 < b) {
        Some(
            digits_val(s, a, d) * 1000000 + digits_val(s, d + 1, fe) * pow10(
                (if fe >= d + 1 {
                    6 - (fe - d - 1)
                } else {
                    6
                }) as nat,
            ),
        )
    } else {
        None
    }
}

/// Parses the token in `[a, b)` as a decimal penalty value in millionths.
pub fn parse_decimal_micros(bytes: &[u8], a: usize, b: usize) -> (r: Option<u64>)
    requires
        a <= b <= bytes@.len(),
    ensures
        match r {
            Some(v) => spec_decimal_micros(bytes@, a as int, b as int) == Some(v as nat),
            None => spec_decimal_micros(bytes@, a as int, b as int) is None || spec_decimal_micros(bytes@, a as int, b as int).unwrap() > u64::MAX,
        },
{
    let ghost s = bytes@;
    if a >= b {
        return None;
    }
    // Find the decimal point.
    let mut d: usize = a;
    while d < b && bytes[d] != 46
        invariant
            a <= d <= b,
            b <= s.len(),
            s == bytes@,
            dot_pos(s, a as int, b as int) == dot_pos(s, d as int, b as int),
        decreases b - d,
    {
        proof {
            assert(dot_pos(s, d as int, b as int) == dot_pos(s, d + 1, b as int));
        }
        d += 1;
    }
    proof {
        assert(dot_pos(s, d as int, b as int) == d as int);
        assert(dot_pos(s, a as int, b as int) == d as int);
    }
    if d == a && d + 1 >= b {
        // A bare point, or an empty token: no digits at all.
        return None;
    }
    let int_val = match parse_u64_digits(bytes, a, d) {
        Some(v) => v,
        None => {
            if a == d {
                0u64
            } else {
                proof {
                    if all_digits(s, a as int, d as int) {
                        // The integer part alone overflows a u64, so the
                        // whole value certainly does.
                        let iv = digits_val(s, a as int, d as int);
                        assert(iv * 1000000 >= iv) by (nonlinear_arith);
                    }
                }
                return None;
            }
        },
    };
    let fe = if b > d && b - d >= 7 {
        d + 7
    } else {
        b
    };
    let frac_val = if fe - d <= 1 {
        proof {
            assert(digits_val(s, d + 1, fe as int) == 0);
        }
        0u64
    } else {
        match parse_u64_digits(bytes, d + 1, fe) {
            Some(v) => v,
            None => {
                proof {
                    if all_digits(s, d + 1, fe as int) {
                        // The first six fraction digits alone overflow a u64,
                        // so the whole value certainly does.
                        let fv = digits_val(s, d + 1, fe as int);
                        lemma_pow10_pos((6 - (fe - d - 1)) as nat);
                        assert(fv * pow10((6 - (fe - d - 1)) as nat) >= fv) by (nonlinear_arith)
                            requires
                                pow10((6 - (fe - d - 1)) as nat) >= 1,
                                fv >= 0,
                        ;
                    } else {
                        let k = choose|k: int| d + 1 <= k < fe && !is_digit(s[k]);
                        assert(!all_digits(s, d + 1, b as int));
                    }
                }
                return None;
            },
        }
    };
    // Any fraction digits beyond the sixth must still be digits.
    if fe < b {
        let mut k: usize = fe;
        while k < b
            invariant
                fe <= k <= b,
                d + 1 <= fe,
                a <= d < b,
                b <= s.len(),
                s == bytes@,
                dot_pos(s, a as int, b as int) == d as int,
                all_digits(s, fe as int, k as int),
            decreases b - k,
        {
            let c = bytes[k];
            if !(48 <= c && c <= 57) {
                proof {
                    assert(!is_digit(s[k as int]));
                    assert(!all_digits(s, d + 1, b as int));
                }
                return None;
            }
            k += 1;
        }
    }
    proof {
        if d < b && !all_digits(s, d + 1, b as int) {
            // The failure is inside the first six fraction digits, which
            // were all checked.
            let k = choose|k: int| d + 1 <= k < b && !is_digit(s[k]);
            assert(k < fe || fe <= k);
            assert(false);
        }
    }
    // frac_val < 10^6 has at most six digits; scale it to millionths.
    let width = if fe - d >= 1 {
        fe - d - 1
    } else {
        0
    };
    let scale: u64 = if width == 0 {
        1000000
    } else if width == 1 {
        100000
    } else if width == 2 {
        10000
    } else if width == 3 {
        1000
    } else if width == 4 {
        100
    } else if width == 5 {
        10
    } else {
        1
    };
    proof {
        assert(pow10(0) == 1);
        assert(pow10(1) == 10);
        assert(pow10(2) == 100);
        assert(pow10(3) == 1000);
        assert(pow10(4) == 10000);
        assert(pow10(5) == 100000);
        assert(pow10(6) == 1000000);
        if fe - d >= 1 {
            lemma_digits_bound(s, d + 1, fe as int);
        }
        assert(scale == pow10((6 - width) as nat));
    }
    proof {
        assert((frac_val as int) * (scale as int) <= 0xffffffffffffffff * 1000000)
            by (nonlinear_arith)
            requires
                0 <= frac_val <= 0xffffffffffffffff,
                0 < scale <= 1000000,
        ;
        assert((int_val as int) * 1000000 <= 0xffffffffffffffff * 1000000) by (nonlinear_arith)
            requires
                0 <= int_val <= 0xffffffffffffffff,
        ;
    }
    let wide: u128 = (int_val as u128) * 1000000 + (frac_val as u128) * (scale as u128);
    if wide > u64::MAX as u128 {
        return None;
    }
    Some(wide as u64)
}

/// Powers of ten are positive.
pub proof fn lemma_pow10_pos(e: nat)
    ensures
        pow10(e) >= 1,
    decreases e,
{
    if e > 0 {
        lemma_pow10_pos((e - 1) as nat);
    }
}

/// At most `b - a` digits give a value below `10^(b-a)`.
pub proof fn lemma_digits_bound(s: Seq<u8>, a: int, b: int)
    requires
        a <= b,
    ensures
        digits_val(s, a, b) < pow10((b - a) as nat),
    decreases b - a,
{
    if a < b {
        lemma_digits_bound(s, a, b - 1);
        assert(digits_val(s, a, b - 1) * 10 + 9 < pow10((b - a - 1) as nat) * 10)
            by (nonlinear_arith)
            requires
                digits_val(s, a, b - 1) < pow10((b - a - 1) as nat),
        ;
    }
}

/// Returns whether `b` is whitespace.
fn ws_byte(b: u8) -> (r: bool)
    ensures
        r == is_ws(b),
{
    b == 32 || b == 9 || b == 13 || b == 10
}

/// Splits the input into the spans of its whitespace-separated tokens,
/// scanning from `start`.
pub fn tokenize(bytes: &[u8], start: usize) -> (r: Vec<(usize, usize)>)
    requires
        start <= bytes@.len(),
    ensures
        spans_view(r@) == spec_spans(bytes@, start as int),
        forall|k: int|
            0 <= k < r@.len() ==> 0 <= (#[trigger] r@[k]).0 < r@[k].1 <= bytes@.len(),
{
    let ghost s = bytes@;
    let n = bytes.len();
    let mut r: Vec<(usize, usize)> = Vec::new();
    let mut pos: usize = start;
    proof {
        assert(spans_view(r@) =~= Seq::<(int, int)>::empty());
    }
    loop
        invariant
            pos <= n,
            n == s.len(),
            s == bytes@,
            spec_spans(s, start as int) == spans_view(r@) + spec_spans(s, pos as int),
            forall|k: int| 0 <= k < r@.len() ==> 0 <= (#[trigger] r@[k]).0 < r@[k].1 <= s.len(),
        ensures
            pos <= n,
            n == s.len(),
            spec_spans(s, start as int) == spans_view(r@) + spec_spans(s, pos as int),
            spec_spans(s, pos as int) == Seq::<(int, int)>::empty(),
            forall|k: int| 0 <= k < r@.len() ==> 0 <= (#[trigger] r@[k]).0 < r@[k].1 <= s.len(),
        decreases n - pos,
    {
        // Skip whitespace; the remaining token spans do not change.
        let ghost pos0 = pos;
        while pos < n && ws_byte(bytes[pos])
            invariant
                pos0 <= pos,
                pos <= n,
                n == s.len(),
                s == bytes@,
                spec_spans(s, start as int) == spans_view(r@) + spec_spans(s, pos as int),
                forall|k: int| 0 <= k < r@.len() ==> 0 <= (#[trigger] r@[k]).0 < r@[k].1 <= s.len(),
            decreases n - pos,
        {
            proof {
                assert(skip_ws(s, pos as int) == skip_ws(s, pos + 1));
                assert(spec_spans(s, pos as int) == spec_spans(s, pos + 1));
            }
            pos += 1;
        }
        if pos == n {
            proof {
                assert(skip_ws(s, pos as int) == pos as int);
                assert(spec_spans(s, pos as int) =~= Seq::<(int, int)>::empty());
            }
            break ;
        }
        proof {
            assert(!is_ws(s[pos as int]));
            assert(skip_ws(s, pos as int) == pos as int);
        }
        let tok_start = pos;
        while pos < n && !ws_byte(bytes[pos])
            invariant
                tok_start <= pos <= n,
                n == s.len(),
                s == bytes@,
                token_end(s, tok_start as int) == token_end(s, pos as int),
            decreases n - pos,
        {
            proof {
                assert(token_end(s, pos as int) == token_end(s, pos + 1));
            }
            pos += 1;
        }
        proof {
            assert(token_end(s, pos as int) == pos as int);
            assert(token_end(s, tok_start as int) == pos as int);
        }
        let ghost old_r = r@;
        r.push((tok_start, pos));
        proof {
            assert(!is_ws(s[tok_start as int]));
            lemma_token_end_bounds(s, tok_start as int);
            assert(pos > tok_start);
            assert(spans_view(r@) =~= spans_view(old_r).push((tok_start as int, pos as int)));
            assert(skip_ws(s, tok_start as int) == tok_start as int);
            assert(spec_spans(s, tok_start as int) == seq![(tok_start as int, pos as int)]
                + spec_spans(s, pos as int));
            assert(spec_spans(s, start as int) =~= spans_view(r@) + spec_spans(s, pos as int));
        }
    }
    proof {
        assert(spec_spans(s, start as int) =~= spans_view(r@));
    }
    r
}

/// The position of the line break ending the line that starts at `i`, or the
/// end of the input.
pub open spec fn line_end(s: Seq<u8>, i: int) -> int
    decreases s.len() - i,
{
    if i < 0 || i >= s.len() || s[i] == 10 {
        i
    } else {
        line_end(s, i + 1)
    }
}

pub proof fn lemma_line_end_bounds(s: Seq<u8>, i: int)
    requires
        0 <= i <= s.len(),
    ensures
        i <= line_end(s, i) <= s.len(),
    decreases s.len() - i,
{
    if !(i >= s.len() || s[i] == 10) {
        lemma_line_end_bounds(s, i + 1);
    }
}

/// The start of the line after the one starting at `i`.
pub open spec fn skip_line(s: Seq<u8>, i: int) -> int {
    if line_end(s, i) >= s.len() {
        s.len() as int
    } else {
        line_end(s, i) + 1
    }
}

/// Finds the end of the line starting at `pos`.
fn find_line_end(bytes: &[u8], pos: usize) -> (e: usize)
    requires
        pos <= bytes@.len(),
    ensures
        e == line_end(bytes@, pos as int),
        pos <= e <= bytes@.len(),
{
    let ghost s = bytes@;
    let n = bytes.len();
    let mut k: usize = pos;
    while k < n && bytes[k] != 10
        invariant
            pos <= k <= n,
            n == s.len(),
            s == bytes@,
            line_end(s, pos as int) == line_end(s, k as int),
        decreases n - k,
    {
        proof {
            assert(line_end(s, k as int) == line_end(s, k + 1));
        }
        k += 1;
    }
    proof {
        assert(line_end(s, k as int) == k as int);
    }
    k
}

/// The penalty recorded in a solution file, in millionths: the fourth
/// whitespace token of the first line, parsed as a decimal fraction. The
/// first line reads `# Penalty = <value>`.
pub open spec fn spec_penalty_micros(s: Seq<u8>) -> Option<nat> {
    let spans = spec_spans(s, 0);
    if spans.len() < 4 {
        None
    } else if !(spans[3].0 < line_end(s, 0)) {
        None
    } else {
        spec_decimal_micros(s, spans[3].0, spans[3].1)
    }
}

/// Reads the penalty value of a solution file, in millionths.
pub fn penalty_micros_from_text(bytes: &[u8]) -> (r: Option<u64>)
    ensures
        match r {
            Some(v) => spec_penalty_micros(bytes@) == Some(v as nat),
            None => spec_penalty_micros(bytes@) is None || spec_penalty_micros(
                bytes@,
            ).unwrap() > u64::MAX,
        },
{
    let spans = tokenize(bytes, 0);
    if spans.len() < 4 {
        proof {
            assert(spec_spans(bytes@, 0).len() < 4);
        }
        return None;
    }
    let (a, b) = spans[3];
    proof {
        assert(spans_view(spans@)[3] == (a as int, b as int));
    }
    let le = find_line_end(bytes, 0);
    if !(a < le) {
        return None;
    }
    parse_decimal_micros(bytes, a, b)
}

/// A solution file must only be overwritten when the candidate penalty is
/// strictly lower than the recorded one; with no recorded penalty the
/// candidate is always written.
pub fn should_overwrite(existing_micros: Option<u64>, candidate_micros: u64) -> (r: bool)
    ensures
        r == match existing_micros {
            Option::None => true,
            Option::Some(e) => candidate_micros < e,
        },
{
    match existing_micros {
        Option::None => true,
        Option::Some(e) => candidate_micros < e,
    }
}

/// Pairs up the tokens from index `k` on into lattice points. `None` when a
/// token is not a 32-bit integer or a coordinate is missing.
pub open spec fn spec_pair_points(s: Seq<u8>, spans: Seq<(int, int)>, k: int) -> Option<
    Seq<crate::point::Point>,
>
    decreases spans.len() - k,
{
    if k >= spans.len() {
        Some(Seq::empty())
    } else if k + 1 >= spans.len() {
        None
    } else {
        let (a1, b1) = spans[k];
        let (a2, b2) = spans[k + 1];
        if is_int_token(s, a1, b1) && i32::MIN <= int_token_val(s, a1, b1) <= i32::MAX
            && is_int_token(s, a2, b2) && i32::MIN <= int_token_val(s, a2, b2) <= i32::MAX {
            match spec_pair_points(s, spans, k + 2) {
                Some(rest) => Some(
                    seq![
                        crate::point::Point {
                            x: int_token_val(s, a1, b1) as i32,
                            y: int_token_val(s, a2, b2) as i32,
                        },
                    ] + rest,
                ),
                None => None,
            }
        } else {
            None
        }
    }
}

/// Prepending a parsed prefix to an optional remainder.
pub open spec fn opt_prepend(
    pre: Seq<crate::point::Point>,
    o: Option<Seq<crate::point::Point>>,
) -> Option<Seq<crate::point::Point>> {
    match o {
        Some(rest) => Some(pre + rest),
        None => None,
    }
}

/// The tower list recorded in a solution file: every line after the first
/// two (the penalty header and the tower count) holds one `x y` coordinate
/// pair.
pub open spec fn spec_solution_towers(s: Seq<u8>) -> Option<Seq<crate::point::Point>> {
    spec_pair_points(s, spec_spans(s, skip_line(s, skip_line(s, 0))), 0)
}

/// Reads the tower list of a solution file.
pub fn towers_from_text(bytes: &[u8]) -> (r: Option<Vec<crate::point::Point>>)
    ensures
        match r {
            Some(v) => spec_solution_towers(bytes@) == Some(v@),
            None => spec_solution_towers(bytes@) is None,
        },
{
    let ghost s = bytes@;
    let e0 = find_line_end(bytes, 0);
    let l1 = if e0 >= bytes.len() {
        bytes.len()
    } else {
        e0 + 1
    };
    let e1 = find_line_end(bytes, l1);
    let l2 = if e1 >= bytes.len() {
        bytes.len()
    } else {
        e1 + 1
    };
    proof {
        assert(l1 == skip_line(s, 0));
        assert(l2 == skip_line(s, skip_line(s, 0)));
    }
    let spans = tokenize(bytes, l2);
    let ghost sp = spans_view(spans@);
    let mut towers: Vec<crate::point::Point> = Vec::new();
    let n = spans.len();
    let mut k: usize = 0;
    while k < n
        invariant
            k <= n,
            k % 2 == 0,
            n == spans@.len(),
            s == bytes@,
            sp == spans_view(spans@),
            sp.len() == n,
            forall|m: int| 0 <= m < n ==> 0 <= (#[trigger] spans@[m]).0 < spans@[m].1 <= s.len(),
            spec_solution_towers(s) == spec_pair_points(s, sp, 0),
            spec_pair_points(s, sp, 0) == opt_prepend(towers@, spec_pair_points(s, sp, k as int)),
        decreases n - k,
    {
        if k + 1 >= n {
            proof {
                assert(spec_pair_points(s, sp, k as int) is None);
                assert(spec_pair_points(s, sp, 0) is None);
            }
            return None;
        }
        let (a1, b1) = spans[k];
        let (a2, b2) = spans[k + 1];
        proof {
            assert(sp[k as int] == (a1 as int, b1 as int));
            assert(sp[k + 1] == (a2 as int, b2 as int));
        }
        let x = match parse_i32_token(bytes, a1, b1) {
            Some(v) => v,
            None => {
                proof {
                    assert(spec_pair_points(s, sp, k as int) is None);
                }
                return None;
            },
        };
        let y = match parse_i32_token(bytes, a2, b2) {
            Some(v) => v,
            None => {
                proof {
                    assert(spec_pair_points(s, sp, k as int) is None);
                }
                return None;
            },
        };
        let ghost old_towers = towers@;
        towers.push(crate::point::Point { x, y });
        proof {
            let rest_k = spec_pair_points(s, sp, k as int);
            let rest_k2 = spec_pair_points(s, sp, k + 2);
            assert(rest_k == opt_prepend(
                seq![crate::point::Point { x, y }],
                rest_k2,
            ));
            match rest_k2 {
                Some(rest) => {
                    assert(old_towers + (seq![crate::point::Point { x, y }] + rest) =~= towers@
                        + rest);
                },
                None => {},
            }
        }
        k += 2;
    }
    proof {
        assert(spec_pair_points(s, sp, k as int) == Some(Seq::<crate::point::Point>::empty()));
        assert(towers@ + Seq::<crate::point::Point>::empty() =~= towers@);
    }
    Some(towers)
}

/// The first non-whitespace position in `[i, e)`, or `e`.
pub open spec fn first_nonws(s: Seq<u8>, i: int, e: int) -> int
    decreases e - i,
{
    if i >= e || !is_ws(s[i]) {
        i
    } else {
        first_nonws(s, i + 1, e)
    }
}

/// Whether the line starting at `i` is a comment line: its first token is
/// exactly `#`.
pub open spec fn line_is_comment(s: Seq<u8>, i: int) -> bool {
    let e = line_end(s, i);
    let j = first_nonws(s, i, e);
    j < e && s[j] == 35 && token_end(s, j) == j + 1
}

/// The input with every comment line removed; every kept line is terminated
/// by a line feed.
pub open spec fn strip_comments(s: Seq<u8>, i: int) -> Seq<u8>
    decreases s.len() - i,
    via strip_comments_dec
{
    if i < 0 || i >= s.len() {
        Seq::empty()
    } else {
        let rest = strip_comments(s, skip_line(s, i));
        if line_is_comment(s, i) {
            rest
        } else {
            s.subrange(i, line_end(s, i)) + seq![10u8] + rest
        }
    }
}

#[via_fn]
proof fn strip_comments_dec(s: Seq<u8>, i: int) {
    if 0 <= i < s.len() {
        lemma_line_end_bounds(s, i);
    }
}

/// Removes every comment line from the input.
pub fn strip_comment_lines(bytes: &[u8]) -> (r: Vec<u8>)
    ensures
        r@ == strip_comments(bytes@, 0),
{
    let ghost s = bytes@;
    let n = bytes.len();
    let mut out: Vec<u8> = Vec::new();
    let mut pos: usize = 0;
    proof {
        assert(out@ =~= Seq::<u8>::empty());
    }
    while pos < n
        invariant
            pos <= n,
            n == s.len(),
            s == bytes@,
            strip_comments(s, 0) == out@ + strip_comments(s, pos as int),
        decreases n - pos,
    {
        let e = find_line_end(bytes, pos);
        // Find the first non-whitespace byte of the line.
        let mut j: usize = pos;
        while j < e && ws_byte(bytes[j])
            invariant
                pos <= j <= e,
                e <= n,
                n == s.len(),
                s == bytes@,
                first_nonws(s, pos as int, e as int) == first_nonws(s, j as int, e as int),
            decreases e - j,
        {
            proof {
                assert(first_nonws(s, j as int, e as int) == first_nonws(s, j + 1, e as int));
            }
            j += 1;
        }
        proof {
            assert(first_nonws(s, j as int, e as int) == j as int);
            assert(first_nonws(s, pos as int, e as int) == j as int);
        }
        let is_comment = if j < e && bytes[j] == 35 {
            if j + 1 >= n {
                proof {
                    assert(token_end(s, j + 1) == j + 1);
                    assert(token_end(s, j as int) == j + 1);
                }
                true
            } else if ws_byte(bytes[j + 1]) {
                proof {
                    assert(token_end(s, j + 1) == j + 1);
                    assert(token_end(s, j as int) == j + 1);
                }
                true
            } else {
                proof {
                    lemma_token_end_bounds(s, j + 1);
                    assert(token_end(s, j as int) == token_end(s, j + 1));
                    assert(token_end(s, j + 1) > j + 1);
                }
                false
            }
        } else {
            false
        };
        proof {
            assert(is_comment == line_is_comment(s, pos as int));
        }
        let ghost out0 = out@;
        if !is_comment {
            let mut m: usize = pos;
            while m < e
                invariant
                    pos <= m <= e,
                    e <= n,
                    n == s.len(),
                    s == bytes@,
                    out@ == out0 + s.subrange(pos as int, m as int),
                decreases e - m,
            {
                out.push(bytes[m]);
                proof {
                    assert(out@ =~= out0 + s.subrange(pos as int, m + 1));
                }
                m += 1;
            }
            out.push(10);
            proof {
                assert(out@ =~= out0 + (s.subrange(pos as int, e as int) + seq![10u8]));
            }
        }
        let next = if e >= n {
            n
        } else {
            e + 1
        };
        proof {
            assert(next as int == skip_line(s, pos as int));
            if is_comment {
                assert(out@ + strip_comments(s, next as int) =~= out0 + strip_comments(
                    s,
                    pos as int,
                ));
            } else {
                assert(out@ + strip_comments(s, next as int) =~= out0 + strip_comments(
                    s,
                    pos as int,
                ));
            }
        }
        pos = next;
    }
    proof {
        assert(strip_comments(s, pos as int) =~= Seq::<u8>::empty());
        assert(out@ + Seq::<u8>::empty() =~= out@);
    }
    out
}

/// Pairs up exactly `c` coordinate pairs from the tokens starting at index
/// `k`. `None` when tokens are missing or not 32-bit integers.
pub open spec fn spec_count_pairs(s: Seq<u8>, spans: Seq<(int, int)>, k: int, c: int) -> Option<
    Seq<crate::point::Point>,
>
    decreases c,
{
    if c <= 0 {
        Some(Seq::empty())
    } else if k + 1 >= spans.len() || k < 0 {
        None
    } else {
        let (a1, b1) = spans[k];
        let (a2, b2) = spans[k + 1];
        if is_int_token(s, a1, b1) && i32::MIN <= int_token_val(s, a1, b1) <= i32::MAX
            && is_int_token(s, a2, b2) && i32::MIN <= int_token_val(s, a2, b2) <= i32::MAX {
            match spec_count_pairs(s, spans, k + 2, c - 1) {
                Some(rest) => Some(
                    seq![
                        crate::point::Point {
                            x: int_token_val(s, a1, b1) as i32,
                            y: int_token_val(s, a2, b2) as i32,
                        },
                    ] + rest,
                ),
                None => None,
            }
        } else {
            None
        }
    }
}

/// A digit token whose value fits in a u8.
pub open spec fn spec_u8_token(s: Seq<u8>, a: int, b: int) -> Option<u8> {
    if a < b && all_digits(s, a, b) && digits_val(s, a, b) <= 255 {
        Some(digits_val(s, a, b) as u8)
    } else {
        None
    }
}

/// The parsed contents of a problem file, after comment lines are removed:
/// the city count, the dimension, the service radius, the penalty radius,
/// and then one coordinate pair per city. Tokens beyond the listed cities
/// are ignored. A non-positive city count yields an empty city list.
pub open spec fn spec_problem(s: Seq<u8>) -> Option<(u8, u8, u8, Seq<crate::point::Point>)> {
    let t = strip_comments(s, 0);
    let sp = spec_spans(t, 0);
    if sp.len() < 4 {
        None
    } else {
        let cnt_ok = is_int_token(t, sp[0].0, sp[0].1) && i32::MIN <= int_token_val(
            t,
            sp[0].0,
            sp[0].1,
        ) <= i32::MAX;
        let dim = spec_u8_token(t, sp[1].0, sp[1].1);
        let rs = spec_u8_token(t, sp[2].0, sp[2].1);
        let rp = spec_u8_token(t, sp[3].0, sp[3].1);
        if cnt_ok && dim is Some && rs is Some && rp is Some {
            match spec_count_pairs(t, sp, 4, int_token_val(t, sp[0].0, sp[0].1)) {
                Some(pts) => Some((dim.unwrap(), rs.unwrap(), rp.unwrap(), pts)),
                None => None,
            }
        } else {
            None
        }
    }
}

/// Parses a digit token as a u8.
fn parse_u8_token(bytes: &[u8], a: usize, b: usize) -> (r: Option<u8>)
    requires
        a <= b <= bytes@.len(),
    ensures
        r == spec_u8_token(bytes@, a as int, b as int),
{
    match parse_u64_digits(bytes, a, b) {
        Some(v) => {
            if v <= 255 {
                Some(v as u8)
            } else {
                proof {
                    assert(spec_u8_token(bytes@, a as int, b as int) is None);
                }
                None
            }
        },
        None => {
            proof {
                if a < b && all_digits(bytes@, a as int, b as int) && digits_val(
                    bytes@,
                    a as int,
                    b as int,
                ) <= 255 {
                    assert(false);
                }
            }
            None
        },
    }
}

/// Builds a grid from the text of a problem file: city count, dimension,
/// service radius and penalty radius, then one coordinate pair per city,
/// with comment lines ignored. Returns `None` when the text does not parse,
/// or when a city is out of bounds or repeated.
pub fn grid_from_problem_text(bytes: &[u8]) -> (r: Option<Grid>)
    ensures
        match r {
            Some(g) => {
                &&& g.wf()
                &&& g.towers@.len() == 0
                &&& spec_problem(bytes@) is Some
                &&& g.dimension == spec_problem(bytes@).unwrap().0
                &&& g.service_radius == spec_problem(bytes@).unwrap().1
                &&& g.penalty_radius == spec_problem(bytes@).unwrap().2
                &&& g.cities@.len() == spec_problem(bytes@).unwrap().3.len()
                &&& forall|i: int|
                    0 <= i < g.cities@.len() ==> (#[trigger] g.cities@[i]).pos == spec_problem(
                        bytes@,
                    ).unwrap().3[i]
            },
            None => spec_problem(bytes@) is None || !{
                let t = spec_problem(bytes@).unwrap();
                &&& t.3.no_duplicates()
                &&& forall|i: int| 0 <= i < t.3.len() ==> on_grid(#[trigger] t.3[i], t.0)
            },
        },
{
    let stripped = strip_comment_lines(bytes);
    let ghost t = stripped@;
    let sp = tokenize(stripped.as_slice(), 0);
    let ghost spv = spans_view(sp@);
    if sp.len() < 4 {
        return None;
    }
    let (a0, b0) = sp[0];
    let (a1, b1) = sp[1];
    let (a2, b2) = sp[2];
    let (a3, b3) = sp[3];
    proof {
        assert(spv[0] == (a0 as int, b0 as int));
        assert(spv[1] == (a1 as int, b1 as int));
        assert(spv[2] == (a2 as int, b2 as int));
        assert(spv[3] == (a3 as int, b3 as int));
    }
    let cnt = match parse_i32_token(stripped.as_slice(), a0, b0) {
        Some(v) => v,
        None => {
            return None;
        },
    };
    let dim = match parse_u8_token(stripped.as_slice(), a1, b1) {
        Some(v) => v,
        None => {
            return None;
        },
    };
    let rs = match parse_u8_token(stripped.as_slice(), a2, b2) {
        Some(v) => v,
        None => {
            return None;
        },
    };
    let rp = match parse_u8_token(stripped.as_slice(), a3, b3) {
        Some(v) => v,
        None => {
            return None;
        },
    };
    let mut g = Grid::new(dim, rs, rp);
    let total: usize = if cnt <= 0 {
        0
    } else {
        cnt as usize
    };
    proof {
        if cnt <= 0 {
            assert(spec_count_pairs(t, spv, 4, cnt as int) == Some(Seq::<Point>::empty()));
        }
    }
    let ghost full = spec_count_pairs(t, spv, 4, cnt as int);
    let mut c: usize = 0;
    let mut k: usize = 4;
    while c < total
        invariant
            c <= total,
            total <= 0x80000000,
            k == 4 + 2 * c,
            t == stripped@,
            spv == spans_view(sp@),
            spv.len() == sp@.len(),
            forall|m: int|
                0 <= m < sp@.len() ==> 0 <= (#[trigger] sp@[m]).0 < sp@[m].1 <= t.len(),
            cnt <= 0 ==> total == 0,
            cnt > 0 ==> total == cnt as int,
            full == spec_count_pairs(t, spv, 4, cnt as int),
            spec_problem(bytes@) == (match full {
                Some(pts) => Some((dim, rs, rp, pts)),
                None => None::<(u8, u8, u8, Seq<Point>)>,
            }),
            full == (match spec_count_pairs(t, spv, k as int, cnt - c) {
                Some(rest) => Some(g.cities@.map_values(|e: crate::grid::Entry| e.pos) + rest),
                None => None::<Seq<Point>>,
            }),
            g.wf(),
            g.towers@.len() == 0,
            g.dimension == dim && g.service_radius == rs && g.penalty_radius == rp,
            g.cities@.len() == c,
        decreases total - c,
    {
        let ghost cities_pos = g.cities@.map_values(|e: crate::grid::Entry| e.pos);
        if k + 1 >= sp.len() {
            proof {
                assert(spec_count_pairs(t, spv, k as int, cnt - c) is None);
            }
            return None;
        }
        let (xa, xb) = sp[k];
        let (ya, yb) = sp[k + 1];
        proof {
            assert(spv[k as int] == (xa as int, xb as int));
            assert(spv[k + 1] == (ya as int, yb as int));
        }
        let x = match parse_i32_token(stripped.as_slice(), xa, xb) {
            Some(v) => v,
            None => {
                proof {
                    assert(spec_count_pairs(t, spv, k as int, cnt - c) is None);
                }
                return None;
            },
        };
        let y = match parse_i32_token(stripped.as_slice(), ya, yb) {
            Some(v) => v,
            None => {
                proof {
                    assert(spec_count_pairs(t, spv, k as int, cnt - c) is None);
                }
                return None;
            },
        };
        let ghost p = Point { x, y };
        let ghost rest2 = spec_count_pairs(t, spv, k + 2, cnt - c - 1);
        proof {
            assert(spec_count_pairs(t, spv, k as int, cnt - c) == (match rest2 {
                Some(rest) => Some(seq![p] + rest),
                None => None::<Seq<Point>>,
            }));
        }
        let res = g.add_city(x, y);
        match res {
            Ok(()) => {
                proof {
                    assert(g.cities@.map_values(|e: crate::grid::Entry| e.pos) =~= cities_pos
                        + seq![p]);
                    match rest2 {
                        Some(rest) => {
                            assert(cities_pos + (seq![p] + rest) =~= (cities_pos + seq![p]) + rest);
                        },
                        None => {},
                    }
                }
            },
            Err(_) => {
                proof {
                    // The city is out of bounds or repeated, so the parsed
                    // city list is not admissible.
                    match rest2 {
                        Some(rest) => {
                            let fp = full.unwrap();
                            assert(fp =~= cities_pos + (seq![p] + rest));
                            assert(fp[c as int] == p);
                            if on_grid(p, dim) {
                                // Duplicate: the same point was added earlier.
                                assert(g.spec_has_city(p));
                                let j = choose|j: int|
                                    0 <= j < g.cities@.len() && g.cities@[j].pos == p;
                                assert(fp[j] == cities_pos[j] && cities_pos[j] == p);
                                assert(!fp.no_duplicates());
                            }
                        },
                        None => {},
                    }
                }
                return None;
            },
        }
        c += 1;
        k += 2;
    }
    proof {
        assert(spec_count_pairs(t, spv, k as int, cnt - c) == Some(Seq::<Point>::empty()));
        let fp = full.unwrap();
        assert(fp =~= g.cities@.map_values(|e: crate::grid::Entry| e.pos));
        assert(spec_problem(bytes@) == Some((dim, rs, rp, fp)));
        assert forall|i: int| 0 <= i < g.cities@.len() implies (#[trigger] g.cities@[i]).pos
            == fp[i] by {
            assert(fp[i] == g.cities@.map_values(|e: crate::grid::Entry| e.pos)[i]);
        }
    }
    Some(g)
}

/// The byte string of an ASCII character sequence.
pub open spec fn ascii_bytes(s: Seq<char>) -> Seq<u8> {
    s.map_values(|c: char| c as u8)
}

/// Digit characters carry their decimal value in ASCII.
proof fn lemma_digit_char_code(d: int)
    requires
        0 <= d < 10,
    ensures
        digit_char(d) as u8 == 48 + d,
        is_digit(digit_char(d) as u8),
{
}

/// The decimal value read from a range of digit bytes depends only on the
/// bytes in the range, wherever they sit.
proof fn lemma_digits_val_shift(s1: Seq<u8>, s2: Seq<u8>, a1: int, a2: int, w: int)
    requires
        w >= 0,
        forall|k: int| #![trigger s1[a1 + k]] 0 <= k < w ==> s1[a1 + k] == s2[a2 + k],
    ensures
        digits_val(s1, a1, a1 + w) == digits_val(s2, a2, a2 + w),
        all_digits(s1, a1, a1 + w) == all_digits(s2, a2, a2 + w),
    decreases w,
{
    if w > 0 {
        lemma_digits_val_shift(s1, s2, a1, a2, w - 1);
        assert(s1[a1 + (w - 1)] == s2[a2 + (w - 1)]);
        if all_digits(s1, a1, a1 + w) {
            assert forall|k: int| a2 <= k < a2 + w implies is_digit(s2[k]) by {
                assert(s2[k] == s1[a1 + (k - a2)]);
            }
        }
        if all_digits(s2, a2, a2 + w) {
            assert forall|k: int| a1 <= k < a1 + w implies is_digit(s1[k]) by {
                assert(s1[a1 + (k - a1)] == s2[a2 + (k - a1)]);
            }
        }
    } else {
        assert(all_digits(s1, a1, a1 + w));
        assert(all_digits(s2, a2, a2 + w));
    }
}

/// The decimal rendering of `n` parses back to exactly `n`.
pub proof fn lemma_dec_digits_round_trip(n: nat)
    ensures
        ascii_bytes(dec_digits(n)).len() >= 1,
        all_digits(ascii_bytes(dec_digits(n)), 0, ascii_bytes(dec_digits(n)).len() as int),
        digits_val(ascii_bytes(dec_digits(n)), 0, ascii_bytes(dec_digits(n)).len() as int) == n,
    decreases n,
{
    let b = ascii_bytes(dec_digits(n));
    if n < 10 {
        lemma_digit_char_code(n as int);
        assert(b.len() == 1);
        assert(b[0] == digit_char(n as int) as u8);
        assert(digits_val(b, 0, 1) == digits_val(b, 0, 0) * 10 + ((b[0] - 48) as nat));
    } else {
        lemma_dec_digits_round_trip(n / 10);
        let prefix = ascii_bytes(dec_digits(n / 10));
        lemma_digit_char_code((n % 10) as int);
        assert(b =~= prefix.push(digit_char((n % 10) as int) as u8));
        lemma_digits_val_shift(b, prefix, 0, 0, prefix.len() as int);
        assert(digits_val(b, 0, b.len() as int) == digits_val(b, 0, b.len() - 1) * 10 + ((b[b.len()
            - 1] - 48) as nat));
        assert(digits_val(b, 0, b.len() as int) == (n / 10) * 10 + n % 10);
        vstd::arithmetic::div_mod::lemma_fundamental_div_mod(n as int, 10);
        assert forall|k: int| 0 <= k < b.len() implies is_digit(b[k]) by {
            if k < prefix.len() {
                assert(b[k] == prefix[k]);
            }
        }
    }
}

/// The zero-padded rendering of the lowest `w` digits of `f` parses back to
/// exactly `f` modulo `10^w`.
pub proof fn lemma_padded_round_trip(f: nat, w: nat)
    ensures
        ascii_bytes(padded_digits(f, w)).len() == w,
        all_digits(ascii_bytes(padded_digits(f, w)), 0, w as int),
        digits_val(ascii_bytes(padded_digits(f, w)), 0, w as int) == f % pow10(w),
    decreases w,
{
    let b = ascii_bytes(padded_digits(f, w));
    if w == 0 {
        assert(pow10(0) == 1);
        assert(f % 1 == 0) by {
            vstd::arithmetic::div_mod::lemma_fundamental_div_mod(f as int, 1);
        }
        assert(all_digits(b, 0, 0));
    } else {
        lemma_padded_round_trip(f / 10, (w - 1) as nat);
        let prefix = ascii_bytes(padded_digits(f / 10, (w - 1) as nat));
        lemma_digit_char_code((f % 10) as int);
        assert(b =~= prefix.push(digit_char((f % 10) as int) as u8));
        lemma_digits_val_shift(b, prefix, 0, 0, prefix.len() as int);
        assert(digits_val(b, 0, w as int) == digits_val(b, 0, w - 1) * 10 + ((b[w - 1]
            - 48) as nat));
        lemma_pow10_pos((w - 1) as nat);
        vstd::arithmetic::div_mod::lemma_breakdown(f as int, 10, pow10((w - 1) as nat) as int);
        assert(pow10(w) == 10 * pow10((w - 1) as nat));
        assert((f as int) % (pow10(w) as int) == 10 * ((f as int / 10) % (pow10(
            (w - 1) as nat,
        ) as int)) + (f as int) % 10);
        assert forall|k: int| 0 <= k < w implies is_digit(b[k]) by {
            if k < prefix.len() {
                assert(b[k] == prefix[k]);
            }
        }
    }
}

/// `dot_pos` finds a point whose left context holds no point.
proof fn lemma_dot_pos_finds(s: Seq<u8>, a: int, b: int, d: int)
    requires
        a <= d < b,
        forall|k: int| a <= k < d ==> s[k] != 46,
        s[d] == 46,
    ensures
        dot_pos(s, a, b) == d,
    decreases d - a,
{
    if a < d {
        lemma_dot_pos_finds(s, a + 1, b, d);
    }
}

/// Printing a penalty value as a six-decimal fraction and parsing the
/// printed token back yields exactly the original value in millionths: the
/// writer and the reader of the solution-file header agree on the number.
pub proof fn lemma_micros_round_trip(m: nat)
    ensures
        spec_decimal_micros(
            ascii_bytes(micros_str(m)),
            0,
            ascii_bytes(micros_str(m)).len() as int,
        ) == Some(m),
{
    let b = ascii_bytes(micros_str(m));
    let ip = ascii_bytes(dec_digits(m / 1000000));
    let fp = ascii_bytes(padded_digits(m % 1000000, 6));
    lemma_dec_digits_round_trip(m / 1000000);
    lemma_padded_round_trip(m % 1000000, 6);
    assert forall|k: int| 0 <= k < b.len() implies b[k] == (ip + seq![46u8] + fp)[k] by {
        let cs = micros_str(m);
        assert(b[k] == cs[k] as u8);
        if k < ip.len() {
            assert(cs[k] == dec_digits(m / 1000000)[k]);
        } else if k == ip.len() {
            assert(cs[k] == '.');
        } else {
            assert(cs[k] == padded_digits(m % 1000000, 6)[k - ip.len() - 1]);
        }
    }
    assert(b =~= ip + seq![46u8] + fp);
    let d = ip.len() as int;
    let n = b.len() as int;
    assert(n == d + 7);
    assert forall|k: int| 0 <= k < d implies b[k] != 46 by {
        assert(b[k] == ip[k]);
        assert(is_digit(ip[k]));
    }
    assert(b[d] == 46);
    lemma_dot_pos_finds(b, 0, n, d);
    // The integer part reads back as the quotient.
    assert forall|k: int| 0 <= k < d implies #[trigger] b[0 + k] == ip[0 + k] by {
    }
    lemma_digits_val_shift(b, ip, 0, 0, d);
    // The six fraction digits read back as the remainder.
    assert forall|k: int| 0 <= k < 6 implies #[trigger] b[d + 1 + k] == fp[0 + k] by {
    }
    lemma_digits_val_shift(b, fp, d + 1, 0, 6);
    assert(pow10(6) == 1000000) by {
        assert(pow10(0) == 1);
        assert(pow10(1) == 10);
        assert(pow10(2) == 100);
        assert(pow10(3) == 1000);
        assert(pow10(4) == 10000);
        assert(pow10(5) == 100000);
    }
    assert((m % 1000000) % pow10(6) == m % 1000000) by {
        vstd::arithmetic::div_mod::lemma_mod_bound(m as int, 1000000);
        vstd::arithmetic::div_mod::lemma_small_mod(m % 1000000, 1000000);
    }
    assert(pow10(0) == 1);
    assert(digits_val(b, 0, d) * 1000000 + digits_val(b, d + 1, n) * pow10(0) == m) by {
        assert(digits_val(b, d + 1, n) * pow10(0) == digits_val(b, d + 1, n))
            by (nonlinear_arith)
            requires
                pow10(0) == 1,
        ;
        vstd::arithmetic::div_mod::lemma_fundamental_div_mod(m as int, 1000000);
    }
}
} // verus!
