//! Decimal rendering of the values that appear in solution files: plain
//! integers, signed coordinates, and the penalty written as a fixed-point
//! number with six decimal places.

use vstd::prelude::*;

use crate::point::Point;

verus! {

/// The character for one decimal digit.
pub open spec fn digit_char(d: int) -> char {
    if d == 0 {
        '0'
    } else if d == 1 {
        '1'
    } else if d == 2 {
        '2'
    } else if d == 3 {
        '3'
    } else if d == 4 {
        '4'
    } else if d == 5 {
        '5'
    } else if d == 6 {
        '6'
    } else if d == 7 {
        '7'
    } else if d == 8 {
        '8'
    } else {
        '9'
    }
}

/// The decimal digit string of `n`, without leading zeros (except for zero
/// itself).
pub open spec fn dec_digits(n: nat) -> Seq<char>
    decreases n,
{
    if n < 10 {
        seq![digit_char(n as int)]
    } else {
        dec_digits(n / 10).push(digit_char((n % 10) as int))
    }
}

/// The decimal string of a signed integer.
pub open spec fn int_str(v: int) -> Seq<char> {
    if v < 0 {
        seq!['-'] + dec_digits((-v) as nat)
    } else {
        dec_digits(v as nat)
    }
}

/// The decimal digit string of `n` padded with leading zeros to width `w`;
/// only the lowest `w` digits are kept.
pub open spec fn padded_digits(n: nat, w: nat) -> Seq<char>
    decreases w,
{
    if w == 0 {
        Seq::empty()
    } else {
        padded_digits(n / 10, (w - 1) as nat).push(digit_char((n % 10) as int))
    }
}

/// A penalty of `m` millionths, written as a decimal fraction with six
/// digits after the point.
pub open spec fn micros_str(m: nat) -> Seq<char> {
    dec_digits(m / 1000000) + seq!['.'] + padded_digits(m % 1000000, 6)
}

/// The single-character string for one decimal digit.
fn digit_str(d: u8) -> (s: &'static str)
    requires
        d < 10,
    ensures
        s@ == seq![digit_char(d as int)],
{
    proof {
        reveal_strlit("0");
        reveal_strlit("1");
        reveal_strlit("2");
        reveal_strlit("3");
        reveal_strlit("4");
        reveal_strlit("5");
        reveal_strlit("6");
        reveal_strlit("7");
        reveal_strlit("8");
        reveal_strlit("9");
    }
    match d {
        0 => "0",
        1 => "1",
        2 => "2",
        3 => "3",
        4 => "4",
        5 => "5",
        6 => "6",
        7 => "7",
        8 => "8",
        _ => "9",
    }
}

/// The reversed digit characters of a digit vector.
pub open spec fn rev_digit_chars(ds: Seq<u8>) -> Seq<char>
    decreases ds.len(),
{
    if ds.len() == 0 {
        Seq::empty()
    } else {
        seq![digit_char(ds.last() as int)] + rev_digit_chars(ds.drop_last())
    }
}

proof fn lemma_rev_digit_chars_index(ds: Seq<u8>)
    ensures
        rev_digit_chars(ds).len() == ds.len(),
        forall|j: int|
            0 <= j < ds.len() ==> rev_digit_chars(ds)[j] == digit_char(
                ds[ds.len() - 1 - j] as int,
            ),
    decreases ds.len(),
{
    if ds.len() > 0 {
        lemma_rev_digit_chars_index(ds.drop_last());
        assert forall|j: int| 0 <= j < ds.len() implies rev_digit_chars(ds)[j] == digit_char(
            ds[ds.len() - 1 - j] as int,
        ) by {
            if j > 0 {
                assert(rev_digit_chars(ds)[j] == rev_digit_chars(ds.drop_last())[j - 1]);
                assert(ds.drop_last()[ds.drop_last().len() - 1 - (j - 1)] == ds[ds.len() - 1 - j]);
            }
        }
    }
}

/// Writes `n` in decimal.
pub fn u64_to_string(n: u64) -> (s: String)
    ensures
        s@ == dec_digits(n as nat),
{
    let mut digits: Vec<u8> = Vec::new();
    let mut m: u64 = n;
    loop
        invariant_except_break
            dec_digits(n as nat) == dec_digits(m as nat) + rev_digit_chars(digits@),
        invariant
            forall|k: int| 0 <= k < digits@.len() ==> #[trigger] digits@[k] < 10,
        ensures
            dec_digits(n as nat) == rev_digit_chars(digits@),
            forall|k: int| 0 <= k < digits@.len() ==> #[trigger] digits@[k] < 10,
        decreases m,
    {
        let d = (m % 10) as u8;
        let ghost old_digits = digits@;
        digits.push(d);
        proof {
            assert(digits@.drop_last() =~= old_digits);
            assert(rev_digit_chars(digits@) == seq![digit_char(d as int)] + rev_digit_chars(
                old_digits,
            ));
            if m < 10 {
                assert(dec_digits(m as nat) == seq![digit_char(m as int)]);
                assert(dec_digits(n as nat) =~= rev_digit_chars(digits@));
            } else {
                assert(dec_digits(m as nat) == dec_digits((m as nat) / 10).push(
                    digit_char(((m as nat) % 10) as int),
                ));
                assert(dec_digits((m as nat) / 10) + rev_digit_chars(digits@) =~= dec_digits(
                    m as nat,
                ) + rev_digit_chars(old_digits));
                assert((m as nat) / 10 == (m / 10) as nat);
            }
        }
        m = m / 10;
        if m == 0 {
            break ;
        }
    }
    proof {
        lemma_rev_digit_chars_index(digits@);
    }
    let mut s = String::new();
    let mut i: usize = digits.len();
    while i > 0
        invariant
            i <= digits@.len(),
            forall|k: int| 0 <= k < digits@.len() ==> #[trigger] digits@[k] < 10,
            s@.len() == digits@.len() - i,
            forall|j: int|
                0 <= j < s@.len() ==> s@[j] == digit_char(digits@[digits@.len() - 1 - j] as int),
        decreases i,
    {
        s.append(digit_str(digits[i - 1]));
        i -= 1;
    }
    proof {
        lemma_rev_digit_chars_index(digits@);
        assert(s@ =~= rev_digit_chars(digits@));
        assert(dec_digits(n as nat) =~= rev_digit_chars(digits@));
    }
    s
}

/// Writes a signed integer in decimal.
pub fn i32_to_string(v: i32) -> (s: String)
    ensures
        s@ == int_str(v as int),
{
    if v >= 0 {
        u64_to_string(v as u64)
    } else {
        proof {
            reveal_strlit("-");
        }
        let mut s = String::from_str("-");
        let mag = -(v as i64);
        let t = u64_to_string(mag as u64);
        s.append(t.as_str());
        proof {
            assert(s@ =~= int_str(v as int));
        }
        s
    }
}

/// Writes `m` millionths as a decimal fraction with six digits after the
/// point, e.g. the value 500000000 as the text 500.000000.
pub fn micros_to_string(m: u64) -> (s: String)
    ensures
        s@ == micros_str(m as nat),
{
    let mut s = u64_to_string(m / 1000000);
    proof {
        reveal_strlit(".");
    }
    s.append(".");
    let frac = m % 1000000;
    let ghost base = s@;
    // Emit exactly six digits, highest first.
    let d5 = ((frac / 100000) % 10) as u8;
    let d4 = ((frac / 10000) % 10) as u8;
    let d3 = ((frac / 1000) % 10) as u8;
    let d2 = ((frac / 100) % 10) as u8;
    let d1 = ((frac / 10) % 10) as u8;
    let d0 = (frac % 10) as u8;
    s.append(digit_str(d5));
    s.append(digit_str(d4));
    s.append(digit_str(d3));
    s.append(digit_str(d2));
    s.append(digit_str(d1));
    s.append(digit_str(d0));
    proof {
        let f = frac as int;
        vstd::arithmetic::div_mod::lemma_div_denominator(f, 10, 10);
        vstd::arithmetic::div_mod::lemma_div_denominator(f, 100, 10);
        vstd::arithmetic::div_mod::lemma_div_denominator(f, 1000, 10);
        vstd::arithmetic::div_mod::lemma_div_denominator(f, 10000, 10);
        vstd::arithmetic::div_mod::lemma_div_denominator(f, 100000, 10);
        let fr = frac as nat;
        assert(fr / 1000000 == 0);
        assert(padded_digits(fr, 6) == padded_digits(fr / 10, 5).push(digit_char((fr % 10) as int)));
        assert(padded_digits(fr / 10, 5) == padded_digits(fr / 100, 4).push(
            digit_char(((fr / 10) % 10) as int),
        ));
        assert(padded_digits(fr / 100, 4) == padded_digits(fr / 1000, 3).push(
            digit_char(((fr / 100) % 10) as int),
        ));
        assert(padded_digits(fr / 1000, 3) == padded_digits(fr / 10000, 2).push(
            digit_char(((fr / 1000) % 10) as int),
        ));
        assert(padded_digits(fr / 10000, 2) == padded_digits(fr / 100000, 1).push(
            digit_char(((fr / 10000) % 10) as int),
        ));
        assert(padded_digits(fr / 100000, 1) == padded_digits(fr / 1000000, 0).push(
            digit_char(((fr / 100000) % 10) as int),
        ));
        assert(s@ =~= base + padded_digits(fr, 6));
        assert(s@ =~= micros_str(m as nat));
    }
    s
}

/// One "x y" line per tower, in storage order.
pub open spec fn tower_lines(s: Seq<crate::grid::Entry>) -> Seq<char>
    decreases s.len(),
{
    if s.len() == 0 {
        Seq::empty()
    } else {
        tower_lines(s.drop_last()) + int_str(s.last().pos.x as int) + seq![' '] + int_str(
            s.last().pos.y as int,
        ) + seq!['\n']
    }
}

/// The full solution file text for a grid whose penalty is `micros`
/// millionths: the penalty header, the tower count, then one line of
/// coordinates per tower.
pub open spec fn solution_text(g: crate::grid::Grid, micros: nat) -> Seq<char> {
    "# Penalty = "@ + micros_str(micros) + seq!['\n'] + dec_digits(g.towers@.len()) + seq!['\n']
        + tower_lines(g.towers@)
}

impl crate::grid::Grid {
    /// Returns the file output string of this entire Grid, under the given
    /// penalty value in millionths.
    pub fn output(&self, penalty_micros: u64) -> (s: String)
        ensures
            s@ == solution_text(*self, penalty_micros as nat),
    {
        proof {
            reveal_strlit("# Penalty = ");
            reveal_strlit("\n");
        }
        let mut s = String::from_str("# Penalty = ");
        let pen = micros_to_string(penalty_micros);
        s.append(pen.as_str());
        s.append("\n");
        let count = u64_to_string(self.get_towers_ref().len() as u64);
        s.append(count.as_str());
        s.append("\n");
        let ghost header = s@;
        proof {
            assert(tower_lines(self.towers@.subrange(0, 0)) =~= Seq::<char>::empty());
            assert(s@ =~= header + tower_lines(self.towers@.subrange(0, 0)));
        }
        let n = self.get_towers_ref().len();
        let mut i: usize = 0;
        while i < n
            invariant
                i <= n,
                n == self.towers@.len(),
                s@ == header + tower_lines(self.towers@.subrange(0, i as int)),
            decreases n - i,
        {
            let line = self.get_towers_ref()[i].pos.file_string();
            s.append(line.as_str());
            s.append("\n");
            proof {
                reveal_strlit("\n");
                let sub = self.towers@.subrange(0, i + 1);
                assert(sub.drop_last() =~= self.towers@.subrange(0, i as int));
                assert(sub.last() == self.towers@[i as int]);
                assert(s@ =~= header + tower_lines(sub));
            }
            i += 1;
        }
        proof {
            assert(self.towers@.subrange(0, n as int) =~= self.towers@);
            assert(s@ =~= solution_text(*self, penalty_micros as nat));
        }
        s
    }
}

impl Point {
    /// Returns the file string form of this point, e.g. (3, 4) -> "3 4".
    pub fn file_string(&self) -> (s: String)
        ensures
            s@ == int_str(self.x as int) + seq![' '] + int_str(self.y as int),
    {
        let mut s = i32_to_string(self.x);
        proof {
            reveal_strlit(" ");
        }
        s.append(" ");
        let t = i32_to_string(self.y);
        s.append(t.as_str());
        proof {
            assert(s@ =~= int_str(self.x as int) + seq![' '] + int_str(self.y as int));
        }
        s
    }
}

} // verus!
