//! Human-scaled rendering of byte counts.
//!
//! A byte count is shown in the largest base-1000 unit whose lower bound does
//! not exceed the value (kilobytes below one million bytes, megabytes below
//! one billion, gigabytes otherwise), with two decimal digits.

use vstd::prelude::*;

verus! {

/// Relies on std's `String::push`: appends the given char to the end of the string.
pub assume_specification[ String::push ](s: &mut String, ch: char)
    ensures
        final(s)@ == old(s)@.push(ch),
;

/// The scale in which a byte count is displayed.
#[derive(Clone, Copy, PartialEq, Eq, Structural, Debug)]
pub enum Unit {
    Kilobyte,
    Megabyte,
    Gigabyte,
}

/// The unit chosen for a given byte count: the largest whose lower bound
/// does not exceed the count.
pub open spec fn spec_unit_of(size: u64) -> Unit {
    if size < 1_000_000 {
        Unit::Kilobyte
    } else if size < 1_000_000_000 {
        Unit::Megabyte
    } else {
        Unit::Gigabyte
    }
}

/// How many bytes one of the given unit holds.
pub open spec fn spec_divisor(u: Unit) -> int {
    match u {
        Unit::Kilobyte => 1_000,
        Unit::Megabyte => 1_000_000,
        Unit::Gigabyte => 1_000_000_000,
    }
}

/// The two-character suffix that names the unit.
pub open spec fn spec_suffix(u: Unit) -> Seq<char> {
    match u {
        Unit::Kilobyte => seq!['K', 'b'],
        Unit::Megabyte => seq!['M', 'b'],
        Unit::Gigabyte => seq!['G', 'b'],
    }
}

/// The character for one decimal digit.
pub open spec fn spec_digit_char(d: int) -> char {
    ((48 + d) as u8) as char
}

/// The decimal digits of a non-negative integer, most significant first.
pub open spec fn spec_digits(n: int) -> Seq<char>
    recommends
        n >= 0,
    decreases n,
{
    if n < 10 {
        seq![spec_digit_char(n)]
    } else {
        spec_digits(n / 10).push(spec_digit_char(n % 10))
    }
}

/// The byte count scaled to the unit, rounded to the nearest hundredth
/// (ties upward), as a whole number of hundredths.
pub open spec fn spec_hundredths(size: u64, u: Unit) -> int {
    (100 * size + spec_divisor(u) / 2) / spec_divisor(u)
}

/// The full rendering: scaled value with two decimals, then the unit suffix.
pub open spec fn spec_render(size: u64, u: Unit) -> Seq<char> {
    let h = spec_hundredths(size, u);
    spec_digits(h / 100) + seq!['.', spec_digit_char(h / 10 % 10), spec_digit_char(h % 10)]
        + spec_suffix(u)
}

/// A byte count paired with the unit it is displayed in.
pub struct Size {
    pub size: u64,
    pub unit: Unit,
}

impl Size {
    /// Wraps a byte count, choosing the display unit from its magnitude.
    pub fn new(size: u64) -> (r: Self)
        ensures
            r.size == size,
            r.unit == spec_unit_of(size),
    {
        let unit = if size < 1_000_000 {
            Unit::Kilobyte
        } else if size < 1_000_000_000 {
            Unit::Megabyte
        } else {
            Unit::Gigabyte
        };
        Size { size, unit }
    }

    /// Renders the count as `<scaled value>.<two decimals><suffix>`.
    pub fn render(&self) -> (s: String)
        ensures
            s@ == spec_render(self.size, self.unit),
    {
        let divisor: u64 = match self.unit {
            Unit::Kilobyte => 1_000,
            Unit::Megabyte => 1_000_000,
            Unit::Gigabyte => 1_000_000_000,
        };
        let h_wide: u128 = ((self.size as u128) * 100 + (divisor as u128) / 2)
            / (divisor as u128);
        proof {
            let sz: int = self.size as int;
            let dv: int = divisor as int;
            let hh: int = h_wide as int;
            let top: int = (u64::MAX as int) * 100 + 500_000_000;
            assert(hh == (sz * 100 + dv / 2) / dv);
            vstd::arithmetic::div_mod::lemma_div_is_ordered_by_denominator(
                sz * 100 + dv / 2,
                1000,
                dv,
            );
            vstd::arithmetic::div_mod::lemma_div_is_ordered(sz * 100 + dv / 2, top, 1000);
            assert(top / 1000 <= u64::MAX as int);
            assert(hh <= u64::MAX as int);
            assert(hh == spec_hundredths(self.size, self.unit));
        }
        let h: u64 = h_wide as u64;
        let mut s = u64_to_digits(h / 100);
        s.push('.');
        s.push((48 + ((h / 10) % 10) as u8) as char);
        s.push((48 + (h % 10) as u8) as char);
        match self.unit {
            Unit::Kilobyte => s.push('K'),
            Unit::Megabyte => s.push('M'),
            Unit::Gigabyte => s.push('G'),
        }
        s.push('b');
        proof {
            assert(s@ =~= spec_render(self.size, self.unit));
        }
        s
    }
}

/// Writes a non-negative integer in decimal, most significant digit first.
pub fn u64_to_digits(n: u64) -> (s: String)
    ensures
        s@ == spec_digits(n as int),
{
    let mut rev: Vec<char> = Vec::new();
    let mut m: u64 = n;
    proof {
        assert(spec_digits(n as int) =~= spec_digits(n as int) + rev@.reverse());
    }
    loop
        invariant_except_break
            m > 0 ==> spec_digits(n as int) == spec_digits(m as int) + rev@.reverse(),
            m == 0 ==> (n == 0 && rev@.len() == 0),
        ensures
            spec_digits(n as int) == rev@.reverse(),
        decreases m + if rev@.len() == 0 { 1int } else { 0int },
    {
        let ghost old_m = m;
        let ghost old_rev = rev@;
        let d: u64 = m % 10;
        let next: u64 = m / 10;
        rev.push((48 + d as u8) as char);
        m = next;
        proof {
            let dc = spec_digit_char(d as int);
            assert(rev@ == old_rev.push(dc));
            assert(rev@.reverse() =~= seq![dc] + old_rev.reverse());
            if old_m < 10 {
                assert(spec_digits(old_m as int) == seq![dc]);
            } else {
                assert(spec_digits(old_m as int) == spec_digits(next as int).push(dc));
                assert(spec_digits(next as int).push(dc)
                    =~= spec_digits(next as int) + seq![dc]);
            }
            if old_m > 0 {
                assert((spec_digits(next as int) + seq![dc]) + old_rev.reverse()
                    =~= spec_digits(next as int) + (seq![dc] + old_rev.reverse()));
                if old_m < 10 {
                    assert(seq![dc] + old_rev.reverse() =~= rev@.reverse());
                    assert(spec_digits(n as int) == rev@.reverse());
                }
            } else {
                assert(n == 0 && old_rev.len() == 0);
                assert(spec_digits(n as int) =~= seq![dc]);
                assert(rev@.reverse() =~= seq![dc]);
            }
        }
        if m == 0 {
            break;
        }
    }
    let mut s = String::new();
    let len = rev.len();
    let mut i: usize = 0;
    while i < len
        invariant
            len == rev@.len(),
            0 <= i <= len,
            s@ == rev@.reverse().take(i as int),
        decreases len - i,
    {
        let c = rev[len - 1 - i];
        proof {
            assert(rev@.reverse()[i as int] == rev@[len - 1 - i as int]);
            assert(rev@.reverse().take(i as int + 1)
                =~= rev@.reverse().take(i as int).push(rev@.reverse()[i as int]));
        }
        s.push(c);
        i = i + 1;
    }
    proof {
        assert(s@ =~= rev@.reverse());
        assert(spec_digits(n as int) == rev@.reverse());
    }
    s
}

} // verus!
