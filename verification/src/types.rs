//! The value recorded for one tested candidate, and its textual form.

use vstd::prelude::*;
use vstd::string::StringExecFns;

verus! {

/// The outcome of one primality decision: the candidate, the verdict and the
/// time the decision took, in microseconds.
#[derive(Debug, Clone, Copy, PartialEq, Eq, Hash, Structural)]
pub struct PrimeResult {
    pub number: u64,
    pub is_prime: bool,
    /// microseconds
    pub calculation_time_micros: u64,
}

/// The character that writes the decimal digit `d`.
pub open spec fn digit_char(d: nat) -> char
    recommends
        d < 10,
{
    if d == 0 {
        '0'
    } else if d == 1 {
        '1'
    } else if d == 2 {
        '2'
    } else if d == 3 {
        '3'
    } else if d == 4 {
        '4'
    } else if d == 5 {
        '5'
    } else if d == 6 {
        '6'
    } else if d == 7 {
        '7'
    } else if d == 8 {
        '8'
    } else {
        '9'
    }
}

/// The decimal numeral of `n`: most significant digit first, no leading zero
/// (the numeral of zero is `0`).
pub open spec fn decimal(n: nat) -> Seq<char>
    decreases n,
{
    if n < 10 {
        seq![digit_char(n)]
    } else {
        decimal(n / 10).push(digit_char(n % 10))
    }
}

/// The words that state a verdict.
pub open spec fn verdict_text(is_prime: bool) -> Seq<char> {
    if is_prime {
        "prime"@
    } else {
        "not prime"@
    }
}

/// The one-character string of the decimal digit `d`.
fn digit_str(d: u64) -> (s: &'static str)
    requires
        d < 10,
    ensures
        s@ == seq![digit_char(d as nat)],
{
    proof {
        reveal_strlit("0");
        reveal_strlit("1");
        reveal_strlit("2");
        reveal_strlit("3");
        reveal_strlit("4");
        reveal_strlit("5");
        reveal_strlit("6");
        reveal_strlit("7");
        reveal_strlit("8");
        reveal_strlit("9");
    }
    let s = if d == 0 {
        "0"
    } else if d == 1 {
        "1"
    } else if d == 2 {
        "2"
    } else if d == 3 {
        "3"
    } else if d == 4 {
        "4"
    } else if d == 5 {
        "5"
    } else if d == 6 {
        "6"
    } else if d == 7 {
        "7"
    } else if d == 8 {
        "8"
    } else {
        "9"
    };
    assert(s@ =~= seq![digit_char(d as nat)]);
    s
}

/// Appends the decimal numeral of `n` to `out`.
fn append_decimal(out: &mut String, n: u64)
    ensures
        final(out)@ == old(out)@ + decimal(n as nat),
    decreases n,
{
    if n >= 10 {
        append_decimal(out, n / 10);
    }
    out.append(digit_str(n % 10));
    assert(final(out)@ =~= old(out)@ + decimal(n as nat));
}

impl PrimeResult {
    /// The result that holds exactly the three given values.
    pub fn new(number: u64, is_prime: bool, calculation_time_micros: u64) -> (result: Self)
        ensures
            result == (PrimeResult { number, is_prime, calculation_time_micros }),
    {
        PrimeResult { number, is_prime, calculation_time_micros }
    }

    /// The text of a result: the number, its verdict, and the time in
    /// microseconds.
    pub open spec fn text(self) -> Seq<char> {
        decimal(self.number as nat) + " is "@ + verdict_text(self.is_prime)
            + " (calculated in "@ + decimal(self.calculation_time_micros as nat)
            + " \u{b5}s)"@
    }

    /// Writes the result as `<number> is <prime|not prime> (calculated in <N> µs)`.
    pub fn to_string(&self) -> (s: String)
        ensures
            s@ == self.text(),
    {
        let mut s = String::new();
        append_decimal(&mut s, self.number);
        s.append(" is ");
        if self.is_prime {
            s.append("prime");
        } else {
            s.append("not prime");
        }
        s.append(" (calculated in ");
        append_decimal(&mut s, self.calculation_time_micros);
        s.append(" \u{b5}s)");
        assert(s@ =~= self.text());
        s
    }
}

} // verus!
