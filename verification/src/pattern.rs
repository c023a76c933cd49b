//! Pattern identifiers.

use vstd::prelude::*;
use vstd::string::StringExecFns;

verus! {

/// The decimal digit for a number below ten.
pub open spec fn digit_char(d: nat) -> char {
    (('0' as u32) + d) as char
}

/// The decimal numeral of `n`: its digits, the most significant first,
/// without leading zeros.
pub open spec fn decimal(n: nat) -> Seq<char>
    decreases n,
{
    if n < 10 {
        seq![digit_char(n)]
    } else {
        decimal(n / 10).push(digit_char(n % 10))
    }
}

/// The numeral of a number below ten.
fn digit_text(d: usize) -> (s: &'static str)
    requires
        d < 10,
    ensures
        s@ == seq![digit_char(d as nat)],
{
    proof {
        reveal_strlit("0");
        reveal_strlit("1");
        reveal_strlit("2");
        reveal_strlit("3");
        reveal_strlit("4");
        reveal_strlit("5");
        reveal_strlit("6");
        reveal_strlit("7");
        reveal_strlit("8");
        reveal_strlit("9");
    }
    let s = if d == 0 {
        "0"
    } else if d == 1 {
        "1"
    } else if d == 2 {
        "2"
    } else if d == 3 {
        "3"
    } else if d == 4 {
        "4"
    } else if d == 5 {
        "5"
    } else if d == 6 {
        "6"
    } else if d == 7 {
        "7"
    } else if d == 8 {
        "8"
    } else {
        "9"
    };
    assert(s@ =~= seq![digit_char(d as nat)]);
    s
}

/// The decimal numeral of `n`.
fn decimal_text(n: usize) -> (s: String)
    ensures
        s@ == decimal(n as nat),
    decreases n,
{
    if n < 10 {
        String::from_str(digit_text(n))
    } else {
        let mut s = decimal_text(n / 10);
        s.append(digit_text(n % 10));
        s
    }
}

/// The identifier of a pattern: its zero-based position among the patterns an
/// engine was built from.
#[derive(Clone, Copy, Debug, PartialEq, Eq, Structural)]
pub struct PatternId(pub usize);

impl PatternId {
    pub fn new(id: usize) -> (r: Self)
        ensures
            r.0 == id,
    {
        PatternId(id)
    }

    pub fn usize(&self) -> (n: usize)
        ensures
            n == self.0,
    {
        self.0
    }

    /// The identifier as text: `#` and the decimal numeral.
    pub fn to_string(&self) -> (s: String)
        ensures
            s@ == seq!['#'] + decimal(self.0 as nat),
    {
        let mut s = String::from_str("#");
        proof {
            reveal_strlit("#");
            assert("#"@ =~= seq!['#']);
        }
        let digits = decimal_text(self.0);
        s.append(digits.as_str());
        s
    }
}

} // verus!
