//! Decimal text of numbers.
use vstd::prelude::*;

verus! {

/// The character of a decimal digit.
pub open spec fn digit_char(d: nat) -> char {
    (48 + d) as char
}

/// The decimal text of `n`, without leading zeros.
pub open spec fn decimal(n: nat) -> Seq<char>
    decreases n,
{
    if n < 10 {
        seq![digit_char(n)]
    } else {
        decimal(n / 10).push(digit_char(n % 10))
    }
}

/// The text of one decimal digit.
fn digit_str(d: usize) -> (s: &'static str)
    requires
        d < 10,
    ensures
        s@ == seq![digit_char(d as nat)],
{
    proof {
        reveal_strlit("0");
        reveal_strlit("1");
        reveal_strlit("2");
        reveal_strlit("3");
        reveal_strlit("4");
        reveal_strlit("5");
        reveal_strlit("6");
        reveal_strlit("7");
        reveal_strlit("8");
        reveal_strlit("9");
    }
    match d {
        0 => "0",
        1 => "1",
        2 => "2",
        3 => "3",
        4 => "4",
        5 => "5",
        6 => "6",
        7 => "7",
        8 => "8",
        _ => "9",
    }
}

/// Appends the decimal text of `n`.
pub fn push_decimal(s: &mut String, n: usize)
    ensures
        final(s)@ == old(s)@ + decimal(n as nat),
{
    let mut m = n;
    let mut low: Vec<usize> = Vec::new();
    while m >= 10
        invariant
            decimal(n as nat) == decimal(m as nat) + Seq::new(
                low@.len(),
                |k: int| digit_char(low@[low@.len() - 1 - k] as nat),
            ),
            forall|k: int| 0 <= k < low@.len() ==> #[trigger] low@[k] < 10,
        decreases m,
    {
        let ghost before = low@;
        low.push(m % 10);
        proof {
            assert(Seq::new(low@.len(), |k: int| digit_char(low@[low@.len() - 1 - k] as nat)) =~= seq![
                digit_char((m % 10) as nat),
            ] + Seq::new(before.len(), |k: int| digit_char(before[before.len() - 1 - k] as nat)));
        }
        m = m / 10;
    }
    s.append(digit_str(m));
    let mut i = low.len();
    while i > 0
        invariant
            i <= low@.len(),
            forall|k: int| 0 <= k < low@.len() ==> #[trigger] low@[k] < 10,
            decimal(n as nat) == seq![digit_char(m as nat)] + Seq::new(
                low@.len(),
                |k: int| digit_char(low@[low@.len() - 1 - k] as nat),
            ),
            s@ == old(s)@ + seq![digit_char(m as nat)] + Seq::new(
                (low@.len() - i) as nat,
                |k: int| digit_char(low@[low@.len() - 1 - k] as nat),
            ),
        decreases i,
    {
        i -= 1;
        let ghost before = s@;
        s.append(digit_str(low[i]));
        proof {
            assert(Seq::new((low@.len() - i) as nat, |k: int| digit_char(low@[low@.len() - 1 - k] as nat))
                =~= Seq::new((low@.len() - i - 1) as nat, |k: int| digit_char(low@[low@.len() - 1 - k] as nat)).push(
                digit_char(low@[i as int] as nat),
            ));
        }
    }
    proof {
        assert(Seq::new((low@.len() - i) as nat, |k: int| digit_char(low@[low@.len() - 1 - k] as nat)) =~= Seq::new(
            low@.len(),
            |k: int| digit_char(low@[low@.len() - 1 - k] as nat),
        ));
    }
}

} // verus!
