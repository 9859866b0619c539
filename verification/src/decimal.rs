//! Decimal text of a position: the form in which a record's order is written.

use vstd::prelude::*;
use crate::text::nul_free;

verus! {

/// The ASCII digit for `d`, a number below ten.
pub open spec fn digit(d: nat) -> u8
    recommends
        d < 10,
{
    (48 + d) as u8
}

/// Whether `c` is an ASCII digit.
pub open spec fn is_digit(c: u8) -> bool {
    48 <= c <= 57
}

/// The decimal digits of `n`, most significant first, without leading zeros.
pub open spec fn decimal_text(n: nat) -> Seq<u8>
    decreases n,
{
    if n < 10 {
        seq![digit(n)]
    } else {
        decimal_text(n / 10).push(digit(n % 10))
    }
}

/// The number that a run of ASCII digits stands for; `None` for the empty
/// text and for a text with any other byte.
pub open spec fn decimal_value(t: Seq<u8>) -> Option<nat>
    decreases t.len(),
{
    if t.len() == 0 || !is_digit(t.last()) {
        None
    } else if t.len() == 1 {
        Some((t.last() - 48) as nat)
    } else {
        match decimal_value(t.drop_last()) {
            Some(v) => Some(v * 10 + (t.last() - 48) as nat),
            None => None,
        }
    }
}

/// Reading the decimal text of a number gives the number back.
pub proof fn lemma_decimal_value_of_text(n: nat)
    ensures
        decimal_text(n).len() >= 1,
        decimal_value(decimal_text(n)) == Some(n),
    decreases n,
{
    if n >= 10 {
        lemma_decimal_value_of_text(n / 10);
        let t = decimal_text(n);
        assert(t.drop_last() =~= decimal_text(n / 10));
        assert(t.last() == digit(n % 10));
    }
}

/// A decimal text holds digits only, so it can stand as a key.
pub proof fn lemma_decimal_text_digits(n: nat)
    ensures
        forall|i: int| 0 <= i < decimal_text(n).len() ==> is_digit(#[trigger] decimal_text(n)[i]),
        nul_free(decimal_text(n)),
    decreases n,
{
    if n >= 10 {
        lemma_decimal_text_digits(n / 10);
    }
}

/// Writes `n` in decimal.
pub fn decimal(n: usize) -> (text: Vec<u8>)
    ensures
        text@ == decimal_text(n as nat),
    decreases n,
{
    if n < 10 {
        let text = vec![48 + n as u8];
        assert(text@ =~= decimal_text(n as nat));
        text
    } else {
        let mut text = decimal(n / 10);
        text.push(48 + (n % 10) as u8);
        text
    }
}

/// The number that a run of ASCII digits stands for, where it fits the
/// machine word.
pub open spec fn word_value(t: Seq<u8>) -> Option<usize> {
    match decimal_value(t) {
        Some(v) => if v <= usize::MAX {
            Some(v as usize)
        } else {
            None
        },
        None => None,
    }
}

/// Reads a run of ASCII digits as a number: `None` for the empty text, for a
/// text with any other byte and for a number that does not fit the machine
/// word.
pub fn parse_decimal(t: &[u8]) -> (value: Option<usize>)
    ensures
        value == word_value(t@),
{
    if t.len() == 0 {
        return None;
    }
    let mut acc: usize = 0;
    let mut i: usize = 0;
    while i < t.len()
        invariant
            i <= t@.len(),
            t@.len() > 0,
            i > 0 ==> decimal_value(t@.take(i as int)) == Some(acc as nat),
            i == 0 ==> acc == 0,
        decreases t@.len() - i,
    {
        let c = t[i];
        proof {
            assert(t@.take(i + 1).drop_last() =~= t@.take(i as int));
            assert(t@.take(i + 1).last() == c);
        }
        if c < 48 || c > 57 {
            proof {
                lemma_decimal_value_prefix(t@, i + 1);
            }
            return None;
        }
        let d: usize = (c - 48) as usize;
        if acc > (usize::MAX - d) / 10 {
            proof {
                lemma_decimal_value_grows(t@, i + 1);
            }
            return None;
        }
        acc = acc * 10 + d;
        i += 1;
    }
    assert(t@.take(i as int) =~= t@);
    Some(acc)
}

/// A text has a value only if each of its prefixes has one.
pub proof fn lemma_decimal_value_prefix(t: Seq<u8>, n: int)
    requires
        1 <= n <= t.len(),
        decimal_value(t.take(n)) is None,
    ensures
        decimal_value(t) is None,
    decreases t.len() - n,
{
    if n < t.len() {
        assert(t.take(n + 1).drop_last() =~= t.take(n));
        lemma_decimal_value_prefix(t, n + 1);
    } else {
        assert(t.take(n) =~= t);
    }
}

/// The value of a text is at least the value of each of its prefixes.
pub proof fn lemma_decimal_value_grows(t: Seq<u8>, n: int)
    requires
        1 <= n <= t.len(),
    ensures
        match (decimal_value(t.take(n)), decimal_value(t)) {
            (Some(a), Some(b)) => a <= b,
            _ => true,
        },
    decreases t.len() - n,
{
    if n < t.len() {
        let longer = t.take(n + 1);
        assert(longer.drop_last() =~= t.take(n));
        if decimal_value(longer) is None {
            lemma_decimal_value_prefix(t, n + 1);
        }
        lemma_decimal_value_grows(t, n + 1);
    } else {
        assert(t.take(n) =~= t);
    }
}

} // verus!
