//! Numbers in text.

use vstd::prelude::*;
use crate::text;

verus! {

/// The character is a decimal digit.
pub open spec fn is_digit(c: char) -> bool {
    '0' <= c && c <= '9'
}

/// The number that digits write.
pub open spec fn value(digits: Seq<char>) -> nat
    decreases digits.len(),
{
    if digits.len() == 0 {
        0
    } else {
        value(digits.drop_last()) * 10 + (digits.last() as nat - '0' as nat) as nat
    }
}

/// The digits of a number that may have a plus sign before it.
pub open spec fn unsigned(s: Seq<char>) -> Seq<char> {
    if s.len() > 0 && s[0] == '+' {
        s.skip(1)
    } else {
        s
    }
}

/// The number that a text writes; nothing where it writes none or one above the limit.
pub open spec fn number(s: Seq<char>, max: nat) -> Option<nat> {
    let d = unsigned(s);
    if d.len() > 0 && (forall|i: int| 0 <= i < d.len() ==> is_digit(#[trigger] d[i])) && value(d)
        <= max {
        Some(value(d))
    } else {
        None
    }
}

/// Returns the number that a text writes.
///
/// Returns nothing where it writes none or one above the limit.
pub fn parse(s: &str, max: u64) -> (r: Option<u64>)
    ensures
        match r {
            Some(n) => number(s@, max as nat) == Some(n as nat),
            None => number(s@, max as nat) is None,
        },
{
    let x = text::chars(s);
    let start: usize = if x.len() > 0 && x[0] == '+' {
        1
    } else {
        0
    };
    let ghost d = unsigned(s@);
    assert(d =~= x@.skip(start as int));
    if x.len() == start {
        return None;
    }
    let mut total: u128 = 0;
    let mut i: usize = start;
    assert(d.take(0) =~= Seq::empty());
    while i < x.len()
        invariant
            x@ == s@,
            d == x@.skip(start as int),
            start <= i <= x@.len(),
            d == unsigned(s@),
            total <= max as int * 10 + 9,
            forall|j: int| 0 <= j < i - start ==> is_digit(#[trigger] d[j]),
            if total <= max {
                total == value(d.take(i - start))
            } else {
                value(d.take(i - start)) > max
            },
        decreases x@.len() - i,
    {
        let c = x[i];
        assert(d[i - start] == c);
        if !('0' <= c && c <= '9') {
            return None;
        }
        proof {
            let t = d.take(i - start + 1);
            assert(t.drop_last() =~= d.take(i - start));
            assert(t.last() == c);
        }
        if total <= max as u128 {
            total = total * 10 + (c as u32 - '0' as u32) as u128;
        }
        i += 1;
    }
    assert(d.take(d.len() as int) =~= d);
    if total <= max as u128 {
        Some(total as u64)
    } else {
        None
    }
}

} // verus!
