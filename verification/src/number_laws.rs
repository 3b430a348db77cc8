//! Reading and writing numbers.

use vstd::prelude::*;
use crate::codec;
use crate::number;
use crate::number::parse;

verus! {

/// The value of a decimal digit.
pub open spec fn digit_value(c: char) -> int {
    c as int - '0' as int
}

proof fn lemma_value(d: Seq<char>)
    requires
        forall|i: int| 0 <= i < d.len() ==> number::is_digit(#[trigger] d[i]),
    ensures
        d.len() == 1 ==> number::value(d) == digit_value(d[0]),
        number::value(d) >= 0,
{
    if d.len() == 1 {
        assert(d.drop_last() =~= Seq::empty());
        assert(number::value(Seq::<char>::empty()) == 0);
        assert(number::is_digit(d[0]));
    }
}

/// A digit by itself is read as its value.
pub proof fn digits_are_read(s: &str, max: u64, r: Option<u64>)
    requires
        call_ensures(parse, (s, max), r),
        s@.len() == 1,
    ensures
        '0' <= s@[0] <= '9' && digit_value(s@[0]) <= max ==> r is Some && r->0 == digit_value(
            s@[0],
        ),
        '0' <= s@[0] <= '9' && digit_value(s@[0]) > max ==> r is None,
        !('0' <= s@[0] <= '9') ==> r is None,
{
    if '0' <= s@[0] <= '9' {
        lemma_value(s@);
    } else if s@[0] == '+' {
        assert(s@.skip(1).len() == 0);
    } else {
        assert(!number::is_digit(number::unsigned(s@)[0]));
    }
}

/// A digit more makes ten times the number and the digit; a number above the limit is not read, and
/// neither is anything else.
pub proof fn a_digit_more_is_ten_times_as_much(
    s: &str,
    t: &str,
    max: u64,
    r: Option<u64>,
    q: Option<u64>,
    c: char,
)
    requires
        call_ensures(parse, (s, max), r),
        call_ensures(parse, (t, max), q),
        t@ == s@.push(c),
        s@.len() > 0,
        s@ != "+"@,
    ensures
        r is Some && '0' <= c <= '9' && 10 * r->0 + digit_value(c) <= max ==> q is Some && q->0
            == 10 * r->0 + digit_value(c),
        r is Some && '0' <= c <= '9' && 10 * r->0 + digit_value(c) > max ==> q is None,
        r is None || !('0' <= c <= '9') ==> q is None,
{
    reveal_strlit("+");
    let d = number::unsigned(s@);
    let e = number::unsigned(t@);
    assert(e =~= d.push(c));
    assert(d.len() > 0) by {
        if s@[0] == '+' && s@.len() == 1 {
            assert(s@ =~= "+"@);
        }
    }
    assert(e.drop_last() =~= d);
    assert(e.last() == c);
    if forall|i: int| 0 <= i < d.len() ==> number::is_digit(#[trigger] d[i]) {
        if '0' <= c <= '9' {
            assert forall|i: int| 0 <= i < e.len() implies number::is_digit(#[trigger] e[i]) by {
                if i < d.len() {
                    assert(e[i] == d[i]);
                }
            }
        } else {
            assert(!number::is_digit(e[d.len() as int]));
        }
    } else {
        let i = choose|i: int| 0 <= i < d.len() && !number::is_digit(#[trigger] d[i]);
        assert(e[i] == d[i]);
    }
}

/// Nothing, and a sign alone, is no number; a plus sign before a number changes nothing.
pub proof fn signs_change_nothing(s: &str, t: &str, max: u64, r: Option<u64>, q: Option<u64>)
    requires
        call_ensures(parse, (s, max), r),
        call_ensures(parse, (t, max), q),
        t@ == "+"@ + s@,
        s@.len() == 0 || s@[0] != '+',
    ensures
        r == q,
        s@.len() == 0 ==> r is None,
{
    reveal_strlit("+");
    assert(t@.skip(1) =~= s@);
}

/// A number is written with its digits, the highest first.
pub proof fn numbers_are_written_in_digits(n: nat, c: char)
    requires
        '0' <= c <= '9',
    ensures
        n == digit_value(c) ==> codec::decimal(n) == seq![c],
        n > 0 ==> codec::decimal((10 * n + digit_value(c)) as nat) == codec::decimal(n).push(c),
{
    let k = digit_value(c);
    if n == k {
        assert(codec::decimal(n) =~= seq![c]);
    }
    if n > 0 {
        let m = (10 * n + k) as nat;
        assert(m / 10 == n && m % 10 == k);
        assert(codec::decimal(m) =~= codec::decimal(n).push(c));
    }
}

} // verus!
