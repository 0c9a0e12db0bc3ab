//! Whole numbers read from text: an optional sign and decimal digits, nothing else.
use vstd::prelude::*;

use crate::text::{dec, digit};

verus! {

pub open spec fn is_digit(c: char) -> bool {
    '0' <= c <= '9'
}

/// The text consists of digits, and of at least one.
pub open spec fn all_digits(s: Seq<char>) -> bool {
    s.len() > 0 && forall|i: int| 0 <= i < s.len() ==> is_digit(#[trigger] s[i])
}

/// The number that a row of digits stands for.
pub open spec fn digits_value(s: Seq<char>) -> nat
    decreases s.len(),
{
    if s.len() == 0 {
        0
    } else {
        digits_value(s.drop_last()) * 10 + ((s.last() as int) - 48) as nat
    }
}

/// The number at the end of `s`, from place `from` on, where it is one and no more than `max`.
pub open spec fn digits_from(s: Seq<char>, from: int, max: nat) -> Option<nat> {
    let d = s.subrange(from, s.len() as int);
    if all_digits(d) && digits_value(d) <= max {
        Some(digits_value(d))
    } else {
        None
    }
}

/// The unsigned number that a text stands for: digits, with or without a `+`.
pub open spec fn unsigned_of(s: Seq<char>, max: nat) -> Option<nat> {
    digits_from(s, if s.len() > 0 && s[0] == '+' { 1 } else { 0 }, max)
}

/// The signed number that a text stands for: digits, with or without a sign. The negative numbers
/// reach one further than the positive ones.
pub open spec fn signed_of(s: Seq<char>, max: nat) -> Option<int> {
    if s.len() > 0 && s[0] == '-' {
        match digits_from(s, 1, max + 1) {
            Some(n) => Some(-(n as int)),
            None => None,
        }
    } else {
        match unsigned_of(s, max) {
            Some(n) => Some(n as int),
            None => None,
        }
    }
}

/// A number grows with its digits.
proof fn lemma_digits_grow(d: Seq<char>, i: int)
    requires
        0 <= i <= d.len(),
    ensures
        digits_value(d.subrange(0, i)) <= digits_value(d),
    decreases d.len() - i,
{
    if i == d.len() {
        assert(d.subrange(0, i) =~= d);
    } else {
        lemma_digits_grow(d, i + 1);
        assert(d.subrange(0, i + 1).drop_last() =~= d.subrange(0, i));
    }
}

fn parse_from(s: &str, from: usize, max: u64) -> (r: Option<u64>)
    requires
        from <= s@.len(),
    ensures
        match digits_from(s@, from as int, max as nat) {
            Some(n) => r == Some(n as u64) && n <= u64::MAX,
            None => r is None,
        },
{
    let n: usize = s.unicode_len();
    let ghost d = s@.subrange(from as int, s@.len() as int);
    if from == n {
        return None;
    }
    let mut v: u64 = 0;
    let mut i: usize = from;
    assert(d.subrange(0, 0) =~= Seq::empty());
    while i < n
        invariant
            n == s@.len(),
            from <= i <= n,
            d == s@.subrange(from as int, n as int),
            v == digits_value(d.subrange(0, i - from)),
            v <= max,
            forall|k: int| 0 <= k < i - from ==> is_digit(#[trigger] d[k]),
        decreases n - i,
    {
        let c = s.get_char(i);
        assert(c == d[i - from]);
        if !('0' <= c && c <= '9') {
            return None;
        }
        let x: u64 = (c as u32 - 48) as u64;
        let w: u128 = v as u128 * 10 + x as u128;
        proof {
            assert(d.subrange(0, i + 1 - from).drop_last() =~= d.subrange(0, i - from));
            assert(w == digits_value(d.subrange(0, i + 1 - from)));
            lemma_digits_grow(d, i + 1 - from);
        }
        if w > max as u128 {
            return None;
        }
        v = w as u64;
        i = i + 1;
    }
    assert(d.subrange(0, n - from) =~= d);
    Some(v)
}

/// The number that a text stands for, where it is one no greater than `max`.
pub fn parse_unsigned(s: &str, max: u64) -> (r: Option<u64>)
    ensures
        match unsigned_of(s@, max as nat) {
            Some(n) => r == Some(n as u64) && n <= u64::MAX,
            None => r is None,
        },
{
    let n: usize = s.unicode_len();
    if n > 0 && s.get_char(0) == '+' {
        parse_from(s, 1, max)
    } else {
        parse_from(s, 0, max)
    }
}

/// The signed number that a text stands for, where it fits in thirty-two bits.
pub fn parse_i32(s: &str) -> (r: Option<i32>)
    ensures
        match signed_of(s@, i32::MAX as nat) {
            Some(n) => r == Some(n as i32) && i32::MIN <= n <= i32::MAX,
            None => r is None,
        },
{
    let n: usize = s.unicode_len();
    if n > 0 && s.get_char(0) == '-' {
        match parse_from(s, 1, 2147483648) {
            Some(v) => Some((-(v as i64)) as i32),
            None => None,
        }
    } else {
        match parse_unsigned(s, 2147483647) {
            Some(v) => Some(v as i32),
            None => None,
        }
    }
}

/// A number that was written in decimal reads back as itself.
pub proof fn a_written_number_reads_back(n: nat, max: nat)
    requires
        n <= max,
    ensures
        unsigned_of(dec(n), max) == Some(n),
        signed_of(dec(n), max) == Some(n as int),
{
    lemma_dec_digits(n);
    let s = dec(n);
    assert(is_digit(s[0]));
    assert(s.subrange(0, s.len() as int) =~= s);
}

pub proof fn lemma_dec_digits(n: nat)
    ensures
        all_digits(dec(n)),
        digits_value(dec(n)) == n,
    decreases n,
{
    reveal_with_fuel(digits_value, 2);
    let s = dec(n);
    if n < 10 {
        assert(s =~= seq![digit(n as int)]);
        assert(s.drop_last() =~= Seq::empty());
    } else {
        lemma_dec_digits(n / 10);
        let head = dec(n / 10);
        assert(s == head.push(digit((n % 10) as int)));
        assert(s.drop_last() =~= head);
        assert forall|i: int| 0 <= i < s.len() implies is_digit(#[trigger] s[i]) by {
            if i < head.len() {
                assert(s[i] == head[i]);
            }
        }
    }
}

/// A sign is read: a plus changes nothing, and a minus turns the number round. Without digits there is
/// no number.
pub proof fn a_sign_is_read(n: nat, max: nat)
    ensures
        n <= max ==> unsigned_of(seq!['+'] + dec(n), max) == Some(n),
        n <= max ==> signed_of(seq!['+'] + dec(n), max) == Some(n as int),
        n <= max + 1 ==> signed_of(seq!['-'] + dec(n), max) == Some(-(n as int)),
        unsigned_of(seq!['-'] + dec(n), max) is None,
        unsigned_of(Seq::empty(), max) is None,
        unsigned_of(seq!['+'], max) is None,
        signed_of(seq!['-'], max) is None,
{
    lemma_dec_digits(n);
    let (p, m) = (seq!['+'] + dec(n), seq!['-'] + dec(n));
    assert(p.subrange(1, p.len() as int) =~= dec(n));
    assert(m.subrange(1, m.len() as int) =~= dec(n));
    assert(m.subrange(0, m.len() as int) =~= m);
    assert(m[0] == '-');
    assert(!is_digit(m[0]));
    assert(!all_digits(m));
}

/// A number that is too large is refused, and so is a text with anything but digits behind its sign.
pub proof fn what_is_no_number_is_refused(n: nat, max: nat, s: Seq<char>, i: int)
    requires
        n > max,
        0 < i < s.len(),
        !('0' <= s[i] <= '9'),
    ensures
        unsigned_of(dec(n), max) is None,
        signed_of(dec(n), max) is None,
        unsigned_of(s, max) is None,
        signed_of(s, max) is None,
{
    lemma_dec_digits(n);
    let d = dec(n);
    assert(is_digit(d[0]));
    assert(d.subrange(0, d.len() as int) =~= d);
    assert(s.subrange(0, s.len() as int)[i] == s[i]);
    assert(s.subrange(1, s.len() as int)[i - 1] == s[i]);
    assert(!is_digit(s[i]));
    assert(!all_digits(s.subrange(0, s.len() as int)));
    assert(!all_digits(s.subrange(1, s.len() as int)));
}

} // verus!
