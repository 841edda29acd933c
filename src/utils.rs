//! Small shared pieces: response envelopes, post kinds and a string hash.

use vstd::prelude::*;
use vstd::string::*;
use vstd::wrapping::u64_specs::{wrapping_add, wrapping_mul};
use crate::text::substring;

verus! {

/// A platform response that wraps its payload in `body`.
pub struct RequestInner<T> {
    pub body: T,
}

#[derive(PartialEq, Eq, Structural, Clone, Copy)]
pub enum PostType {
    Image,
    Text,
    File,
    Article,
    Video,
    Entry,
}

pub open spec fn hex_char(d: int) -> char {
    "0123456789abcdef"@[d]
}

pub open spec fn dec_char(d: int) -> char {
    "0123456789"@[d]
}

/// `n` in lower-case hexadecimal, without leading zeros.
pub open spec fn hex_digits(n: nat) -> Seq<char>
    decreases n,
{
    if n < 16 {
        seq![hex_char(n as int)]
    } else {
        hex_digits(n / 16).push(hex_char((n % 16) as int))
    }
}

/// `n` in decimal, without leading zeros.
pub open spec fn dec_digits(n: nat) -> Seq<char>
    decreases n,
{
    if n < 10 {
        seq![dec_char(n as int)]
    } else {
        dec_digits(n / 10).push(dec_char((n % 10) as int))
    }
}

pub fn to_hex(n: u64) -> (r: String)
    ensures
        r@ == hex_digits(n as nat),
    decreases n,
{
    let digits = "0123456789abcdef";
    proof {
        reveal_strlit("0123456789abcdef");
    }
    if n < 16 {
        let r = substring(digits, n as usize, n as usize + 1);
        assert(r@ =~= seq![hex_char(n as int)]);
        r
    } else {
        let mut r = to_hex(n / 16);
        let d = (n % 16) as usize;
        r.append(digits.substring_char(d, d + 1));
        assert(r@ =~= hex_digits(n as nat));
        r
    }
}

pub fn to_decimal(n: u64) -> (r: String)
    ensures
        r@ == dec_digits(n as nat),
    decreases n,
{
    let digits = "0123456789";
    proof {
        reveal_strlit("0123456789");
    }
    if n < 10 {
        let r = substring(digits, n as usize, n as usize + 1);
        assert(r@ =~= seq![dec_char(n as int)]);
        r
    } else {
        let mut r = to_decimal(n / 10);
        let d = (n % 10) as usize;
        r.append(digits.substring_char(d, d + 1));
        assert(r@ =~= dec_digits(n as nat));
        r
    }
}

pub open spec fn mix(h: (u64, u64), c: char) -> (u64, u64) {
    (
        wrapping_mul(h.0 ^ (c as u64), 2654435761u64),
        wrapping_mul(h.1 ^ (c as u64), 1597334677u64),
    )
}

/// The two hash lanes after taking in every character of `s`.
pub open spec fn mix_all(s: Seq<char>) -> (u64, u64)
    decreases s.len(),
{
    if s.len() == 0 {
        (0xdeadbeefu64 ^ 1u64, 0x41c6ce57u64 ^ 1u64)
    } else {
        mix(mix_all(s.drop_last()), s.last())
    }
}

pub open spec fn finish(h: (u64, u64)) -> u64 {
    let a1 = wrapping_mul(h.0 ^ (h.0 >> 16u64), 2246822507u64);
    let h1 = a1 ^ wrapping_mul(h.1 ^ (h.1 >> 13u64), 3266489909u64);
    let a2 = wrapping_mul(h.1 ^ (h.1 >> 16u64), 2246822507u64);
    let h2 = a2 ^ wrapping_mul(h1 ^ (h1 >> 13u64), 3266489909u64);
    wrapping_add((4294967296u64 * (2097151u64 & h2)) as u64, h1)
}

/// The cyrb53 hash of a text (seed 1, 64-bit lanes), in hexadecimal.
pub fn cyrb53(str: &str) -> (r: String)
    ensures
        r@ == hex_digits(finish(mix_all(str@)) as nat),
{
    let n = str.unicode_len();
    let mut h1: u64 = 0xdeadbeef ^ 1;
    let mut h2: u64 = 0x41c6ce57 ^ 1;
    let mut i: usize = 0;
    while i < n
        invariant
            0 <= i <= n,
            n == str@.len(),
            (h1, h2) == mix_all(str@.take(i as int)),
        decreases n - i,
    {
        assert(str@.take(i + 1).drop_last() =~= str@.take(i as int));
        let code = str.get_char(i) as u64;
        h1 = (h1 ^ code).wrapping_mul(2654435761);
        h2 = (h2 ^ code).wrapping_mul(1597334677);
        i = i + 1;
    }
    assert(str@.take(n as int) =~= str@);
    h1 = (h1 ^ (h1 >> 16)).wrapping_mul(2246822507);
    h1 = h1 ^ (h2 ^ (h2 >> 13)).wrapping_mul(3266489909);
    h2 = (h2 ^ (h2 >> 16)).wrapping_mul(2246822507);
    h2 = h2 ^ (h1 ^ (h1 >> 13)).wrapping_mul(3266489909);
    let low = 2097151 & h2;
    assert(low <= 2097151) by (bit_vector)
        requires
            low == 2097151u64 & h2,
    ;
    let v = (4294967296u64 * low).wrapping_add(h1);
    to_hex(v)
}

} // verus!
