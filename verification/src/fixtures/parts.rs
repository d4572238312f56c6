//! What the builders are made of.
use vstd::prelude::*;

use crate::bytes::lit;

verus! {

/// `n` modulo 2 to the power of 32.
pub open spec fn low32(n: int) -> u32 {
    (n % 0x1_0000_0000) as u32
}

/// A length and some more, in 32 bits.
pub fn len32(n: usize, more: u8) -> (r: u32)
    ensures
        r == low32(n + more),
{
    let m: u64 = n as u64 % 0x1_0000_0000;
    assert((n + more) % 0x1_0000_0000 == (m + more) % 0x1_0000_0000);
    ((m + more as u64) % 0x1_0000_0000) as u32
}

/// `n` zero bytes.
pub open spec fn nought(n: nat) -> Seq<u8> {
    Seq::new(n, |i: int| 0u8)
}

pub fn zeros(n: usize) -> (r: Vec<u8>)
    ensures
        r@ == nought(n as nat),
{
    let mut v: Vec<u8> = Vec::new();
    let mut i: usize = 0;
    while i < n
        invariant
            i <= n,
            v@ =~= nought(i as nat),
        decreases n - i,
    {
        v.push(0);
        i += 1;
    }
    v
}

/// The bytes of `s`.
pub fn bytes_of(s: &str) -> (r: Vec<u8>)
    ensures
        r@ == lit(s),
{
    let mut v: Vec<u8> = Vec::new();
    crate::bytes::put_str(&mut v, s);
    assert(v@ =~= lit(s));
    v
}

/// A piece of XMP, as the fixtures hold it.
pub open spec fn acme_xmp() -> Seq<u8> {
    lit("<rdf:Description tiff:Make=\"Acme\"/>")
}

pub fn acme() -> (r: Vec<u8>)
    ensures
        r@ == acme_xmp(),
{
    bytes_of("<rdf:Description tiff:Make=\"Acme\"/>")
}

} // verus!
