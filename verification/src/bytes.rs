//! Fixed-width integers in byte sequences, and comparisons of byte strings.
use vstd::prelude::*;
use vstd::string::StringSliceAdditionalSpecFns;

verus! {

broadcast use vstd::seq_lib::group_seq_properties;

/// The big-endian `u16` whose first byte is at `i`.
pub open spec fn be16(b: Seq<u8>, i: int) -> u16 {
    (b[i] as int * 0x100 + b[i + 1] as int) as u16
}

/// The little-endian `u16` whose first byte is at `i`.
pub open spec fn le16(b: Seq<u8>, i: int) -> u16 {
    (b[i + 1] as int * 0x100 + b[i] as int) as u16
}

/// The big-endian `u32` whose first byte is at `i`.
pub open spec fn be32(b: Seq<u8>, i: int) -> u32 {
    (b[i] as int * 0x100_0000 + b[i + 1] as int * 0x1_0000 + b[i + 2] as int * 0x100 + b[i
        + 3] as int) as u32
}

/// The little-endian `u32` whose first byte is at `i`.
pub open spec fn le32(b: Seq<u8>, i: int) -> u32 {
    (b[i + 3] as int * 0x100_0000 + b[i + 2] as int * 0x1_0000 + b[i + 1] as int * 0x100
        + b[i] as int) as u32
}

/// The big-endian `u64` whose first byte is at `i`.
pub open spec fn be64(b: Seq<u8>, i: int) -> u64 {
    (be32(b, i) as int * 0x1_0000_0000 + be32(b, i + 4) as int) as u64
}

/// The two bytes of `x`, most significant first.
pub open spec fn be16_bytes(x: u16) -> Seq<u8> {
    seq![(x / 0x100) as u8, (x % 0x100) as u8]
}

/// The two bytes of `x`, least significant first.
pub open spec fn le16_bytes(x: u16) -> Seq<u8> {
    seq![(x % 0x100) as u8, (x / 0x100) as u8]
}

/// The four bytes of `x`, most significant first.
pub open spec fn be32_bytes(x: u32) -> Seq<u8> {
    seq![
        (x / 0x100_0000) as u8,
        (x / 0x1_0000 % 0x100) as u8,
        (x / 0x100 % 0x100) as u8,
        (x % 0x100) as u8,
    ]
}

/// The four bytes of `x`, least significant first.
pub open spec fn le32_bytes(x: u32) -> Seq<u8> {
    seq![
        (x % 0x100) as u8,
        (x / 0x100 % 0x100) as u8,
        (x / 0x1_0000 % 0x100) as u8,
        (x / 0x100_0000) as u8,
    ]
}

/// The eight bytes of `x`, most significant first.
pub open spec fn be64_bytes(x: u64) -> Seq<u8> {
    be32_bytes((x / 0x1_0000_0000) as u32) + be32_bytes((x % 0x1_0000_0000) as u32)
}

/// The bytes of `s`.
pub open spec fn lit(s: &str) -> Seq<u8> {
    s.spec_bytes()
}

/// Whether `b` begins with `p`.
pub open spec fn has_prefix(b: Seq<u8>, p: Seq<u8>) -> bool {
    p.len() <= b.len() && b.subrange(0, p.len() as int) == p
}

/// Whether `p` stands somewhere in `b`, byte for byte.
pub open spec fn has_window(b: Seq<u8>, p: Seq<u8>) -> bool {
    exists|k: int| #[trigger] window_at(b, p, k)
}

/// Whether `p` stands in `b` at `k`.
pub open spec fn window_at(b: Seq<u8>, p: Seq<u8>, k: int) -> bool {
    0 <= k && k + p.len() <= b.len() && b.subrange(k, k + p.len()) == p
}

/// The index of the first `x` in `b` from `i` on, or `b.len()` where there is none.
pub open spec fn find_from(b: Seq<u8>, x: u8, i: int) -> int
    decreases b.len() - i,
{
    if i >= b.len() {
        b.len() as int
    } else if b[i] == x {
        i
    } else {
        find_from(b, x, i + 1)
    }
}

/// What follows the first `i` bytes of `b`.
pub open spec fn tail(b: Seq<u8>, i: int) -> Seq<u8> {
    b.subrange(i, b.len() as int)
}

/// `n` as a `u64`, or the greatest one where `n` is too large.
pub open spec fn sat64(n: int) -> u64 {
    if n > u64::MAX {
        u64::MAX
    } else {
        n as u64
    }
}

pub proof fn lemma_find_from(b: Seq<u8>, x: u8, i: int)
    requires
        0 <= i <= b.len(),
    ensures
        i <= find_from(b, x, i) <= b.len(),
        forall|j: int| i <= j < find_from(b, x, i) ==> b[j] != x,
        find_from(b, x, i) < b.len() ==> b[find_from(b, x, i)] == x,
    decreases b.len() - i,
{
    if i < b.len() && b[i] != x {
        lemma_find_from(b, x, i + 1);
    }
}

pub fn read_be16(b: &[u8], i: usize) -> (r: u16)
    requires
        i + 2 <= b.len(),
    ensures
        r == be16(b@, i as int),
{
    b[i] as u16 * 0x100 + b[i + 1] as u16
}

pub fn read_le16(b: &[u8], i: usize) -> (r: u16)
    requires
        i + 2 <= b.len(),
    ensures
        r == le16(b@, i as int),
{
    b[i + 1] as u16 * 0x100 + b[i] as u16
}

pub fn read_be32(b: &[u8], i: usize) -> (r: u32)
    requires
        i + 4 <= b.len(),
    ensures
        r == be32(b@, i as int),
{
    b[i] as u32 * 0x100_0000 + b[i + 1] as u32 * 0x1_0000 + b[i + 2] as u32 * 0x100 + b[i
        + 3] as u32
}

pub fn read_le32(b: &[u8], i: usize) -> (r: u32)
    requires
        i + 4 <= b.len(),
    ensures
        r == le32(b@, i as int),
{
    b[i + 3] as u32 * 0x100_0000 + b[i + 2] as u32 * 0x1_0000 + b[i + 1] as u32 * 0x100
        + b[i] as u32
}

pub fn read_be64(b: &[u8], i: usize) -> (r: u64)
    requires
        i + 8 <= b.len(),
    ensures
        r == be64(b@, i as int),
{
    read_be32(b, i) as u64 * 0x1_0000_0000 + read_be32(b, i + 4) as u64
}

/// Appends `s` to `v`.
pub fn put(v: &mut Vec<u8>, s: &[u8])
    ensures
        final(v)@ == old(v)@ + s@,
{
    v.extend_from_slice(s);
    assert(v@ =~= old(v)@ + s@);
}

/// Appends the bytes of `s` to `v`.
pub fn put_str(v: &mut Vec<u8>, s: &str)
    ensures
        final(v)@ == old(v)@ + lit(s),
{
    put(v, s.as_bytes());
}

pub fn put_be16(v: &mut Vec<u8>, x: u16)
    ensures
        final(v)@ == old(v)@ + be16_bytes(x),
{
    v.push((x / 0x100) as u8);
    v.push((x % 0x100) as u8);
    assert(v@ =~= old(v)@ + be16_bytes(x));
}

pub fn put_le16(v: &mut Vec<u8>, x: u16)
    ensures
        final(v)@ == old(v)@ + le16_bytes(x),
{
    v.push((x % 0x100) as u8);
    v.push((x / 0x100) as u8);
    assert(v@ =~= old(v)@ + le16_bytes(x));
}

pub fn put_be32(v: &mut Vec<u8>, x: u32)
    ensures
        final(v)@ == old(v)@ + be32_bytes(x),
{
    v.push((x / 0x100_0000) as u8);
    v.push((x / 0x1_0000 % 0x100) as u8);
    v.push((x / 0x100 % 0x100) as u8);
    v.push((x % 0x100) as u8);
    assert(v@ =~= old(v)@ + be32_bytes(x));
}

pub fn put_le32(v: &mut Vec<u8>, x: u32)
    ensures
        final(v)@ == old(v)@ + le32_bytes(x),
{
    v.push((x % 0x100) as u8);
    v.push((x / 0x100 % 0x100) as u8);
    v.push((x / 0x1_0000 % 0x100) as u8);
    v.push((x / 0x100_0000) as u8);
    assert(v@ =~= old(v)@ + le32_bytes(x));
}

pub fn put_be64(v: &mut Vec<u8>, x: u64)
    ensures
        final(v)@ == old(v)@ + be64_bytes(x),
{
    put_be32(v, (x / 0x1_0000_0000) as u32);
    put_be32(v, (x % 0x1_0000_0000) as u32);
    assert(v@ =~= old(v)@ + be64_bytes(x));
}

/// Whether two byte strings are the same.
pub fn same(a: &[u8], b: &[u8]) -> (r: bool)
    ensures
        r == (a@ == b@),
{
    if a.len() != b.len() {
        return false;
    }
    let mut i: usize = 0;
    while i < a.len()
        invariant
            a@.len() == b@.len(),
            i <= a@.len(),
            forall|j: int| 0 <= j < i ==> a@[j] == b@[j],
        decreases a@.len() - i,
    {
        if a[i] != b[i] {
            return false;
        }
        i += 1;
    }
    assert(a@ =~= b@);
    true
}

/// Whether `b` is exactly the bytes of `s`.
pub fn is_str(b: &[u8], s: &str) -> (r: bool)
    ensures
        r == (b@ == lit(s)),
{
    same(b, s.as_bytes())
}

/// Whether `b` begins with the bytes of `s`.
pub fn starts_with(b: &[u8], s: &str) -> (r: bool)
    ensures
        r == has_prefix(b@, lit(s)),
{
    let p = s.as_bytes();
    if p.len() > b.len() {
        return false;
    }
    same(vstd::slice::slice_subrange(b, 0, p.len()), p)
}

/// Whether the bytes of `s` stand somewhere in `b`.
pub fn contains_str(b: &[u8], s: &str) -> (r: bool)
    ensures
        r == has_window(b@, lit(s)),
{
    let p = s.as_bytes();
    let n = p.len();
    if n > b.len() {
        return false;
    }
    if n == 0 {
        assert(b@.subrange(0, 0) =~= p@);
        assert(window_at(b@, p@, 0));
        return true;
    }
    let mut k: usize = 0;
    while k <= b.len() - n
        invariant
            1 <= n <= b.len(),
            n == p@.len(),
            p@ == lit(s),
            k <= b@.len() - n + 1,
            forall|j: int| 0 <= j < k ==> !window_at(b@, p@, j),
        decreases b@.len() - n + 1 - k,
    {
        if same(vstd::slice::slice_subrange(b, k, k + n), p) {
            assert(window_at(b@, p@, k as int));
            return true;
        }
        k += 1;
    }
    assert forall|j: int| !window_at(b@, p@, j) by {}
    false
}

/// The index of the first `x` in `b`, if there is one.
pub fn find_byte(b: &[u8], x: u8) -> (r: Option<usize>)
    ensures
        r matches Some(i) ==> i == find_from(b@, x, 0) && i < b@.len(),
        r is None ==> find_from(b@, x, 0) == b@.len(),
{
    let mut i: usize = 0;
    while i < b.len()
        invariant
            i <= b@.len(),
            find_from(b@, x, i as int) == find_from(b@, x, 0),
        decreases b@.len() - i,
    {
        if b[i] == x {
            return Some(i);
        }
        i += 1;
    }
    None
}

/// The bytes from `i` up to `j`.
pub fn part<'a>(b: &'a [u8], i: usize, j: usize) -> (r: &'a [u8])
    requires
        i <= j <= b@.len(),
    ensures
        r@ == b@.subrange(i as int, j as int),
{
    vstd::slice::slice_subrange(b, i, j)
}

/// The bytes from `i` on.
pub fn rest_of<'a>(b: &'a [u8], i: usize) -> (r: &'a [u8])
    requires
        i <= b@.len(),
    ensures
        r@ == tail(b@, i as int),
{
    vstd::slice::slice_subrange(b, i, b.len())
}

} // verus!
