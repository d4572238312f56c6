//! A cursor over bytes. Every read past the end yields `None` and leaves the cursor
//! where it was.
use vstd::prelude::*;

use crate::bytes::{be16, be32, le16, le32, read_be16, read_be32, read_le16, read_le32, part};

verus! {

#[derive(Clone, Copy, Debug, PartialEq, Eq, Structural)]
pub enum Endian {
    Big,
    Little,
}

/// The `u16` at `i` in the given byte order.
pub open spec fn u16_at(e: Endian, b: Seq<u8>, i: int) -> u16 {
    match e {
        Endian::Big => be16(b, i),
        Endian::Little => le16(b, i),
    }
}

/// The `u32` at `i` in the given byte order.
pub open spec fn u32_at(e: Endian, b: Seq<u8>, i: int) -> u32 {
    match e {
        Endian::Big => be32(b, i),
        Endian::Little => le32(b, i),
    }
}

pub fn read_u16(e: Endian, b: &[u8], i: usize) -> (r: u16)
    requires
        i + 2 <= b.len(),
    ensures
        r == u16_at(e, b@, i as int),
{
    match e {
        Endian::Big => read_be16(b, i),
        Endian::Little => read_le16(b, i),
    }
}

pub fn read_u32(e: Endian, b: &[u8], i: usize) -> (r: u32)
    requires
        i + 4 <= b.len(),
    ensures
        r == u32_at(e, b@, i as int),
{
    match e {
        Endian::Big => read_be32(b, i),
        Endian::Little => read_le32(b, i),
    }
}

pub struct ByteCursor<'a> {
    buf: &'a [u8],
    pos: usize,
}

/// The bytes that a cursor runs over, and where it stands.
pub struct CursorView {
    pub data: Seq<u8>,
    pub at: int,
}

impl<'a> View for ByteCursor<'a> {
    type V = CursorView;

    closed spec fn view(&self) -> CursorView {
        CursorView { data: self.buf@, at: self.pos as int }
    }
}

impl CursorView {
    /// Whether `n` more bytes can be taken.
    pub open spec fn has(self, n: int) -> bool {
        self.at + n <= self.data.len()
    }

    /// The cursor `n` bytes further on.
    pub open spec fn moved(self, n: int) -> CursorView {
        CursorView { data: self.data, at: self.at + n }
    }

    /// The cursor after an attempt to take `n` bytes.
    pub open spec fn after(self, n: int) -> CursorView {
        if self.has(n) {
            self.moved(n)
        } else {
            self
        }
    }
}

impl<'a> ByteCursor<'a> {
    #[verifier::type_invariant]
    spec fn inv(self) -> bool {
        self.pos <= self.buf@.len()
    }

    pub fn new(buf: &'a [u8]) -> (r: Self)
        ensures
            r@ == (CursorView { data: buf@, at: 0 }),
    {
        ByteCursor { buf, pos: 0 }
    }

    pub fn position(&self) -> (r: usize)
        ensures
            r == self@.at,
            r <= self@.data.len(),
    {
        proof {
            use_type_invariant(self);
        }
        self.pos
    }

    pub fn remaining(&self) -> (r: usize)
        ensures
            r == self@.data.len() - self@.at,
            0 <= self@.at,
    {
        proof {
            use_type_invariant(self);
        }
        self.buf.len() - self.pos
    }

    /// Takes the next `n` bytes.
    pub fn take(&mut self, n: usize) -> (r: Option<&'a [u8]>)
        ensures
            final(self)@ == old(self)@.after(n as int),
            0 <= old(self)@.at <= old(self)@.data.len(),
            0 <= final(self)@.at <= final(self)@.data.len(),
            match r {
                Some(s) => old(self)@.has(n as int) && s@ == old(self)@.data.subrange(
                    old(self)@.at,
                    old(self)@.at + n,
                ),
                None => !old(self)@.has(n as int),
            },
    {
        proof {
            use_type_invariant(&*self);
        }
        if n > self.buf.len() - self.pos {
            return None;
        }
        let end: usize = self.pos + n;
        let s = part(self.buf, self.pos, end);
        self.pos = end;
        Some(s)
    }

    pub fn u8(&mut self) -> (r: Option<u8>)
        ensures
            final(self)@ == old(self)@.after(1),
            0 <= old(self)@.at <= old(self)@.data.len(),
            0 <= final(self)@.at <= final(self)@.data.len(),
            match r {
                Some(v) => old(self)@.has(1) && v == old(self)@.data[old(self)@.at],
                None => !old(self)@.has(1),
            },
    {
        proof {
            use_type_invariant(&*self);
        }
        let ghost before = self@;
        match self.take(1) {
            Some(s) => {
                assert(s@[0] == before.data[before.at]);
                Some(s[0])
            },
            None => None,
        }
    }

    pub fn u16_be(&mut self) -> (r: Option<u16>)
        ensures
            final(self)@ == old(self)@.after(2),
            0 <= old(self)@.at <= old(self)@.data.len(),
            0 <= final(self)@.at <= final(self)@.data.len(),
            match r {
                Some(v) => old(self)@.has(2) && v == be16(old(self)@.data, old(self)@.at),
                None => !old(self)@.has(2),
            },
    {
        self.u16(Endian::Big)
    }

    pub fn u16(&mut self, e: Endian) -> (r: Option<u16>)
        ensures
            final(self)@ == old(self)@.after(2),
            0 <= old(self)@.at <= old(self)@.data.len(),
            0 <= final(self)@.at <= final(self)@.data.len(),
            match r {
                Some(v) => old(self)@.has(2) && v == u16_at(e, old(self)@.data, old(self)@.at),
                None => !old(self)@.has(2),
            },
    {
        match self.take(2) {
            Some(s) => Some(read_u16(e, s, 0)),
            None => None,
        }
    }

    pub fn u32(&mut self, e: Endian) -> (r: Option<u32>)
        ensures
            final(self)@ == old(self)@.after(4),
            0 <= old(self)@.at <= old(self)@.data.len(),
            0 <= final(self)@.at <= final(self)@.data.len(),
            match r {
                Some(v) => old(self)@.has(4) && v == u32_at(e, old(self)@.data, old(self)@.at),
                None => !old(self)@.has(4),
            },
    {
        match self.take(4) {
            Some(s) => Some(read_u32(e, s, 0)),
            None => None,
        }
    }

    pub fn skip(&mut self, n: usize) -> (r: Option<()>)
        ensures
            final(self)@ == old(self)@.after(n as int),
            0 <= old(self)@.at <= old(self)@.data.len(),
            0 <= final(self)@.at <= final(self)@.data.len(),
            r is Some <==> old(self)@.has(n as int),
    {
        match self.take(n) {
            Some(_) => Some(()),
            None => None,
        }
    }

    /// Moves to `pos`, which may be the end.
    pub fn seek(&mut self, pos: usize) -> (r: Option<()>)
        ensures
            r is Some <==> pos <= old(self)@.data.len(),
            final(self)@ == (if pos <= old(self)@.data.len() {
                CursorView { data: old(self)@.data, at: pos as int }
            } else {
                old(self)@
            }),
    {
        if pos > self.buf.len() {
            return None;
        }
        self.pos = pos;
        Some(())
    }
}

} // verus!
