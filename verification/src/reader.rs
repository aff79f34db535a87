//! The byte cursor: a forward-only reader over an immutable byte buffer.
//!
//! Every read either returns the requested bytes as a value of the requested
//! width and advances the position by exactly that many bytes, or returns
//! `None` and leaves the cursor where it was.
use vstd::prelude::*;

verus! {

/// Big-endian value of two bytes. A little-endian read is the same function
/// on the bytes in reverse order.
pub open spec fn be16(b0: u8, b1: u8) -> int {
    b0 * 0x100 + b1
}

/// Big-endian value of four bytes.
pub open spec fn be32(b0: u8, b1: u8, b2: u8, b3: u8) -> int {
    ((b0 * 0x100 + b1) * 0x100 + b2) * 0x100 + b3
}

/// Big-endian value of eight bytes.
pub open spec fn be64(b0: u8, b1: u8, b2: u8, b3: u8, b4: u8, b5: u8, b6: u8, b7: u8) -> int {
    be32(b0, b1, b2, b3) * 0x1_0000_0000 + be32(b4, b5, b6, b7)
}

/// Two's-complement reading of an unsigned 32-bit value.
pub open spec fn signed32(v: int) -> int {
    if v < 0x8000_0000 {
        v
    } else {
        v - 0x1_0000_0000
    }
}

/// Forward-only cursor over an immutable byte buffer.
#[derive(Debug)]
pub struct Reader {
    pub buf: Vec<u8>,
    pub pos: usize,
}

impl Reader {
    /// The position never passes the end of the buffer.
    pub open spec fn wf(&self) -> bool {
        self.pos <= self.buf@.len()
    }

    /// The bytes not yet consumed.
    pub open spec fn rest(&self) -> Seq<u8> {
        self.buf@.skip(self.pos as int)
    }

    pub fn read_u8(&mut self) -> (r: Option<u8>)
        ensures
            final(self).buf == old(self).buf,
            if old(self).pos + 1 <= old(self).buf@.len() {
                &&& final(self).pos == old(self).pos + 1
                &&& r == Some(old(self).buf@[old(self).pos as int])
            } else {
                &&& final(self).pos == old(self).pos
                &&& r is None
            },
    {
        if self.pos < self.buf.len() {
            let val = self.buf[self.pos];
            self.pos = self.pos + 1;
            Some(val)
        } else {
            None
        }
    }

    pub fn read_u16(&mut self, be: bool) -> (r: Option<u16>)
        ensures
            final(self).buf == old(self).buf,
            if old(self).pos + 2 <= old(self).buf@.len() {
                &&& final(self).pos == old(self).pos + 2
                &&& (r matches Some(v) && v == if be {
                    be16(old(self).buf@[old(self).pos as int], old(self).buf@[old(self).pos + 1])
                } else {
                    be16(old(self).buf@[old(self).pos + 1], old(self).buf@[old(self).pos as int])
                })
            } else {
                &&& final(self).pos == old(self).pos
                &&& r is None
            },
    {
        if self.pos < self.buf.len() && self.buf.len() - self.pos >= 2 {
            let b0 = self.buf[self.pos];
            let b1 = self.buf[self.pos + 1];
            self.pos = self.pos + 2;
            let (hi, lo) = if be { (b0, b1) } else { (b1, b0) };
            Some((hi as u16) * 0x100 + (lo as u16))
        } else {
            None
        }
    }

    pub fn read_u32(&mut self, be: bool) -> (r: Option<u32>)
        ensures
            final(self).buf == old(self).buf,
            if old(self).pos + 4 <= old(self).buf@.len() {
                &&& final(self).pos == old(self).pos + 4
                &&& (r matches Some(v) && v == if be {
                    be32(
                        old(self).buf@[old(self).pos as int],
                        old(self).buf@[old(self).pos + 1],
                        old(self).buf@[old(self).pos + 2],
                        old(self).buf@[old(self).pos + 3],
                    )
                } else {
                    be32(
                        old(self).buf@[old(self).pos + 3],
                        old(self).buf@[old(self).pos + 2],
                        old(self).buf@[old(self).pos + 1],
                        old(self).buf@[old(self).pos as int],
                    )
                })
            } else {
                &&& final(self).pos == old(self).pos
                &&& r is None
            },
    {
        if self.pos < self.buf.len() && self.buf.len() - self.pos >= 4 {
            let b0 = self.buf[self.pos];
            let b1 = self.buf[self.pos + 1];
            let b2 = self.buf[self.pos + 2];
            let b3 = self.buf[self.pos + 3];
            self.pos = self.pos + 4;
            let (x0, x1, x2, x3) = if be { (b0, b1, b2, b3) } else { (b3, b2, b1, b0) };
            Some(
                (x0 as u32) * 0x100_0000 + (x1 as u32) * 0x1_0000 + (x2 as u32) * 0x100 + (
                x3 as u32),
            )
        } else {
            None
        }
    }

    pub fn read_i32(&mut self, be: bool) -> (r: Option<i32>)
        ensures
            final(self).buf == old(self).buf,
            if old(self).pos + 4 <= old(self).buf@.len() {
                &&& final(self).pos == old(self).pos + 4
                &&& (r matches Some(v) && v == if be {
                    signed32(
                        be32(
                            old(self).buf@[old(self).pos as int],
                            old(self).buf@[old(self).pos + 1],
                            old(self).buf@[old(self).pos + 2],
                            old(self).buf@[old(self).pos + 3],
                        ),
                    )
                } else {
                    signed32(
                        be32(
                            old(self).buf@[old(self).pos + 3],
                            old(self).buf@[old(self).pos + 2],
                            old(self).buf@[old(self).pos + 1],
                            old(self).buf@[old(self).pos as int],
                        ),
                    )
                })
            } else {
                &&& final(self).pos == old(self).pos
                &&& r is None
            },
    {
        match self.read_u32(be) {
            None => None,
            Some(u) => {
                if u <= 0x7FFF_FFFF {
                    Some(u as i32)
                } else {
                    Some(((u as i64) - 0x1_0000_0000i64) as i32)
                }
            },
        }
    }

    pub fn read_u64(&mut self, be: bool) -> (r: Option<u64>)
        ensures
            final(self).buf == old(self).buf,
            if old(self).pos + 8 <= old(self).buf@.len() {
                &&& final(self).pos == old(self).pos + 8
                &&& (r matches Some(v) && v == if be {
                    be64(
                        old(self).buf@[old(self).pos as int],
                        old(self).buf@[old(self).pos + 1],
                        old(self).buf@[old(self).pos + 2],
                        old(self).buf@[old(self).pos + 3],
                        old(self).buf@[old(self).pos + 4],
                        old(self).buf@[old(self).pos + 5],
                        old(self).buf@[old(self).pos + 6],
                        old(self).buf@[old(self).pos + 7],
                    )
                } else {
                    be64(
                        old(self).buf@[old(self).pos + 7],
                        old(self).buf@[old(self).pos + 6],
                        old(self).buf@[old(self).pos + 5],
                        old(self).buf@[old(self).pos + 4],
                        old(self).buf@[old(self).pos + 3],
                        old(self).buf@[old(self).pos + 2],
                        old(self).buf@[old(self).pos + 1],
                        old(self).buf@[old(self).pos as int],
                    )
                })
            } else {
                &&& final(self).pos == old(self).pos
                &&& r is None
            },
    {
        let hi = self.read_u32(be);
        match hi {
            None => None,
            Some(h) => {
                match self.read_u32(be) {
                    None => {
                        // The first word was present but the second is not:
                        // step back so that the cursor is left where it was.
                        self.pos = self.pos - 4;
                        None
                    },
                    Some(l) => {
                        if be {
                            Some((h as u64) * 0x1_0000_0000 + (l as u64))
                        } else {
                            Some((l as u64) * 0x1_0000_0000 + (h as u64))
                        }
                    },
                }
            },
        }
    }

    /// Variable-length raw read: the next `n` bytes, verbatim.
    pub fn read_bytes(&mut self, n: usize) -> (r: Option<Vec<u8>>)
        ensures
            final(self).buf == old(self).buf,
            if old(self).pos + n <= old(self).buf@.len() {
                &&& final(self).pos == old(self).pos + n
                &&& (r matches Some(v) && v@ == old(self).buf@.subrange(
                    old(self).pos as int,
                    old(self).pos + n,
                ))
            } else {
                &&& final(self).pos == old(self).pos
                &&& r is None
            },
    {
        if self.pos <= self.buf.len() && self.buf.len() - self.pos >= n {
            let mut out: Vec<u8> = Vec::new();
            let mut i: usize = 0;
            while i < n
                invariant
                    i <= n,
                    self.pos + n <= usize::MAX,
                    self.pos + n <= self.buf@.len(),
                    out@ == self.buf@.subrange(self.pos as int, self.pos + i),
                decreases n - i,
            {
                out.push(self.buf[self.pos + i]);
                proof {
                    assert(out@ =~= self.buf@.subrange(self.pos as int, self.pos + i + 1));
                }
                i = i + 1;
            }
            self.pos = self.pos + n;
            Some(out)
        } else {
            None
        }
    }
}

impl From<Vec<u8>> for Reader {
    /// A fresh cursor over the whole buffer.
    fn from(buf: Vec<u8>) -> (r: Reader) {
        Reader { buf, pos: 0 }
    }
}

impl vstd::std_specs::convert::FromSpecImpl<Vec<u8>> for Reader {
    open spec fn obeys_from_spec() -> bool {
        true
    }

    open spec fn from_spec(buf: Vec<u8>) -> Reader {
        Reader { buf, pos: 0 }
    }
}

} // verus!
