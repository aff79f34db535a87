//! The mathematical model of the decoder: a ghost term tree and a
//! specification-level decode function over the raw byte sequence.
//!
//! `spec_decode` pins down, for every byte sequence, either the exact tree
//! that decoding returns or the exact error with which it fails. The
//! executable decoder is proved to return precisely this result.
use vstd::prelude::*;

use crate::constants::ATOM_UTF_8_EXT;
use crate::constants::BINARY_EXT;
use crate::constants::BIT_BINARY_EXT;
use crate::constants::DEPRECATED_ATOM_EXT;
use crate::constants::DEPRECATED_REFERENCE_EXT;
use crate::constants::DEPRECATED_SMALL_ATOM_EXT;
use crate::constants::EXPORT_EXT;
use crate::constants::FLOAT_EXT;
use crate::constants::INTEGER_EXT;
use crate::constants::LARGE_BIG_EXT;
use crate::constants::LARGE_TUPLE_EXT;
use crate::constants::LIST_EXT;
use crate::constants::MAP_EXT;
use crate::constants::NEWER_REFERENCE_EXT;
use crate::constants::NEW_FLOAT_EXT;
use crate::constants::NEW_FUN_EXT;
use crate::constants::NEW_PID_EXT;
use crate::constants::NEW_PORT_EXT;
use crate::constants::NEW_REFERENCE_EXT;
use crate::constants::NIL_EXT;
use crate::constants::PID_EXT;
use crate::constants::PORT_EXT;
use crate::constants::REMOVED_FUN_EXT;
use crate::constants::SMALL_ATOM_UTF_8_EXT;
use crate::constants::SMALL_BIG_EXT;
use crate::constants::SMALL_INTEGER_EXT;
use crate::constants::SMALL_TUPLE_EXT;
use crate::constants::STRING_EXT;
use crate::constants::V4_PORT_EXT;
use crate::constants::VERSION;
use crate::decoder::DecodeError;
use crate::reader::be16;
use crate::reader::be32;
use crate::reader::signed32;
use vstd::utf8::decode_utf8;
use vstd::utf8::valid_utf8;

verus! {

/// A decoded term, as pure mathematics: sequences in place of vectors,
/// character sequences in place of owned strings.
#[allow(inconsistent_fields)]
pub enum TermV {
    SmallInt(u8),
    Int(i32),
    Port { node: Box<TermV>, id: u32, creation: u8 },
    NewPort { node: Box<TermV>, id: u32, creation: u32 },
    V4Port { node: Box<TermV>, id: u64, creation: u32 },
    Pid { node: Box<TermV>, id: u32, serial: u32, creation: u8 },
    NewPid { node: Box<TermV>, id: u32, serial: u32, creation: u32 },
    Tuple(Seq<TermV>),
    Mapping(Seq<(Seq<char>, TermV)>),
    Nil,
    Str(Seq<char>),
    List(Seq<TermV>),
    Atom(Seq<char>),
}

/// Entering one key/value pair into a map: if the key is already present,
/// its value is replaced in place; otherwise the pair goes to the end.
pub open spec fn map_put(m: Seq<(Seq<char>, TermV)>, k: Seq<char>, v: TermV) -> Seq<
    (Seq<char>, TermV),
>
    decreases m.len(),
{
    if m.len() == 0 {
        seq![(k, v)]
    } else if m[0].0 == k {
        seq![(k, v)] + m.skip(1)
    } else {
        seq![m[0]] + map_put(m.skip(1), k, v)
    }
}

/// The tag bytes the decoder recognizes, whether or not it builds a term
/// for them. Any other tag byte is rejected as unsupported.
pub open spec fn known_tag(tag: u8) -> bool {
    ||| tag == SMALL_INTEGER_EXT
    ||| tag == INTEGER_EXT
    ||| tag == FLOAT_EXT
    ||| tag == NEW_FLOAT_EXT
    ||| tag == PORT_EXT
    ||| tag == NEW_PORT_EXT
    ||| tag == V4_PORT_EXT
    ||| tag == PID_EXT
    ||| tag == NEW_PID_EXT
    ||| tag == SMALL_TUPLE_EXT
    ||| tag == LARGE_TUPLE_EXT
    ||| tag == MAP_EXT
    ||| tag == NIL_EXT
    ||| tag == STRING_EXT
    ||| tag == LIST_EXT
    ||| tag == BINARY_EXT
    ||| tag == SMALL_BIG_EXT
    ||| tag == LARGE_BIG_EXT
    ||| tag == DEPRECATED_REFERENCE_EXT
    ||| tag == NEW_REFERENCE_EXT
    ||| tag == NEWER_REFERENCE_EXT
    ||| tag == REMOVED_FUN_EXT
    ||| tag == NEW_FUN_EXT
    ||| tag == EXPORT_EXT
    ||| tag == BIT_BINARY_EXT
    ||| tag == ATOM_UTF_8_EXT
    ||| tag == SMALL_ATOM_UTF_8_EXT
    ||| tag == DEPRECATED_ATOM_EXT
    ||| tag == DEPRECATED_SMALL_ATOM_EXT
}

/// Tags that the format defines but this decoder builds no term for.
pub open spec fn unimplemented_tag(tag: u8) -> bool {
    ||| tag == FLOAT_EXT
    ||| tag == NEW_FLOAT_EXT
    ||| tag == SMALL_BIG_EXT
    ||| tag == LARGE_BIG_EXT
    ||| tag == DEPRECATED_REFERENCE_EXT
    ||| tag == NEW_REFERENCE_EXT
    ||| tag == NEWER_REFERENCE_EXT
    ||| tag == REMOVED_FUN_EXT
    ||| tag == NEW_FUN_EXT
    ||| tag == EXPORT_EXT
    ||| tag == BIT_BINARY_EXT
}

/// Text payload of a given length at a given offset: the decoded characters,
/// or `InvalidUtf8`, or `EndOfBuffer` when the bytes are missing. Used for
/// the legacy string kind, the raw binary kind and all atom kinds.
pub open spec fn spec_text(b: Seq<u8>, off: int, len: int) -> Result<(Seq<char>, int), DecodeError> {
    if b.len() >= off + len {
        let bytes = b.subrange(off, off + len);
        if valid_utf8(bytes) {
            Ok((decode_utf8(bytes), off + len))
        } else {
            Err(DecodeError::InvalidUtf8)
        }
    } else {
        Err(DecodeError::EndOfBuffer)
    }
}

/// One term decoded from the front of `b`: the tree it stands for and the
/// number of bytes it occupies, or the error that the descent hits first.
pub open spec fn spec_term(b: Seq<u8>) -> Result<(TermV, int), DecodeError>
    decreases b.len(), 0int, 0int,
{
    if b.len() < 1 {
        Err(DecodeError::EndOfBuffer)
    } else {
        let tag = b[0];
        if tag == SMALL_INTEGER_EXT {
            if b.len() >= 2 {
                Ok((TermV::SmallInt(b[1]), 2))
            } else {
                Err(DecodeError::EndOfBuffer)
            }
        } else if tag == INTEGER_EXT {
            if b.len() >= 5 {
                Ok((TermV::Int(signed32(be32(b[1], b[2], b[3], b[4])) as i32), 5))
            } else {
                Err(DecodeError::EndOfBuffer)
            }
        } else if tag == PORT_EXT {
            match spec_term(b.skip(1)) {
                Err(e) => Err(e),
                Ok((node, u)) => {
                    if 1 <= u <= b.len() - 1 && b.len() >= 1 + u + 5 {
                        Ok(
                            (
                                TermV::Port {
                                    node: Box::new(node),
                                    id: be32(b[1 + u], b[2 + u], b[3 + u], b[4 + u]) as u32,
                                    creation: b[5 + u],
                                },
                                1 + u + 5,
                            ),
                        )
                    } else {
                        Err(DecodeError::EndOfBuffer)
                    }
                },
            }
        } else if tag == NEW_PORT_EXT {
            match spec_term(b.skip(1)) {
                Err(e) => Err(e),
                Ok((node, u)) => {
                    if 1 <= u <= b.len() - 1 && b.len() >= 1 + u + 8 {
                        Ok(
                            (
                                TermV::NewPort {
                                    node: Box::new(node),
                                    id: be32(b[1 + u], b[2 + u], b[3 + u], b[4 + u]) as u32,
                                    creation: be32(b[5 + u], b[6 + u], b[7 + u], b[8 + u]) as u32,
                                },
                                1 + u + 8,
                            ),
                        )
                    } else {
                        Err(DecodeError::EndOfBuffer)
                    }
                },
            }
        } else if tag == V4_PORT_EXT {
            match spec_term(b.skip(1)) {
                Err(e) => Err(e),
                Ok((node, u)) => {
                    if 1 <= u <= b.len() - 1 && b.len() >= 1 + u + 12 {
                        Ok(
                            (
                                TermV::V4Port {
                                    node: Box::new(node),
                                    id: (be32(b[1 + u], b[2 + u], b[3 + u], b[4 + u])
                                        * 0x1_0000_0000 + be32(
                                        b[5 + u],
                                        b[6 + u],
                                        b[7 + u],
                                        b[8 + u],
                                    )) as u64,
                                    creation: be32(b[9 + u], b[10 + u], b[11 + u], b[12 + u]) as u32,
                                },
                                1 + u + 12,
                            ),
                        )
                    } else {
                        Err(DecodeError::EndOfBuffer)
                    }
                },
            }
        } else if tag == PID_EXT {
            match spec_term(b.skip(1)) {
                Err(e) => Err(e),
                Ok((node, u)) => {
                    if 1 <= u <= b.len() - 1 && b.len() >= 1 + u + 9 {
                        Ok(
                            (
                                TermV::Pid {
                                    node: Box::new(node),
                                    id: be32(b[1 + u], b[2 + u], b[3 + u], b[4 + u]) as u32,
                                    serial: be32(b[5 + u], b[6 + u], b[7 + u], b[8 + u]) as u32,
                                    creation: b[9 + u],
                                },
                                1 + u + 9,
                            ),
                        )
                    } else {
                        Err(DecodeError::EndOfBuffer)
                    }
                },
            }
        } else if tag == NEW_PID_EXT {
            match spec_term(b.skip(1)) {
                Err(e) => Err(e),
                Ok((node, u)) => {
                    if 1 <= u <= b.len() - 1 && b.len() >= 1 + u + 12 {
                        Ok(
                            (
                                TermV::NewPid {
                                    node: Box::new(node),
                                    id: be32(b[1 + u], b[2 + u], b[3 + u], b[4 + u]) as u32,
                                    serial: be32(b[5 + u], b[6 + u], b[7 + u], b[8 + u]) as u32,
                                    creation: be32(b[9 + u], b[10 + u], b[11 + u], b[12 + u])
                                        as u32,
                                },
                                1 + u + 12,
                            ),
                        )
                    } else {
                        Err(DecodeError::EndOfBuffer)
                    }
                },
            }
        } else if tag == SMALL_TUPLE_EXT {
            if b.len() >= 2 {
                match spec_items(b.skip(2), b[1] as int) {
                    Err(e) => Err(e),
                    Ok((items, u)) => Ok((TermV::Tuple(items), 2 + u)),
                }
            } else {
                Err(DecodeError::EndOfBuffer)
            }
        } else if tag == LARGE_TUPLE_EXT {
            if b.len() >= 5 {
                match spec_items(b.skip(5), be32(b[1], b[2], b[3], b[4])) {
                    Err(e) => Err(e),
                    Ok((items, u)) => Ok((TermV::Tuple(items), 5 + u)),
                }
            } else {
                Err(DecodeError::EndOfBuffer)
            }
        } else if tag == MAP_EXT {
            if b.len() >= 5 {
                match spec_pairs(b.skip(5), be32(b[1], b[2], b[3], b[4]), Seq::empty()) {
                    Err(e) => Err(e),
                    Ok((entries, u)) => Ok((TermV::Mapping(entries), 5 + u)),
                }
            } else {
                Err(DecodeError::EndOfBuffer)
            }
        } else if tag == NIL_EXT {
            Ok((TermV::Nil, 1))
        } else if tag == STRING_EXT {
            if b.len() >= 3 {
                match spec_text(b, 3, be16(b[1], b[2])) {
                    Err(e) => Err(e),
                    Ok((text, u)) => Ok((TermV::Str(text), u)),
                }
            } else {
                Err(DecodeError::EndOfBuffer)
            }
        } else if tag == LIST_EXT {
            if b.len() >= 5 {
                match spec_items(b.skip(5), be32(b[1], b[2], b[3], b[4])) {
                    Err(e) => Err(e),
                    Ok((items, u)) => {
                        if 0 <= u <= b.len() - 5 {
                            // The tail marker term is consumed but not kept.
                            match spec_term(b.skip(5 + u)) {
                                Err(e) => Err(e),
                                Ok((_, u2)) => Ok((TermV::List(items), 5 + u + u2)),
                            }
                        } else {
                            Err(DecodeError::EndOfBuffer)
                        }
                    },
                }
            } else {
                Err(DecodeError::EndOfBuffer)
            }
        } else if tag == BINARY_EXT {
            if b.len() >= 5 {
                match spec_text(b, 5, be32(b[1], b[2], b[3], b[4])) {
                    Err(e) => Err(e),
                    Ok((text, u)) => Ok((TermV::Str(text), u)),
                }
            } else {
                Err(DecodeError::EndOfBuffer)
            }
        } else if tag == ATOM_UTF_8_EXT || tag == DEPRECATED_ATOM_EXT {
            if b.len() >= 3 {
                match spec_text(b, 3, be16(b[1], b[2])) {
                    Err(e) => Err(e),
                    Ok((text, u)) => Ok((TermV::Atom(text), u)),
                }
            } else {
                Err(DecodeError::EndOfBuffer)
            }
        } else if tag == SMALL_ATOM_UTF_8_EXT || tag == DEPRECATED_SMALL_ATOM_EXT {
            if b.len() >= 2 {
                match spec_text(b, 2, b[1] as int) {
                    Err(e) => Err(e),
                    Ok((text, u)) => Ok((TermV::Atom(text), u)),
                }
            } else {
                Err(DecodeError::EndOfBuffer)
            }
        } else if unimplemented_tag(tag) {
            Err(DecodeError::NotImplemented(tag))
        } else {
            Err(DecodeError::UnsupportedTag(tag))
        }
    }
}

/// `n` consecutive terms decoded from the front of `b`, in order, with the
/// total number of bytes they occupy.
pub open spec fn spec_items(b: Seq<u8>, n: int) -> Result<(Seq<TermV>, int), DecodeError>
    decreases b.len(), 1int, n,
{
    if n <= 0 {
        Ok((Seq::empty(), 0))
    } else {
        match spec_term(b) {
            Err(e) => Err(e),
            Ok((t, u)) => {
                if 1 <= u <= b.len() {
                    match spec_items(b.skip(u), n - 1) {
                        Err(e) => Err(e),
                        Ok((rest, u2)) => Ok((seq![t] + rest, u + u2)),
                    }
                } else {
                    Err(DecodeError::EndOfBuffer)
                }
            },
        }
    }
}

/// `n` consecutive key/value pairs decoded from the front of `b` and entered
/// into the map `acc` in order. Every key must decode to an atom.
pub open spec fn spec_pairs(b: Seq<u8>, n: int, acc: Seq<(Seq<char>, TermV)>) -> Result<
    (Seq<(Seq<char>, TermV)>, int),
    DecodeError,
>
    decreases b.len(), 1int, n,
{
    if n <= 0 {
        Ok((acc, 0))
    } else {
        match spec_term(b) {
            Err(e) => Err(e),
            Ok((key, u1)) => match key {
                TermV::Atom(name) => {
                    if 1 <= u1 <= b.len() {
                        match spec_term(b.skip(u1)) {
                            Err(e) => Err(e),
                            Ok((value, u2)) => {
                                if 1 <= u2 <= b.len() - u1 {
                                    match spec_pairs(
                                        b.skip(u1 + u2),
                                        n - 1,
                                        map_put(acc, name, value),
                                    ) {
                                        Err(e) => Err(e),
                                        Ok((entries, u3)) => Ok((entries, u1 + u2 + u3)),
                                    }
                                } else {
                                    Err(DecodeError::EndOfBuffer)
                                }
                            },
                        }
                    } else {
                        Err(DecodeError::EndOfBuffer)
                    }
                },
                _ => Err(DecodeError::InvalidMapKey),
            },
        }
    }
}

/// The whole decode: the version marker, then exactly one term. Bytes after
/// that term are ignored.
pub open spec fn spec_decode(b: Seq<u8>) -> Result<TermV, DecodeError> {
    if b.len() < 1 {
        Err(DecodeError::EndOfBuffer)
    } else if b[0] != VERSION {
        Err(DecodeError::InvalidVersion)
    } else {
        match spec_term(b.skip(1)) {
            Err(e) => Err(e),
            Ok((t, _)) => Ok(t),
        }
    }
}


/// One decoded term never claims more bytes than the buffer holds, and
/// always claims at least its tag byte.
pub proof fn lemma_term_used(b: Seq<u8>)
    ensures
        spec_term(b) matches Ok(p) ==> 1 <= p.1 <= b.len(),
    decreases b.len(), 0int, 0int,
{
    if b.len() >= 1 {
        let tag = b[0];
        if tag == SMALL_TUPLE_EXT {
            if b.len() >= 2 {
                lemma_items_used(b.skip(2), b[1] as int);
            }
        } else if tag == LARGE_TUPLE_EXT {
            if b.len() >= 5 {
                lemma_items_used(b.skip(5), be32(b[1], b[2], b[3], b[4]));
            }
        } else if tag == MAP_EXT {
            if b.len() >= 5 {
                lemma_pairs_used(b.skip(5), be32(b[1], b[2], b[3], b[4]), Seq::empty());
            }
        } else if tag == LIST_EXT {
            if b.len() >= 5 {
                let n = be32(b[1], b[2], b[3], b[4]);
                lemma_items_used(b.skip(5), n);
                match spec_items(b.skip(5), n) {
                    Ok(p) => {
                        if 0 <= p.1 <= b.len() - 5 {
                            lemma_term_used(b.skip(5 + p.1));
                        }
                    },
                    Err(_) => {},
                }
            }
        }
    }
}

proof fn lemma_items_used(b: Seq<u8>, n: int)
    ensures
        spec_items(b, n) matches Ok(p) ==> 0 <= p.1 <= b.len(),
    decreases b.len(), 1int, n,
{
    if n > 0 {
        match spec_term(b) {
            Ok(p) => {
                if 1 <= p.1 <= b.len() {
                    lemma_items_used(b.skip(p.1), n - 1);
                }
            },
            Err(_) => {},
        }
    }
}

proof fn lemma_pairs_used(b: Seq<u8>, n: int, acc: Seq<(Seq<char>, TermV)>)
    ensures
        spec_pairs(b, n, acc) matches Ok(p) ==> 0 <= p.1 <= b.len(),
    decreases b.len(), 1int, n,
{
    if n > 0 {
        match spec_term(b) {
            Ok(kp) => match kp.0 {
                TermV::Atom(name) => {
                    if 1 <= kp.1 <= b.len() {
                        match spec_term(b.skip(kp.1)) {
                            Ok(vp) => {
                                if 1 <= vp.1 <= b.len() - kp.1 {
                                    lemma_pairs_used(
                                        b.skip(kp.1 + vp.1),
                                        n - 1,
                                        map_put(acc, name, vp.0),
                                    );
                                }
                            },
                            Err(_) => {},
                        }
                    }
                },
                _ => {},
            },
            Err(_) => {},
        }
    }
}

/// A term decoded from `b` reads only the bytes it claims: any buffer that
/// carries the same bytes there decodes to the very same term.
#[verifier::rlimit(100)]
pub proof fn lemma_term_prefix(b: Seq<u8>, c: Seq<u8>)
    requires
        spec_term(b) matches Ok(p) && p.1 <= c.len() && c.subrange(0, p.1) == b.subrange(0, p.1),
    ensures
        spec_term(c) == spec_term(b),
    decreases b.len(), 0int, 0int,
{
    let p = spec_term(b)->Ok_0;
    let u = p.1;
    lemma_term_used(b);
    assert forall|i: int| 0 <= i < u implies c[i] == b[i] by {
        assert(c.subrange(0, u)[i] == b.subrange(0, u)[i]);
    }
    let tag = b[0];
    if tag == PORT_EXT || tag == NEW_PORT_EXT || tag == V4_PORT_EXT || tag == PID_EXT || tag
        == NEW_PID_EXT {
        let np = spec_term(b.skip(1))->Ok_0;
        let un = np.1;
        lemma_term_used(b.skip(1));
        assert(c.skip(1).subrange(0, un) =~= b.skip(1).subrange(0, un));
        lemma_term_prefix(b.skip(1), c.skip(1));
    } else if tag == SMALL_TUPLE_EXT {
        lemma_items_used(b.skip(2), b[1] as int);
        assert(c.skip(2).subrange(0, u - 2) =~= b.skip(2).subrange(0, u - 2));
        lemma_items_prefix(b.skip(2), c.skip(2), b[1] as int);
    } else if tag == LARGE_TUPLE_EXT {
        lemma_items_used(b.skip(5), be32(b[1], b[2], b[3], b[4]));
        assert(c.skip(5).subrange(0, u - 5) =~= b.skip(5).subrange(0, u - 5));
        lemma_items_prefix(b.skip(5), c.skip(5), be32(b[1], b[2], b[3], b[4]));
    } else if tag == MAP_EXT {
        lemma_pairs_used(b.skip(5), be32(b[1], b[2], b[3], b[4]), Seq::empty());
        assert(c.skip(5).subrange(0, u - 5) =~= b.skip(5).subrange(0, u - 5));
        lemma_pairs_prefix(b.skip(5), c.skip(5), be32(b[1], b[2], b[3], b[4]), Seq::empty());
    } else if tag == LIST_EXT {
        let n = be32(b[1], b[2], b[3], b[4]);
        let ip = spec_items(b.skip(5), n)->Ok_0;
        let ui = ip.1;
        lemma_items_used(b.skip(5), n);
        lemma_term_used(b.skip(5 + ui));
        assert(c.skip(5).subrange(0, ui) =~= b.skip(5).subrange(0, ui));
        lemma_items_prefix(b.skip(5), c.skip(5), n);
        let tp = spec_term(b.skip(5 + ui))->Ok_0;
        assert(c.skip(5 + ui).subrange(0, tp.1) =~= b.skip(5 + ui).subrange(0, tp.1));
        lemma_term_prefix(b.skip(5 + ui), c.skip(5 + ui));
    } else if tag == STRING_EXT || tag == ATOM_UTF_8_EXT || tag == DEPRECATED_ATOM_EXT {
        let len = be16(b[1], b[2]);
        assert(c.subrange(3, 3 + len) =~= b.subrange(3, 3 + len));
    } else if tag == BINARY_EXT {
        let len = be32(b[1], b[2], b[3], b[4]);
        assert(c.subrange(5, 5 + len) =~= b.subrange(5, 5 + len));
    } else if tag == SMALL_ATOM_UTF_8_EXT || tag == DEPRECATED_SMALL_ATOM_EXT {
        let len = b[1] as int;
        assert(c.subrange(2, 2 + len) =~= b.subrange(2, 2 + len));
    }
}

#[verifier::rlimit(100)]
proof fn lemma_items_prefix(b: Seq<u8>, c: Seq<u8>, n: int)
    requires
        spec_items(b, n) matches Ok(p) && p.1 <= c.len() && c.subrange(0, p.1) == b.subrange(
            0,
            p.1,
        ),
    ensures
        spec_items(c, n) == spec_items(b, n),
    decreases b.len(), 1int, n,
{
    if n > 0 {
        let p = spec_items(b, n)->Ok_0;
        let tp = spec_term(b)->Ok_0;
        let u1 = tp.1;
        lemma_term_used(b);
        lemma_items_used(b.skip(u1), n - 1);
        assert forall|i: int| 0 <= i < p.1 implies c[i] == b[i] by {
            assert(c.subrange(0, p.1)[i] == b.subrange(0, p.1)[i]);
        }
        assert(c.subrange(0, u1) =~= b.subrange(0, u1));
        lemma_term_prefix(b, c);
        assert(c.skip(u1).subrange(0, p.1 - u1) =~= b.skip(u1).subrange(0, p.1 - u1));
        lemma_items_prefix(b.skip(u1), c.skip(u1), n - 1);
    }
}

#[verifier::rlimit(100)]
proof fn lemma_pairs_prefix(b: Seq<u8>, c: Seq<u8>, n: int, acc: Seq<(Seq<char>, TermV)>)
    requires
        spec_pairs(b, n, acc) matches Ok(p) && p.1 <= c.len() && c.subrange(0, p.1) == b.subrange(
            0,
            p.1,
        ),
    ensures
        spec_pairs(c, n, acc) == spec_pairs(b, n, acc),
    decreases b.len(), 1int, n,
{
    if n > 0 {
        let p = spec_pairs(b, n, acc)->Ok_0;
        let kp = spec_term(b)->Ok_0;
        let u1 = kp.1;
        let vp = spec_term(b.skip(u1))->Ok_0;
        let u2 = vp.1;
        lemma_term_used(b);
        lemma_term_used(b.skip(u1));
        lemma_pairs_used(
            b.skip(u1 + u2),
            n - 1,
            map_put(acc, kp.0->Atom_0, vp.0),
        );
        assert forall|i: int| 0 <= i < p.1 implies c[i] == b[i] by {
            assert(c.subrange(0, p.1)[i] == b.subrange(0, p.1)[i]);
        }
        assert(c.subrange(0, u1) =~= b.subrange(0, u1));
        lemma_term_prefix(b, c);
        assert(c.skip(u1).subrange(0, u2) =~= b.skip(u1).subrange(0, u2));
        lemma_term_prefix(b.skip(u1), c.skip(u1));
        assert(c.skip(u1 + u2).subrange(0, p.1 - u1 - u2) =~= b.skip(u1 + u2).subrange(
            0,
            p.1 - u1 - u2,
        ));
        lemma_pairs_prefix(b.skip(u1 + u2), c.skip(u1 + u2), n - 1, map_put(acc, kp.0->Atom_0, vp.0));
    }
}

/// Cutting a decoded term short anywhere inside the bytes it occupies makes
/// the decode fail with `EndOfBuffer`.
#[verifier::rlimit(100)]
pub proof fn lemma_term_truncated(b: Seq<u8>, k: int)
    requires
        spec_term(b) matches Ok(p) && 0 <= k < p.1,
    ensures
        spec_term(b.take(k)) == Err::<(TermV, int), DecodeError>(DecodeError::EndOfBuffer),
    decreases b.len(), 0int, 0int,
{
    let p = spec_term(b)->Ok_0;
    let u = p.1;
    let c = b.take(k);
    lemma_term_used(b);
    assert forall|i: int| 0 <= i < k implies c[i] == b[i] by {
        assert(c.subrange(0, k)[i] == b.subrange(0, k)[i]);
    }
    if k == 0 {
        return ;
    }
    let tag = b[0];
    if tag == PORT_EXT || tag == NEW_PORT_EXT || tag == V4_PORT_EXT || tag == PID_EXT || tag
        == NEW_PID_EXT {
        let np = spec_term(b.skip(1))->Ok_0;
        let un = np.1;
        lemma_term_used(b.skip(1));
        if k - 1 < un {
            lemma_term_truncated(b.skip(1), k - 1);
            assert(c.skip(1) =~= b.skip(1).take(k - 1));
        } else {
            assert(c.skip(1).subrange(0, un) =~= b.skip(1).subrange(0, un));
            lemma_term_prefix(b.skip(1), c.skip(1));
        }
    } else if tag == SMALL_TUPLE_EXT {
        if k >= 2 {
            lemma_items_truncated(b.skip(2), b[1] as int, k - 2);
            assert(c.skip(2) =~= b.skip(2).take(k - 2));
        }
    } else if tag == LARGE_TUPLE_EXT {
        if k >= 5 {
            lemma_items_truncated(b.skip(5), be32(b[1], b[2], b[3], b[4]), k - 5);
            assert(c.skip(5) =~= b.skip(5).take(k - 5));
        }
    } else if tag == MAP_EXT {
        if k >= 5 {
            lemma_pairs_truncated(b.skip(5), be32(b[1], b[2], b[3], b[4]), Seq::empty(), k - 5);
            assert(c.skip(5) =~= b.skip(5).take(k - 5));
        }
    } else if tag == LIST_EXT {
        if k >= 5 {
            let n = be32(b[1], b[2], b[3], b[4]);
            let ip = spec_items(b.skip(5), n)->Ok_0;
            let ui = ip.1;
            lemma_items_used(b.skip(5), n);
            lemma_term_used(b.skip(5 + ui));
            if k - 5 < ui {
                lemma_items_truncated(b.skip(5), n, k - 5);
                assert(c.skip(5) =~= b.skip(5).take(k - 5));
            } else {
                assert(c.skip(5).subrange(0, ui) =~= b.skip(5).subrange(0, ui));
                lemma_items_prefix(b.skip(5), c.skip(5), n);
                lemma_term_truncated(b.skip(5 + ui), k - 5 - ui);
                assert(c.skip(5 + ui) =~= b.skip(5 + ui).take(k - 5 - ui));
            }
        }
    }
}

#[verifier::rlimit(100)]
proof fn lemma_items_truncated(b: Seq<u8>, n: int, k: int)
    requires
        spec_items(b, n) matches Ok(p) && 0 <= k < p.1,
    ensures
        spec_items(b.take(k), n) == Err::<(Seq<TermV>, int), DecodeError>(DecodeError::EndOfBuffer),
    decreases b.len(), 1int, n,
{
    let p = spec_items(b, n)->Ok_0;
    let tp = spec_term(b)->Ok_0;
    let u1 = tp.1;
    let c = b.take(k);
    lemma_term_used(b);
    lemma_items_used(b.skip(u1), n - 1);
    if k < u1 {
        lemma_term_truncated(b, k);
    } else {
        assert(c.subrange(0, u1) =~= b.subrange(0, u1));
        lemma_term_prefix(b, c);
        lemma_items_truncated(b.skip(u1), n - 1, k - u1);
        assert(c.skip(u1) =~= b.skip(u1).take(k - u1));
    }
}

#[verifier::rlimit(100)]
proof fn lemma_pairs_truncated(b: Seq<u8>, n: int, acc: Seq<(Seq<char>, TermV)>, k: int)
    requires
        spec_pairs(b, n, acc) matches Ok(p) && 0 <= k < p.1,
    ensures
        spec_pairs(b.take(k), n, acc) == Err::<(Seq<(Seq<char>, TermV)>, int), DecodeError>(
            DecodeError::EndOfBuffer,
        ),
    decreases b.len(), 1int, n,
{
    let p = spec_pairs(b, n, acc)->Ok_0;
    let kp = spec_term(b)->Ok_0;
    let u1 = kp.1;
    let vp = spec_term(b.skip(u1))->Ok_0;
    let u2 = vp.1;
    let acc2 = map_put(acc, kp.0->Atom_0, vp.0);
    let c = b.take(k);
    lemma_term_used(b);
    lemma_term_used(b.skip(u1));
    lemma_pairs_used(b.skip(u1 + u2), n - 1, acc2);
    if k < u1 {
        lemma_term_truncated(b, k);
    } else {
        assert(c.subrange(0, u1) =~= b.subrange(0, u1));
        lemma_term_prefix(b, c);
        if k - u1 < u2 {
            lemma_term_truncated(b.skip(u1), k - u1);
            assert(c.skip(u1) =~= b.skip(u1).take(k - u1));
        } else {
            assert(c.skip(u1).subrange(0, u2) =~= b.skip(u1).subrange(0, u2));
            lemma_term_prefix(b.skip(u1), c.skip(u1));
            lemma_pairs_truncated(b.skip(u1 + u2), n - 1, acc2, k - u1 - u2);
            assert(c.skip(u1 + u2) =~= b.skip(u1 + u2).take(k - u1 - u2));
        }
    }
}

/// No two entries of the map carry the same key.
pub open spec fn distinct_keys(m: Seq<(Seq<char>, TermV)>) -> bool {
    forall|i: int, j: int| 0 <= i < j < m.len() ==> m[i].0 != m[j].0
}

proof fn lemma_map_put_distinct(m: Seq<(Seq<char>, TermV)>, k: Seq<char>, v: TermV)
    requires
        distinct_keys(m),
    ensures
        distinct_keys(map_put(m, k, v)),
        forall|j: int|
            0 <= j < map_put(m, k, v).len() ==> map_put(m, k, v)[j].0 == k || (exists|i: int|
                0 <= i < m.len() && m[i].0 == map_put(m, k, v)[j].0),
    decreases m.len(),
{
    let r = map_put(m, k, v);
    if m.len() == 0 {
    } else if m[0].0 == k {
        assert forall|i: int, j: int| 0 <= i < j < r.len() implies r[i].0 != r[j].0 by {
            assert(r[i] == if i == 0 { (k, v) } else { m[i] });
            assert(r[j] == m[j]);
        }
        assert forall|j: int| 0 <= j < r.len() implies r[j].0 == k || (exists|i: int|
            0 <= i < m.len() && m[i].0 == r[j].0) by {
            if j > 0 {
                assert(m[j].0 == r[j].0);
            }
        }
    } else {
        let rest = map_put(m.skip(1), k, v);
        assert(forall|i: int, j: int| 0 <= i < j < m.skip(1).len() ==> m.skip(1)[i].0 != m.skip(
            1,
        )[j].0);
        lemma_map_put_distinct(m.skip(1), k, v);
        assert forall|i: int, j: int| 0 <= i < j < r.len() implies r[i].0 != r[j].0 by {
            if i == 0 {
                assert(r[0] == m[0]);
                assert(r[j].0 == rest[j - 1].0);
                if rest[j - 1].0 == k {
                } else {
                    let w = choose|w: int|
                        0 <= w < m.skip(1).len() && m.skip(1)[w].0 == rest[j - 1].0;
                    assert(m.skip(1)[w] == m[w + 1]);
                }
            } else {
                assert(r[i].0 == rest[i - 1].0 && r[j].0 == rest[j - 1].0);
            }
        }
        assert forall|j: int| 0 <= j < r.len() implies r[j].0 == k || (exists|i: int|
            0 <= i < m.len() && m[i].0 == r[j].0) by {
            if j == 0 {
                assert(m[0].0 == r[0].0);
            } else {
                assert(r[j].0 == rest[j - 1].0);
                if rest[j - 1].0 != k {
                    let w = choose|w: int|
                        0 <= w < m.skip(1).len() && m.skip(1)[w].0 == rest[j - 1].0;
                    assert(m[w + 1].0 == r[j].0);
                }
            }
        }
    }
}

proof fn lemma_pairs_distinct(b: Seq<u8>, n: int, acc: Seq<(Seq<char>, TermV)>)
    requires
        distinct_keys(acc),
        spec_pairs(b, n, acc) matches Ok(p),
    ensures
        spec_pairs(b, n, acc) matches Ok(p) ==> distinct_keys(p.0),
    decreases b.len(), 1int, n,
{
    if n > 0 {
        let kp = spec_term(b)->Ok_0;
        let u1 = kp.1;
        let vp = spec_term(b.skip(u1))->Ok_0;
        let u2 = vp.1;
        lemma_map_put_distinct(acc, kp.0->Atom_0, vp.0);
        lemma_pairs_distinct(b.skip(u1 + u2), n - 1, map_put(acc, kp.0->Atom_0, vp.0));
    }
}

/// Every decoded map carries each key once: entering a pair under a key
/// that is already present replaces its value instead of adding an entry.
pub proof fn lemma_decode_map_keys_unique(b: Seq<u8>, m: Seq<(Seq<char>, TermV)>)
    requires
        spec_decode(b) == Ok::<TermV, DecodeError>(TermV::Mapping(m)),
    ensures
        distinct_keys(m),
{
    let t = b.skip(1);
    lemma_pairs_distinct(t.skip(5), be32(t[1], t[2], t[3], t[4]), Seq::empty());
}

/// A buffer that holds the version marker and exactly one encoded term,
/// with nothing after it.
pub open spec fn complete_encoding(b: Seq<u8>) -> bool {
    &&& b.len() >= 1
    &&& b[0] == VERSION
    &&& (spec_term(b.skip(1)) matches Ok(p) && 1 + p.1 == b.len())
}

/// Decoding is a function of the bytes alone: the same buffer always gives
/// the same result, so decoding twice gives structurally equal trees.
pub proof fn lemma_decode_deterministic(
    b: Seq<u8>,
    r1: Result<TermV, DecodeError>,
    r2: Result<TermV, DecodeError>,
)
    requires
        r1 == spec_decode(b),
        r2 == spec_decode(b),
    ensures
        r1 == r2,
{
}

/// Removing trailing bytes from a well-formed encoding makes the decode
/// fail with `EndOfBuffer`, never anything worse.
pub proof fn lemma_decode_truncated(b: Seq<u8>, k: int)
    requires
        complete_encoding(b),
        0 <= k < b.len(),
    ensures
        spec_decode(b.take(k)) == Err::<TermV, DecodeError>(DecodeError::EndOfBuffer),
{
    let c = b.take(k);
    if k >= 1 {
        assert(c[0] == b[0]);
        lemma_term_truncated(b.skip(1), k - 1);
        assert(c.skip(1) =~= b.skip(1).take(k - 1));
    }
}

/// A buffer whose term tag is outside the recognized set decodes to
/// `UnsupportedTag` naming that byte.
pub proof fn lemma_decode_unsupported_tag(b: Seq<u8>)
    requires
        b.len() >= 2,
        b[0] == VERSION,
        !known_tag(b[1]),
    ensures
        spec_decode(b) == Err::<TermV, DecodeError>(DecodeError::UnsupportedTag(b[1])),
{
    assert(b.skip(1)[0] == b[1]);
}

/// A map encoding whose first key decodes to anything but an atom fails
/// with `InvalidMapKey`.
pub proof fn lemma_decode_map_key_not_atom(b: Seq<u8>)
    requires
        b.len() >= 6,
        b[0] == VERSION,
        b[1] == MAP_EXT,
        be32(b[2], b[3], b[4], b[5]) >= 1,
        spec_term(b.skip(6)) matches Ok(p) && !(p.0 is Atom),
    ensures
        spec_decode(b) == Err::<TermV, DecodeError>(DecodeError::InvalidMapKey),
{
    let t = b.skip(1);
    assert(t[0] == b[1]);
    assert(t[1] == b[2] && t[2] == b[3] && t[3] == b[4] && t[4] == b[5]);
    assert(t.skip(5) =~= b.skip(6));
    assert(spec_pairs(t.skip(5), be32(t[1], t[2], t[3], t[4]), Seq::empty())
        == Err::<(Seq<(Seq<char>, TermV)>, int), DecodeError>(DecodeError::InvalidMapKey));
    assert(spec_term(t) == Err::<(TermV, int), DecodeError>(DecodeError::InvalidMapKey));
}

} // verus!
