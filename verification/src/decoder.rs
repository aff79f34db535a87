//! The term decoder: reads one version byte, then builds a term tree by
//! recursive, tag-driven descent over the byte cursor.
//!
//! Decoding is proved to return exactly what the mathematical decoder
//! `crate::model::spec_decode` gives for the bytes handed in: the same tree
//! on success, the same error on failure.
use vstd::prelude::*;

use crate::constants::ATOM_UTF_8_EXT;
use crate::constants::BINARY_EXT;
use crate::constants::DEPRECATED_ATOM_EXT;
use crate::constants::DEPRECATED_SMALL_ATOM_EXT;
use crate::constants::INTEGER_EXT;
use crate::constants::LARGE_TUPLE_EXT;
use crate::constants::LIST_EXT;
use crate::constants::MAP_EXT;
use crate::constants::NEW_PID_EXT;
use crate::constants::NEW_PORT_EXT;
use crate::constants::NIL_EXT;
use crate::constants::PID_EXT;
use crate::constants::PORT_EXT;
use crate::constants::SMALL_ATOM_UTF_8_EXT;
use crate::constants::SMALL_INTEGER_EXT;
use crate::constants::SMALL_TUPLE_EXT;
use crate::constants::STRING_EXT;
use crate::constants::V4_PORT_EXT;
use crate::constants::VERSION;
use crate::model::map_put;
use crate::model::spec_decode;
use crate::model::spec_items;
use crate::model::spec_pairs;
use crate::model::spec_term;
use crate::model::unimplemented_tag;
use crate::model::TermV;
use crate::reader::Reader;
use vstd::utf8::decode_utf8;
use vstd::utf8::valid_utf8;

verus! {

broadcast use
    vstd::seq::group_seq_axioms,
    vstd::seq::axiom_seq_index_decreases,
    vstd::seq::axiom_seq_subrange_decreases,
    vstd::std_specs::vec::axiom_vec_decreases_to_view;

/// Why a decode failed.
#[derive(Debug, Clone, Copy, PartialEq, Eq, Structural)]
pub enum DecodeError {
    /// A fixed-width or length-prefixed field needs more bytes than remain.
    EndOfBuffer,
    /// The leading byte is not the version marker.
    InvalidVersion,
    /// The tag byte is outside the recognized set.
    UnsupportedTag(u8),
    /// The tag is part of the format, but this decoder builds no term for it.
    NotImplemented(u8),
    /// A map entry's key term did not decode to an atom.
    InvalidMapKey,
    /// Bytes that should hold text are not valid UTF-8.
    InvalidUtf8,
}

/// One decoded term. Every embedded term is exclusively owned; the wire
/// format nests terms strictly forward, so the tree has no cycles.
#[derive(Debug, PartialEq)]
#[allow(inconsistent_fields)]
pub enum RawTerm {
    SmallInt(u8),
    Int(i32),
    Port { node: Box<RawTerm>, id: u32, creation: u8 },
    NewPort { node: Box<RawTerm>, id: u32, creation: u32 },
    V4Port { node: Box<RawTerm>, id: u64, creation: u32 },
    Pid { node: Box<RawTerm>, id: u32, serial: u32, creation: u8 },
    NewPid { node: Box<RawTerm>, id: u32, serial: u32, creation: u32 },
    Tuple(Vec<RawTerm>),
    Mapping(Vec<(String, RawTerm)>),
    Nil,
    String(String),
    List(Vec<RawTerm>),
    Atom(String),
}

/// The mathematical tree that a `RawTerm` stands for.
pub open spec fn term_view(t: RawTerm) -> TermV
    decreases t,
{
    match t {
        RawTerm::SmallInt(v) => TermV::SmallInt(v),
        RawTerm::Int(v) => TermV::Int(v),
        RawTerm::Port { node, id, creation } => TermV::Port {
            node: Box::new(term_view(*node)),
            id,
            creation,
        },
        RawTerm::NewPort { node, id, creation } => TermV::NewPort {
            node: Box::new(term_view(*node)),
            id,
            creation,
        },
        RawTerm::V4Port { node, id, creation } => TermV::V4Port {
            node: Box::new(term_view(*node)),
            id,
            creation,
        },
        RawTerm::Pid { node, id, serial, creation } => TermV::Pid {
            node: Box::new(term_view(*node)),
            id,
            serial,
            creation,
        },
        RawTerm::NewPid { node, id, serial, creation } => TermV::NewPid {
            node: Box::new(term_view(*node)),
            id,
            serial,
            creation,
        },
        RawTerm::Tuple(items) => TermV::Tuple(terms_view(items@)),
        RawTerm::Mapping(entries) => TermV::Mapping(pairs_view(entries@)),
        RawTerm::Nil => TermV::Nil,
        RawTerm::String(s) => TermV::Str(s@),
        RawTerm::List(items) => TermV::List(terms_view(items@)),
        RawTerm::Atom(s) => TermV::Atom(s@),
    }
}

/// The trees that a sequence of terms stands for, in the same order.
pub open spec fn terms_view(s: Seq<RawTerm>) -> Seq<TermV>
    decreases s,
{
    if s.len() == 0 {
        Seq::empty()
    } else {
        terms_view(s.subrange(0, s.len() - 1)).push(term_view(s[s.len() - 1]))
    }
}

/// The key/value pairs that decoded map entries stand for, in the same order.
pub open spec fn pairs_view(s: Seq<(String, RawTerm)>) -> Seq<(Seq<char>, TermV)>
    decreases s,
{
    if s.len() == 0 {
        Seq::empty()
    } else {
        pairs_view(s.subrange(0, s.len() - 1)).push(
            (s[s.len() - 1].0@, term_view(s[s.len() - 1].1)),
        )
    }
}

proof fn lemma_terms_view_push(s: Seq<RawTerm>, t: RawTerm)
    ensures
        terms_view(s.push(t)) == terms_view(s).push(term_view(t)),
{
    let sp = s.push(t);
    assert(sp.subrange(0, sp.len() - 1) =~= s);
    assert(sp[sp.len() - 1] == t);
}

proof fn lemma_pairs_view_push(s: Seq<(String, RawTerm)>, e: (String, RawTerm))
    ensures
        pairs_view(s.push(e)) == pairs_view(s).push((e.0@, term_view(e.1))),
{
    let sp = s.push(e);
    assert(sp.subrange(0, sp.len() - 1) =~= s);
    assert(sp[sp.len() - 1] == e);
}

proof fn lemma_pairs_view_len(s: Seq<(String, RawTerm)>)
    ensures
        pairs_view(s).len() == s.len(),
    decreases s.len(),
{
    if s.len() > 0 {
        lemma_pairs_view_len(s.subrange(0, s.len() - 1));
    }
}

proof fn lemma_pairs_view_index(s: Seq<(String, RawTerm)>, i: int)
    requires
        0 <= i < s.len(),
    ensures
        pairs_view(s).len() == s.len(),
        pairs_view(s)[i] == (s[i].0@, term_view(s[i].1)),
    decreases s.len(),
{
    lemma_pairs_view_len(s);
    if i < s.len() - 1 {
        lemma_pairs_view_index(s.subrange(0, s.len() - 1), i);
        assert(s.subrange(0, s.len() - 1)[i] == s[i]);
    }
}

/// `map_put` on a map whose first `i` keys all differ from `k`, with the
/// match sitting at `i`: the value at `i` is replaced in place.
proof fn lemma_map_put_found(m: Seq<(Seq<char>, TermV)>, k: Seq<char>, v: TermV, i: int)
    requires
        0 <= i < m.len(),
        forall|j: int| 0 <= j < i ==> m[j].0 != k,
        m[i].0 == k,
    ensures
        map_put(m, k, v) == m.update(i, (k, v)),
    decreases i,
{
    if i == 0 {
        assert(map_put(m, k, v) =~= m.update(0, (k, v)));
    } else {
        assert(m[0].0 != k);
        let rest = m.skip(1);
        assert(forall|j: int| 0 <= j < i - 1 ==> rest[j].0 != k);
        assert(rest[i - 1].0 == k);
        lemma_map_put_found(rest, k, v, i - 1);
        assert(seq![m[0]] + rest.update(i - 1, (k, v)) =~= m.update(i, (k, v)));
    }
}

/// `map_put` with a key that is not present: the pair goes to the end.
proof fn lemma_map_put_absent(m: Seq<(Seq<char>, TermV)>, k: Seq<char>, v: TermV)
    requires
        forall|j: int| 0 <= j < m.len() ==> m[j].0 != k,
    ensures
        map_put(m, k, v) == m.push((k, v)),
    decreases m.len(),
{
    if m.len() == 0 {
        assert(map_put(m, k, v) =~= m.push((k, v)));
    } else {
        let rest = m.skip(1);
        assert(forall|j: int| 0 <= j < rest.len() ==> rest[j].0 != k);
        lemma_map_put_absent(rest, k, v);
        assert(seq![m[0]] + rest.push((k, v)) =~= m.push((k, v)));
    }
}

/// Consuming bytes moves the suffix: skipping further is skipping the rest.
proof fn lemma_rest_advance(buf: Seq<u8>, p0: int, p1: int)
    requires
        0 <= p0 <= p1 <= buf.len(),
    ensures
        buf.skip(p1) == buf.skip(p0).skip(p1 - p0),
{
    assert(buf.skip(p1) =~= buf.skip(p0).skip(p1 - p0));
}

/// A slice of the buffer, seen from an earlier suffix.
proof fn lemma_rest_subrange(buf: Seq<u8>, p0: int, a: int, n: int)
    requires
        0 <= p0 <= a,
        0 <= n,
        a + n <= buf.len(),
    ensures
        buf.subrange(a, a + n) == buf.skip(p0).subrange(a - p0, a - p0 + n),
{
    assert(buf.subrange(a, a + n) =~= buf.skip(p0).subrange(a - p0, a - p0 + n));
}

/// Relies on `String::from_utf8`: it succeeds exactly when the bytes are
/// valid UTF-8, and then holds the characters those bytes encode.
#[verifier::external_body]
fn bytes_to_string(bytes: Vec<u8>) -> (r: Option<String>)
    ensures
        r is Some <==> valid_utf8(bytes@),
        r matches Some(s) ==> s@ == decode_utf8(bytes@),
{
    match String::from_utf8(bytes) {
        Ok(s) => Some(s),
        Err(_) => None,
    }
}

/// Enter one key/value pair: replace the value of an equal key in place, or
/// append the pair at the end.
fn map_insert(entries: &mut Vec<(String, RawTerm)>, key: String, value: RawTerm)
    ensures
        pairs_view(final(entries)@) == map_put(pairs_view(old(entries)@), key@, term_view(value)),
{
    let mut i: usize = 0;
    while i < entries.len()
        invariant
            i <= entries@.len(),
            entries == old(entries),
            forall|j: int| 0 <= j < i ==> entries@[j].0@ != key@,
        decreases entries@.len() - i,
    {
        if entries[i].0 == key {
            proof {
                lemma_pairs_view_index(entries@, i as int);
                assert forall|j: int| 0 <= j < i implies pairs_view(entries@)[j].0 != key@ by {
                    lemma_pairs_view_index(entries@, j);
                }
                lemma_map_put_found(pairs_view(entries@), key@, term_view(value), i as int);
            }
            let ghost m0 = pairs_view(entries@);
            let ghost s0 = entries@;
            entries.set(i, (key, value));
            proof {
                lemma_pairs_view_len(entries@);
                assert forall|j: int| 0 <= j < entries@.len() implies pairs_view(entries@)[j]
                    == m0.update(i as int, (key@, term_view(value)))[j] by {
                    lemma_pairs_view_index(entries@, j);
                    if j != i {
                        lemma_pairs_view_index(s0, j);
                    }
                }
                assert(pairs_view(entries@) =~= m0.update(i as int, (key@, term_view(value))));
            }
            return ;
        }
        i = i + 1;
    }
    proof {
        lemma_pairs_view_len(entries@);
        assert forall|j: int| 0 <= j < pairs_view(entries@).len() implies pairs_view(
            entries@,
        )[j].0 != key@ by {
            lemma_pairs_view_index(entries@, j);
        }
        lemma_map_put_absent(pairs_view(entries@), key@, term_view(value));
    }
    let ghost s0 = entries@;
    entries.push((key, value));
    proof {
        assert(entries@ == s0.push((key, value)));
        lemma_pairs_view_push(s0, (key, value));
    }
}

/// The decode engine: owns the cursor over the buffer being decoded.
#[derive(Debug)]
pub struct Decoder {
    pub reader: Reader,
}

impl From<Vec<u8>> for Decoder {
    /// A fresh decoder over the whole buffer.
    fn from(buf: Vec<u8>) -> (r: Decoder) {
        Decoder { reader: Reader::from(buf) }
    }
}

impl vstd::std_specs::convert::FromSpecImpl<Vec<u8>> for Decoder {
    open spec fn obeys_from_spec() -> bool {
        true
    }

    open spec fn from_spec(buf: Vec<u8>) -> Decoder {
        Decoder { reader: Reader { buf, pos: 0 } }
    }
}

impl Decoder {
    /// Well-formed: the cursor has not passed the end of its buffer.
    pub open spec fn wf(&self) -> bool {
        self.reader.wf()
    }

    /// The bytes not yet consumed.
    pub open spec fn rest(&self) -> Seq<u8> {
        self.reader.rest()
    }

    /// Decode the buffer: one version byte, then one term. Returns exactly
    /// what the mathematical decoder gives for the unconsumed bytes, or the
    /// error with which it fails.
    pub fn decode(&mut self) -> (r: Result<RawTerm, DecodeError>)
        requires
            old(self).wf(),
        ensures
            final(self).wf(),
            match r {
                Ok(t) => spec_decode(old(self).rest()) == Ok::<TermV, DecodeError>(term_view(t)),
                Err(e) => spec_decode(old(self).rest()) == Err::<TermV, DecodeError>(e),
            },
    {
        let ghost b = old(self).rest();
        let ghost p0 = old(self).reader.pos as int;
        let version = match self.reader.read_u8() {
            None => {
                return Err(DecodeError::EndOfBuffer);
            },
            Some(v) => v,
        };
        if version != VERSION {
            return Err(DecodeError::InvalidVersion);
        }
        proof {
            lemma_rest_advance(old(self).reader.buf@, p0, p0 + 1);
            assert(self.rest() == b.skip(1));
        }
        self.decode_raw_term()
    }

    /// Decode one term at the cursor: read the tag byte, dispatch on it,
    /// and leave the cursor at the first byte after the term.
    #[verifier::rlimit(100)]
    fn decode_raw_term(&mut self) -> (r: Result<RawTerm, DecodeError>)
        requires
            old(self).wf(),
        ensures
            final(self).wf(),
            final(self).reader.buf == old(self).reader.buf,
            final(self).reader.pos >= old(self).reader.pos,
            match r {
                Ok(t) => {
                    &&& final(self).reader.pos > old(self).reader.pos
                    &&& spec_term(old(self).rest()) == Ok::<(TermV, int), DecodeError>(
                        (term_view(t), final(self).reader.pos - old(self).reader.pos),
                    )
                },
                Err(e) => spec_term(old(self).rest()) == Err::<(TermV, int), DecodeError>(e),
            },
        decreases self.reader.buf@.len() - self.reader.pos, 0int,
    {
        let ghost b = old(self).rest();
        let ghost bufv = old(self).reader.buf@;
        let ghost p0 = old(self).reader.pos as int;
        let tag = match self.reader.read_u8() {
            None => {
                return Err(DecodeError::EndOfBuffer);
            },
            Some(t) => t,
        };
        proof {
            lemma_rest_advance(bufv, p0, p0 + 1);
            assert(self.rest() == b.skip(1));
        }
        if tag == SMALL_INTEGER_EXT {
            match self.reader.read_u8() {
                None => Err(DecodeError::EndOfBuffer),
                Some(v) => Ok(RawTerm::SmallInt(v)),
            }
        } else if tag == INTEGER_EXT {
            match self.reader.read_i32(true) {
                None => Err(DecodeError::EndOfBuffer),
                Some(v) => Ok(RawTerm::Int(v)),
            }
        } else if tag == PORT_EXT || tag == NEW_PORT_EXT || tag == V4_PORT_EXT {
            self.decode_port(tag, Ghost(b))
        } else if tag == PID_EXT || tag == NEW_PID_EXT {
            self.decode_pid(tag, Ghost(b))
        } else if tag == SMALL_TUPLE_EXT {
            let arity = match self.reader.read_u8() {
                None => {
                    return Err(DecodeError::EndOfBuffer);
                },
                Some(v) => v,
            };
            proof {
                lemma_rest_advance(bufv, p0, p0 + 2);
            }
            match self.decode_items(arity as u32) {
                Err(e) => Err(e),
                Ok(items) => Ok(RawTerm::Tuple(items)),
            }
        } else if tag == LARGE_TUPLE_EXT {
            let arity = match self.reader.read_u32(true) {
                None => {
                    return Err(DecodeError::EndOfBuffer);
                },
                Some(v) => v,
            };
            proof {
                lemma_rest_advance(bufv, p0, p0 + 5);
            }
            match self.decode_items(arity) {
                Err(e) => Err(e),
                Ok(items) => Ok(RawTerm::Tuple(items)),
            }
        } else if tag == MAP_EXT {
            let count = match self.reader.read_u32(true) {
                None => {
                    return Err(DecodeError::EndOfBuffer);
                },
                Some(v) => v,
            };
            proof {
                lemma_rest_advance(bufv, p0, p0 + 5);
            }
            match self.decode_pairs(count) {
                Err(e) => Err(e),
                Ok(entries) => Ok(RawTerm::Mapping(entries)),
            }
        } else if tag == NIL_EXT {
            Ok(RawTerm::Nil)
        } else if tag == LIST_EXT {
            let count = match self.reader.read_u32(true) {
                None => {
                    return Err(DecodeError::EndOfBuffer);
                },
                Some(v) => v,
            };
            proof {
                lemma_rest_advance(bufv, p0, p0 + 5);
            }
            let ghost b5 = self.rest();
            let items = match self.decode_items(count) {
                Err(e) => {
                    return Err(e);
                },
                Ok(v) => v,
            };
            let ghost u = self.reader.pos - p0 - 5;
            proof {
                lemma_rest_advance(bufv, p0 + 5, p0 + 5 + u);
                assert(self.rest() == b5.skip(u));
                lemma_rest_advance(b, 5, 5 + u);
                assert(self.rest() == b.skip(5 + u));
            }
            // The tail marker term is consumed but not kept in the tree.
            match self.decode_raw_term() {
                Err(e) => Err(e),
                Ok(_) => Ok(RawTerm::List(items)),
            }
        } else if tag == STRING_EXT {
            let len = match self.reader.read_u16(true) {
                None => {
                    return Err(DecodeError::EndOfBuffer);
                },
                Some(v) => v,
            };
            proof {
                lemma_rest_advance(bufv, p0, p0 + 3);
                if b.len() >= 3 + len {
                    assert(self.rest().subrange(0, len as int) =~= b.subrange(3, 3 + len));
                }
            }
            match self.read_text(len as usize) {
                Err(e) => Err(e),
                Ok(s) => Ok(RawTerm::String(s)),
            }
        } else if tag == BINARY_EXT {
            let len = match self.reader.read_u32(true) {
                None => {
                    return Err(DecodeError::EndOfBuffer);
                },
                Some(v) => v,
            };
            proof {
                lemma_rest_advance(bufv, p0, p0 + 5);
                if b.len() >= 5 + len {
                    assert(self.rest().subrange(0, len as int) =~= b.subrange(5, 5 + len));
                }
            }
            match self.read_text(len as usize) {
                Err(e) => Err(e),
                Ok(s) => Ok(RawTerm::String(s)),
            }
        } else if tag == ATOM_UTF_8_EXT || tag == DEPRECATED_ATOM_EXT {
            let len = match self.reader.read_u16(true) {
                None => {
                    return Err(DecodeError::EndOfBuffer);
                },
                Some(v) => v,
            };
            proof {
                lemma_rest_advance(bufv, p0, p0 + 3);
                if b.len() >= 3 + len {
                    assert(self.rest().subrange(0, len as int) =~= b.subrange(3, 3 + len));
                }
            }
            match self.read_text(len as usize) {
                Err(e) => Err(e),
                Ok(s) => Ok(RawTerm::Atom(s)),
            }
        } else if tag == SMALL_ATOM_UTF_8_EXT || tag == DEPRECATED_SMALL_ATOM_EXT {
            let len = match self.reader.read_u8() {
                None => {
                    return Err(DecodeError::EndOfBuffer);
                },
                Some(v) => v,
            };
            proof {
                lemma_rest_advance(bufv, p0, p0 + 2);
                if b.len() >= 2 + len {
                    assert(self.rest().subrange(0, len as int) =~= b.subrange(2, 2 + len));
                }
            }
            match self.read_text(len as usize) {
                Err(e) => Err(e),
                Ok(s) => Ok(RawTerm::Atom(s)),
            }
        } else if tag == crate::constants::FLOAT_EXT || tag == crate::constants::NEW_FLOAT_EXT
            || tag == crate::constants::SMALL_BIG_EXT || tag == crate::constants::LARGE_BIG_EXT
            || tag == crate::constants::DEPRECATED_REFERENCE_EXT
            || tag == crate::constants::NEW_REFERENCE_EXT
            || tag == crate::constants::NEWER_REFERENCE_EXT
            || tag == crate::constants::REMOVED_FUN_EXT || tag == crate::constants::NEW_FUN_EXT
            || tag == crate::constants::EXPORT_EXT || tag == crate::constants::BIT_BINARY_EXT {
            proof {
                assert(unimplemented_tag(tag));
            }
            Err(DecodeError::NotImplemented(tag))
        } else {
            Err(DecodeError::UnsupportedTag(tag))
        }
    }

    /// The body of a port term, after its tag byte: the owning-node term,
    /// then the numeric id and creation fields of the width the tag asks for.
    fn decode_port(&mut self, tag: u8, Ghost(b): Ghost<Seq<u8>>) -> (r: Result<
        RawTerm,
        DecodeError,
    >)
        requires
            old(self).wf(),
            tag == PORT_EXT || tag == NEW_PORT_EXT || tag == V4_PORT_EXT,
            b.len() >= 1,
            b[0] == tag,
            old(self).rest() == b.skip(1),
        ensures
            final(self).wf(),
            final(self).reader.buf == old(self).reader.buf,
            final(self).reader.pos >= old(self).reader.pos,
            match r {
                Ok(t) => spec_term(b) == Ok::<(TermV, int), DecodeError>(
                    (term_view(t), 1 + final(self).reader.pos - old(self).reader.pos),
                ),
                Err(e) => spec_term(b) == Err::<(TermV, int), DecodeError>(e),
            },
        decreases self.reader.buf@.len() - self.reader.pos, 1int,
    {
        let ghost bufv = old(self).reader.buf@;
        let ghost p1 = old(self).reader.pos as int;
        proof {
            assert(bufv.skip(p1) == b.skip(1));
            assert(b.skip(1).len() == b.len() - 1);
            assert(bufv.skip(p1).len() == bufv.len() - p1);
            assert forall|i: int| 1 <= i < b.len() implies b[i] == bufv[p1 + i - 1] by {
                assert(b.skip(1)[i - 1] == bufv.skip(p1)[i - 1]);
            }
        }
        let node = match self.decode_raw_term() {
            Err(e) => {
                return Err(e);
            },
            Ok(t) => t,
        };
        let ghost u = self.reader.pos - p1;
        proof {
            lemma_rest_advance(bufv, p1, p1 + u);
        }
        if tag == PORT_EXT {
            let id = match self.reader.read_u32(true) {
                None => {
                    return Err(DecodeError::EndOfBuffer);
                },
                Some(v) => v,
            };
            let creation = match self.reader.read_u8() {
                None => {
                    return Err(DecodeError::EndOfBuffer);
                },
                Some(v) => v,
            };
            Ok(RawTerm::Port { node: Box::new(node), id, creation })
        } else if tag == NEW_PORT_EXT {
            let id = match self.reader.read_u32(true) {
                None => {
                    return Err(DecodeError::EndOfBuffer);
                },
                Some(v) => v,
            };
            let creation = match self.reader.read_u32(true) {
                None => {
                    return Err(DecodeError::EndOfBuffer);
                },
                Some(v) => v,
            };
            Ok(RawTerm::NewPort { node: Box::new(node), id, creation })
        } else {
            let id = match self.reader.read_u64(true) {
                None => {
                    return Err(DecodeError::EndOfBuffer);
                },
                Some(v) => v,
            };
            let creation = match self.reader.read_u32(true) {
                None => {
                    return Err(DecodeError::EndOfBuffer);
                },
                Some(v) => v,
            };
            Ok(RawTerm::V4Port { node: Box::new(node), id, creation })
        }
    }

    /// The body of a pid term, after its tag byte: the owning-node term,
    /// then id, serial and creation.
    fn decode_pid(&mut self, tag: u8, Ghost(b): Ghost<Seq<u8>>) -> (r: Result<
        RawTerm,
        DecodeError,
    >)
        requires
            old(self).wf(),
            tag == PID_EXT || tag == NEW_PID_EXT,
            b.len() >= 1,
            b[0] == tag,
            old(self).rest() == b.skip(1),
        ensures
            final(self).wf(),
            final(self).reader.buf == old(self).reader.buf,
            final(self).reader.pos >= old(self).reader.pos,
            match r {
                Ok(t) => spec_term(b) == Ok::<(TermV, int), DecodeError>(
                    (term_view(t), 1 + final(self).reader.pos - old(self).reader.pos),
                ),
                Err(e) => spec_term(b) == Err::<(TermV, int), DecodeError>(e),
            },
        decreases self.reader.buf@.len() - self.reader.pos, 1int,
    {
        let ghost bufv = old(self).reader.buf@;
        let ghost p1 = old(self).reader.pos as int;
        proof {
            assert(bufv.skip(p1) == b.skip(1));
            assert(b.skip(1).len() == b.len() - 1);
            assert(bufv.skip(p1).len() == bufv.len() - p1);
            assert forall|i: int| 1 <= i < b.len() implies b[i] == bufv[p1 + i - 1] by {
                assert(b.skip(1)[i - 1] == bufv.skip(p1)[i - 1]);
            }
        }
        let node = match self.decode_raw_term() {
            Err(e) => {
                return Err(e);
            },
            Ok(t) => t,
        };
        let ghost u = self.reader.pos - p1;
        proof {
            lemma_rest_advance(bufv, p1, p1 + u);
        }
        let id = match self.reader.read_u32(true) {
            None => {
                return Err(DecodeError::EndOfBuffer);
            },
            Some(v) => v,
        };
        let serial = match self.reader.read_u32(true) {
            None => {
                return Err(DecodeError::EndOfBuffer);
            },
            Some(v) => v,
        };
        if tag == PID_EXT {
            let creation = match self.reader.read_u8() {
                None => {
                    return Err(DecodeError::EndOfBuffer);
                },
                Some(v) => v,
            };
            Ok(RawTerm::Pid { node: Box::new(node), id, serial, creation })
        } else {
            let creation = match self.reader.read_u32(true) {
                None => {
                    return Err(DecodeError::EndOfBuffer);
                },
                Some(v) => v,
            };
            Ok(RawTerm::NewPid { node: Box::new(node), id, serial, creation })
        }
    }

    /// The text payload that follows a length prefix: `len` raw bytes,
    /// decoded as UTF-8.
    fn read_text(&mut self, len: usize) -> (r: Result<String, DecodeError>)
        requires
            old(self).wf(),
        ensures
            final(self).wf(),
            final(self).reader.buf == old(self).reader.buf,
            final(self).reader.pos >= old(self).reader.pos,
            match r {
                Ok(s) => {
                    &&& old(self).rest().len() >= len
                    &&& valid_utf8(old(self).rest().subrange(0, len as int))
                    &&& s@ == decode_utf8(old(self).rest().subrange(0, len as int))
                    &&& final(self).reader.pos == old(self).reader.pos + len
                },
                Err(e) => {
                    &&& (e == DecodeError::EndOfBuffer <==> old(self).rest().len() < len)
                    &&& (old(self).rest().len() >= len ==> e == DecodeError::InvalidUtf8
                        && !valid_utf8(old(self).rest().subrange(0, len as int)))
                },
            },
    {
        let ghost p0 = old(self).reader.pos as int;
        let bytes = match self.reader.read_bytes(len) {
            None => {
                return Err(DecodeError::EndOfBuffer);
            },
            Some(v) => v,
        };
        proof {
            lemma_rest_subrange(old(self).reader.buf@, p0, p0, len as int);
        }
        match bytes_to_string(bytes) {
            None => Err(DecodeError::InvalidUtf8),
            Some(s) => Ok(s),
        }
    }

    /// `n` consecutive terms at the cursor, in order.
    fn decode_items(&mut self, n: u32) -> (r: Result<Vec<RawTerm>, DecodeError>)
        requires
            old(self).wf(),
        ensures
            final(self).wf(),
            final(self).reader.buf == old(self).reader.buf,
            final(self).reader.pos >= old(self).reader.pos,
            match r {
                Ok(items) => spec_items(old(self).rest(), n as int) == Ok::<
                    (Seq<TermV>, int),
                    DecodeError,
                >((terms_view(items@), final(self).reader.pos - old(self).reader.pos)),
                Err(e) => spec_items(old(self).rest(), n as int) == Err::<
                    (Seq<TermV>, int),
                    DecodeError,
                >(e),
            },
        decreases self.reader.buf@.len() - self.reader.pos, 1int,
    {
        let ghost d0 = *self;
        let mut items: Vec<RawTerm> = Vec::new();
        let mut i: u32 = 0;
        while i < n
            invariant
                self.wf(),
                d0 == *old(self),
                self.reader.buf == d0.reader.buf,
                self.reader.pos >= d0.reader.pos,
                i <= n,
                match spec_items(self.rest(), n - i) {
                    Ok(p) => spec_items(d0.rest(), n as int) == Ok::<
                        (Seq<TermV>, int),
                        DecodeError,
                    >((terms_view(items@) + p.0, self.reader.pos - d0.reader.pos + p.1)),
                    Err(e) => spec_items(d0.rest(), n as int) == Err::<
                        (Seq<TermV>, int),
                        DecodeError,
                    >(e),
                },
            decreases n - i,
        {
            let ghost bi = self.rest();
            let ghost pi = self.reader.pos as int;
            match self.decode_raw_term() {
                Err(e) => {
                    return Err(e);
                },
                Ok(t) => {
                    proof {
                        let d = self.reader.pos - pi;
                        lemma_rest_advance(d0.reader.buf@, pi, pi + d);
                        assert(self.rest() == bi.skip(d));
                        lemma_terms_view_push(items@, t);
                        match spec_items(self.rest(), n - i - 1) {
                            Ok(p) => {
                                assert(spec_items(bi, n - i) == Ok::<
                                    (Seq<TermV>, int),
                                    DecodeError,
                                >((seq![term_view(t)] + p.0, d + p.1)));
                                assert(terms_view(items@) + (seq![term_view(t)] + p.0)
                                    =~= terms_view(items@.push(t)) + p.0);
                            },
                            Err(e) => {
                                assert(spec_items(bi, n - i) == Err::<
                                    (Seq<TermV>, int),
                                    DecodeError,
                                >(e));
                            },
                        }
                    }
                    items.push(t);
                    i = i + 1;
                },
            }
        }
        proof {
            assert(spec_items(self.rest(), 0) == Ok::<(Seq<TermV>, int), DecodeError>(
                (Seq::empty(), 0),
            ));
            assert(terms_view(items@) + Seq::<TermV>::empty() =~= terms_view(items@));
        }
        Ok(items)
    }

    /// `n` consecutive key/value pairs at the cursor, entered into the map
    /// in order. Every key must decode to an atom.
    fn decode_pairs(&mut self, n: u32) -> (r: Result<Vec<(String, RawTerm)>, DecodeError>)
        requires
            old(self).wf(),
        ensures
            final(self).wf(),
            final(self).reader.buf == old(self).reader.buf,
            final(self).reader.pos >= old(self).reader.pos,
            match r {
                Ok(entries) => spec_pairs(old(self).rest(), n as int, Seq::empty()) == Ok::<
                    (Seq<(Seq<char>, TermV)>, int),
                    DecodeError,
                >((pairs_view(entries@), final(self).reader.pos - old(self).reader.pos)),
                Err(e) => spec_pairs(old(self).rest(), n as int, Seq::empty()) == Err::<
                    (Seq<(Seq<char>, TermV)>, int),
                    DecodeError,
                >(e),
            },
        decreases self.reader.buf@.len() - self.reader.pos, 1int,
    {
        let ghost d0 = *self;
        let mut entries: Vec<(String, RawTerm)> = Vec::new();
        let mut i: u32 = 0;
        while i < n
            invariant
                self.wf(),
                d0 == *old(self),
                self.reader.buf == d0.reader.buf,
                self.reader.pos >= d0.reader.pos,
                i <= n,
                match spec_pairs(self.rest(), n - i, pairs_view(entries@)) {
                    Ok(p) => spec_pairs(d0.rest(), n as int, Seq::empty()) == Ok::<
                        (Seq<(Seq<char>, TermV)>, int),
                        DecodeError,
                    >((p.0, self.reader.pos - d0.reader.pos + p.1)),
                    Err(e) => spec_pairs(d0.rest(), n as int, Seq::empty()) == Err::<
                        (Seq<(Seq<char>, TermV)>, int),
                        DecodeError,
                    >(e),
                },
            decreases n - i,
        {
            let ghost bi = self.rest();
            let ghost pi = self.reader.pos as int;
            let key = match self.decode_raw_term() {
                Err(e) => {
                    return Err(e);
                },
                Ok(t) => t,
            };
            let ghost u1 = self.reader.pos - pi;
            proof {
                lemma_rest_advance(d0.reader.buf@, pi, pi + u1);
                assert(self.rest() == bi.skip(u1));
            }
            let name = match key {
                RawTerm::Atom(s) => s,
                _ => {
                    return Err(DecodeError::InvalidMapKey);
                },
            };
            let ghost bk = self.rest();
            let value = match self.decode_raw_term() {
                Err(e) => {
                    return Err(e);
                },
                Ok(t) => t,
            };
            let ghost u2 = self.reader.pos - pi - u1;
            proof {
                lemma_rest_advance(d0.reader.buf@, pi + u1, pi + u1 + u2);
                assert(self.rest() == bk.skip(u2));
                lemma_rest_advance(d0.reader.buf@, pi, pi + u1 + u2);
                assert(self.rest() == bi.skip(u1 + u2));
            }
            let ghost m0 = pairs_view(entries@);
            map_insert(&mut entries, name, value);
            proof {
                assert(pairs_view(entries@) == map_put(m0, name@, term_view(value)));
                match spec_pairs(self.rest(), n - i - 1, pairs_view(entries@)) {
                    Ok(p) => {
                        assert(spec_pairs(bi, n - i, m0) == Ok::<
                            (Seq<(Seq<char>, TermV)>, int),
                            DecodeError,
                        >((p.0, u1 + u2 + p.1)));
                    },
                    Err(e) => {
                        assert(spec_pairs(bi, n - i, m0) == Err::<
                            (Seq<(Seq<char>, TermV)>, int),
                            DecodeError,
                        >(e));
                    },
                }
            }
            i = i + 1;
        }
        proof {
            assert(spec_pairs(self.rest(), 0, pairs_view(entries@)) == Ok::<
                (Seq<(Seq<char>, TermV)>, int),
                DecodeError,
            >((pairs_view(entries@), 0)));
        }
        Ok(entries)
    }
}

} // verus!
