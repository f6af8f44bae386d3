//! The error taxonomy and the field-extraction helpers: looking a named
//! entry up in a map node and converting a node to a target type.

use vstd::prelude::*;
use vstd::utf8::{valid_utf8, decode_utf8};
use crate::node::{Node, NodeV, node_view, pair_views_of, lemma_pair_views_of};

verus! {

broadcast use vstd::std_specs::vec::group_vec_axioms, vstd::seq::group_seq_axioms;

/// The closed set of decode failures. Every failure aborts the whole
/// decode call; the first one observed is the one reported.
#[derive(Debug)]
pub enum Error {
    /// A failure of the surrounding input step, outside the decoder.
    IoError,
    /// The buffer is not a valid document.
    DecodingError,
    NotADict,
    NotAByteString,
    /// A required field is absent; carries the field's name.
    DoesntContain(&'static str),
    NotANumber,
    NotAString,
    NotAVec,
}

/// The model of a decode failure.
pub ghost enum ErrorV {
    IoError,
    DecodingError,
    NotADict,
    NotAByteString,
    DoesntContain(Seq<char>),
    NotANumber,
    NotAString,
    NotAVec,
}

impl View for Error {
    type V = ErrorV;

    open spec fn view(&self) -> ErrorV {
        match self {
            Error::IoError => ErrorV::IoError,
            Error::DecodingError => ErrorV::DecodingError,
            Error::NotADict => ErrorV::NotADict,
            Error::NotAByteString => ErrorV::NotAByteString,
            Error::DoesntContain(f) => ErrorV::DoesntContain(f@),
            Error::NotANumber => ErrorV::NotANumber,
            Error::NotAString => ErrorV::NotAString,
            Error::NotAVec => ErrorV::NotAVec,
        }
    }
}

/// The first entry of `d` under `key`, if any.
pub open spec fn dict_lookup(d: Seq<(Seq<u8>, NodeV)>, key: Seq<u8>) -> Option<NodeV>
    decreases d.len(),
{
    if d.len() == 0 {
        None
    } else if d[0].0 == key {
        Some(d[0].1)
    } else {
        dict_lookup(d.subrange(1, d.len() as int), key)
    }
}

fn bytes_eq(a: &Vec<u8>, b: &Vec<u8>) -> (r: bool)
    ensures
        r == (a@ == b@),
{
    if a.len() != b.len() {
        return false;
    }
    let mut k: usize = 0;
    while k < a.len()
        invariant
            k <= a@.len(),
            a@.len() == b@.len(),
            forall|j: int| 0 <= j < k ==> a@[j] == b@[j],
        decreases a@.len() - k,
    {
        if a[k] != b[k] {
            return false;
        }
        k += 1;
    }
    proof {
        assert(a@ =~= b@);
    }
    true
}

/// Looks `key` up in the pairs of a map node.
pub fn dict_get<'a>(pairs: &'a Vec<(Vec<u8>, Node)>, key: &Vec<u8>) -> (r: Option<&'a Node>)
    ensures
        match r {
            Some(n) => dict_lookup(pair_views_of(pairs@), key@) == Some(n@),
            None => dict_lookup(pair_views_of(pairs@), key@) is None,
        },
{
    let ghost d = pair_views_of(pairs@);
    proof {
        lemma_pair_views_of(pairs@);
        assert(d.skip(0) =~= d);
    }
    let mut k: usize = 0;
    while k < pairs.len()
        invariant
            k <= pairs@.len(),
            d == pair_views_of(pairs@),
            d.len() == pairs@.len(),
            forall|j: int|
                0 <= j < pairs@.len() ==> d[j] == (pairs@[j].0@, node_view(pairs@[j].1)),
            dict_lookup(d, key@) == dict_lookup(d.skip(k as int), key@),
        decreases pairs@.len() - k,
    {
        proof {
            assert(d.skip(k as int)[0] == d[k as int]);
        }
        if bytes_eq(&pairs[k].0, key) {
            return Some(&pairs[k].1);
        }
        proof {
            assert(d.skip(k as int).subrange(1, d.skip(k as int).len() as int) =~= d.skip(
                k as int + 1,
            ));
        }
        k += 1;
    }
    proof {
        assert(d.skip(k as int) =~= Seq::<(Seq<u8>, NodeV)>::empty());
    }
    None
}

/// Conversion of a node to a text string: it must be a byte string
/// holding UTF-8.
pub open spec fn spec_as_string(n: NodeV) -> Result<Seq<char>, ErrorV> {
    match n {
        NodeV::Bytes(b) => if valid_utf8(b) {
            Ok(decode_utf8(b))
        } else {
            Err(ErrorV::NotAString)
        },
        _ => Err(ErrorV::NotAString),
    }
}

/// Conversion of a node to an unsigned 32-bit integer.
pub open spec fn spec_as_u32(n: NodeV) -> Result<int, ErrorV> {
    match n {
        NodeV::Int(i) => if 0 <= i <= u32::MAX {
            Ok(i)
        } else {
            Err(ErrorV::NotANumber)
        },
        _ => Err(ErrorV::NotANumber),
    }
}

/// Conversion of a node to an unsigned 64-bit integer.
pub open spec fn spec_as_u64(n: NodeV) -> Result<int, ErrorV> {
    match n {
        NodeV::Int(i) => if 0 <= i {
            Ok(i)
        } else {
            Err(ErrorV::NotANumber)
        },
        _ => Err(ErrorV::NotANumber),
    }
}

/// Relies on `String::from_utf8`: it succeeds exactly on valid UTF-8
/// input and returns the text those bytes spell.
#[verifier::external_body]
fn bytes_to_string(v: Vec<u8>) -> (r: Option<String>)
    ensures
        match r {
            Some(s) => valid_utf8(v@) && s@ == decode_utf8(v@),
            None => !valid_utf8(v@),
        },
{
    match String::from_utf8(v) {
        Ok(s) => Some(s),
        Err(_) => None,
    }
}

fn clone_bytes(b: &Vec<u8>) -> (r: Vec<u8>)
    ensures
        r@ == b@,
{
    let mut r: Vec<u8> = Vec::new();
    let mut k: usize = 0;
    while k < b.len()
        invariant
            k <= b@.len(),
            r@ == b@.subrange(0, k as int),
        decreases b@.len() - k,
    {
        r.push(b[k]);
        assert(r@ =~= b@.subrange(0, k + 1));
        k += 1;
    }
    proof {
        assert(b@.subrange(0, b@.len() as int) =~= b@);
    }
    r
}

/// Converts a node to an owned text string.
pub fn node_as_string(n: &Node) -> (r: Result<String, Error>)
    ensures
        match r {
            Ok(s) => spec_as_string(n@) == Ok::<Seq<char>, ErrorV>(s@),
            Err(e) => spec_as_string(n@) == Err::<Seq<char>, ErrorV>(e@),
        },
{
    match n {
        Node::Bytes(b) => {
            let copy = clone_bytes(b);
            match bytes_to_string(copy) {
                Some(s) => Ok(s),
                None => Err(Error::NotAString),
            }
        },
        _ => Err(Error::NotAString),
    }
}

/// Converts a node to an unsigned 32-bit integer.
pub fn node_as_u32(n: &Node) -> (r: Result<u32, Error>)
    ensures
        match r {
            Ok(v) => spec_as_u32(n@) == Ok::<int, ErrorV>(v as int),
            Err(e) => spec_as_u32(n@) == Err::<int, ErrorV>(e@),
        },
{
    match n {
        Node::Int(i) => {
            if 0 <= *i && *i <= u32::MAX as i64 {
                Ok(*i as u32)
            } else {
                Err(Error::NotANumber)
            }
        },
        _ => Err(Error::NotANumber),
    }
}

/// Converts a node to an unsigned 64-bit integer.
pub fn node_as_u64(n: &Node) -> (r: Result<u64, Error>)
    ensures
        match r {
            Ok(v) => spec_as_u64(n@) == Ok::<int, ErrorV>(v as int),
            Err(e) => spec_as_u64(n@) == Err::<int, ErrorV>(e@),
        },
{
    match n {
        Node::Int(i) => {
            if 0 <= *i {
                Ok(*i as u64)
            } else {
                Err(Error::NotANumber)
            }
        },
        _ => Err(Error::NotANumber),
    }
}

/// Returns a clone of the payload of a byte-string node; any other kind
/// is refused.
pub fn node_as_bytes(n: &Node) -> (r: Result<Vec<u8>, Error>)
    ensures
        match r {
            Ok(b) => n@ matches NodeV::Bytes(p) && b@ == p,
            Err(e) => !(n@ is Bytes) && e@ == ErrorV::NotAByteString,
        },
{
    match n {
        Node::Bytes(b) => Ok(clone_bytes(b)),
        _ => Err(Error::NotAByteString),
    }
}

} // verus!
