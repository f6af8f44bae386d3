//! The typed structures of a file-distribution descriptor, each decoded
//! from a map node, and the derived content hash of the `info` sub-node.

use vstd::prelude::*;
use crate::node::{Node, NodeV, node_view, views_of, lemma_views_of};
use crate::codec::{enc, dec, encode_node, decode_node};
use crate::decodeutil::{
    Error, ErrorV, dict_lookup, dict_get, spec_as_string, spec_as_u32, spec_as_u64,
    node_as_string, node_as_u32, node_as_u64, node_as_bytes,
};
use crate::hash::{sha1_of, calculate_sha1_bytes};

verus! {

broadcast use vstd::std_specs::vec::group_vec_axioms, vstd::seq::group_seq_axioms;

// The exact byte-string keys of the wire format.
pub open spec fn key_announce() -> Seq<u8> {
    seq![97u8, 110u8, 110u8, 111u8, 117u8, 110u8, 99u8, 101u8]
}

pub open spec fn key_info() -> Seq<u8> {
    seq![105u8, 110u8, 102u8, 111u8]
}

pub open spec fn key_created_by() -> Seq<u8> {
    seq![99u8, 114u8, 101u8, 97u8, 116u8, 101u8, 100u8, 32u8, 98u8, 121u8]
}

pub open spec fn key_piece_length() -> Seq<u8> {
    seq![112u8, 105u8, 101u8, 99u8, 101u8, 32u8, 108u8, 101u8, 110u8, 103u8, 116u8, 104u8]
}

pub open spec fn key_pieces() -> Seq<u8> {
    seq![112u8, 105u8, 101u8, 99u8, 101u8, 115u8]
}

pub open spec fn key_name() -> Seq<u8> {
    seq![110u8, 97u8, 109u8, 101u8]
}

pub open spec fn key_length() -> Seq<u8> {
    seq![108u8, 101u8, 110u8, 103u8, 116u8, 104u8]
}

pub open spec fn key_files() -> Seq<u8> {
    seq![102u8, 105u8, 108u8, 101u8, 115u8]
}

pub open spec fn key_path() -> Seq<u8> {
    seq![112u8, 97u8, 116u8, 104u8]
}

// The field names carried by missing-field errors.
pub open spec fn name_announce() -> Seq<char> {
    seq!['a', 'n', 'n', 'o', 'u', 'n', 'c', 'e']
}

pub open spec fn name_info() -> Seq<char> {
    seq!['i', 'n', 'f', 'o']
}

pub open spec fn name_piece_length() -> Seq<char> {
    seq!['p', 'i', 'e', 'c', 'e', ' ', 'l', 'e', 'n', 'g', 't', 'h']
}

pub open spec fn name_pieces() -> Seq<char> {
    seq!['p', 'i', 'e', 'c', 'e', 's']
}

pub open spec fn name_name() -> Seq<char> {
    seq!['n', 'a', 'm', 'e']
}

pub open spec fn name_length() -> Seq<char> {
    seq!['l', 'e', 'n', 'g', 't', 'h']
}

pub open spec fn name_path() -> Seq<char> {
    seq!['p', 'a', 't', 'h']
}

/// The top-level descriptor of the document.
#[derive(Debug, PartialEq)]
pub struct MetaInfo {
    pub announce: String,
    pub info: Info,
    pub info_hash: Vec<u8>,
    pub created_by: String,
}

/// The shared file layout: piece size, piece digests, and the single- or
/// multi-file content.
#[derive(Debug, PartialEq)]
pub struct Info {
    pub piece_length: u32,
    pub pieces: Vec<Vec<u8>>,
    pub num_pieces: u32,
    pub name: String,
    pub length: Option<u64>,
    pub files: Option<Vec<InfoMultiFile>>,
}

/// One entry of a multi-file layout.
#[derive(Debug, PartialEq)]
pub struct InfoMultiFile {
    pub length: u64,
    pub path: Vec<String>,
}

/// The model of a multi-file entry.
pub ghost struct InfoFileV {
    pub length: int,
    pub path: Seq<Seq<char>>,
}

/// The model of a file layout.
pub ghost struct InfoV {
    pub piece_length: int,
    pub pieces: Seq<Seq<u8>>,
    pub num_pieces: int,
    pub name: Seq<char>,
    pub length: Option<int>,
    pub files: Option<Seq<InfoFileV>>,
}

/// The model of a descriptor.
pub ghost struct MetaInfoV {
    pub announce: Seq<char>,
    pub info: InfoV,
    pub info_hash: Seq<u8>,
    pub created_by: Seq<char>,
}

impl View for InfoMultiFile {
    type V = InfoFileV;

    open spec fn view(&self) -> InfoFileV {
        InfoFileV { length: self.length as int, path: self.path.deep_view() }
    }
}

impl DeepView for InfoMultiFile {
    type V = InfoFileV;

    open spec fn deep_view(&self) -> InfoFileV {
        self.view()
    }
}

impl View for Info {
    type V = InfoV;

    open spec fn view(&self) -> InfoV {
        InfoV {
            piece_length: self.piece_length as int,
            pieces: self.pieces.deep_view(),
            num_pieces: self.num_pieces as int,
            name: self.name@,
            length: match self.length {
                Some(v) => Some(v as int),
                None => None,
            },
            files: match self.files {
                Some(fs) => Some(fs.deep_view()),
                None => None,
            },
        }
    }
}

impl View for MetaInfo {
    type V = MetaInfoV;

    open spec fn view(&self) -> MetaInfoV {
        MetaInfoV {
            announce: self.announce@,
            info: self.info@,
            info_hash: self.info_hash@,
            created_by: self.created_by@,
        }
    }
}

/// The pieces string split into consecutive 20-byte chunks; a remainder
/// shorter than 20 bytes stays as a short final chunk.
pub open spec fn chunks20(b: Seq<u8>) -> Seq<Seq<u8>>
    decreases b.len(),
{
    if b.len() == 0 {
        Seq::empty()
    } else if b.len() <= 20 {
        seq![b]
    } else {
        seq![b.subrange(0, 20)] + chunks20(b.subrange(20, b.len() as int))
    }
}

/// Conversion of a list node to a sequence of text strings; any element
/// failure collapses into the list error.
pub open spec fn spec_strings_of(l: Seq<NodeV>) -> Result<Seq<Seq<char>>, ErrorV>
    decreases l.len(),
{
    if l.len() == 0 {
        Ok(Seq::empty())
    } else {
        match spec_as_string(l[0]) {
            Err(_) => Err(ErrorV::NotAVec),
            Ok(s) => match spec_strings_of(l.subrange(1, l.len() as int)) {
                Err(e) => Err(e),
                Ok(rest) => Ok(seq![s] + rest),
            },
        }
    }
}

pub open spec fn spec_as_string_list(n: NodeV) -> Result<Seq<Seq<char>>, ErrorV> {
    match n {
        NodeV::List(l) => spec_strings_of(l),
        _ => Err(ErrorV::NotAVec),
    }
}

/// Decode of one multi-file entry from a map node.
pub open spec fn spec_file_from(n: NodeV) -> Result<InfoFileV, ErrorV> {
    match n {
        NodeV::Dict(d) => match dict_lookup(d, key_length()) {
            None => Err(ErrorV::DoesntContain(name_length())),
            Some(ln) => match spec_as_u64(ln) {
                Err(e) => Err(e),
                Ok(len) => match dict_lookup(d, key_path()) {
                    None => Err(ErrorV::DoesntContain(name_path())),
                    Some(pn) => match spec_as_string_list(pn) {
                        Err(e) => Err(e),
                        Ok(path) => Ok(InfoFileV { length: len, path }),
                    },
                },
            },
        },
        _ => Err(ErrorV::NotADict),
    }
}

/// Conversion of a list node to a sequence of multi-file entries; any
/// element failure collapses into the list error.
pub open spec fn spec_files_of(l: Seq<NodeV>) -> Result<Seq<InfoFileV>, ErrorV>
    decreases l.len(),
{
    if l.len() == 0 {
        Ok(Seq::empty())
    } else {
        match spec_file_from(l[0]) {
            Err(_) => Err(ErrorV::NotAVec),
            Ok(f) => match spec_files_of(l.subrange(1, l.len() as int)) {
                Err(e) => Err(e),
                Ok(rest) => Ok(seq![f] + rest),
            },
        }
    }
}

pub open spec fn spec_as_file_list(n: NodeV) -> Result<Seq<InfoFileV>, ErrorV> {
    match n {
        NodeV::List(l) => spec_files_of(l),
        _ => Err(ErrorV::NotAVec),
    }
}

/// Decode of the file layout from a map node, in field order: the raw
/// `pieces` string first, then `piece length`, `name`, and the optional
/// `length` and `files`.
pub open spec fn spec_info_from(n: NodeV) -> Result<InfoV, ErrorV> {
    match n {
        NodeV::Dict(d) => match dict_lookup(d, key_pieces()) {
            None => Err(ErrorV::DoesntContain(name_pieces())),
            Some(pn) => match pn {
                NodeV::Bytes(pb) => {
                    let pieces = chunks20(pb);
                    match dict_lookup(d, key_piece_length()) {
                        None => Err(ErrorV::DoesntContain(name_piece_length())),
                        Some(pln) => match spec_as_u32(pln) {
                            Err(e) => Err(e),
                            Ok(pl) => match dict_lookup(d, key_name()) {
                                None => Err(ErrorV::DoesntContain(name_name())),
                                Some(nn) => match spec_as_string(nn) {
                                    Err(e) => Err(e),
                                    Ok(nm) => match spec_opt_length(d) {
                                        Err(e) => Err(e),
                                        Ok(length) => match spec_opt_files(d) {
                                            Err(e) => Err(e),
                                            Ok(files) => Ok(
                                                InfoV {
                                                    piece_length: pl,
                                                    pieces,
                                                    num_pieces: (pieces.len() as u32) as int,
                                                    name: nm,
                                                    length,
                                                    files,
                                                },
                                            ),
                                        },
                                    },
                                },
                            },
                        },
                    }
                },
                _ => Err(ErrorV::NotAByteString),
            },
        },
        _ => Err(ErrorV::NotADict),
    }
}

/// The optional `length` field: absent is no error.
pub open spec fn spec_opt_length(d: Seq<(Seq<u8>, NodeV)>) -> Result<Option<int>, ErrorV> {
    match dict_lookup(d, key_length()) {
        None => Ok(None),
        Some(n) => match spec_as_u64(n) {
            Err(e) => Err(e),
            Ok(v) => Ok(Some(v)),
        },
    }
}

/// The optional `files` field: absent is no error.
pub open spec fn spec_opt_files(d: Seq<(Seq<u8>, NodeV)>) -> Result<
    Option<Seq<InfoFileV>>,
    ErrorV,
> {
    match dict_lookup(d, key_files()) {
        None => Ok(None),
        Some(n) => match spec_as_file_list(n) {
            Err(e) => Err(e),
            Ok(fs) => Ok(Some(fs)),
        },
    }
}

/// Decode of the descriptor from a map node: the `info` sub-node is
/// located first and its exact re-serialized bytes are hashed; then
/// `announce`, the typed `info`, and the defaulted `created by`.
pub open spec fn spec_metainfo_from(n: NodeV) -> Result<MetaInfoV, ErrorV> {
    match n {
        NodeV::Dict(d) => match dict_lookup(d, key_info()) {
            None => Err(ErrorV::DoesntContain(name_info())),
            Some(info_n) => {
                let hash = sha1_of(enc(info_n));
                match dict_lookup(d, key_announce()) {
                    None => Err(ErrorV::DoesntContain(name_announce())),
                    Some(an) => match spec_as_string(an) {
                        Err(e) => Err(e),
                        Ok(announce) => match spec_info_from(info_n) {
                            Err(e) => Err(e),
                            Ok(info) => match dict_lookup(d, key_created_by()) {
                                None => Ok(
                                    MetaInfoV {
                                        announce,
                                        info,
                                        info_hash: hash,
                                        created_by: Seq::empty(),
                                    },
                                ),
                                Some(cn) => match spec_as_string(cn) {
                                    Err(e) => Err(e),
                                    Ok(created_by) => Ok(
                                        MetaInfoV { announce, info, info_hash: hash, created_by },
                                    ),
                                },
                            },
                        },
                    },
                }
            },
        },
        _ => Err(ErrorV::NotADict),
    }
}

/// Decode of a whole buffer: parse it into a tree, then decode the
/// descriptor from the root node.
pub open spec fn spec_parse_metainfo(bytes: Seq<u8>) -> Result<MetaInfoV, ErrorV> {
    match dec(bytes) {
        None => Err(ErrorV::DecodingError),
        Some(nv) => spec_metainfo_from(nv),
    }
}

/// Chunking: a pieces string of length `20 * k` splits into exactly `k`
/// chunks of 20 bytes each, the `j`th being bytes `20j .. 20j + 20`.
pub proof fn lemma_chunking(b: Seq<u8>, k: int)
    requires
        0 <= k,
        b.len() == 20 * k,
    ensures
        chunks20(b).len() == k,
        forall|j: int|
            0 <= j < k ==> #[trigger] chunks20(b)[j] == b.subrange(20 * j, 20 * j + 20),
    decreases k,
{
    if k == 1 {
        assert(b.subrange(0, 20) =~= b);
    } else if k > 1 {
        let tail = b.subrange(20, b.len() as int);
        lemma_chunking(tail, k - 1);
        assert forall|j: int| 0 <= j < k implies #[trigger] chunks20(b)[j] == b.subrange(
            20 * j,
            20 * j + 20,
        ) by {
            if j > 0 {
                assert(chunks20(b)[j] == chunks20(tail)[j - 1]);
                assert(tail.subrange(20 * (j - 1), 20 * (j - 1) + 20) =~= b.subrange(
                    20 * j,
                    20 * j + 20,
                ));
            }
        }
    }
}

/// A decoded layout's `pieces` is the chunking of the raw `pieces`
/// string, and `num_pieces` counts those chunks.
pub proof fn lemma_num_pieces(d: Seq<(Seq<u8>, NodeV)>, iv: InfoV, pb: Seq<u8>)
    requires
        spec_info_from(NodeV::Dict(d)) == Ok::<InfoV, ErrorV>(iv),
        dict_lookup(d, key_pieces()) == Some(NodeV::Bytes(pb)),
        chunks20(pb).len() <= u32::MAX,
    ensures
        iv.pieces == chunks20(pb),
        iv.num_pieces == iv.pieces.len(),
{
}

/// The decoded descriptor's hash is exactly the digest of the canonical
/// re-serialized bytes of the node stored under `info` — never of a
/// re-encoding of the typed structure.
pub proof fn lemma_info_hash_is_of_raw_info(
    d: Seq<(Seq<u8>, NodeV)>,
    m: MetaInfoV,
    info_n: NodeV,
)
    requires
        spec_metainfo_from(NodeV::Dict(d)) == Ok::<MetaInfoV, ErrorV>(m),
        dict_lookup(d, key_info()) == Some(info_n),
    ensures
        m.info_hash == sha1_of(enc(info_n)),
{
}

/// A map that holds `info` but lacks `announce` never yields a
/// descriptor: it fails with the missing-field error naming `announce`.
pub proof fn lemma_missing_announce(d: Seq<(Seq<u8>, NodeV)>)
    requires
        dict_lookup(d, key_info()) is Some,
        dict_lookup(d, key_announce()) is None,
    ensures
        spec_metainfo_from(NodeV::Dict(d)) == Err::<MetaInfoV, ErrorV>(
            ErrorV::DoesntContain(name_announce()),
        ),
{
}

/// A map without `created by` that decodes successfully yields the empty
/// string for that field.
pub proof fn lemma_default_created_by(d: Seq<(Seq<u8>, NodeV)>, m: MetaInfoV)
    requires
        spec_metainfo_from(NodeV::Dict(d)) == Ok::<MetaInfoV, ErrorV>(m),
        dict_lookup(d, key_created_by()) is None,
    ensures
        m.created_by == Seq::<char>::empty(),
{
}

/// A map without the optional `length` that decodes successfully yields
/// an absent `length`, not a failure.
pub proof fn lemma_optional_length(d: Seq<(Seq<u8>, NodeV)>, iv: InfoV)
    requires
        spec_info_from(NodeV::Dict(d)) == Ok::<InfoV, ErrorV>(iv),
        dict_lookup(d, key_length()) is None,
    ensures
        iv.length is None,
{
}

/// A `piece length` entry that is a byte string instead of an integer
/// fails with the not-a-number error, not a generic failure.
pub proof fn lemma_piece_length_mismatch(d: Seq<(Seq<u8>, NodeV)>, pb: Seq<u8>, wrong: Seq<u8>)
    requires
        dict_lookup(d, key_pieces()) == Some(NodeV::Bytes(pb)),
        dict_lookup(d, key_piece_length()) == Some(NodeV::Bytes(wrong)),
    ensures
        spec_info_from(NodeV::Dict(d)) == Err::<InfoV, ErrorV>(ErrorV::NotANumber),
{
}

fn key_announce_vec() -> (r: Vec<u8>)
    ensures
        r@ == key_announce(),
{
    let mut v: Vec<u8> = Vec::new();
    v.push(97);
    v.push(110);
    v.push(110);
    v.push(111);
    v.push(117);
    v.push(110);
    v.push(99);
    v.push(101);
    assert(v@ =~= key_announce());
    v
}

fn key_info_vec() -> (r: Vec<u8>)
    ensures
        r@ == key_info(),
{
    let mut v: Vec<u8> = Vec::new();
    v.push(105);
    v.push(110);
    v.push(102);
    v.push(111);
    assert(v@ =~= key_info());
    v
}

fn key_created_by_vec() -> (r: Vec<u8>)
    ensures
        r@ == key_created_by(),
{
    let mut v: Vec<u8> = Vec::new();
    v.push(99);
    v.push(114);
    v.push(101);
    v.push(97);
    v.push(116);
    v.push(101);
    v.push(100);
    v.push(32);
    v.push(98);
    v.push(121);
    assert(v@ =~= key_created_by());
    v
}

fn key_piece_length_vec() -> (r: Vec<u8>)
    ensures
        r@ == key_piece_length(),
{
    let mut v: Vec<u8> = Vec::new();
    v.push(112);
    v.push(105);
    v.push(101);
    v.push(99);
    v.push(101);
    v.push(32);
    v.push(108);
    v.push(101);
    v.push(110);
    v.push(103);
    v.push(116);
    v.push(104);
    assert(v@ =~= key_piece_length());
    v
}

fn key_pieces_vec() -> (r: Vec<u8>)
    ensures
        r@ == key_pieces(),
{
    let mut v: Vec<u8> = Vec::new();
    v.push(112);
    v.push(105);
    v.push(101);
    v.push(99);
    v.push(101);
    v.push(115);
    assert(v@ =~= key_pieces());
    v
}

fn key_name_vec() -> (r: Vec<u8>)
    ensures
        r@ == key_name(),
{
    let mut v: Vec<u8> = Vec::new();
    v.push(110);
    v.push(97);
    v.push(109);
    v.push(101);
    assert(v@ =~= key_name());
    v
}

fn key_length_vec() -> (r: Vec<u8>)
    ensures
        r@ == key_length(),
{
    let mut v: Vec<u8> = Vec::new();
    v.push(108);
    v.push(101);
    v.push(110);
    v.push(103);
    v.push(116);
    v.push(104);
    assert(v@ =~= key_length());
    v
}

fn key_files_vec() -> (r: Vec<u8>)
    ensures
        r@ == key_files(),
{
    let mut v: Vec<u8> = Vec::new();
    v.push(102);
    v.push(105);
    v.push(108);
    v.push(101);
    v.push(115);
    assert(v@ =~= key_files());
    v
}

fn key_path_vec() -> (r: Vec<u8>)
    ensures
        r@ == key_path(),
{
    let mut v: Vec<u8> = Vec::new();
    v.push(112);
    v.push(97);
    v.push(116);
    v.push(104);
    assert(v@ =~= key_path());
    v
}

/// Splits the pieces string into consecutive 20-byte chunks.
pub fn chunk_pieces(b: &Vec<u8>) -> (r: Vec<Vec<u8>>)
    ensures
        r.deep_view() == chunks20(b@),
{
    let total = b.len();
    let mut out: Vec<Vec<u8>> = Vec::new();
    let mut off: usize = 0;
    proof {
        assert(b@.len() == total as int);
        assert(b@.skip(0) =~= b@);
        assert(out.deep_view() + chunks20(b@) =~= chunks20(b@));
    }
    while off < b.len()
        invariant
            off <= b@.len(),
            b@.len() <= usize::MAX,
            chunks20(b@) == out.deep_view() + chunks20(b@.skip(off as int)),
        decreases b@.len() - off,
    {
        let end = if b.len() - off > 20 {
            off + 20
        } else {
            b.len()
        };
        let mut chunk: Vec<u8> = Vec::new();
        let mut m = off;
        while m < end
            invariant
                off <= m <= end,
                end <= b@.len(),
                b@.len() <= usize::MAX,
                chunk@ == b@.subrange(off as int, m as int),
            decreases end - m,
        {
            chunk.push(b[m]);
            assert(chunk@ =~= b@.subrange(off as int, m + 1));
            m += 1;
        }
        let ghost pre = out.deep_view();
        let ghost cv = chunk@;
        let ghost tail = b@.skip(off as int);
        out.push(chunk);
        proof {
            assert(out.deep_view() =~~= pre + seq![cv]);
            if tail.len() <= 20 {
                assert(cv =~= tail);
                assert(b@.skip(end as int) =~= Seq::<u8>::empty());
                assert((pre + seq![cv]) + chunks20(b@.skip(end as int)) =~= pre + seq![tail]);
            } else {
                assert(cv =~= tail.subrange(0, 20));
                assert(tail.subrange(20, tail.len() as int) =~= b@.skip(end as int));
                assert((pre + seq![cv]) + chunks20(b@.skip(end as int)) =~= pre + (seq![
                    tail.subrange(0, 20),
                ] + chunks20(tail.subrange(20, tail.len() as int))));
            }
        }
        off = end;
    }
    proof {
        assert(b@.skip(off as int) =~= Seq::<u8>::empty());
        assert(out.deep_view() + chunks20(b@.skip(off as int)) =~= out.deep_view());
    }
    out
}

/// Converts a list node to owned text strings; any element failure
/// collapses into the list error.
pub fn node_as_string_list(n: &Node) -> (r: Result<Vec<String>, Error>)
    ensures
        match r {
            Ok(v) => spec_as_string_list(n@) == Ok::<Seq<Seq<char>>, ErrorV>(v.deep_view()),
            Err(e) => spec_as_string_list(n@) == Err::<Seq<Seq<char>>, ErrorV>(e@),
        },
{
    match n {
        Node::List(items) => {
            let ghost lv = views_of(items@);
            proof {
                lemma_views_of(items@);
                assert(lv.skip(0) =~= lv);
                assert(Seq::<Seq<char>>::empty() + Seq::<Seq<char>>::empty()
                    =~= Seq::<Seq<char>>::empty());
            }
            let mut out: Vec<String> = Vec::new();
            let mut k: usize = 0;
            while k < items.len()
                invariant
                    k <= items@.len(),
                    n@ == NodeV::List(lv),
                    lv == views_of(items@),
                    lv.len() == items@.len(),
                    forall|j: int| 0 <= j < items@.len() ==> lv[j] == node_view(items@[j]),
                    match spec_strings_of(lv.skip(k as int)) {
                        Ok(rest) => spec_strings_of(lv) == Ok::<Seq<Seq<char>>, ErrorV>(
                            out.deep_view() + rest,
                        ),
                        Err(e) => spec_strings_of(lv) == Err::<Seq<Seq<char>>, ErrorV>(e),
                    },
                decreases items@.len() - k,
            {
                proof {
                    assert(lv.skip(k as int)[0] == lv[k as int]);
                    assert(lv.skip(k as int).subrange(1, lv.skip(k as int).len() as int)
                        =~= lv.skip(k as int + 1));
                }
                match node_as_string(&items[k]) {
                    Err(_) => {
                        return Err(Error::NotAVec);
                    },
                    Ok(s) => {
                        let ghost pre = out.deep_view();
                        let ghost sv = s@;
                        out.push(s);
                        proof {
                            assert(out.deep_view() =~~= pre + seq![sv]);
                            match spec_strings_of(lv.skip(k as int + 1)) {
                                Ok(rest2) => {
                                    assert((pre + seq![sv]) + rest2 =~= pre + (seq![sv] + rest2));
                                },
                                Err(_) => {},
                            }
                        }
                        k += 1;
                    },
                }
            }
            proof {
                assert(lv.skip(k as int) =~= Seq::<NodeV>::empty());
                assert(out.deep_view() + Seq::<Seq<char>>::empty() =~= out.deep_view());
            }
            Ok(out)
        },
        _ => Err(Error::NotAVec),
    }
}

impl InfoMultiFile {
    /// Decode of one multi-file entry from a map node: a required
    /// `length` and a required `path`.
    pub fn from_bencode(n: &Node) -> (r: Result<InfoMultiFile, Error>)
        ensures
            match r {
                Ok(f) => spec_file_from(n@) == Ok::<InfoFileV, ErrorV>(f@),
                Err(e) => spec_file_from(n@) == Err::<InfoFileV, ErrorV>(e@),
            },
    {
        match n {
            Node::Dict(pairs) => {
                let lk = key_length_vec();
                let length = match dict_get(pairs, &lk) {
                    None => {
                        proof {
                            reveal_strlit("length");
                            assert("length"@ =~= name_length());
                        }
                        return Err(Error::DoesntContain("length"));
                    },
                    Some(ln) => match node_as_u64(ln) {
                        Err(e) => {
                            return Err(e);
                        },
                        Ok(v) => v,
                    },
                };
                let pk = key_path_vec();
                let path = match dict_get(pairs, &pk) {
                    None => {
                        proof {
                            reveal_strlit("path");
                            assert("path"@ =~= name_path());
                        }
                        return Err(Error::DoesntContain("path"));
                    },
                    Some(pn) => match node_as_string_list(pn) {
                        Err(e) => {
                            return Err(e);
                        },
                        Ok(p) => p,
                    },
                };
                Ok(InfoMultiFile { length, path })
            },
            _ => Err(Error::NotADict),
        }
    }
}

/// Converts a list node to owned multi-file entries; any element failure
/// collapses into the list error.
pub fn node_as_file_list(n: &Node) -> (r: Result<Vec<InfoMultiFile>, Error>)
    ensures
        match r {
            Ok(v) => spec_as_file_list(n@) == Ok::<Seq<InfoFileV>, ErrorV>(v.deep_view()),
            Err(e) => spec_as_file_list(n@) == Err::<Seq<InfoFileV>, ErrorV>(e@),
        },
{
    match n {
        Node::List(items) => {
            let ghost lv = views_of(items@);
            proof {
                lemma_views_of(items@);
                assert(lv.skip(0) =~= lv);
                assert(Seq::<InfoFileV>::empty() + Seq::<InfoFileV>::empty()
                    =~= Seq::<InfoFileV>::empty());
            }
            let mut out: Vec<InfoMultiFile> = Vec::new();
            let mut k: usize = 0;
            while k < items.len()
                invariant
                    k <= items@.len(),
                    n@ == NodeV::List(lv),
                    lv == views_of(items@),
                    lv.len() == items@.len(),
                    forall|j: int| 0 <= j < items@.len() ==> lv[j] == node_view(items@[j]),
                    match spec_files_of(lv.skip(k as int)) {
                        Ok(rest) => spec_files_of(lv) == Ok::<Seq<InfoFileV>, ErrorV>(
                            out.deep_view() + rest,
                        ),
                        Err(e) => spec_files_of(lv) == Err::<Seq<InfoFileV>, ErrorV>(e),
                    },
                decreases items@.len() - k,
            {
                proof {
                    assert(lv.skip(k as int)[0] == lv[k as int]);
                    assert(lv.skip(k as int).subrange(1, lv.skip(k as int).len() as int)
                        =~= lv.skip(k as int + 1));
                }
                match InfoMultiFile::from_bencode(&items[k]) {
                    Err(_) => {
                        return Err(Error::NotAVec);
                    },
                    Ok(f) => {
                        let ghost pre = out.deep_view();
                        let ghost fv = f@;
                        out.push(f);
                        proof {
                            assert(out.deep_view() =~~= pre + seq![fv]);
                            match spec_files_of(lv.skip(k as int + 1)) {
                                Ok(rest2) => {
                                    assert((pre + seq![fv]) + rest2 =~= pre + (seq![fv] + rest2));
                                },
                                Err(_) => {},
                            }
                        }
                        k += 1;
                    },
                }
            }
            proof {
                assert(lv.skip(k as int) =~= Seq::<NodeV>::empty());
                assert(out.deep_view() + Seq::<InfoFileV>::empty() =~= out.deep_view());
            }
            Ok(out)
        },
        _ => Err(Error::NotAVec),
    }
}

impl Info {
    /// Single-file layout: a `length` and no `files`.
    pub fn is_single_file(&self) -> (r: bool)
        ensures
            r == (self@.length is Some && self@.files is None),
    {
        self.length.is_some() && self.files.is_none()
    }

    /// Multi-file layout: a `files` list and no `length`.
    pub fn is_multiple_file(&self) -> (r: bool)
        ensures
            r == (self@.length is None && self@.files is Some),
    {
        self.length.is_none() && self.files.is_some()
    }

    /// Decode of the file layout from a map node, in the field order of
    /// `spec_info_from`.
    pub fn from_bencode(n: &Node) -> (r: Result<Info, Error>)
        ensures
            match r {
                Ok(iv) => spec_info_from(n@) == Ok::<InfoV, ErrorV>(iv@),
                Err(e) => spec_info_from(n@) == Err::<InfoV, ErrorV>(e@),
            },
    {
        match n {
            Node::Dict(pairs) => {
                let psk = key_pieces_vec();
                let pieces_bytes = match dict_get(pairs, &psk) {
                    None => {
                        proof {
                            reveal_strlit("pieces");
                            assert("pieces"@ =~= name_pieces());
                        }
                        return Err(Error::DoesntContain("pieces"));
                    },
                    Some(pn) => match node_as_bytes(pn) {
                        Err(e) => {
                            return Err(e);
                        },
                        Ok(pb) => pb,
                    },
                };
                let pieces = chunk_pieces(&pieces_bytes);
                let num_pieces = pieces.len() as u32;
                let plk = key_piece_length_vec();
                let piece_length = match dict_get(pairs, &plk) {
                    None => {
                        proof {
                            reveal_strlit("piece length");
                            assert("piece length"@ =~= name_piece_length());
                        }
                        return Err(Error::DoesntContain("piece length"));
                    },
                    Some(pln) => match node_as_u32(pln) {
                        Err(e) => {
                            return Err(e);
                        },
                        Ok(v) => v,
                    },
                };
                let nk = key_name_vec();
                let name = match dict_get(pairs, &nk) {
                    None => {
                        proof {
                            reveal_strlit("name");
                            assert("name"@ =~= name_name());
                        }
                        return Err(Error::DoesntContain("name"));
                    },
                    Some(nn) => match node_as_string(nn) {
                        Err(e) => {
                            return Err(e);
                        },
                        Ok(s) => s,
                    },
                };
                let lk = key_length_vec();
                let length = match dict_get(pairs, &lk) {
                    None => None,
                    Some(ln) => match node_as_u64(ln) {
                        Err(e) => {
                            return Err(e);
                        },
                        Ok(v) => Some(v),
                    },
                };
                let fk = key_files_vec();
                let files = match dict_get(pairs, &fk) {
                    None => None,
                    Some(fn_node) => match node_as_file_list(fn_node) {
                        Err(e) => {
                            return Err(e);
                        },
                        Ok(fs) => Some(fs),
                    },
                };
                Ok(Info { piece_length, pieces, num_pieces, name, length, files })
            },
            _ => Err(Error::NotADict),
        }
    }
}

impl MetaInfo {
    /// Decode of the descriptor from a map node: the raw `info` sub-node
    /// is re-serialized and hashed first, then the fields are decoded.
    pub fn from_bencode(n: &Node) -> (r: Result<MetaInfo, Error>)
        ensures
            match r {
                Ok(m) => spec_metainfo_from(n@) == Ok::<MetaInfoV, ErrorV>(m@),
                Err(e) => spec_metainfo_from(n@) == Err::<MetaInfoV, ErrorV>(e@),
            },
    {
        match n {
            Node::Dict(pairs) => {
                let ik = key_info_vec();
                let info_node = match dict_get(pairs, &ik) {
                    None => {
                        proof {
                            reveal_strlit("info");
                            assert("info"@ =~= name_info());
                        }
                        return Err(Error::DoesntContain("info"));
                    },
                    Some(inode) => inode,
                };
                let info_raw_bytes = encode_node(info_node);
                let info_hash = calculate_sha1_bytes(info_raw_bytes.as_slice());
                let ak = key_announce_vec();
                let announce = match dict_get(pairs, &ak) {
                    None => {
                        proof {
                            reveal_strlit("announce");
                            assert("announce"@ =~= name_announce());
                        }
                        return Err(Error::DoesntContain("announce"));
                    },
                    Some(an) => match node_as_string(an) {
                        Err(e) => {
                            return Err(e);
                        },
                        Ok(s) => s,
                    },
                };
                let info = match Info::from_bencode(info_node) {
                    Err(e) => {
                        return Err(e);
                    },
                    Ok(i) => i,
                };
                let ck = key_created_by_vec();
                let created_by = match dict_get(pairs, &ck) {
                    None => String::new(),
                    Some(cn) => match node_as_string(cn) {
                        Err(e) => {
                            return Err(e);
                        },
                        Ok(s) => s,
                    },
                };
                Ok(MetaInfo { announce, info, info_hash, created_by })
            },
            _ => Err(Error::NotADict),
        }
    }
}

/// Decode of a whole buffer into a descriptor: parse the document tree,
/// then decode the descriptor from its root.
pub fn parse_metainfo(bytes: &Vec<u8>) -> (r: Result<MetaInfo, Error>)
    ensures
        match r {
            Ok(m) => spec_parse_metainfo(bytes@) == Ok::<MetaInfoV, ErrorV>(m@),
            Err(e) => spec_parse_metainfo(bytes@) == Err::<MetaInfoV, ErrorV>(e@),
        },
{
    match decode_node(bytes.as_slice()) {
        None => Err(Error::DecodingError),
        Some(node) => MetaInfo::from_bencode(&node),
    }
}

} // verus!
