//! The wire format: a canonical byte serialization of document nodes and
//! a parser back, with a proof that parsing inverts serialization.
//!
//! An integer is written `i<decimal>e`, a byte string `<len>:<payload>`,
//! a list `l<items>e`, and a map `d<key value ...>e` with the pairs in
//! the order the node holds them.

use vstd::prelude::*;
use crate::node::{Node, NodeV, node_view, views_of, pair_views_of};
use crate::node::{lemma_views_of, lemma_pair_views_of, lemma_node_view_wf};

verus! {

broadcast use vstd::std_specs::vec::group_vec_axioms, vstd::seq::group_seq_axioms;

pub open spec fn is_digit(c: u8) -> bool {
    48 <= c <= 57
}

/// Decimal digits of `n`, most significant first; `0` is written `0`.
pub open spec fn dec_digits(n: int) -> Seq<u8>
    decreases n,
{
    if n <= 0 {
        seq![48u8]
    } else if n < 10 {
        seq![(48 + n) as u8]
    } else {
        dec_digits(n / 10) + seq![(48 + n % 10) as u8]
    }
}

/// The digits of an integer, with a leading `-` when it is negative.
pub open spec fn enc_int_body(i: int) -> Seq<u8> {
    if i < 0 {
        seq![45u8] + dec_digits(-i)
    } else {
        dec_digits(i)
    }
}

/// A byte string: its length in decimal, a colon, the payload.
pub open spec fn enc_str(b: Seq<u8>) -> Seq<u8> {
    dec_digits(b.len() as int) + seq![58u8] + b
}

/// The canonical encoding of a node.
pub open spec fn enc(n: NodeV) -> Seq<u8>
    decreases n, 0int,
{
    match n {
        NodeV::Int(i) => seq![105u8] + enc_int_body(i) + seq![101u8],
        NodeV::Bytes(b) => enc_str(b),
        NodeV::List(l) => seq![108u8] + enc_items(l, 0) + seq![101u8],
        NodeV::Dict(d) => seq![100u8] + enc_pairs(d, 0) + seq![101u8],
    }
}

/// The encodings of the items of `l` from position `k` on, concatenated.
pub open spec fn enc_items(l: Seq<NodeV>, k: int) -> Seq<u8>
    decreases l, l.len() - k,
{
    if k < 0 || k >= l.len() {
        Seq::empty()
    } else {
        enc(l[k]) + enc_items(l, k + 1)
    }
}

/// The encodings of the pairs of `d` from position `k` on, concatenated.
pub open spec fn enc_pairs(d: Seq<(Seq<u8>, NodeV)>, k: int) -> Seq<u8>
    decreases d, d.len() - k,
{
    if k < 0 || k >= d.len() {
        Seq::empty()
    } else {
        enc_str(d[k].0) + enc(d[k].1) + enc_pairs(d, k + 1)
    }
}

/// Reads a run of decimal digits starting at `i`, accumulating onto `acc`;
/// fails if the value ever exceeds `bound`; stops at the first non-digit.
pub open spec fn scan_digits(s: Seq<u8>, i: int, acc: int, bound: int) -> Option<(int, int)>
    decreases s.len() - i,
{
    if 0 <= i < s.len() && is_digit(s[i]) {
        let acc2 = acc * 10 + (s[i] - 48);
        if acc2 > bound {
            None
        } else {
            scan_digits(s, i + 1, acc2, bound)
        }
    } else {
        Some((acc, i))
    }
}

/// Parses a byte string (`<len>:<payload>`) starting at `i`.
pub open spec fn dec_str_at(s: Seq<u8>, i: int) -> Option<(Seq<u8>, int)> {
    if 0 <= i < s.len() && is_digit(s[i]) {
        match scan_digits(s, i, 0, s.len() as int) {
            Some((len, j)) => if j < s.len() && s[j] == 58 && j + 1 + len <= s.len() {
                Some((s.subrange(j + 1, j + 1 + len), j + 1 + len))
            } else {
                None
            },
            None => None,
        }
    } else {
        None
    }
}

/// The magnitude bound on parsed integers: they must fit a signed 64-bit value.
pub open spec fn int_bound() -> int {
    0x8000_0000_0000_0000
}

/// Parses the body of an integer (after the `i`), up to and including the `e`.
pub open spec fn dec_int_at(s: Seq<u8>, i: int) -> Option<(int, int)> {
    let neg = 0 <= i < s.len() && s[i] == 45;
    let start = if neg { i + 1 } else { i };
    if 0 <= start < s.len() && is_digit(s[start]) {
        match scan_digits(s, start, 0, int_bound()) {
            Some((m, j)) => if j < s.len() && s[j] == 101 {
                if neg {
                    if m == 0 {
                        None
                    } else {
                        Some((-m, j + 1))
                    }
                } else {
                    if m == int_bound() {
                        None
                    } else {
                        Some((m, j + 1))
                    }
                }
            } else {
                None
            },
            None => None,
        }
    } else {
        None
    }
}

/// Parses one node starting at `i`; yields the node and the next position.
pub open spec fn dec_at(s: Seq<u8>, i: int) -> Option<(NodeV, int)>
    decreases s.len() - i, 0int,
{
    if i < 0 || i >= s.len() {
        None
    } else if s[i] == 105 {
        match dec_int_at(s, i + 1) {
            Some((v, j)) => Some((NodeV::Int(v), j)),
            None => None,
        }
    } else if is_digit(s[i]) {
        match dec_str_at(s, i) {
            Some((b, j)) => Some((NodeV::Bytes(b), j)),
            None => None,
        }
    } else if s[i] == 108 {
        match dec_items_at(s, i + 1) {
            Some((l, j)) => Some((NodeV::List(l), j)),
            None => None,
        }
    } else if s[i] == 100 {
        match dec_pairs_at(s, i + 1) {
            Some((d, j)) => Some((NodeV::Dict(d), j)),
            None => None,
        }
    } else {
        None
    }
}

/// Parses list items up to the closing `e`.
pub open spec fn dec_items_at(s: Seq<u8>, i: int) -> Option<(Seq<NodeV>, int)>
    decreases s.len() - i, 1int,
{
    if i < 0 || i >= s.len() {
        None
    } else if s[i] == 101 {
        Some((Seq::empty(), i + 1))
    } else {
        match dec_at(s, i) {
            Some((n, j)) => if i < j <= s.len() {
                match dec_items_at(s, j) {
                    Some((rest, k)) => Some((seq![n] + rest, k)),
                    None => None,
                }
            } else {
                None
            },
            None => None,
        }
    }
}

/// Parses map pairs up to the closing `e`.
pub open spec fn dec_pairs_at(s: Seq<u8>, i: int) -> Option<(Seq<(Seq<u8>, NodeV)>, int)>
    decreases s.len() - i, 1int,
{
    if i < 0 || i >= s.len() {
        None
    } else if s[i] == 101 {
        Some((Seq::empty(), i + 1))
    } else {
        match dec_str_at(s, i) {
            Some((key, j)) => if i < j <= s.len() {
                match dec_at(s, j) {
                    Some((v, k)) => if j < k <= s.len() {
                        match dec_pairs_at(s, k) {
                            Some((rest, end)) => Some((seq![(key, v)] + rest, end)),
                            None => None,
                        }
                    } else {
                        None
                    },
                    None => None,
                }
            } else {
                None
            },
            None => None,
        }
    }
}

/// Parses a whole buffer: one node, with nothing after it.
pub open spec fn dec(s: Seq<u8>) -> Option<NodeV> {
    match dec_at(s, 0) {
        Some((n, j)) => if j == s.len() {
            Some(n)
        } else {
            None
        },
        None => None,
    }
}

pub open spec fn all_digits(u: Seq<u8>) -> bool {
    forall|j: int| 0 <= j < u.len() ==> is_digit(#[trigger] u[j])
}

/// The value of a digit run read onto an accumulator, front first.
pub open spec fn num_acc(u: Seq<u8>, acc: int) -> int
    decreases u.len(),
{
    if u.len() == 0 {
        acc
    } else {
        num_acc(u.subrange(1, u.len() as int), acc * 10 + (u[0] - 48))
    }
}

proof fn lemma_num_acc_mono(u: Seq<u8>, acc: int)
    requires
        all_digits(u),
        acc >= 0,
    ensures
        num_acc(u, acc) >= acc,
    decreases u.len(),
{
    if u.len() > 0 {
        lemma_num_acc_mono(u.subrange(1, u.len() as int), acc * 10 + (u[0] - 48));
    }
}

proof fn lemma_num_acc_snoc(u: Seq<u8>, c: u8, acc: int)
    ensures
        num_acc(u + seq![c], acc) == num_acc(u, acc) * 10 + (c - 48),
    decreases u.len(),
{
    if u.len() == 0 {
        reveal_with_fuel(num_acc, 2);
        assert((u + seq![c])[0] == c);
        assert((u + seq![c]).subrange(1, 1) =~= Seq::<u8>::empty());
    } else {
        let v = u + seq![c];
        assert(v.subrange(1, v.len() as int) =~= u.subrange(1, u.len() as int) + seq![c]);
        lemma_num_acc_snoc(u.subrange(1, u.len() as int), c, acc * 10 + (u[0] - 48));
    }
}

proof fn lemma_dec_digits_shape(n: int)
    requires
        n >= 0,
    ensures
        all_digits(dec_digits(n)),
        dec_digits(n).len() >= 1,
        num_acc(dec_digits(n), 0) == n,
    decreases n,
{
    if n < 10 {
        reveal_with_fuel(num_acc, 2);
        assert(dec_digits(n).subrange(1, 1) =~= Seq::<u8>::empty());
    } else {
        lemma_dec_digits_shape(n / 10);
        lemma_num_acc_snoc(dec_digits(n / 10), (48 + n % 10) as u8, 0);
        assert(all_digits(dec_digits(n / 10) + seq![(48 + n % 10) as u8]));
    }
}

/// Scanning a digit run whose value stays within `bound`, followed by a
/// non-digit, yields exactly that value and stops right after the run.
proof fn lemma_scan_complete(s: Seq<u8>, i: int, acc: int, bound: int, u: Seq<u8>)
    requires
        0 <= i,
        i + u.len() <= s.len(),
        s.subrange(i, i + u.len()) == u,
        all_digits(u),
        acc >= 0,
        num_acc(u, acc) <= bound,
        i + u.len() == s.len() || !is_digit(s[i + u.len()]),
    ensures
        scan_digits(s, i, acc, bound) == Some((num_acc(u, acc), i + u.len())),
    decreases u.len(),
{
    if u.len() == 0 {
    } else {
        assert(s[i] == u[0]);
        let acc2 = acc * 10 + (u[0] - 48);
        let u2 = u.subrange(1, u.len() as int);
        lemma_num_acc_mono(u2, acc2);
        assert(num_acc(u, acc) == num_acc(u2, acc2));
        assert(s.subrange(i + 1, i + 1 + u2.len()) =~= u2);
        lemma_scan_complete(s, i + 1, acc2, bound, u2);
    }
}

/// A buffer region equal to a concatenation splits into regions equal
/// to the two halves.
proof fn lemma_split_at(s: Seq<u8>, i: int, a: Seq<u8>, b: Seq<u8>)
    requires
        0 <= i,
        i + a.len() + b.len() <= s.len(),
        s.subrange(i, i + a.len() + b.len()) == a + b,
    ensures
        s.subrange(i, i + a.len()) == a,
        s.subrange(i + a.len(), i + a.len() + b.len()) == b,
{
    let x = a + b;
    assert forall|m: int| 0 <= m < x.len() implies s[i + m] == x[m] by {
        assert(s.subrange(i, i + x.len())[m] == s[i + m]);
    }
    assert(s.subrange(i, i + a.len()) =~= a);
    assert forall|m: int| 0 <= m < b.len() implies s.subrange(
        i + a.len(),
        i + a.len() + b.len(),
    )[m] == b[m] by {
        assert(x[a.len() + m] == b[m]);
        assert(s[i + (a.len() + m)] == x[a.len() + m]);
    }
    assert(s.subrange(i + a.len(), i + a.len() + b.len()) =~= b);
}

/// The single byte of a buffer region equal to a one-byte sequence.
proof fn lemma_byte_at(s: Seq<u8>, i: int, c: u8)
    requires
        0 <= i,
        i + 1 <= s.len(),
        s.subrange(i, i + 1) == seq![c],
    ensures
        s[i] == c,
{
    assert(s.subrange(i, i + 1)[0] == s[i]);
}

/// Parsing the encoding of a byte string yields that byte string.
proof fn lemma_dec_str_complete(s: Seq<u8>, i: int, b: Seq<u8>)
    requires
        0 <= i,
        i + enc_str(b).len() <= s.len(),
        s.subrange(i, i + enc_str(b).len()) == enc_str(b),
    ensures
        dec_str_at(s, i) == Some((b, i + enc_str(b).len())),
{
    let u = dec_digits(b.len() as int);
    lemma_dec_digits_shape(b.len() as int);
    lemma_split_at(s, i, u + seq![58u8], b);
    lemma_split_at(s, i, u, seq![58u8]);
    lemma_byte_at(s, i + u.len(), 58);
    assert(s[i] == u[0]) by {
        assert(s.subrange(i, i + u.len())[0] == s[i]);
    }
    lemma_num_acc_mono(u, 0);
    lemma_scan_complete(s, i, 0, s.len() as int, u);
    let j = i + u.len();
    assert(dec_str_at(s, i) == Some((s.subrange(j + 1, j + 1 + b.len()), j + 1 + b.len())));
}

/// Parsing the encoding of an integer in the 64-bit range yields that integer.
proof fn lemma_dec_int_complete(s: Seq<u8>, i: int, v: int)
    requires
        0 <= i,
        i64::MIN <= v <= i64::MAX,
        i + enc_int_body(v).len() + 1 <= s.len(),
        s.subrange(i, i + enc_int_body(v).len()) == enc_int_body(v),
        s[i + enc_int_body(v).len()] == 101,
    ensures
        dec_int_at(s, i) == Some((v, i + enc_int_body(v).len() + 1)),
{
    if v < 0 {
        let u = dec_digits(-v);
        lemma_dec_digits_shape(-v);
        lemma_split_at(s, i, seq![45u8], u);
        lemma_byte_at(s, i, 45);
        assert(s[i + 1] == u[0]) by {
            assert(s.subrange(i + 1, i + 1 + u.len())[0] == s[i + 1]);
        }
        lemma_scan_complete(s, i + 1, 0, int_bound(), u);
    } else {
        let u = dec_digits(v);
        lemma_dec_digits_shape(v);
        assert(s[i] == u[0]) by {
            assert(s.subrange(i, i + u.len())[0] == s[i]);
        }
        assert(!(s[i] == 45));
        lemma_scan_complete(s, i, 0, int_bound(), u);
    }
}

/// Every encoding is non-empty and opens with the tag of its kind,
/// which is never the terminator `e`.
proof fn lemma_enc_first(n: NodeV)
    ensures
        enc(n).len() >= 1,
        match n {
            NodeV::Int(_) => enc(n)[0] == 105,
            NodeV::Bytes(_) => is_digit(enc(n)[0]),
            NodeV::List(_) => enc(n)[0] == 108,
            NodeV::Dict(_) => enc(n)[0] == 100,
        },
{
    match n {
        NodeV::Bytes(b) => {
            lemma_dec_digits_shape(b.len() as int);
        },
        _ => {},
    }
}

/// Parsing the encoding of a well-formed node, embedded anywhere in a
/// buffer, yields that node and consumes exactly its encoding.
pub proof fn lemma_dec_enc(n: NodeV, s: Seq<u8>, i: int)
    requires
        n.wf(),
        0 <= i,
        i + enc(n).len() <= s.len(),
        s.subrange(i, i + enc(n).len()) == enc(n),
    ensures
        dec_at(s, i) == Some((n, i + enc(n).len())),
    decreases n, 0int,
{
    match n {
        NodeV::Int(v) => {
            let body = enc_int_body(v);
            lemma_split_at(s, i, seq![105u8] + body, seq![101u8]);
            lemma_split_at(s, i, seq![105u8], body);
            lemma_byte_at(s, i, 105);
            lemma_byte_at(s, i + 1 + body.len(), 101);
            lemma_dec_int_complete(s, i + 1, v);
        },
        NodeV::Bytes(b) => {
            lemma_dec_digits_shape(b.len() as int);
            assert(s[i] == enc_str(b)[0]) by {
                assert(s.subrange(i, i + enc_str(b).len())[0] == s[i]);
            }
            lemma_dec_str_complete(s, i, b);
        },
        NodeV::List(l) => {
            let inner = enc_items(l, 0);
            lemma_split_at(s, i, seq![108u8] + inner, seq![101u8]);
            lemma_split_at(s, i, seq![108u8], inner);
            lemma_byte_at(s, i, 108);
            lemma_byte_at(s, i + 1 + inner.len(), 101);
            lemma_dec_enc_items(l, 0, s, i + 1);
            assert(l.subrange(0, l.len() as int) =~= l);
        },
        NodeV::Dict(d) => {
            let inner = enc_pairs(d, 0);
            lemma_split_at(s, i, seq![100u8] + inner, seq![101u8]);
            lemma_split_at(s, i, seq![100u8], inner);
            lemma_byte_at(s, i, 100);
            lemma_byte_at(s, i + 1 + inner.len(), 101);
            lemma_dec_enc_pairs(d, 0, s, i + 1);
            assert(d.subrange(0, d.len() as int) =~= d);
        },
    }
}

proof fn lemma_dec_enc_items(l: Seq<NodeV>, k: int, s: Seq<u8>, i: int)
    requires
        forall|j: int| 0 <= j < l.len() ==> (#[trigger] l[j]).wf(),
        0 <= k <= l.len(),
        0 <= i,
        i + enc_items(l, k).len() + 1 <= s.len(),
        s.subrange(i, i + enc_items(l, k).len()) == enc_items(l, k),
        s[i + enc_items(l, k).len()] == 101,
    ensures
        dec_items_at(s, i) == Some((l.subrange(k, l.len() as int), i + enc_items(l, k).len() + 1)),
    decreases l, l.len() - k,
{
    if k == l.len() {
        assert(l.subrange(k, l.len() as int) =~= Seq::<NodeV>::empty());
    } else {
        let e0 = enc(l[k]);
        let rest = enc_items(l, k + 1);
        lemma_split_at(s, i, e0, rest);
        lemma_enc_first(l[k]);
        assert(s[i] == e0[0]) by {
            assert(s.subrange(i, i + e0.len())[0] == s[i]);
        }
        assert(s[i] != 101);
        lemma_dec_enc(l[k], s, i);
        let j = i + e0.len();
        lemma_dec_enc_items(l, k + 1, s, j);
        assert(seq![l[k]] + l.subrange(k + 1, l.len() as int) =~= l.subrange(k, l.len() as int));
    }
}

proof fn lemma_dec_enc_pairs(d: Seq<(Seq<u8>, NodeV)>, k: int, s: Seq<u8>, i: int)
    requires
        forall|j: int| 0 <= j < d.len() ==> (#[trigger] d[j]).1.wf(),
        0 <= k <= d.len(),
        0 <= i,
        i + enc_pairs(d, k).len() + 1 <= s.len(),
        s.subrange(i, i + enc_pairs(d, k).len()) == enc_pairs(d, k),
        s[i + enc_pairs(d, k).len()] == 101,
    ensures
        dec_pairs_at(s, i) == Some((d.subrange(k, d.len() as int), i + enc_pairs(d, k).len() + 1)),
    decreases d, d.len() - k,
{
    if k == d.len() {
        assert(d.subrange(k, d.len() as int) =~= Seq::<(Seq<u8>, NodeV)>::empty());
    } else {
        let ek = enc_str(d[k].0);
        let ev = enc(d[k].1);
        let rest = enc_pairs(d, k + 1);
        lemma_split_at(s, i, ek + ev, rest);
        lemma_split_at(s, i, ek, ev);
        lemma_dec_digits_shape(d[k].0.len() as int);
        assert(s[i] == ek[0]) by {
            assert(s.subrange(i, i + ek.len())[0] == s[i]);
        }
        assert(s[i] != 101);
        lemma_dec_str_complete(s, i, d[k].0);
        let j = i + ek.len();
        lemma_dec_enc(d[k].1, s, j);
        let j2 = j + ev.len();
        lemma_dec_enc_pairs(d, k + 1, s, j2);
        assert(seq![(d[k].0, d[k].1)] + d.subrange(k + 1, d.len() as int) =~= d.subrange(
            k,
            d.len() as int,
        ));
        assert((d[k].0, d[k].1) == d[k]);
    }
}

/// Serialization is a faithful inverse of parsing: re-parsing the
/// canonical encoding of any well-formed node yields that node back.
pub proof fn lemma_round_trip(n: NodeV)
    requires
        n.wf(),
    ensures
        dec(enc(n)) == Some(n),
{
    assert(enc(n).subrange(0, enc(n).len() as int) =~= enc(n));
    lemma_dec_enc(n, enc(n), 0);
}

/// Round trip for every executable tree: decoding the encoding of any
/// node yields that node's model back.
pub proof fn lemma_round_trip_node(n: Node)
    ensures
        dec(enc(node_view(n))) == Some(node_view(n)),
{
    lemma_node_view_wf(n);
    lemma_round_trip(node_view(n));
}

/// The encodings of the items of `l` before position `k`, concatenated.
pub open spec fn enc_prefix(l: Seq<NodeV>, k: int) -> Seq<u8>
    decreases k,
{
    if k <= 0 || k > l.len() {
        Seq::empty()
    } else {
        enc_prefix(l, k - 1) + enc(l[k - 1])
    }
}

/// The encodings of the pairs of `d` before position `k`, concatenated.
pub open spec fn enc_pairs_prefix(d: Seq<(Seq<u8>, NodeV)>, k: int) -> Seq<u8>
    decreases k,
{
    if k <= 0 || k > d.len() {
        Seq::empty()
    } else {
        enc_pairs_prefix(d, k - 1) + enc_str(d[k - 1].0) + enc(d[k - 1].1)
    }
}

proof fn lemma_enc_prefix_items(l: Seq<NodeV>, k: int)
    requires
        0 <= k <= l.len(),
    ensures
        enc_prefix(l, k) + enc_items(l, k) == enc_items(l, 0),
    decreases k,
{
    if k == 0 {
        assert(enc_prefix(l, 0) + enc_items(l, 0) =~= enc_items(l, 0));
    } else {
        lemma_enc_prefix_items(l, k - 1);
        assert(enc_prefix(l, k) + enc_items(l, k) =~= enc_prefix(l, k - 1) + enc_items(l, k - 1));
    }
}

proof fn lemma_enc_prefix_pairs(d: Seq<(Seq<u8>, NodeV)>, k: int)
    requires
        0 <= k <= d.len(),
    ensures
        enc_pairs_prefix(d, k) + enc_pairs(d, k) == enc_pairs(d, 0),
    decreases k,
{
    if k == 0 {
        assert(enc_pairs_prefix(d, 0) + enc_pairs(d, 0) =~= enc_pairs(d, 0));
    } else {
        lemma_enc_prefix_pairs(d, k - 1);
        assert(enc_pairs_prefix(d, k) + enc_pairs(d, k) =~= enc_pairs_prefix(d, k - 1)
            + enc_pairs(d, k - 1));
    }
}

/// Appends the decimal digits of `n`, most significant first.
fn push_digits(out: &mut Vec<u8>, n: u64)
    ensures
        final(out)@ == old(out)@ + dec_digits(n as int),
    decreases n,
{
    if n < 10 {
        out.push((48 + n) as u8);
        assert(out@ =~= old(out)@ + dec_digits(n as int));
    } else {
        push_digits(out, n / 10);
        out.push((48 + n % 10) as u8);
        assert(out@ =~= old(out)@ + dec_digits(n as int));
    }
}

/// Appends the digits of `v`, with a leading `-` when it is negative.
fn push_int_body(out: &mut Vec<u8>, v: i64)
    ensures
        final(out)@ == old(out)@ + enc_int_body(v as int),
{
    if v < 0 {
        out.push(45);
        let m: u64 = (-(v as i128)) as u64;
        assert(m as int == -(v as int));
        push_digits(out, m);
        assert(out@ =~= old(out)@ + enc_int_body(v as int));
    } else {
        push_digits(out, v as u64);
    }
}

/// Appends every byte of `b`.
fn push_bytes(out: &mut Vec<u8>, b: &Vec<u8>)
    ensures
        final(out)@ == old(out)@ + b@,
{
    let mut k: usize = 0;
    while k < b.len()
        invariant
            k <= b.len(),
            out@ == old(out)@ + b@.subrange(0, k as int),
        decreases b.len() - k,
    {
        out.push(b[k]);
        assert(out@ =~= old(out)@ + b@.subrange(0, k + 1));
        k += 1;
    }
    assert(b@.subrange(0, b.len() as int) =~= b@);
}

/// Appends the encoding of a byte string (`<len>:<payload>`).
fn push_str(out: &mut Vec<u8>, b: &Vec<u8>)
    ensures
        final(out)@ == old(out)@ + enc_str(b@),
{
    push_digits(out, b.len() as u64);
    out.push(58);
    push_bytes(out, b);
    assert(out@ =~= old(out)@ + enc_str(b@));
}

/// Appends the canonical encoding of `n`.
pub fn encode_into(n: &Node, out: &mut Vec<u8>)
    ensures
        final(out)@ == old(out)@ + enc(n@),
    decreases enc(n@).len(),
{
    match n {
        Node::Int(i) => {
            out.push(105);
            push_int_body(out, *i);
            out.push(101);
            assert(out@ =~= old(out)@ + enc(n@));
        },
        Node::Bytes(b) => {
            push_str(out, b);
        },
        Node::List(items) => {
            out.push(108);
            let ghost l = views_of(items@);
            proof {
                lemma_views_of(items@);
            }
            let mut k: usize = 0;
            while k < items.len()
                invariant
                    k <= items.len(),
                    n@ == NodeV::List(l),
                    l == views_of(items@),
                    l.len() == items@.len(),
                    forall|j: int| 0 <= j < items@.len() ==> l[j] == node_view(items@[j]),
                    out@ == old(out)@ + seq![108u8] + enc_prefix(l, k as int),
                decreases items.len() - k,
            {
                proof {
                    lemma_enc_prefix_items(l, k as int);
                    assert(enc(l[k as int]).len() < enc(n@).len());
                }
                encode_into(&items[k], out);
                assert(out@ =~= old(out)@ + seq![108u8] + enc_prefix(l, k + 1));
                k += 1;
            }
            proof {
                lemma_enc_prefix_items(l, l.len() as int);
            }
            out.push(101);
            assert(out@ =~= old(out)@ + enc(n@));
        },
        Node::Dict(pairs) => {
            out.push(100);
            let ghost d = pair_views_of(pairs@);
            proof {
                lemma_pair_views_of(pairs@);
            }
            let mut k: usize = 0;
            while k < pairs.len()
                invariant
                    k <= pairs.len(),
                    n@ == NodeV::Dict(d),
                    d == pair_views_of(pairs@),
                    d.len() == pairs@.len(),
                    forall|j: int|
                        0 <= j < pairs@.len() ==> d[j] == (pairs@[j].0@, node_view(pairs@[j].1)),
                    out@ == old(out)@ + seq![100u8] + enc_pairs_prefix(d, k as int),
                decreases pairs.len() - k,
            {
                proof {
                    lemma_enc_prefix_pairs(d, k as int);
                    assert(enc(d[k as int].1).len() < enc(n@).len());
                }
                let p = &pairs[k];
                push_str(out, &p.0);
                encode_into(&p.1, out);
                assert(out@ =~= old(out)@ + seq![100u8] + enc_pairs_prefix(d, k + 1));
                k += 1;
            }
            proof {
                lemma_enc_prefix_pairs(d, d.len() as int);
            }
            out.push(101);
            assert(out@ =~= old(out)@ + enc(n@));
        },
    }
}

/// The canonical encoding of a node, as a fresh buffer.
pub fn encode_node(n: &Node) -> (out: Vec<u8>)
    ensures
        out@ == enc(n@),
{
    let mut out: Vec<u8> = Vec::new();
    encode_into(n, &mut out);
    assert(out@ =~= enc(n@));
    out
}

/// Reads a digit run starting at `i`, mirroring `scan_digits` with an
/// accumulator start of zero.
fn scan_len(s: &[u8], i: usize, bound: u64) -> (r: Option<(u64, usize)>)
    requires
        i <= s@.len(),
    ensures
        match r {
            Some((v, j)) => scan_digits(s@, i as int, 0, bound as int) == Some(
                (v as int, j as int),
            ) && i <= j <= s@.len() && v <= bound,
            None => scan_digits(s@, i as int, 0, bound as int) is None,
        },
{
    let mut cur = i;
    let mut acc: u64 = 0;
    while cur < s.len() && 48 <= s[cur] && s[cur] <= 57
        invariant
            i <= cur <= s@.len(),
            acc <= bound,
            scan_digits(s@, i as int, 0, bound as int) == scan_digits(
                s@,
                cur as int,
                acc as int,
                bound as int,
            ),
        decreases s@.len() - cur,
    {
        let d = s[cur] - 48;
        let acc2: u128 = (acc as u128) * 10 + (d as u128);
        if acc2 > bound as u128 {
            return None;
        }
        acc = acc2 as u64;
        cur += 1;
    }
    Some((acc, cur))
}

/// Parses a byte string at `i`, mirroring `dec_str_at`.
fn parse_str(s: &[u8], i: usize) -> (r: Option<(Vec<u8>, usize)>)
    requires
        i < s@.len(),
    ensures
        match r {
            Some((b, j)) => dec_str_at(s@, i as int) == Some((b@, j as int)) && i < j
                <= s@.len(),
            None => dec_str_at(s@, i as int) is None,
        },
{
    if !(48 <= s[i] && s[i] <= 57) {
        return None;
    }
    let total = s.len();
    match scan_len(s, i, total as u64) {
        None => None,
        Some((len64, j)) => {
            if j < s.len() && s[j] == 58 {
                let rem = s.len() - (j + 1);
                if len64 <= rem as u64 {
                    let len = len64 as usize;
                    let mut b: Vec<u8> = Vec::new();
                    let mut m: usize = 0;
                    while m < len
                        invariant
                            m <= len,
                            s@.len() <= usize::MAX,
                            j + 1 + len <= s@.len(),
                            b@ == s@.subrange((j + 1) as int, (j + 1 + m) as int),
                        decreases len - m,
                    {
                        b.push(s[j + 1 + m]);
                        assert(b@ =~= s@.subrange((j + 1) as int, (j + 1 + m + 1) as int));
                        m += 1;
                    }
                    Some((b, j + 1 + len))
                } else {
                    None
                }
            } else {
                None
            }
        },
    }
}

/// Parses an integer body at `i` (after the `i` tag), mirroring `dec_int_at`.
fn parse_int(s: &[u8], i: usize) -> (r: Option<(i64, usize)>)
    requires
        i <= s@.len(),
    ensures
        match r {
            Some((v, j)) => dec_int_at(s@, i as int) == Some((v as int, j as int)) && i < j
                <= s@.len(),
            None => dec_int_at(s@, i as int) is None,
        },
{
    let neg = i < s.len() && s[i] == 45;
    let start = if neg {
        i + 1
    } else {
        i
    };
    if !(start < s.len() && 48 <= s[start] && s[start] <= 57) {
        return None;
    }
    match scan_len(s, start, 0x8000_0000_0000_0000u64) {
        None => None,
        Some((m, j)) => {
            if j < s.len() && s[j] == 101 {
                if neg {
                    if m == 0 {
                        None
                    } else {
                        let v = (-(m as i128)) as i64;
                        assert(v as int == -(m as int));
                        Some((v, j + 1))
                    }
                } else {
                    if m == 0x8000_0000_0000_0000u64 {
                        None
                    } else {
                        Some((m as i64, j + 1))
                    }
                }
            } else {
                None
            }
        },
    }
}

/// Parses one node at `i`, mirroring `dec_at`.
pub fn parse_at(s: &[u8], i: usize) -> (r: Option<(Node, usize)>)
    ensures
        match r {
            Some((n, j)) => dec_at(s@, i as int) == Some((n@, j as int)) && i < j <= s@.len(),
            None => dec_at(s@, i as int) is None,
        },
    decreases s@.len() - i,
{
    if i >= s.len() {
        return None;
    }
    let c = s[i];
    if c == 105 {
        match parse_int(s, i + 1) {
            Some((v, j)) => Some((Node::Int(v), j)),
            None => None,
        }
    } else if 48 <= c && c <= 57 {
        match parse_str(s, i) {
            Some((b, j)) => Some((Node::Bytes(b), j)),
            None => None,
        }
    } else if c == 108 {
        let mut items: Vec<Node> = Vec::new();
        let mut cur = i + 1;
        loop
            invariant
                i < cur <= s@.len(),
                i < s@.len(),
                s@[i as int] == 108,
                match dec_items_at(s@, cur as int) {
                    Some((rest, end)) => dec_items_at(s@, (i + 1) as int) == Some(
                        (views_of(items@) + rest, end),
                    ),
                    None => dec_items_at(s@, (i + 1) as int) is None,
                },
            decreases s@.len() - cur,
        {
            if cur >= s.len() {
                return None;
            }
            if s[cur] == 101 {
                proof {
                    assert(views_of(items@) + Seq::<NodeV>::empty() =~= views_of(items@));
                }
                return Some((Node::List(items), cur + 1));
            }
            match parse_at(s, cur) {
                None => {
                    return None;
                },
                Some((n, j)) => {
                    let ghost v_old = views_of(items@);
                    let ghost pre = items@;
                    let ghost nv = n@;
                    items.push(n);
                    proof {
                        assert(items@.subrange(0, items@.len() - 1) =~= pre);
                        assert(views_of(items@) == v_old + seq![nv]);
                        let r2 = dec_items_at(s@, j as int);
                        if r2 is Some {
                            let inner = r2->0;
                            let rest2 = inner.0;
                            assert((v_old + seq![nv]) + rest2 =~= v_old + (seq![nv] + rest2));
                        }
                    }
                    cur = j;
                },
            }
        }
    } else if c == 100 {
        let mut pairs: Vec<(Vec<u8>, Node)> = Vec::new();
        let mut cur = i + 1;
        loop
            invariant
                i < cur <= s@.len(),
                i < s@.len(),
                s@[i as int] == 100,
                match dec_pairs_at(s@, cur as int) {
                    Some((rest, end)) => dec_pairs_at(s@, (i + 1) as int) == Some(
                        (pair_views_of(pairs@) + rest, end),
                    ),
                    None => dec_pairs_at(s@, (i + 1) as int) is None,
                },
            decreases s@.len() - cur,
        {
            if cur >= s.len() {
                return None;
            }
            if s[cur] == 101 {
                proof {
                    assert(pair_views_of(pairs@) + Seq::<(Seq<u8>, NodeV)>::empty()
                        =~= pair_views_of(pairs@));
                }
                return Some((Node::Dict(pairs), cur + 1));
            }
            match parse_str(s, cur) {
                None => {
                    return None;
                },
                Some((key, j1)) => {
                    match parse_at(s, j1) {
                        None => {
                            return None;
                        },
                        Some((val, j2)) => {
                            let ghost d_old = pair_views_of(pairs@);
                            let ghost pre = pairs@;
                            let ghost kv = (key@, val@);
                            pairs.push((key, val));
                            proof {
                                assert(pairs@.subrange(0, pairs@.len() - 1) =~= pre);
                                assert(pair_views_of(pairs@) == d_old + seq![kv]);
                                let r2 = dec_pairs_at(s@, j2 as int);
                                if r2 is Some {
                                    let inner = r2->0;
                            let rest2 = inner.0;
                                    assert((d_old + seq![kv]) + rest2 =~= d_old + (seq![kv]
                                        + rest2));
                                }
                            }
                            cur = j2;
                        },
                    }
                },
            }
        }
    } else {
        None
    }
}

/// Parses a whole buffer into one node; rejects trailing bytes.
pub fn decode_node(s: &[u8]) -> (r: Option<Node>)
    ensures
        match r {
            Some(n) => dec(s@) == Some(n@),
            None => dec(s@) is None,
        },
{
    match parse_at(s, 0) {
        Some((n, j)) => if j == s.len() {
            Some(n)
        } else {
            None
        },
        None => None,
    }
}

} // verus!
