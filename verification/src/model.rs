//! The value model shared by the encoder and the decoder, and the
//! mathematical description of the canonical RLP encoding.
//!
//! [`Value`] is the executable tree; [`Rlp`] is its ghost counterpart, the
//! type that every contract speaks of. [`enc`] maps an [`Rlp`] tree to the
//! one canonical byte sequence that encodes it.

use vstd::prelude::*;

verus! {

/// An RLP item as the host hands it to the codec: a leaf of raw octets or an
/// ordered list of nested items. Order in a list is significant and kept
/// exactly; the empty list and the empty byte string are distinct values.
#[derive(Debug, PartialEq, Eq)]
pub enum Value {
    Bytes(Vec<u8>),
    List(Vec<Value>),
}

/// The ghost counterpart of [`Value`]: the same two-variant tree over
/// mathematical sequences. Contracts and lemmas are stated over this type.
pub enum Rlp {
    Bytes(Seq<u8>),
    List(Seq<Rlp>),
}

/// The ghost tree that an executable [`Value`] stands for.
pub open spec fn rep(v: Value) -> Rlp
    decreases v, 0int,
{
    match v {
        Value::Bytes(b) => Rlp::Bytes(b@),
        Value::List(vs) => Rlp::List(rep_items(vs@, 0)),
    }
}

/// The ghost trees that the elements of `vs` from index `i` on stand for.
pub open spec fn rep_items(vs: Seq<Value>, i: int) -> Seq<Rlp>
    decreases vs, vs.len() - i,
{
    if 0 <= i < vs.len() {
        seq![rep(vs[i])] + rep_items(vs, i + 1)
    } else {
        Seq::empty()
    }
}

impl View for Value {
    type V = Rlp;

    open spec fn view(&self) -> Rlp {
        rep(*self)
    }
}

/// The minimal big-endian byte representation of `n`: no leading zero byte,
/// empty exactly when `n == 0`.
pub open spec fn be_bytes(n: nat) -> Seq<u8>
    decreases n,
{
    if n == 0 {
        Seq::empty()
    } else {
        be_bytes(n / 256) + seq![(n % 256) as u8]
    }
}

/// The number a big-endian byte sequence denotes.
pub open spec fn be_val(s: Seq<u8>) -> nat
    decreases s.len(),
{
    if s.len() == 0 {
        0nat
    } else {
        (be_val(s.drop_last()) * 256 + s.last()) as nat
    }
}

/// The two-tier RLP length prefix for a payload of `plen` bytes: one byte
/// `base + plen` when `plen` is at most 55, else `base + 55 + len(plen)`
/// followed by the minimal big-endian bytes of `plen`. `base` is `0x80` for
/// byte strings and `0xc0` for lists.
pub open spec fn header(base: u8, plen: nat) -> Seq<u8> {
    if plen <= 55 {
        seq![(base + plen) as u8]
    } else {
        seq![(base + 55 + be_bytes(plen).len()) as u8] + be_bytes(plen)
    }
}

/// A payload with its length prefix put in front.
pub open spec fn len_prefixed(base: u8, payload: Seq<u8>) -> Seq<u8> {
    header(base, payload.len()) + payload
}

/// The canonical RLP encoding of a tree: a single byte below `0x80` stands
/// for itself, any other byte string is length-prefixed with base `0x80`,
/// and a list is the concatenation of its children's encodings
/// length-prefixed with base `0xc0`.
pub open spec fn enc(r: Rlp) -> Seq<u8>
    decreases r, 0int,
{
    match r {
        Rlp::Bytes(s) => {
            if s.len() == 1 && s[0] < 0x80 {
                s
            } else {
                len_prefixed(0x80, s)
            }
        },
        Rlp::List(items) => len_prefixed(0xc0, enc_items(items, 0)),
    }
}

/// The concatenated encodings of `items` from index `i` on.
pub open spec fn enc_items(items: Seq<Rlp>, i: int) -> Seq<u8>
    decreases items, items.len() - i,
{
    if 0 <= i < items.len() {
        enc(items[i]) + enc_items(items, i + 1)
    } else {
        Seq::empty()
    }
}

/// A tree all of whose byte-string and list-payload lengths fit the wire
/// format's 8-byte length field. Every tree a finite machine can build is
/// well formed; the bound only rules out ghost trees so large that their
/// length field would collide with another prefix range.
pub open spec fn wf(r: Rlp) -> bool
    decreases r,
{
    match r {
        Rlp::Bytes(s) => s.len() <= u64::MAX,
        Rlp::List(items) => enc_items(items, 0).len() <= u64::MAX && forall|k: int|
            0 <= k < items.len() ==> wf(#[trigger] items[k]),
    }
}

} // verus!
