//! The decoder: recursive descent over a `(bytes, offset)` cursor, driven by
//! the first byte of each item. It returns the value a byte string
//! canonically encodes, and fails — with one uniform error — on every
//! malformed or non-canonical input: oversized declared lengths, non-minimal
//! length fields, a long form where the short form was owed, a prefixed
//! single byte that should stand bare, and trailing bytes.

use vstd::prelude::*;

use crate::laws::lemma_be_canonical;
use crate::laws::lemma_enc_items_push;
use crate::laws::lemma_enc_items_remainder;
use crate::laws::lemma_enc_nonempty;
use crate::laws::lemma_item_at_shape;
use crate::laws::lemma_pow256_mono;
use crate::laws::lemma_prefix_free;
use crate::laws::lemma_rep_items_snoc;
use crate::laws::pow256;
use crate::model::be_bytes;
use crate::model::be_val;
use crate::model::enc;
use crate::model::enc_items;
use crate::model::header;
use crate::model::rep_items;
use crate::model::wf;
use crate::model::Rlp;
use crate::model::Value;

verus! {

/// The uniform decode failure: the input is not the canonical encoding of
/// any value. The codec does not distinguish failure subkinds.
#[derive(Clone, Copy, PartialEq, Eq, Debug)]
pub struct DecodeError;

/// No well-formed tree's encoding occupies `s[start..end]` for any `end` up
/// to `limit`.
pub open spec fn no_item_at(s: Seq<u8>, start: int, limit: int) -> bool {
    forall|r: Rlp, end: int|
        #![trigger enc(r), s.subrange(start, end)]
        start <= end <= limit && wf(r) ==> enc(r) != s.subrange(start, end)
}

/// Read a long-form length field: `llen` big-endian bytes at `pos`.
fn read_be_len(input: &[u8], pos: usize, llen: usize) -> (l: u64)
    requires
        1 <= llen <= 8,
        pos + llen <= input@.len(),
    ensures
        l == be_val(input@.subrange(pos as int, pos + llen)),
{
    let n = input.len();
    let mut l: u64 = 0;
    let mut k: usize = 0;
    proof {
        assert(input@.subrange(pos as int, pos as int) =~= Seq::<u8>::empty());
    }
    while k < llen
        invariant
            k <= llen <= 8,
            n == input@.len(),
            pos + llen <= n,
            l == be_val(input@.subrange(pos as int, pos + k)),
            l < pow256(k as nat),
        decreases llen - k,
    {
        proof {
            lemma_pow256_mono(k as nat, 7);
            reveal_with_fuel(pow256, 9);
            assert(pow256(7nat) == 0x100000000000000);
        }
        let b = input[pos + k];
        let l2 = l * 256 + b as u64;
        proof {
            let pre = input@.subrange(pos as int, pos + k);
            let now = input@.subrange(pos as int, pos + k + 1);
            assert(now =~= pre.push(input@[pos + k]));
            assert(now.drop_last() =~= pre);
            assert(be_val(now) == be_val(pre) * 256 + input@[pos + k]);
        }
        l = l2;
        k = k + 1;
    }
    l
}

/// Copy `input[start..end]` into a fresh vector.
fn copy_range(input: &[u8], start: usize, end: usize) -> (out: Vec<u8>)
    requires
        start <= end <= input@.len(),
    ensures
        out@ == input@.subrange(start as int, end as int),
{
    let mut out: Vec<u8> = Vec::new();
    let mut k: usize = 0;
    while k < end - start
        invariant
            start <= end <= input@.len(),
            k <= end - start,
            out@ == input@.subrange(start as int, start + k),
        decreases end - start - k,
    {
        out.push(input[start + k]);
        proof {
            assert(out@ =~= input@.subrange(start as int, start + k + 1));
        }
        k = k + 1;
    }
    out
}

/// Decode one item whose encoding starts at `offset` and must stay within
/// `input[..limit]`; returns the value and the offset just past it. An error
/// means no well-formed value's encoding starts at `offset` there.
pub fn decode_item(input: &[u8], offset: usize, limit: usize) -> (r: Result<
    (Value, usize),
    DecodeError,
>)
    requires
        offset <= limit <= input@.len(),
    ensures
        r matches Ok((v, end)) ==> offset < end <= limit && wf(v@) && enc(v@)
            == input@.subrange(offset as int, end as int),
        r is Err ==> no_item_at(input@, offset as int, limit as int),
    decreases limit - offset, 0int,
{
    let ghost iv = input@;
    if offset >= limit {
        proof {
            assert forall|w: Rlp, end: int|
                #![trigger enc(w), iv.subrange(offset as int, end)]
                offset <= end <= limit && wf(w) implies enc(w) != iv.subrange(
                offset as int,
                end,
            ) by {
                lemma_enc_nonempty(w);
            }
        }
        return Err(DecodeError);
    }
    let b0 = input[offset];
    if b0 < 0x80 {
        // A bare byte stands for itself.
        let mut content: Vec<u8> = Vec::new();
        content.push(b0);
        let ghost cs = content@;
        let v = Value::Bytes(content);
        proof {
            assert(cs =~= seq![b0]);
            assert(enc(v@) =~= iv.subrange(offset as int, offset + 1));
        }
        Ok((v, offset + 1))
    } else if b0 <= 0xb7 {
        // Short byte string: length is in the prefix byte.
        let plen = (b0 - 0x80) as usize;
        if plen > limit - (offset + 1) {
            proof {
                assert forall|w: Rlp, end: int|
                    #![trigger enc(w), iv.subrange(offset as int, end)]
                    offset <= end <= limit && wf(w) implies enc(w) != iv.subrange(
                    offset as int,
                    end,
                ) by {
                    if enc(w) == iv.subrange(offset as int, end) {
                        lemma_item_at_shape(iv, offset as int, end, w);
                    }
                }
            }
            return Err(DecodeError);
        }
        let data_start = offset + 1;
        let end = data_start + plen;
        if plen == 1 && input[data_start] < 0x80 {
            // Non-canonical: a single byte below 0x80 must stand bare.
            proof {
                assert forall|w: Rlp, end2: int|
                    #![trigger enc(w), iv.subrange(offset as int, end2)]
                    offset <= end2 <= limit && wf(w) implies enc(w) != iv.subrange(
                    offset as int,
                    end2,
                ) by {
                    if enc(w) == iv.subrange(offset as int, end2) {
                        lemma_item_at_shape(iv, offset as int, end2, w);
                    }
                }
            }
            return Err(DecodeError);
        }
        let content = copy_range(input, data_start, end);
        let ghost cs = content@;
        let v = Value::Bytes(content);
        proof {
            assert(cs.len() == plen);
            assert(enc(v@) == header(0x80, plen as nat) + cs);
            assert(enc(v@) =~= iv.subrange(offset as int, end as int));
        }
        Ok((v, end))
    } else if b0 <= 0xbf {
        // Long byte string: the prefix gives the width of the length field.
        let llen = (b0 - 0xb7) as usize;
        match read_payload_bounds(input, offset, limit, llen) {
            Ok((data_start, end)) => {
                let content = copy_range(input, data_start, end);
                let ghost cs = content@;
                let v = Value::Bytes(content);
                proof {
                    let lb = iv.subrange(offset + 1, data_start as int);
                    lemma_be_canonical(lb);
                    assert(be_bytes(cs.len()) == lb);
                    assert(enc(v@) == header(0x80, cs.len()) + cs);
                    assert(header(0x80, cs.len()) =~= seq![b0] + lb);
                    assert(enc(v@) =~= iv.subrange(offset as int, end as int));
                }
                Ok((v, end))
            },
            Err(e) => Err(e),
        }
    } else if b0 <= 0xf7 {
        // Short list: payload length is in the prefix byte.
        let plen = (b0 - 0xc0) as usize;
        if plen > limit - (offset + 1) {
            proof {
                assert forall|w: Rlp, end: int|
                    #![trigger enc(w), iv.subrange(offset as int, end)]
                    offset <= end <= limit && wf(w) implies enc(w) != iv.subrange(
                    offset as int,
                    end,
                ) by {
                    if enc(w) == iv.subrange(offset as int, end) {
                        lemma_item_at_shape(iv, offset as int, end, w);
                    }
                }
            }
            return Err(DecodeError);
        }
        let pstart = offset + 1;
        let pend = pstart + plen;
        match decode_list_payload(input, pstart, pend) {
            Ok(children) => {
                let ghost items = rep_items(children@, 0);
                let v = Value::List(children);
                proof {
                    assert(enc(v@) == header(0xc0, (pend - pstart) as nat) + enc_items(items, 0));
                    assert(enc(v@) =~= iv.subrange(offset as int, pend as int));
                }
                Ok((v, pend))
            },
            Err(e) => {
                proof {
                    assert forall|w: Rlp, end: int|
                        #![trigger enc(w), iv.subrange(offset as int, end)]
                        offset <= end <= limit && wf(w) implies enc(w) != iv.subrange(
                        offset as int,
                        end,
                    ) by {
                        if enc(w) == iv.subrange(offset as int, end) {
                            lemma_item_at_shape(iv, offset as int, end, w);
                            assert(end == pend);
                        }
                    }
                }
                Err(DecodeError)
            },
        }
    } else {
        // Long list: like the long byte string, then parse the payload.
        let llen = (b0 - 0xf7) as usize;
        match read_payload_bounds(input, offset, limit, llen) {
            Ok((pstart, pend)) => {
                match decode_list_payload(input, pstart, pend) {
                    Ok(children) => {
                        let ghost items = rep_items(children@, 0);
                        let v = Value::List(children);
                        proof {
                            let lb = iv.subrange(offset + 1, pstart as int);
                            let p = enc_items(items, 0);
                            lemma_be_canonical(lb);
                            assert(be_bytes(p.len()) == lb);
                            assert(enc(v@) == header(0xc0, p.len()) + p);
                            assert(header(0xc0, p.len()) =~= seq![b0] + lb);
                            assert(enc(v@) =~= iv.subrange(offset as int, pend as int));
                        }
                        Ok((v, pend))
                    },
                    Err(e) => {
                        proof {
                            assert forall|w: Rlp, end: int|
                                #![trigger enc(w), iv.subrange(offset as int, end)]
                                offset <= end <= limit && wf(w) implies enc(w) != iv.subrange(
                                offset as int,
                                end,
                            ) by {
                                if enc(w) == iv.subrange(offset as int, end) {
                                    lemma_item_at_shape(iv, offset as int, end, w);
                                    assert(end == pend);
                                }
                            }
                        }
                        Err(DecodeError)
                    },
                }
            },
            Err(e) => Err(e),
        }
    }
}

/// Read and validate a long-form length field at `offset`: `llen` length
/// bytes after the prefix, minimally encoded, denoting a payload length
/// above 55 that fits before `limit`. Returns where the payload starts and
/// ends. An error means no well-formed value's encoding starts at `offset`.
fn read_payload_bounds(input: &[u8], offset: usize, limit: usize, llen: usize) -> (r: Result<
    (usize, usize),
    DecodeError,
>)
    requires
        offset < limit <= input@.len(),
        1 <= llen <= 8,
        input@[offset as int] == 0xb7 + llen || input@[offset as int] == 0xf7 + llen,
    ensures
        r matches Ok((pstart, pend)) ==> ({
            let lb = input@.subrange(offset + 1, pstart as int);
            &&& offset + 1 + llen == pstart <= pend <= limit
            &&& lb[0] != 0
            &&& be_val(lb) == pend - pstart > 55
        }),
        r is Err ==> no_item_at(input@, offset as int, limit as int),
{
    let ghost iv = input@;
    if llen > limit - (offset + 1) {
        // The length field itself is truncated.
        proof {
            assert forall|w: Rlp, end: int|
                #![trigger enc(w), iv.subrange(offset as int, end)]
                offset <= end <= limit && wf(w) implies enc(w) != iv.subrange(
                offset as int,
                end,
            ) by {
                if enc(w) == iv.subrange(offset as int, end) {
                    lemma_item_at_shape(iv, offset as int, end, w);
                }
            }
        }
        return Err(DecodeError);
    }
    let len_start = offset + 1;
    let pstart = len_start + llen;
    if input[len_start] == 0 {
        // Non-canonical: a length field never has a leading zero byte.
        proof {
            assert forall|w: Rlp, end: int|
                #![trigger enc(w), iv.subrange(offset as int, end)]
                offset <= end <= limit && wf(w) implies enc(w) != iv.subrange(
                offset as int,
                end,
            ) by {
                if enc(w) == iv.subrange(offset as int, end) {
                    lemma_item_at_shape(iv, offset as int, end, w);
                    assert(iv[offset + 1] != 0);
                }
            }
        }
        return Err(DecodeError);
    }
    let l = read_be_len(input, len_start, llen);
    if l <= 55 {
        // Non-canonical: a length up to 55 must use the short form.
        proof {
            assert forall|w: Rlp, end: int|
                #![trigger enc(w), iv.subrange(offset as int, end)]
                offset <= end <= limit && wf(w) implies enc(w) != iv.subrange(
                offset as int,
                end,
            ) by {
                if enc(w) == iv.subrange(offset as int, end) {
                    lemma_item_at_shape(iv, offset as int, end, w);
                }
            }
        }
        return Err(DecodeError);
    }
    if l > (limit - pstart) as u64 {
        // The declared payload exceeds the bytes that are present.
        proof {
            assert forall|w: Rlp, end: int|
                #![trigger enc(w), iv.subrange(offset as int, end)]
                offset <= end <= limit && wf(w) implies enc(w) != iv.subrange(
                offset as int,
                end,
            ) by {
                if enc(w) == iv.subrange(offset as int, end) {
                    lemma_item_at_shape(iv, offset as int, end, w);
                }
            }
        }
        return Err(DecodeError);
    }
    let plen = l as usize;
    Ok((pstart, pstart + plen))
}

/// Parse a list payload `input[pstart..pend]` into whole items, consuming it
/// exactly. An error means no sequence of well-formed items encodes to
/// precisely that byte range.
fn decode_list_payload(input: &[u8], pstart: usize, pend: usize) -> (r: Result<
    Vec<Value>,
    DecodeError,
>)
    requires
        pstart <= pend <= input@.len(),
    ensures
        r matches Ok(children) ==> ({
            let items = rep_items(children@, 0);
            &&& forall|k: int| 0 <= k < items.len() ==> wf(#[trigger] items[k])
            &&& enc_items(items, 0).len() <= u64::MAX
            &&& enc_items(items, 0) == input@.subrange(pstart as int, pend as int)
        }),
        r is Err ==> forall|items: Seq<Rlp>|
            #![trigger enc_items(items, 0)]
            (forall|k: int| 0 <= k < items.len() ==> wf(#[trigger] items[k])) ==> enc_items(
                items,
                0,
            ) != input@.subrange(pstart as int, pend as int),
    decreases pend - pstart, 1int,
{
    let ghost iv = input@;
    let mut children: Vec<Value> = Vec::new();
    let mut cur = pstart;
    proof {
        assert(enc_items(rep_items(children@, 0), 0) =~= iv.subrange(pstart as int, pstart as int));
    }
    while cur < pend
        invariant
            pstart <= cur <= pend <= iv.len(),
            iv == input@,
            forall|k: int|
                0 <= k < rep_items(children@, 0).len() ==> wf(
                    #[trigger] rep_items(children@, 0)[k],
                ),
            enc_items(rep_items(children@, 0), 0) == iv.subrange(pstart as int, cur as int),
        decreases pend - cur,
    {
        match decode_item(input, cur, pend) {
            Ok((v, end)) => {
                let ghost cs = rep_items(children@, 0);
                let ghost pre = children@;
                proof {
                    lemma_rep_items_snoc(pre, v);
                    lemma_enc_items_push(cs, v@, 0);
                }
                children.push(v);
                proof {
                    assert(rep_items(children@, 0) == cs.push(v@));
                    assert(enc_items(cs.push(v@), 0) == enc_items(cs, 0) + enc(v@));
                    assert(enc_items(cs, 0) + enc(v@) =~= iv.subrange(
                        pstart as int,
                        end as int,
                    ));
                    assert forall|k: int| 0 <= k < cs.push(v@).len() implies wf(
                        #[trigger] cs.push(v@)[k],
                    ) by {
                        if k < cs.len() {
                            assert(cs.push(v@)[k] == cs[k]);
                        } else {
                            assert(cs.push(v@)[k] == v@);
                        }
                    }
                }
                cur = end;
            },
            Err(_) => {
                proof {
                    let cs = rep_items(children@, 0);
                    assert forall|items: Seq<Rlp>|
                        #![trigger enc_items(items, 0)]
                        (forall|k: int| 0 <= k < items.len() ==> wf(#[trigger] items[k]))
                            implies enc_items(items, 0) != iv.subrange(
                        pstart as int,
                        pend as int,
                    ) by {
                        if enc_items(items, 0) == iv.subrange(pstart as int, pend as int) {
                            let q = enc_items(items, 0);
                            assert(enc_items(cs, 0).len() == cur - pstart);
                            assert forall|t: int| 0 <= t < cur - pstart implies enc_items(
                                cs,
                                0,
                            )[t] == q.subrange(0, (cur - pstart) as int)[t] by {
                                assert(enc_items(cs, 0)[t] == iv.subrange(
                                    pstart as int,
                                    cur as int,
                                )[t]);
                                assert(q[t] == iv.subrange(pstart as int, pend as int)[t]);
                            }
                            assert(enc_items(cs, 0) =~= q.subrange(0, (cur - pstart) as int));
                            lemma_enc_items_remainder(items, 0, cs, 0);
                            let k = choose|k: int|
                                0 <= k <= items.len() && enc_items(items, k) == q.subrange(
                                    (cur - pstart) as int,
                                    q.len() as int,
                                );
                            assert(enc_items(items, k).len() == pend - cur);
                            assert(k < items.len());
                            lemma_enc_nonempty(items[k]);
                            let e2 = enc(items[k]);
                            assert(enc_items(items, k) == e2 + enc_items(items, k + 1));
                            assert(e2.len() <= pend - cur);
                            assert forall|t: int| 0 <= t < e2.len() implies e2[t]
                                == iv.subrange(cur as int, cur + e2.len())[t] by {
                                assert(e2[t] == (e2 + enc_items(items, k + 1))[t]);
                                assert(enc_items(items, k)[t] == q.subrange(
                                    (cur - pstart) as int,
                                    q.len() as int,
                                )[t]);
                                assert(q[(cur - pstart) + t] == iv.subrange(
                                    pstart as int,
                                    pend as int,
                                )[(cur - pstart) + t]);
                            }
                            assert(e2 =~= iv.subrange(cur as int, cur + e2.len()));
                            assert(wf(items[k]));
                            assert(false);
                        }
                    }
                }
                return Err(DecodeError);
            },
        }
    }
    Ok(children)
}

/// Decode a byte string holding exactly one item. Success returns the one
/// well-formed value whose canonical encoding is the whole input — so a
/// decoded value re-encodes to the input byte for byte. Failure means no
/// value encodes to the input: truncated or oversized declared lengths,
/// non-minimal length fields, a long form where the short form was owed, a
/// prefixed single byte that should stand bare, trailing bytes, and any
/// other deviation from the canonical form all end here.
pub fn decode(input: &[u8]) -> (r: Result<Value, DecodeError>)
    ensures
        r matches Ok(v) ==> wf(v@) && enc(v@) == input@,
        r is Err ==> forall|w: Rlp| wf(w) ==> enc(w) != input@,
{
    let ghost iv = input@;
    let n = input.len();
    match decode_item(input, 0, n) {
        Ok((v, end)) => {
            if end == n {
                proof {
                    assert(iv.subrange(0, iv.len() as int) =~= iv);
                }
                Ok(v)
            } else {
                proof {
                    assert forall|w: Rlp| wf(w) implies enc(w) != iv by {
                        if enc(w) == iv {
                            assert forall|t: int| 0 <= t < end implies enc(v@)[t]
                                == enc(w).subrange(0, end as int)[t] by {
                                assert(enc(v@)[t] == iv.subrange(0, end as int)[t]);
                            }
                            assert(enc(v@) =~= enc(w).subrange(0, end as int));
                            lemma_prefix_free(v@, w);
                            assert(false);
                        }
                    }
                }
                Err(DecodeError)
            }
        },
        Err(_) => {
            proof {
                assert forall|w: Rlp| wf(w) implies enc(w) != iv by {
                    if enc(w) == iv {
                        assert(iv.subrange(0, iv.len() as int) =~= iv);
                        assert(enc(w) == iv.subrange(0, n as int));
                        assert(false);
                    }
                }
            }
            Err(DecodeError)
        },
    }
}

} // verus!
