//! The encoder: a [`Value`] tree in, its canonical RLP byte string out.
//! Encoding is total — every tree has exactly one canonical encoding — and
//! the contract pins the output to the byte: `out@ == enc(v@)`.

use vstd::prelude::*;

use crate::laws::lemma_be_bytes_len8;
use crate::laws::lemma_rep_items_props;
use crate::model::be_bytes;
use crate::model::enc;
use crate::model::enc_items;
use crate::model::header;
use crate::model::rep;
use crate::model::rep_items;
use crate::model::Value;

verus! {

/// The minimal big-endian bytes of `n`: empty for 0, no leading zero byte.
fn be_bytes_exec(n: usize) -> (out: Vec<u8>)
    ensures
        out@ == be_bytes(n as nat),
{
    let mut digits: Vec<u8> = Vec::new();
    let mut m = n;
    proof {
        assert(be_bytes(n as nat) =~= be_bytes(n as nat) + digits@.reverse());
    }
    while m > 0
        invariant
            be_bytes(n as nat) == be_bytes(m as nat) + digits@.reverse(),
        decreases m,
    {
        let ghost pre = digits@;
        digits.push((m % 256) as u8);
        proof {
            assert(digits@ == pre.push((m % 256) as u8));
            assert(digits@.reverse() =~= seq![(m % 256) as u8] + pre.reverse());
            assert(be_bytes(m as nat) == be_bytes((m / 256) as nat) + seq![(m % 256) as u8]);
            assert(be_bytes((m / 256) as nat) + digits@.reverse() =~= be_bytes(m as nat)
                + pre.reverse());
        }
        m = m / 256;
    }
    let mut out: Vec<u8> = Vec::new();
    let mut i = digits.len();
    while i > 0
        invariant
            i <= digits@.len(),
            out@.len() == digits@.len() - i,
            forall|j: int|
                0 <= j < out@.len() ==> #[trigger] out@[j] == digits@[digits@.len() - 1 - j],
        decreases i,
    {
        out.push(digits[i - 1]);
        i = i - 1;
    }
    proof {
        assert(out@ =~= digits@.reverse());
        assert(be_bytes(n as nat) =~= be_bytes(0nat) + digits@.reverse());
        assert(be_bytes(n as nat) =~= digits@.reverse());
    }
    out
}

/// Push the RLP length prefix for a payload of `plen` bytes onto `out`.
fn push_header(out: &mut Vec<u8>, base: u8, plen: usize)
    requires
        base == 0x80 || base == 0xc0,
    ensures
        final(out)@ == old(out)@ + header(base, plen as nat),
{
    if plen <= 55 {
        out.push(base + plen as u8);
        proof {
            assert(out@ =~= old(out)@ + header(base, plen as nat));
        }
    } else {
        proof {
            lemma_be_bytes_len8(plen as nat);
        }
        let mut lb = be_bytes_exec(plen);
        out.push(base + 55 + lb.len() as u8);
        out.append(&mut lb);
        proof {
            assert(out@ =~= old(out)@ + header(base, plen as nat));
        }
    }
}

/// Encode a value into its canonical RLP byte string. Total: encoding never
/// fails, and the result is the one canonical encoding of the tree. The
/// caller reads the byte count it charges for off the result's length.
pub fn encode(v: &Value) -> (out: Vec<u8>)
    ensures
        out@ == enc(v@),
    decreases *v,
{
    match v {
        Value::Bytes(b) => {
            if b.len() == 1 && b[0] < 0x80 {
                let mut out: Vec<u8> = Vec::new();
                out.push(b[0]);
                proof {
                    assert(out@ =~= b@);
                }
                out
            } else {
                let mut out: Vec<u8> = Vec::new();
                push_header(&mut out, 0x80, b.len());
                let ghost head = out@;
                let mut i: usize = 0;
                while i < b.len()
                    invariant
                        i <= b@.len(),
                        out@ == head + b@.subrange(0, i as int),
                        head == header(0x80, b@.len()),
                    decreases b@.len() - i,
                {
                    out.push(b[i]);
                    proof {
                        assert(out@ =~= head + b@.subrange(0, i + 1));
                    }
                    i = i + 1;
                }
                proof {
                    assert(b@.subrange(0, b@.len() as int) =~= b@);
                    assert(out@ == enc(v@));
                }
                out
            }
        },
        Value::List(vs) => {
            let ghost items = rep_items(vs@, 0);
            proof {
                lemma_rep_items_props(vs@, 0);
                assert(Seq::<u8>::empty() + enc_items(items, 0) =~= enc_items(items, 0));
            }
            let mut payload: Vec<u8> = Vec::new();
            let mut i: usize = 0;
            while i < vs.len()
                invariant
                    *v == Value::List(*vs),
                    i <= vs@.len(),
                    items == rep_items(vs@, 0),
                    items.len() == vs@.len(),
                    forall|k: int| 0 <= k < vs@.len() ==> #[trigger] items[k] == rep(vs@[k]),
                    payload@ + enc_items(items, i as int) == enc_items(items, 0),
                decreases vs@.len() - i,
            {
                let ghost pre = payload@;
                proof {
                    assert(decreases_to!(*v => v->List_0));
                    assert(v->List_0 == *vs);
                    assert(decreases_to!(*vs => vs@));
                    assert(decreases_to!(vs@ => vs@[i as int]));
                }
                let mut e = encode(&vs[i]);
                payload.append(&mut e);
                proof {
                    assert(items[i as int] == rep(vs@[0 + i]));
                    assert(enc_items(items, i as int) == enc(items[i as int]) + enc_items(
                        items,
                        i + 1,
                    ));
                    assert(payload@ + enc_items(items, i + 1) =~= pre + enc_items(
                        items,
                        i as int,
                    ));
                }
                i = i + 1;
            }
            proof {
                assert(enc_items(items, vs@.len() as int) =~= Seq::<u8>::empty());
                assert(payload@ + Seq::<u8>::empty() =~= payload@);
                assert(payload@ == enc_items(items, 0));
            }
            let mut out: Vec<u8> = Vec::new();
            push_header(&mut out, 0xc0, payload.len());
            out.append(&mut payload);
            proof {
                assert(out@ == enc(v@));
            }
            out
        },
    }
}

} // verus!
