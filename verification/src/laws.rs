//! Facts about the canonical encoding: the shape of an encoding as a
//! function of its first byte, prefix-freedom, and injectivity. The public
//! lemmas here state the codec's global guarantees; the crate's own proofs
//! use them too.

use vstd::prelude::*;

use crate::model::be_bytes;
use crate::model::be_val;
use crate::model::enc;
use crate::model::enc_items;
use crate::model::rep;
use crate::model::rep_items;
use crate::model::wf;
use crate::model::Rlp;
use crate::model::Value;

verus! {

/// A positive number's minimal big-endian form is nonempty and has no
/// leading zero byte.
pub proof fn lemma_be_bytes_first_nonzero(n: nat)
    requires
        n >= 1,
    ensures
        be_bytes(n).len() >= 1,
        be_bytes(n)[0] != 0,
    decreases n,
{
    if n < 256 {
        assert(be_bytes(n) == be_bytes(0) + seq![(n % 256) as u8]);
        assert(be_bytes(n)[0] == n % 256);
    } else {
        lemma_be_bytes_first_nonzero(n / 256);
        assert(be_bytes(n)[0] == be_bytes(n / 256)[0]);
    }
}

/// Reading back the minimal big-endian form of `n` yields `n`.
pub proof fn lemma_be_bytes_val(n: nat)
    ensures
        be_val(be_bytes(n)) == n,
    decreases n,
{
    if n > 0 {
        lemma_be_bytes_val(n / 256);
        let s = be_bytes(n);
        assert(s.drop_last() =~= be_bytes(n / 256));
        assert(s.last() == (n % 256) as u8);
    }
}

/// A nonempty big-endian sequence without a leading zero denotes a positive
/// number.
pub proof fn lemma_be_val_pos(s: Seq<u8>)
    requires
        s.len() >= 1,
        s[0] != 0,
    ensures
        be_val(s) >= 1,
    decreases s.len(),
{
    if s.len() == 1 {
        assert(be_val(s) == be_val(s.drop_last()) * 256 + s.last());
        assert(s.last() == s[0]);
    } else {
        assert(s.drop_last()[0] == s[0]);
        lemma_be_val_pos(s.drop_last());
    }
}

/// A nonempty big-endian sequence without a leading zero is the minimal
/// form of the number it denotes: minimality checks during decode pin the
/// length bytes down exactly.
pub proof fn lemma_be_canonical(s: Seq<u8>)
    requires
        s.len() >= 1,
        s[0] != 0,
    ensures
        be_bytes(be_val(s)) == s,
    decreases s.len(),
{
    let v = be_val(s);
    assert(v == be_val(s.drop_last()) * 256 + s.last());
    if s.len() == 1 {
        assert(v == s[0]);
        assert(be_bytes(v) =~= be_bytes(v / 256) + seq![(v % 256) as u8]);
        assert(v / 256 == 0 && v % 256 == s[0]);
        assert(be_bytes(v) =~= s);
    } else {
        let d = s.drop_last();
        assert(d[0] == s[0]);
        lemma_be_val_pos(d);
        lemma_be_canonical(d);
        assert(v / 256 == be_val(d) && v % 256 == s.last());
        assert(v >= 1);
        assert(be_bytes(v) == be_bytes(v / 256) + seq![(v % 256) as u8]);
        assert(be_bytes(v) =~= s);
    }
}

/// A length that fits the wire format's 8-byte length field has a minimal
/// big-endian form of at most 8 bytes.
pub proof fn lemma_be_bytes_len8(n: nat)
    requires
        n <= u64::MAX,
    ensures
        be_bytes(n).len() <= 8,
{
    reveal_with_fuel(be_bytes, 10);
    let n1 = n / 256;
    let n2 = n1 / 256;
    let n3 = n2 / 256;
    let n4 = n3 / 256;
    let n5 = n4 / 256;
    let n6 = n5 / 256;
    let n7 = n6 / 256;
    let n8 = n7 / 256;
    assert(n8 == 0);
}

/// Every encoding is nonempty: each item contributes at least one byte.
pub proof fn lemma_enc_nonempty(r: Rlp)
    ensures
        enc(r).len() >= 1,
{
    match r {
        Rlp::Bytes(s) => {},
        Rlp::List(items) => {},
    }
}

/// How the first bytes of an encoding determine its layout: the class of
/// the item, where its length and content stand, and the total length.
pub proof fn lemma_enc_shape(r: Rlp)
    requires
        wf(r),
    ensures
        enc(r).len() >= 1,
        r matches Rlp::Bytes(b) ==> ({
            let s = enc(r);
            &&& (b.len() == 1 && b[0] < 0x80) ==> s == b && s.len() == 1 && s[0] < 0x80
            &&& (!(b.len() == 1 && b[0] < 0x80) && b.len() <= 55) ==> ({
                &&& s.len() == 1 + b.len()
                &&& s[0] == 0x80 + b.len()
                &&& s.subrange(1, s.len() as int) == b
                &&& b.len() == 1 ==> s[1] >= 0x80
            })
            &&& b.len() > 55 ==> ({
                let lb = be_bytes(b.len());
                &&& 1 <= lb.len() <= 8
                &&& s[0] == 0xb7 + lb.len()
                &&& s.len() == 1 + lb.len() + b.len()
                &&& s.subrange(1, 1 + lb.len() as int) == lb
                &&& s[1] != 0
                &&& s.subrange(1 + lb.len() as int, s.len() as int) == b
                &&& be_val(lb) == b.len()
            })
        }),
        r matches Rlp::List(items) ==> ({
            let s = enc(r);
            let p = enc_items(items, 0);
            &&& p.len() <= 55 ==> ({
                &&& s.len() == 1 + p.len()
                &&& s[0] == 0xc0 + p.len()
                &&& s.subrange(1, s.len() as int) == p
            })
            &&& p.len() > 55 ==> ({
                let lb = be_bytes(p.len());
                &&& 1 <= lb.len() <= 8
                &&& s[0] == 0xf7 + lb.len()
                &&& s.len() == 1 + lb.len() + p.len()
                &&& s.subrange(1, 1 + lb.len() as int) == lb
                &&& s[1] != 0
                &&& s.subrange(1 + lb.len() as int, s.len() as int) == p
                &&& be_val(lb) == p.len()
            })
        }),
{
    match r {
        Rlp::Bytes(b) => {
            let s = enc(r);
            if b.len() == 1 && b[0] < 0x80 {
            } else if b.len() <= 55 {
                assert(s == seq![(0x80 + b.len()) as u8] + b);
                assert(s.subrange(1, s.len() as int) =~= b);
            } else {
                let lb = be_bytes(b.len());
                lemma_be_bytes_first_nonzero(b.len());
                lemma_be_bytes_len8(b.len());
                lemma_be_bytes_val(b.len());
                assert(s == seq![(0x80 + 55 + lb.len()) as u8] + lb + b);
                assert(s.subrange(1, 1 + lb.len() as int) =~= lb);
                assert(s.subrange(1 + lb.len() as int, s.len() as int) =~= b);
                assert(s[1] == lb[0]);
            }
        },
        Rlp::List(items) => {
            let s = enc(r);
            let p = enc_items(items, 0);
            if p.len() <= 55 {
                assert(s == seq![(0xc0 + p.len()) as u8] + p);
                assert(s.subrange(1, s.len() as int) =~= p);
            } else {
                let lb = be_bytes(p.len());
                lemma_be_bytes_first_nonzero(p.len());
                lemma_be_bytes_len8(p.len());
                lemma_be_bytes_val(p.len());
                assert(s == seq![(0xc0 + 55 + lb.len()) as u8] + lb + p);
                assert(s.subrange(1, 1 + lb.len() as int) =~= lb);
                assert(s.subrange(1 + lb.len() as int, s.len() as int) =~= p);
                assert(s[1] == lb[0]);
            }
        },
    }
}

/// No encoding is a strict prefix of another: the header bytes alone fix an
/// item's total length, so an encoding that starts another one is it.
pub proof fn lemma_prefix_free(a: Rlp, b: Rlp)
    requires
        wf(a),
        wf(b),
        enc(a).len() <= enc(b).len(),
        enc(a) == enc(b).subrange(0, enc(a).len() as int),
    ensures
        enc(a) == enc(b),
{
    let sa = enc(a);
    let sb = enc(b);
    lemma_enc_shape(a);
    lemma_enc_shape(b);
    assert forall|i: int| 0 <= i < sa.len() implies sa[i] == sb[i] by {
        assert(sa[i] == sb.subrange(0, sa.len() as int)[i]);
    }
    if sa.len() > 1 {
        let la = sa.len() as int;
        assert(sa.subrange(1, la) =~= sb.subrange(1, la));
        assert forall|j: int| 1 <= j <= la implies sa.subrange(1, j) =~= sb.subrange(1, j) by {
            assert forall|i: int| 0 <= i < j - 1 implies sa.subrange(1, j)[i] == sb.subrange(
                1,
                j,
            )[i] by {
                assert(sa.subrange(1, j)[i] == sa[i + 1]);
            }
        }
    }
    assert(sa.len() == sb.len());
    assert(sa =~= sb);
}

/// Equal encodings come from equal trees: the canonical encoding is
/// injective, which is what makes decoding well defined.
pub proof fn lemma_enc_injective(a: Rlp, b: Rlp)
    requires
        wf(a),
        wf(b),
        enc(a) == enc(b),
    ensures
        a == b,
    decreases a, 0int,
{
    lemma_enc_shape(a);
    lemma_enc_shape(b);
    let sa = enc(a);
    let sb = enc(b);
    assert(sa[0] == sb[0]);
    match (a, b) {
        (Rlp::Bytes(ba), Rlp::Bytes(bb)) => {
            if ba.len() == 1 && ba[0] < 0x80 {
                assert(sa == ba && sb == bb);
            } else if ba.len() <= 55 {
                assert(ba == sa.subrange(1, sa.len() as int));
                assert(bb == sb.subrange(1, sb.len() as int));
            } else {
                let lla = 1 + be_bytes(ba.len()).len() as int;
                assert(ba == sa.subrange(lla, sa.len() as int));
                assert(bb == sb.subrange(lla, sb.len() as int));
            }
            assert(ba == bb);
        },
        (Rlp::List(xs), Rlp::List(ys)) => {
            let p = enc_items(xs, 0);
            let q = enc_items(ys, 0);
            if p.len() <= 55 {
                assert(p == sa.subrange(1, sa.len() as int));
                assert(q == sb.subrange(1, sb.len() as int));
            } else {
                let lla = 1 + be_bytes(p.len()).len() as int;
                assert(p == sa.subrange(lla, sa.len() as int));
                assert(q == sb.subrange(lla, sb.len() as int));
            }
            assert(p == q);
            lemma_enc_items_injective(xs, 0, ys, 0);
            assert forall|k: int| 0 <= k < xs.len() implies xs[k] == ys[k] by {
                assert(xs[0 + k] == ys[0 + k]);
            }
            assert(xs =~= ys);
        },
        _ => {
            assert(false);
        },
    }
}

/// Equal concatenations of encodings, item by item: the tails of `xs` from
/// `i` and of `ys` from `j` encode to the same bytes only if they are the
/// same items.
pub proof fn lemma_enc_items_injective(xs: Seq<Rlp>, i: int, ys: Seq<Rlp>, j: int)
    requires
        0 <= i <= xs.len(),
        0 <= j <= ys.len(),
        forall|k: int| i <= k < xs.len() ==> wf(#[trigger] xs[k]),
        forall|k: int| j <= k < ys.len() ==> wf(#[trigger] ys[k]),
        enc_items(xs, i) == enc_items(ys, j),
    ensures
        xs.len() - i == ys.len() - j,
        forall|k: int| 0 <= k < xs.len() - i ==> #[trigger] xs[i + k] == ys[j + k],
    decreases xs, xs.len() - i,
{
    if i == xs.len() {
        if j < ys.len() {
            lemma_enc_nonempty(ys[j]);
            assert(enc_items(ys, j).len() >= 1);
            assert(false);
        }
    } else {
        if j == ys.len() {
            lemma_enc_nonempty(xs[i]);
            assert(false);
        }
        let ea = enc(xs[i]);
        let eb = enc(ys[j]);
        let ra = enc_items(xs, i + 1);
        let rb = enc_items(ys, j + 1);
        assert(ea + ra == eb + rb);
        if ea.len() <= eb.len() {
            assert forall|t: int| 0 <= t < ea.len() implies ea[t] == eb.subrange(
                0,
                ea.len() as int,
            )[t] by {
                assert(ea[t] == (ea + ra)[t]);
                assert(eb[t] == (eb + rb)[t]);
            }
            assert(ea =~= eb.subrange(0, ea.len() as int));
            lemma_prefix_free(xs[i], ys[j]);
        } else {
            assert forall|t: int| 0 <= t < eb.len() implies eb[t] == ea.subrange(
                0,
                eb.len() as int,
            )[t] by {
                assert(ea[t] == (ea + ra)[t]);
                assert(eb[t] == (eb + rb)[t]);
            }
            assert(eb =~= ea.subrange(0, eb.len() as int));
            lemma_prefix_free(ys[j], xs[i]);
        }
        assert(ea == eb);
        lemma_enc_injective(xs[i], ys[j]);
        assert forall|t: int| 0 <= t < ra.len() implies ra[t] == rb[t] by {
            assert((ea + ra)[ea.len() + t] == ra[t]);
            assert((eb + rb)[eb.len() + t] == rb[t]);
        }
        assert(ra =~= rb);
        lemma_enc_items_injective(xs, i + 1, ys, j + 1);
        assert forall|k: int| 0 <= k < xs.len() - i implies #[trigger] xs[i + k] == ys[j + k] by {
            if k > 0 {
                assert(xs[i + 1 + (k - 1)] == ys[j + 1 + (k - 1)]);
            }
        }
    }
}

/// Parsing a list payload is confluent: when the encodings of `ys` (from
/// `j`) form a prefix of the encodings of `xs` (from `i`), the bytes past
/// that prefix are exactly the encodings of a tail of `xs`.
pub proof fn lemma_enc_items_remainder(xs: Seq<Rlp>, i: int, ys: Seq<Rlp>, j: int)
    requires
        0 <= i <= xs.len(),
        0 <= j <= ys.len(),
        forall|k: int| i <= k < xs.len() ==> wf(#[trigger] xs[k]),
        forall|k: int| j <= k < ys.len() ==> wf(#[trigger] ys[k]),
        enc_items(ys, j).len() <= enc_items(xs, i).len(),
        enc_items(ys, j) == enc_items(xs, i).subrange(0, enc_items(ys, j).len() as int),
    ensures
        exists|k: int|
            i <= k <= xs.len() && enc_items(xs, k) == enc_items(xs, i).subrange(
                enc_items(ys, j).len() as int,
                enc_items(xs, i).len() as int,
            ),
    decreases ys.len() - j,
{
    let p = enc_items(xs, i);
    let q = enc_items(ys, j);
    if j == ys.len() {
        assert(p.subrange(0, p.len() as int) =~= p);
        assert(enc_items(xs, i) == p.subrange(q.len() as int, p.len() as int));
    } else {
        lemma_enc_nonempty(ys[j]);
        if i == xs.len() {
            assert(false);
        }
        let ea = enc(xs[i]);
        let eb = enc(ys[j]);
        let ra = enc_items(xs, i + 1);
        let rb = enc_items(ys, j + 1);
        assert forall|t: int| 0 <= t < q.len() implies q[t] == p[t] by {
            assert(q[t] == p.subrange(0, q.len() as int)[t]);
        }
        if ea.len() <= eb.len() {
            assert forall|t: int| 0 <= t < ea.len() implies ea[t] == eb.subrange(
                0,
                ea.len() as int,
            )[t] by {
                assert(ea[t] == (ea + ra)[t]);
                assert(eb[t] == (eb + rb)[t]);
            }
            assert(ea =~= eb.subrange(0, ea.len() as int));
            lemma_prefix_free(xs[i], ys[j]);
        } else {
            assert forall|t: int| 0 <= t < eb.len() implies eb[t] == ea.subrange(
                0,
                eb.len() as int,
            )[t] by {
                assert(ea[t] == (ea + ra)[t]);
                assert(eb[t] == (eb + rb)[t]);
            }
            assert(eb =~= ea.subrange(0, eb.len() as int));
            lemma_prefix_free(ys[j], xs[i]);
        }
        assert(ea == eb);
        assert forall|t: int| 0 <= t < rb.len() implies rb[t] == ra.subrange(
            0,
            rb.len() as int,
        )[t] by {
            assert(rb[t] == (eb + rb)[eb.len() + t]);
            assert(ra[t] == (ea + ra)[ea.len() + t]);
            assert(q[eb.len() + t] == p[ea.len() + t]);
        }
        assert(rb =~= ra.subrange(0, rb.len() as int));
        lemma_enc_items_remainder(xs, i + 1, ys, j + 1);
        let k = choose|k: int|
            i + 1 <= k <= xs.len() && enc_items(xs, k) == ra.subrange(
                rb.len() as int,
                ra.len() as int,
            );
        assert forall|t: int| 0 <= t < p.len() - q.len() implies ra.subrange(
            rb.len() as int,
            ra.len() as int,
        )[t] == p.subrange(q.len() as int, p.len() as int)[t] by {
            assert(ra.subrange(rb.len() as int, ra.len() as int)[t] == ra[rb.len() + t]);
            assert(ra[rb.len() + t] == (ea + ra)[ea.len() + rb.len() + t]);
            assert(p.subrange(q.len() as int, p.len() as int)[t] == p[q.len() + t]);
        }
        assert(ra.subrange(rb.len() as int, ra.len() as int) =~= p.subrange(
            q.len() as int,
            p.len() as int,
        ));
        assert(enc_items(xs, k) == p.subrange(q.len() as int, p.len() as int));
    }
}

/// Appending one item appends its encoding.
pub proof fn lemma_enc_items_push(items: Seq<Rlp>, x: Rlp, i: int)
    requires
        0 <= i <= items.len(),
    ensures
        enc_items(items.push(x), i) == enc_items(items, i) + enc(x),
    decreases items.len() - i,
{
    if i == items.len() {
        assert(items.push(x)[i] == x);
        assert(enc_items(items.push(x), i + 1) =~= Seq::<u8>::empty());
        assert(enc_items(items, i) =~= Seq::<u8>::empty());
        assert(enc_items(items.push(x), i) =~= enc_items(items, i) + enc(x));
    } else {
        assert(items.push(x)[i] == items[i]);
        lemma_enc_items_push(items, x, i + 1);
        assert(enc_items(items.push(x), i) =~= enc_items(items, i) + enc(x));
    }
}

/// The ghost items of a value sequence: length and elementwise description.
pub proof fn lemma_rep_items_props(vs: Seq<Value>, i: int)
    requires
        0 <= i <= vs.len(),
    ensures
        rep_items(vs, i).len() == vs.len() - i,
        forall|k: int|
            0 <= k < vs.len() - i ==> #[trigger] rep_items(vs, i)[k] == rep(vs[i + k]),
    decreases vs.len() - i,
{
    if i < vs.len() {
        lemma_rep_items_props(vs, i + 1);
        assert forall|k: int|
            0 <= k < vs.len() - i implies #[trigger] rep_items(vs, i)[k] == rep(vs[i + k]) by {
            if k == 0 {
                assert(rep_items(vs, i)[0] == rep(vs[i]));
            } else {
                assert(rep_items(vs, i)[k] == rep_items(vs, i + 1)[k - 1]);
                assert(rep_items(vs, i + 1)[k - 1] == rep(vs[i + 1 + (k - 1)]));
            }
        }
    }
}

/// Pushing a value onto a sequence pushes its ghost tree.
pub proof fn lemma_rep_items_snoc(vs: Seq<Value>, v: Value)
    ensures
        rep_items(vs.push(v), 0) == rep_items(vs, 0).push(rep(v)),
{
    lemma_rep_items_props(vs, 0);
    lemma_rep_items_props(vs.push(v), 0);
    assert forall|k: int|
        0 <= k < vs.len() + 1 implies rep_items(vs.push(v), 0)[k] == rep_items(vs, 0).push(
        rep(v),
    )[k] by {
        assert(rep_items(vs.push(v), 0)[k] == rep(vs.push(v)[0 + k]));
        if k < vs.len() {
            assert(vs.push(v)[k] == vs[k]);
            assert(rep_items(vs, 0)[k] == rep(vs[0 + k]));
        } else {
            assert(vs.push(v)[k] == v);
        }
    }
    assert(rep_items(vs.push(v), 0) =~= rep_items(vs, 0).push(rep(v)));
}

/// Canonical uniqueness, both ways: two well-formed trees encode to the
/// same bytes exactly when they are the same tree. Re-encoding a value can
/// therefore only ever reproduce one fixed byte sequence, and — together
/// with the contracts of `encode` and `decode` — decoding an encoding gives
/// back precisely the value that was encoded.
pub proof fn lemma_encoding_unique(r1: Rlp, r2: Rlp)
    requires
        wf(r1),
        wf(r2),
    ensures
        enc(r1) == enc(r2) <==> r1 == r2,
{
    if enc(r1) == enc(r2) {
        lemma_enc_injective(r1, r2);
    }
}

/// A valid encoding followed by any nonempty trailing bytes encodes
/// nothing: decode must reject such input whole.
pub proof fn lemma_trailing_bytes_rejected(r: Rlp, extra: Seq<u8>)
    requires
        wf(r),
        extra.len() >= 1,
    ensures
        forall|w: Rlp| wf(w) ==> enc(w) != enc(r) + extra,
{
    assert forall|w: Rlp| wf(w) implies enc(w) != enc(r) + extra by {
        if enc(w) == enc(r) + extra {
            assert forall|t: int| 0 <= t < enc(r).len() implies enc(r)[t] == enc(w).subrange(
                0,
                enc(r).len() as int,
            )[t] by {
                assert(enc(w)[t] == (enc(r) + extra)[t]);
            }
            assert(enc(r) =~= enc(w).subrange(0, enc(r).len() as int));
            lemma_prefix_free(r, w);
            assert(enc(w).len() == enc(r).len() + extra.len());
            assert(false);
        }
    }
}

/// The single-byte optimization is mandatory: a one-byte value below 0x80
/// wrapped behind a 0x81 prefix is non-canonical, so no tree encodes to it
/// and decode rejects it.
pub proof fn lemma_prefixed_single_byte_rejected(b: u8)
    requires
        b < 0x80,
    ensures
        forall|w: Rlp| wf(w) ==> enc(w) != seq![0x81u8, b],
{
    assert forall|w: Rlp| wf(w) implies enc(w) != seq![0x81u8, b] by {
        if enc(w) == seq![0x81u8, b] {
            lemma_enc_shape(w);
            assert(enc(w)[0] == 0x81 && enc(w)[1] == b && enc(w).len() == 2);
            assert(false);
        }
    }
}

/// A header that declares more bytes than are present never starts a
/// canonical encoding: every encoding carries exactly the bytes its header
/// declares, so decode rejects truncated input.
pub proof fn lemma_truncated_rejected(t: Seq<u8>)
    requires
        t.len() >= 1,
        t[0] >= 0x80,
        0x80 <= t[0] <= 0xb7 ==> t.len() < 1 + (t[0] - 0x80),
        0xc0 <= t[0] <= 0xf7 ==> t.len() < 1 + (t[0] - 0xc0),
        0xb8 <= t[0] <= 0xbf ==> t.len() < 1 + (t[0] - 0xb7) || t.len() < 1 + (t[0] - 0xb7)
            + be_val(t.subrange(1, 1 + (t[0] - 0xb7))),
        0xf8 <= t[0] ==> t.len() < 1 + (t[0] - 0xf7) || t.len() < 1 + (t[0] - 0xf7) + be_val(
            t.subrange(1, 1 + (t[0] - 0xf7)),
        ),
    ensures
        forall|w: Rlp| wf(w) ==> enc(w) != t,
{
    assert forall|w: Rlp| wf(w) implies enc(w) != t by {
        if enc(w) == t {
            lemma_enc_shape(w);
        }
    }
}

/// 256 to the `k`-th power: the number of values a `k`-byte length field
/// can hold.
pub open spec fn pow256(k: nat) -> nat
    decreases k,
{
    if k == 0 {
        1nat
    } else {
        256 * pow256((k - 1) as nat)
    }
}

/// `pow256` grows with its argument.
pub proof fn lemma_pow256_mono(a: nat, b: nat)
    requires
        a <= b,
    ensures
        pow256(a) <= pow256(b),
    decreases b,
{
    if a < b {
        lemma_pow256_mono(a, (b - 1) as nat);
        assert(pow256(b) == 256 * pow256((b - 1) as nat));
        assert(pow256((b - 1) as nat) >= 1) by {
            lemma_pow256_mono(0, (b - 1) as nat);
        }
    }
}

/// What an encoding standing at `offset..end` of a byte sequence forces on
/// those bytes: the first byte classifies the item, every declared length is
/// present in full and minimally encoded, and `end` is where the header says
/// the item stops. Decode's rejection proofs all go through here.
pub proof fn lemma_item_at_shape(s: Seq<u8>, offset: int, end: int, r: Rlp)
    requires
        0 <= offset <= end <= s.len(),
        wf(r),
        enc(r) == s.subrange(offset, end),
    ensures
        end > offset,
        s[offset] < 0x80 ==> end == offset + 1,
        0x80 <= s[offset] <= 0xb7 ==> end == offset + 1 + (s[offset] - 0x80) && (s[offset]
            == 0x81 ==> s[offset + 1] >= 0x80),
        0xb8 <= s[offset] <= 0xbf ==> ({
            let llen = s[offset] - 0xb7;
            &&& s[offset + 1] != 0
            &&& end - offset > 1 + llen
            &&& be_val(s.subrange(offset + 1, offset + 1 + llen)) > 55
            &&& end == offset + 1 + llen + be_val(s.subrange(offset + 1, offset + 1 + llen))
        }),
        0xc0 <= s[offset] <= 0xf7 ==> end == offset + 1 + (s[offset] - 0xc0) && (r matches
            Rlp::List(items) && enc_items(items, 0) == s.subrange(offset + 1, end)),
        0xf8 <= s[offset] ==> ({
            let llen = s[offset] - 0xf7;
            &&& s[offset + 1] != 0
            &&& end - offset > 1 + llen
            &&& be_val(s.subrange(offset + 1, offset + 1 + llen)) > 55
            &&& end == offset + 1 + llen + be_val(s.subrange(offset + 1, offset + 1 + llen))
            &&& (r matches Rlp::List(items) && enc_items(items, 0) == s.subrange(
                offset + 1 + llen,
                end,
            ))
        }),
{
    lemma_enc_shape(r);
    let t = enc(r);
    assert forall|i: int| 0 <= i < t.len() implies t[i] == s[offset + i] by {
        assert(t[i] == s.subrange(offset, end)[i]);
    }
    assert forall|a: int, b: int| 0 <= a <= b <= t.len() implies t.subrange(a, b)
        =~= s.subrange(offset + a, offset + b) by {
        assert forall|i: int| 0 <= i < b - a implies t.subrange(a, b)[i] == s.subrange(
            offset + a,
            offset + b,
        )[i] by {
            assert(t.subrange(a, b)[i] == t[a + i]);
            assert(t[a + i] == s[offset + a + i]);
        }
    }
    match r {
        Rlp::Bytes(b) => {
            if b.len() == 1 && b[0] < 0x80 {
            } else if b.len() <= 55 {
            } else {
                let lb = be_bytes(b.len());
                assert(t.subrange(1, 1 + lb.len() as int) =~= s.subrange(
                    offset + 1,
                    offset + 1 + lb.len(),
                ));
            }
        },
        Rlp::List(items) => {
            let p = enc_items(items, 0);
            if p.len() <= 55 {
                assert(t.subrange(1, t.len() as int) =~= s.subrange(offset + 1, end));
            } else {
                let lb = be_bytes(p.len());
                assert(t.subrange(1, 1 + lb.len() as int) =~= s.subrange(
                    offset + 1,
                    offset + 1 + lb.len(),
                ));
                assert(t.subrange(1 + lb.len() as int, t.len() as int) =~= s.subrange(
                    offset + 1 + lb.len(),
                    end,
                ));
            }
        },
    }
}

} // verus!
