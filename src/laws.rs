use vstd::prelude::*;
use vstd::utf8::{encode_utf8, encode_utf8_decode_utf8, encode_utf8_valid_utf8};

use crate::deserialize::{fill_skips, SkipContext};
use crate::layout::{le_bytes, le_value, lemma_le_value_of_bytes};
use crate::model::{
    dec_field, dec_prefix, dec_texts, decode_body, enc_field, enc_prefix, enc_texts, encode_body,
    byte_sum, check_byte, decode, encode, handles_valid, lp, read_lp, read_text, schema_of, shape_of, DecState, EncState, FieldV, GraphV,
    Shape, SHARED_BACKREF, SHARED_INLINE, SHARED_INLINE_SECOND,
};

verus! {

/// Field `i` of `r` restores field `i` of `g`: a shared field points to an
/// equal value, a skipped field is present as skipped, any other field is
/// equal.
pub open spec fn field_restored(g: GraphV, r: GraphV, i: int) -> bool {
    match g.fields[i] {
        FieldV::Shared(h) => {
            &&& r.fields[i] is Shared
            &&& r.fields[i]->Shared_0 < r.shared.len()
            &&& r.shared[r.fields[i]->Shared_0 as int] == g.shared[h as int]
        },
        FieldV::Skip(_) => r.fields[i] is Skip,
        _ => r.fields[i] == g.fields[i],
    }
}

/// `r` is `g` restored: field by field as `field_restored` says, and two
/// shared fields of `r` own one value exactly when they did in `g`.
pub open spec fn restores(g: GraphV, r: GraphV) -> bool {
    &&& r.fields.len() == g.fields.len()
    &&& forall|i: int| 0 <= i < g.fields.len() ==> #[trigger] field_restored(g, r, i)
    &&& forall|i: int, j: int|
        0 <= i < g.fields.len() && 0 <= j < g.fields.len() && #[trigger] g.fields[i] is Shared
            && #[trigger] g.fields[j] is Shared ==> (g.fields[i]->Shared_0 == g.fields[j]->Shared_0
            <==> r.fields[i]->Shared_0 == r.fields[j]->Shared_0)
}

/// Writing a field only appends to what was written before.
proof fn lemma_enc_field_extends(shared: Seq<Seq<u8>>, f: FieldV, st: EncState)
    ensures
        enc_field(shared, f, st).out.len() >= st.out.len(),
        enc_field(shared, f, st).out.subrange(0, st.out.len() as int) == st.out,
        forall|h: nat| #[trigger] st.table.contains_key(h) ==> enc_field(shared, f, st).table.contains_key(h)
            && enc_field(shared, f, st).table[h] == st.table[h],
{
    let e = enc_field(shared, f, st);
    assert(e.out.subrange(0, st.out.len() as int) =~= st.out);
}

/// Each prefix of the fields writes a prefix of the archive.
proof fn lemma_enc_prefix_extends(g: GraphV, n: nat, m: nat)
    requires
        n <= m,
    ensures
        enc_prefix(g, m).out.len() >= enc_prefix(g, n).out.len(),
        enc_prefix(g, m).out.subrange(0, enc_prefix(g, n).out.len() as int) == enc_prefix(g, n).out,
    decreases m,
{
    if m > n {
        lemma_enc_prefix_extends(g, n, (m - 1) as nat);
        let a = enc_prefix(g, n).out;
        let b = enc_prefix(g, (m - 1) as nat).out;
        let c = enc_prefix(g, m).out;
        lemma_enc_field_extends(g.shared, g.fields[m - 1], enc_prefix(g, (m - 1) as nat));
        assert(c.subrange(0, a.len() as int) =~= b.subrange(0, a.len() as int));
    }
}

/// A window of `b` that lies within a known prefix `pre + x` reads as `x`.
proof fn lemma_window(b: Seq<u8>, pre: Seq<u8>, x: Seq<u8>, lo: int, hi: int)
    requires
        0 <= lo <= hi <= x.len(),
        b.len() >= pre.len() + x.len(),
        b.subrange(0, (pre.len() + x.len()) as int) == pre + x,
    ensures
        b.subrange(pre.len() as int + lo, pre.len() as int + hi) == x.subrange(lo, hi),
{
    assert forall|k: int| 0 <= k < hi - lo implies b.subrange(pre.len() as int + lo, pre.len() as int + hi)[k]
        == x.subrange(lo, hi)[k] by {
        assert(b[pre.len() + lo + k] == b.subrange(0, (pre.len() + x.len()) as int)[pre.len() + lo + k]);
        assert((pre + x)[pre.len() + lo + k] == x[lo + k]);
    }
    assert(b.subrange(pre.len() as int + lo, pre.len() as int + hi) =~= x.subrange(lo, hi));
}

/// A length-prefixed sequence within a known prefix reads back whole.
proof fn lemma_read_lp(b: Seq<u8>, pre: Seq<u8>, t: Seq<u8>)
    requires
        b.len() >= pre.len() + lp(t).len(),
        b.subrange(0, (pre.len() + lp(t).len()) as int) == pre + lp(t),
        b.len() <= u64::MAX,
    ensures
        read_lp(b, pre.len()) == Some((t, (pre.len() + lp(t).len()) as nat)),
{
    let x = lp(t);
    lemma_window(b, pre, x, 0, 8);
    assert(x.subrange(0, 8) =~= le_bytes(t.len() as u64));
    lemma_le_value_of_bytes(t.len() as u64);
    lemma_window(b, pre, x, 8, x.len() as int);
    assert(x.subrange(8, x.len() as int) =~= t);
}

/// A text list written by `enc_texts` reads back element by element.
proof fn lemma_dec_texts(b: Seq<u8>, pre: Seq<u8>, l: Seq<Seq<char>>, k: nat)
    requires
        k <= l.len(),
        b.len() >= pre.len() + enc_texts(l).len(),
        b.subrange(0, (pre.len() + enc_texts(l).len()) as int) == pre + enc_texts(l),
        b.len() <= u64::MAX,
    ensures
        dec_texts(b, pre.len(), k) == Some(
            (l.subrange(0, k as int), (pre.len() + enc_texts(l.subrange(0, k as int)).len()) as nat),
        ),
    decreases k,
{
    if k == 0 {
        assert(l.subrange(0, 0) =~= Seq::<Seq<char>>::empty());
    } else {
        lemma_dec_texts(b, pre, l, (k - 1) as nat);
        let lk = l.subrange(0, k as int);
        let lk1 = l.subrange(0, k - 1);
        assert(lk.drop_last() =~= lk1);
        let t = encode_utf8(l[k - 1]);
        assert(enc_texts(lk) == enc_texts(lk1) + lp(t));
        lemma_enc_texts_prefix(l, k);
        let pre2 = pre + enc_texts(lk1);
        assert(b.subrange(0, (pre2.len() + lp(t).len()) as int) == pre2 + lp(t)) by {
            let whole = pre + enc_texts(l);
            assert(b.subrange(0, (pre2.len() + lp(t).len()) as int) =~= whole.subrange(
                0,
                (pre2.len() + lp(t).len()) as int,
            ));
            assert(pre2 + lp(t) =~= pre + enc_texts(lk));
            let el = enc_texts(l);
            let ek = enc_texts(lk);
            assert forall|i: int| 0 <= i < pre.len() + ek.len() implies #[trigger] whole.subrange(
                0,
                (pre.len() + ek.len()) as int,
            )[i] == (pre + ek)[i] by {
                if i >= pre.len() {
                    assert(el.subrange(0, ek.len() as int)[i - pre.len()] == ek[i - pre.len()]);
                }
            }
            assert(whole.subrange(0, (pre2.len() + lp(t).len()) as int) =~= pre2 + lp(t));
        }
        lemma_read_lp(b, pre2, t);
        encode_utf8_valid_utf8(l[k - 1]);
        encode_utf8_decode_utf8(l[k - 1]);
        assert(lk =~= lk1.push(l[k - 1]));
    }
}

/// The encoding of a text list's first `k` elements is a prefix of the whole.
proof fn lemma_enc_texts_prefix(l: Seq<Seq<char>>, k: nat)
    requires
        k <= l.len(),
    ensures
        enc_texts(l).len() >= enc_texts(l.subrange(0, k as int)).len(),
        enc_texts(l).subrange(0, enc_texts(l.subrange(0, k as int)).len() as int) == enc_texts(
            l.subrange(0, k as int),
        ),
    decreases l.len(),
{
    if k < l.len() {
        let l1 = l.drop_last();
        assert(l1.subrange(0, k as int) =~= l.subrange(0, k as int));
        lemma_enc_texts_prefix(l1, k);
        let a = enc_texts(l.subrange(0, k as int));
        assert(enc_texts(l).subrange(0, a.len() as int) =~= enc_texts(l1).subrange(
            0,
            a.len() as int,
        ));
    } else {
        assert(l.subrange(0, k as int) =~= l);
    }
}

/// A text list's encoding has at least a length word per element.
proof fn lemma_enc_texts_len(l: Seq<Seq<char>>)
    ensures
        enc_texts(l).len() >= 8 * l.len(),
    decreases l.len(),
{
    if l.len() > 0 {
        lemma_enc_texts_len(l.drop_last());
    }
}

/// How a restored field stands to the written one, given the writer's table
/// and the reader's state.
spec fn field_rel(g: GraphV, e: EncState, d: DecState, i: int) -> bool {
    match g.fields[i] {
        FieldV::Shared(h) => e.table.contains_key(h) && d.fields[i] == FieldV::Shared(
            d.seen[e.table[h]],
        ),
        FieldV::Skip(_) => d.fields[i] is Skip,
        _ => d.fields[i] == g.fields[i],
    }
}

/// What the reader holds after the first `n` fields of an archive of `g`,
/// against what the writer held at that point.
spec fn rt_inv(g: GraphV, e: EncState, d: DecState, n: nat) -> bool {
    &&& d.pos == e.out.len()
    &&& d.fields.len() == n
    &&& forall|h: nat| #[trigger]
        e.table.contains_key(h) ==> {
            &&& h < g.shared.len()
            &&& e.table[h] < e.out.len()
            &&& d.seen.contains_key(e.table[h])
            &&& d.seen[e.table[h]] < d.pool.len()
            &&& d.pool[d.seen[e.table[h]] as int] == g.shared[h as int]
        }
    &&& forall|h1: nat, h2: nat|
        #[trigger] e.table.contains_key(h1) && #[trigger] e.table.contains_key(h2) && h1 != h2
            ==> d.seen[e.table[h1]] != d.seen[e.table[h2]]
    &&& forall|off: nat| #[trigger] d.seen.contains_key(off) ==> off < d.pos && d.seen[off] < d.pool.len()
    &&& forall|i: int| 0 <= i < n ==> #[trigger] field_rel(g, e, d, i)
}

/// Reading one field where the writer wrote it keeps the two in step.
proof fn lemma_step(g: GraphV, e: EncState, d: DecState, m: nat, b: Seq<u8>)
    requires
        handles_valid(g),
        m < g.fields.len(),
        b.len() <= u64::MAX,
        rt_inv(g, e, d, m),
        b.len() >= enc_field(g.shared, g.fields[m as int], e).out.len(),
        b.subrange(0, enc_field(g.shared, g.fields[m as int], e).out.len() as int) == enc_field(
            g.shared,
            g.fields[m as int],
            e,
        ).out,
    ensures
        dec_field(b, shape_of(g.fields[m as int]), d) is Some,
        rt_inv(
            g,
            enc_field(g.shared, g.fields[m as int], e),
            dec_field(b, shape_of(g.fields[m as int]), d)->0,
            m + 1,
        ),
{
    let f = g.fields[m as int];
    let e2 = enc_field(g.shared, f, e);
    let pos = e.out.len();
    match f {
        FieldV::Int(v) => {
            lemma_window(b, e.out, le_bytes(v), 0, 8);
            assert(le_bytes(v).subrange(0, 8) =~= le_bytes(v));
            lemma_le_value_of_bytes(v);
        },
        FieldV::Bytes(t) => {
            lemma_read_lp(b, e.out, t);
        },
        FieldV::Text(t) => {
            lemma_read_lp(b, e.out, encode_utf8(t));
            encode_utf8_valid_utf8(t);
            encode_utf8_decode_utf8(t);
        },
        FieldV::TextList(l) => {
            let pre = e.out + le_bytes(l.len() as u64);
            assert(e2.out =~= pre + enc_texts(l));
            lemma_enc_texts_len(l);
            assert(e2.out =~= e.out + (le_bytes(l.len() as u64) + enc_texts(l)));
            lemma_window(b, e.out, le_bytes(l.len() as u64) + enc_texts(l), 0, 8);
            assert((le_bytes(l.len() as u64) + enc_texts(l)).subrange(0, 8) =~= le_bytes(
                l.len() as u64,
            ));
            lemma_le_value_of_bytes(l.len() as u64);
            lemma_dec_texts(b, pre, l, l.len());
            assert(l.subrange(0, l.len() as int) =~= l);
        },
        FieldV::Shared(h) => {
            if e.table.contains_key(h) {
                let x = seq![SHARED_BACKREF] + le_bytes(e.table[h] as u64);
                assert(e2.out =~= e.out + x);
                lemma_window(b, e.out, x, 0, 1);
                lemma_window(b, e.out, x, 1, 9);
                assert(x.subrange(1, 9) =~= le_bytes(e.table[h] as u64));
                lemma_le_value_of_bytes(e.table[h] as u64);
                assert(b[pos as int] == b.subrange(pos as int, pos + 1int)[0]);
            } else {
                let blob = g.shared[h as int];
                let head = seq![SHARED_INLINE, SHARED_INLINE_SECOND];
                let x = head + lp(blob);
                assert(e2.out =~= e.out + x);
                lemma_window(b, e.out, x, 0, 2);
                assert(b[pos as int] == b.subrange(pos as int, pos + 2int)[0]);
                assert(b[pos + 1int] == b.subrange(pos as int, pos + 2int)[1]);
                assert(e2.out =~= (e.out + head) + lp(blob));
                lemma_read_lp(b, e.out + head, blob);
                let d2 = dec_field(b, Shape::Shared, d)->0;
                assert(d2.seen == d.seen.insert(pos, d.pool.len()));
                assert forall|i: int| 0 <= i < m + 1 implies #[trigger] field_rel(g, e2, d2, i) by {
                    if i < m {
                        assert(field_rel(g, e, d, i));
                        assert(d2.fields[i] == d.fields[i]);
                        if g.fields[i] is Shared {
                            let hi = g.fields[i]->Shared_0;
                            assert(e.table.contains_key(hi));
                            assert(e.table[hi] != pos);
                        }
                    }
                }
                assert forall|h1: nat, h2: nat|
                    #[trigger] e2.table.contains_key(h1) && #[trigger] e2.table.contains_key(h2)
                        && h1 != h2 implies d2.seen[e2.table[h1]] != d2.seen[e2.table[h2]] by {
                    if h1 != h && h2 != h {
                        assert(e.table.contains_key(h1) && e.table.contains_key(h2));
                    } else if h1 == h {
                        assert(e.table.contains_key(h2));
                    } else {
                        assert(e.table.contains_key(h1));
                    }
                }
                assert forall|hh: nat| #[trigger] e2.table.contains_key(hh) implies {
                    &&& hh < g.shared.len()
                    &&& e2.table[hh] < e2.out.len()
                    &&& d2.seen.contains_key(e2.table[hh])
                    &&& d2.seen[e2.table[hh]] < d2.pool.len()
                    &&& d2.pool[d2.seen[e2.table[hh]] as int] == g.shared[hh as int]
                } by {
                    if hh != h {
                        assert(e.table.contains_key(hh));
                        assert(e.table[hh] != pos);
                    } else {
                        assert(g.fields[m as int] is Shared);
                    }
                }
            }
        },
        FieldV::Skip(_) => {},
    }
    let d2 = dec_field(b, shape_of(f), d)->0;
    assert forall|i: int| 0 <= i < m + 1 implies #[trigger] field_rel(g, e2, d2, i) by {
        if i < m {
            assert(field_rel(g, e, d, i));
        }
    }
}

/// Reading the first `n` fields of an archive of `g` succeeds and keeps step
/// with the writer.
proof fn lemma_round_trip_prefix(g: GraphV, n: nat)
    requires
        handles_valid(g),
        n <= g.fields.len(),
        encode_body(g).len() <= u64::MAX,
    ensures
        dec_prefix(encode_body(g), schema_of(g), n) is Some,
        rt_inv(g, enc_prefix(g, n), dec_prefix(encode_body(g), schema_of(g), n)->0, n),
    decreases n,
{
    let b = encode_body(g);
    if n == 0 {
    } else {
        let m = (n - 1) as nat;
        lemma_round_trip_prefix(g, m);
        lemma_enc_prefix_extends(g, n, g.fields.len());
        assert(schema_of(g)[m as int] == shape_of(g.fields[m as int]));
        lemma_step(g, enc_prefix(g, m), dec_prefix(b, schema_of(g), m)->0, m, b);
    }
}

/// Reading a body back restores the record it was written from.
proof fn lemma_round_trip_body(g: GraphV)
    requires
        handles_valid(g),
        encode_body(g).len() <= u64::MAX,
    ensures
        decode_body(encode_body(g), schema_of(g)) is Some,
        restores(g, decode_body(encode_body(g), schema_of(g))->0),
{
    let n = g.fields.len();
    lemma_round_trip_prefix(g, n);
    let e = enc_prefix(g, n);
    let d = dec_prefix(encode_body(g), schema_of(g), n)->0;
    let r = decode_body(encode_body(g), schema_of(g))->0;
    assert forall|i: int| 0 <= i < g.fields.len() implies #[trigger] field_restored(g, r, i) by {
        assert(field_rel(g, e, d, i));
    }
    assert forall|i: int, j: int|
        0 <= i < g.fields.len() && 0 <= j < g.fields.len() && #[trigger] g.fields[i] is Shared
            && #[trigger] g.fields[j] is Shared implies (g.fields[i]->Shared_0
        == g.fields[j]->Shared_0 <==> r.fields[i]->Shared_0 == r.fields[j]->Shared_0) by {
        assert(field_rel(g, e, d, i));
        assert(field_rel(g, e, d, j));
        let hi = g.fields[i]->Shared_0;
        let hj = g.fields[j]->Shared_0;
        if hi != hj {
            assert(e.table.contains_key(hi) && e.table.contains_key(hj));
        }
    }
}

/// `g1` and `g2` differ at most in the values of their skipped fields.
pub open spec fn differ_in_skips_only(g1: GraphV, g2: GraphV) -> bool {
    &&& g1.shared == g2.shared
    &&& g1.fields.len() == g2.fields.len()
    &&& forall|i: int|
        0 <= i < g1.fields.len() ==> (#[trigger] g1.fields[i] is Skip && g2.fields[i] is Skip)
            || g1.fields[i] == g2.fields[i]
}

/// Records that differ only in skipped values have the same body.
proof fn lemma_skip_not_archived_body(g1: GraphV, g2: GraphV)
    requires
        differ_in_skips_only(g1, g2),
    ensures
        encode_body(g1) == encode_body(g2),
{
    lemma_skip_prefix(g1, g2, g1.fields.len());
}

proof fn lemma_skip_prefix(g1: GraphV, g2: GraphV, n: nat)
    requires
        differ_in_skips_only(g1, g2),
        n <= g1.fields.len(),
    ensures
        enc_prefix(g1, n) == enc_prefix(g2, n),
    decreases n,
{
    if n > 0 {
        lemma_skip_prefix(g1, g2, (n - 1) as nat);
        assert((g1.fields[n - 1] is Skip && g2.fields[n - 1] is Skip) || g1.fields[n - 1]
            == g2.fields[n - 1]);
    }
}

/// Two fields sharing one value make a shorter body than two copies.
proof fn lemma_sharing_shrinks_body(v: Seq<u8>)
    ensures
        encode_body(GraphV { shared: seq![v], fields: seq![FieldV::Shared(0), FieldV::Shared(0)] }).len()
            < encode_body(
            GraphV { shared: seq![v, v], fields: seq![FieldV::Shared(0), FieldV::Shared(1)] },
        ).len(),
{
    let g1 = GraphV { shared: seq![v], fields: seq![FieldV::Shared(0), FieldV::Shared(0)] };
    let g2 = GraphV { shared: seq![v, v], fields: seq![FieldV::Shared(0), FieldV::Shared(1)] };
    reveal_with_fuel(enc_prefix, 3);
    assert(enc_prefix(g1, 1).table.contains_key(0));
    assert(!enc_prefix(g2, 1).table.contains_key(1));
}

/// Reading one field only appends to what was read before.
proof fn lemma_dec_field_extends(b: Seq<u8>, s: Shape, st: DecState)
    requires
        dec_field(b, s, st) is Some,
    ensures
        ({
            let d = dec_field(b, s, st)->0;
            &&& d.pos >= st.pos
            &&& d.fields.len() == st.fields.len() + 1
            &&& d.fields.subrange(0, st.fields.len() as int) == st.fields
            &&& d.pool.len() >= st.pool.len()
            &&& d.pool.subrange(0, st.pool.len() as int) == st.pool
        }),
{
    let d = dec_field(b, s, st)->0;
    assert(d.fields.subrange(0, st.fields.len() as int) =~= st.fields);
    assert(d.pool.subrange(0, st.pool.len() as int) =~= st.pool);
    if s is TextList {
        let c = le_value(b.subrange(st.pos as int, st.pos + 8int)) as nat;
        lemma_dec_texts_advances(b, st.pos + 8, c);
    }
}

/// Reading texts never moves backwards, and each text list read back writes
/// exactly the bytes it was read from.
proof fn lemma_dec_texts_advances(b: Seq<u8>, p: nat, k: nat)
    requires
        p <= b.len(),
        dec_texts(b, p, k) is Some,
    ensures
        ({
            let (l, q) = dec_texts(b, p, k)->0;
            &&& p <= q <= b.len()
            &&& l.len() == k
            &&& enc_texts(l) == b.subrange(p as int, q as int)
        }),
    decreases k,
{
    if k == 0 {
        assert(b.subrange(p as int, p as int) =~= Seq::<u8>::empty());
    } else {
        lemma_dec_texts_advances(b, p, (k - 1) as nat);
        let (l0, q0) = dec_texts(b, p, (k - 1) as nat)->0;
        let (l, q) = dec_texts(b, p, k)->0;
        let (t, q1) = read_text(b, q0)->0;
        let raw = b.subrange(q0 + 8int, q as int);
        vstd::utf8::decode_utf8_encode_utf8(raw);
        let n = le_value(b.subrange(q0 as int, q0 + 8int));
        crate::layout::lemma_le_bytes_of_value(b.subrange(q0 as int, q0 + 8int));
        assert(l.drop_last() =~= l0);
        assert(raw.len() == n);
        assert(lp(encode_utf8(t)) =~= b.subrange(q0 as int, q as int));
        assert(enc_texts(l) =~= b.subrange(p as int, q as int));
    }
}

/// Reading the first `n` fields is part of reading all of them.
proof fn lemma_dec_prefix_extends(b: Seq<u8>, schema: Seq<Shape>, n: nat, m: nat)
    requires
        n <= m,
        dec_prefix(b, schema, m) is Some,
    ensures
        dec_prefix(b, schema, n) is Some,
        ({
            let d = dec_prefix(b, schema, n)->0;
            let dm = dec_prefix(b, schema, m)->0;
            &&& d.fields.len() == n
            &&& dm.fields.len() == m
            &&& dm.fields.subrange(0, n as int) == d.fields
            &&& dm.pool.len() >= d.pool.len()
            &&& dm.pool.subrange(0, d.pool.len() as int) == d.pool
        }),
    decreases m,
{
    if m == 0 {
    } else if n == m {
        lemma_dec_prefix_extends(b, schema, (m - 1) as nat, (m - 1) as nat);
        let d = dec_prefix(b, schema, (m - 1) as nat)->0;
        lemma_dec_field_extends(b, schema[m - 1], d);
        let dm = dec_prefix(b, schema, m)->0;
        assert(dm.fields.subrange(0, n as int) =~= dm.fields);
        assert(dm.pool.subrange(0, dm.pool.len() as int) =~= dm.pool);
    } else {
        lemma_dec_prefix_extends(b, schema, n, (m - 1) as nat);
        let d1 = dec_prefix(b, schema, (m - 1) as nat)->0;
        lemma_dec_field_extends(b, schema[m - 1], d1);
        let d = dec_prefix(b, schema, n)->0;
        let dm = dec_prefix(b, schema, m)->0;
        assert(dm.fields.subrange(0, n as int) =~= d1.fields.subrange(0, n as int));
        assert(dm.pool.subrange(0, d.pool.len() as int) =~= d1.pool.subrange(
            0,
            d.pool.len() as int,
        ));
    }
}

/// What the writer holds after re-writing the first fields of a record that
/// was read from `b`, against what the reader held at that point.
spec fn canon_inv(r: GraphV, e: EncState, d: DecState, b: Seq<u8>) -> bool {
    &&& d.pos <= b.len()
    &&& e.out == b.subrange(0, d.pos as int)
    &&& forall|off: nat| #[trigger]
        d.seen.contains_key(off) ==> {
            &&& off < d.pos
            &&& d.seen[off] < d.pool.len()
            &&& e.table.contains_key(d.seen[off])
            &&& e.table[d.seen[off]] == off
        }
    &&& forall|k: nat| #[trigger] e.table.contains_key(k) ==> k < d.pool.len()
    &&& d.pool.len() <= r.shared.len()
    &&& r.shared.subrange(0, d.pool.len() as int) == d.pool
}

/// Re-writing one field that was read from `b` writes the bytes it was read from.
proof fn lemma_canon_step(r: GraphV, e: EncState, d: DecState, b: Seq<u8>, s: Shape, f: FieldV)
    requires
        canon_inv(r, e, d, b),
        dec_field(b, s, d) is Some,
        f == dec_field(b, s, d)->0.fields.last(),
        dec_field(b, s, d)->0.pool.len() <= r.shared.len(),
        r.shared.subrange(0, dec_field(b, s, d)->0.pool.len() as int) == dec_field(b, s, d)->0.pool,
    ensures
        canon_inv(r, enc_field(r.shared, f, e), dec_field(b, s, d)->0, b),
{
    let d2 = dec_field(b, s, d)->0;
    let e2 = enc_field(r.shared, f, e);
    let pos = d.pos;
    match s {
        Shape::Int => {
            crate::layout::lemma_le_bytes_of_value(b.subrange(pos as int, pos + 8int));
            assert(e2.out =~= b.subrange(0, d2.pos as int));
        },
        Shape::Bytes => {
            crate::layout::lemma_le_bytes_of_value(b.subrange(pos as int, pos + 8int));
            assert(e2.out =~= b.subrange(0, d2.pos as int));
        },
        Shape::Text => {
            crate::layout::lemma_le_bytes_of_value(b.subrange(pos as int, pos + 8int));
            let raw = read_lp(b, pos)->0 .0;
            vstd::utf8::decode_utf8_encode_utf8(raw);
            assert(e2.out =~= b.subrange(0, d2.pos as int));
        },
        Shape::TextList => {
            crate::layout::lemma_le_bytes_of_value(b.subrange(pos as int, pos + 8int));
            let c = le_value(b.subrange(pos as int, pos + 8int)) as nat;
            lemma_dec_texts_advances(b, pos + 8, c);
            assert(e2.out =~= b.subrange(0, d2.pos as int));
        },
        Shape::Shared => {
            if pos + 1 < b.len() && b[pos as int] == SHARED_INLINE && b[pos + 1int]
                == SHARED_INLINE_SECOND {
                crate::layout::lemma_le_bytes_of_value(b.subrange(pos + 2int, pos + 10int));
                let k = d.pool.len();
                assert(!e.table.contains_key(k));
                assert(r.shared[k as int] == d2.pool[k as int]);
                assert(e2.out =~= b.subrange(0, d2.pos as int));
                assert forall|off: nat| #[trigger] d2.seen.contains_key(off) implies {
                    &&& off < d2.pos
                    &&& d2.seen[off] < d2.pool.len()
                    &&& e2.table.contains_key(d2.seen[off])
                    &&& e2.table[d2.seen[off]] == off
                } by {
                    if off != pos {
                        assert(d.seen.contains_key(off));
                    }
                }
                assert(d2.pool.subrange(0, d.pool.len() as int) =~= d.pool);
            } else {
                let off = le_value(b.subrange(pos + 1int, pos + 9int));
                crate::layout::lemma_le_bytes_of_value(b.subrange(pos + 1int, pos + 9int));
                assert(d.seen.contains_key(off as nat));
                assert(e2.out =~= b.subrange(0, d2.pos as int));
            }
        },
        Shape::Skip => {},
    }
}

/// Re-writing the first `n` fields of a record read from `b` writes the
/// first bytes of `b`.
proof fn lemma_canonical_prefix(b: Seq<u8>, schema: Seq<Shape>, n: nat)
    requires
        decode_body(b, schema) is Some,
        n <= schema.len(),
    ensures
        dec_prefix(b, schema, n) is Some,
        canon_inv(decode_body(b, schema)->0, enc_prefix(decode_body(b, schema)->0, n), dec_prefix(b, schema, n)->0, b),
    decreases n,
{
    let r = decode_body(b, schema)->0;
    let len = schema.len();
    lemma_dec_prefix_extends(b, schema, n, len);
    if n == 0 {
        assert(b.subrange(0, 0) =~= Seq::<u8>::empty());
        assert(r.shared.subrange(0, 0) =~= Seq::<Seq<u8>>::empty());
    } else {
        let m = (n - 1) as nat;
        lemma_canonical_prefix(b, schema, m);
        let d = dec_prefix(b, schema, m)->0;
        let d2 = dec_prefix(b, schema, n)->0;
        let dl = dec_prefix(b, schema, len)->0;
        lemma_dec_field_extends(b, schema[m as int], d);
        assert(r.fields[m as int] == dl.fields.subrange(0, n as int)[m as int]);
        assert(r.shared.subrange(0, d2.pool.len() as int) =~= dl.pool.subrange(
            0,
            d2.pool.len() as int,
        ));
        lemma_canon_step(r, enc_prefix(r, m), d, b, schema[m as int], r.fields[m as int]);
    }
}

/// Reading a body is exact: a byte sequence that reads as a record is that
/// record's body, byte for byte.
proof fn lemma_decode_canonical_body(b: Seq<u8>, schema: Seq<Shape>)
    requires
        decode_body(b, schema) is Some,
    ensures
        encode_body(decode_body(b, schema)->0) == b,
        schema_of(decode_body(b, schema)->0) == schema,
{
    let r = decode_body(b, schema)->0;
    let len = schema.len();
    lemma_canonical_prefix(b, schema, len);
    assert(b.subrange(0, b.len() as int) =~= b);
    lemma_decoded_schema(b, schema, len);
    assert(schema_of(r) =~= schema);
}

/// The fields read under a schema follow it.
proof fn lemma_decoded_schema(b: Seq<u8>, schema: Seq<Shape>, n: nat)
    requires
        n <= schema.len(),
        dec_prefix(b, schema, n) is Some,
    ensures
        dec_prefix(b, schema, n)->0.fields.len() == n,
        forall|i: int| 0 <= i < n ==> #[trigger] shape_of(dec_prefix(b, schema, n)->0.fields[i]) == schema[i],
    decreases n,
{
    if n > 0 {
        lemma_dec_prefix_extends(b, schema, (n - 1) as nat, n);
        lemma_decoded_schema(b, schema, (n - 1) as nat);
        let d = dec_prefix(b, schema, (n - 1) as nat)->0;
        let d2 = dec_prefix(b, schema, n)->0;
        assert forall|i: int| 0 <= i < n implies #[trigger] shape_of(d2.fields[i]) == schema[i] by {
            if i < n - 1 {
                assert(d2.fields[i] == d2.fields.subrange(0, n - 1)[i]);
            }
        }
    }
}

/// An archive's body is the archive without its check byte.
proof fn lemma_encode_parts(g: GraphV)
    ensures
        encode(g).len() == encode_body(g).len() + 1,
        encode(g).drop_last() == encode_body(g),
        encode(g).last() == check_byte(encode_body(g)),
{
    assert(encode(g).drop_last() =~= encode_body(g));
}

/// Reading an archive back restores the value it was written from: every
/// field of a record whose shared handles are in its pool comes back, shared
/// fields own equal values and are shared among themselves exactly as before,
/// and skipped fields come back as skipped (their values are the context's).
pub proof fn lemma_round_trip(g: GraphV)
    requires
        handles_valid(g),
        encode(g).len() <= u64::MAX,
    ensures
        decode(encode(g), schema_of(g)) is Some,
        restores(g, decode(encode(g), schema_of(g))->0),
{
    lemma_encode_parts(g);
    lemma_round_trip_body(g);
}

/// A skipped field leaves no trace in the archive: records that differ only
/// in the values of skipped fields have the same archive, byte for byte, so
/// its size does not depend on those values either.
pub proof fn lemma_skip_not_archived(g1: GraphV, g2: GraphV)
    requires
        differ_in_skips_only(g1, g2),
    ensures
        encode(g1) == encode(g2),
{
    lemma_skip_not_archived_body(g1, g2);
}

/// Deduplication pays: two fields that share one value archive shorter than
/// two fields that each own a copy of it, whatever the value, empty or not.
pub proof fn lemma_sharing_shrinks(v: Seq<u8>)
    ensures
        encode(GraphV { shared: seq![v], fields: seq![FieldV::Shared(0), FieldV::Shared(0)] }).len()
            < encode(
            GraphV { shared: seq![v, v], fields: seq![FieldV::Shared(0), FieldV::Shared(1)] },
        ).len(),
{
    lemma_sharing_shrinks_body(v);
    lemma_encode_parts(GraphV { shared: seq![v], fields: seq![FieldV::Shared(0), FieldV::Shared(0)] });
    lemma_encode_parts(
        GraphV { shared: seq![v, v], fields: seq![FieldV::Shared(0), FieldV::Shared(1)] },
    );
}

/// Reading is exact: a byte sequence that reads as a record is that
/// record's archive, byte for byte, and the record follows the schema.
pub proof fn lemma_decode_canonical(b: Seq<u8>, schema: Seq<Shape>)
    requires
        decode(b, schema) is Some,
    ensures
        encode(decode(b, schema)->0) == b,
        schema_of(decode(b, schema)->0) == schema,
{
    let body = b.drop_last();
    lemma_decode_canonical_body(body, schema);
    let r = decode(b, schema)->0;
    assert(encode(r) =~= b);
}

/// Changing one byte moves the byte sum by the change.
proof fn lemma_byte_sum_update(s: Seq<u8>, i: int, x: u8)
    requires
        0 <= i < s.len(),
    ensures
        byte_sum(s.update(i, x)) == byte_sum(s) - s[i] + x,
    decreases s.len(),
{
    let t = s.update(i, x);
    if i == s.len() - 1 {
        assert(t.drop_last() =~= s.drop_last());
    } else {
        lemma_byte_sum_update(s.drop_last(), i, x);
        assert(t.drop_last() =~= s.drop_last().update(i, x));
    }
}

/// No byte of a valid archive can change unnoticed: if `b` reads as a
/// record and `b2` differs from it in exactly one byte, whatever the new
/// value, `b2` does not read at all, so `from_bytes` refuses it with
/// `CheckBytesError`.
pub proof fn lemma_single_byte_change_detected(b: Seq<u8>, b2: Seq<u8>, schema: Seq<Shape>, i: int)
    requires
        decode(b, schema) is Some,
        b2.len() == b.len(),
        0 <= i < b.len(),
        b2[i] != b[i],
        forall|j: int| 0 <= j < b.len() && j != i ==> #[trigger] b2[j] == b[j],
    ensures
        decode(b2, schema) is None,
{
    let n = b.len() - 1;
    let body = b.drop_last();
    let body2 = b2.drop_last();
    if i == n {
        assert(body2 =~= body);
    } else {
        assert(body2 =~= body.update(i, b2[i]));
        lemma_byte_sum_update(body, i, b2[i]);
        let a = byte_sum(body);
        let d = b2[i] - b[i];
        assert(byte_sum(body2) == a + d);
        vstd::arithmetic::div_mod::lemma_fundamental_div_mod(a, 256);
        vstd::arithmetic::div_mod::lemma_fundamental_div_mod(a + d, 256);
        vstd::arithmetic::div_mod::lemma_mod_bound(a, 256);
        vstd::arithmetic::div_mod::lemma_mod_bound(a + d, 256);
        if (a + d) % 256 == a % 256 {
            let k = (a + d) / 256 - a / 256;
            assert(d == 256 * k) by (nonlinear_arith)
                requires
                    a == 256 * (a / 256) + a % 256,
                    a + d == 256 * ((a + d) / 256) + (a + d) % 256,
                    (a + d) % 256 == a % 256,
                    k == (a + d) / 256 - a / 256,
            ;
            assert(k == 0) by (nonlinear_arith)
                requires
                    d == 256 * k,
                    -256 < d < 256,
            ;
        }
        assert(check_byte(body2) != check_byte(body));
    }
}

/// Rebuilding skipped fields keeps a restored record restored.
proof fn lemma_fill_keeps_restores<C: SkipContext>(g: GraphV, c: C, d: GraphV, i: nat)
    requires
        restores(g, d),
    ensures
        fill_skips(c, d, i).0 is Ok ==> restores(g, fill_skips(c, d, i).0->Ok_0),
    decreases d.fields.len() - i,
{
    if i < d.fields.len() && d.fields[i as int] is Skip {
        match c.rebuilt(i as usize) {
            Ok(v) => {
                let d2 = GraphV { shared: d.shared, fields: d.fields.update(i as int, FieldV::Skip(v)) };
                assert forall|k: int| 0 <= k < g.fields.len() implies #[trigger] field_restored(g, d2, k) by {
                    assert(field_restored(g, d, k));
                }
                assert forall|a: int, b: int|
                    0 <= a < g.fields.len() && 0 <= b < g.fields.len() && #[trigger] g.fields[a] is Shared
                        && #[trigger] g.fields[b] is Shared implies (g.fields[a]->Shared_0
                    == g.fields[b]->Shared_0 <==> d2.fields[a]->Shared_0 == d2.fields[b]->Shared_0) by {
                    assert(field_restored(g, d, a));
                    assert(field_restored(g, d, b));
                }
                lemma_fill_keeps_restores(g, c.after_rebuild(i as usize), d2, i + 1);
            },
            Err(_) => {},
        }
    } else if i < d.fields.len() {
        lemma_fill_keeps_restores(g, c, d, i + 1);
    }
}

/// Writing a record and reading it back with any context: unless the
/// context fails to rebuild a skipped field, the result restores the record
/// (see `restores`), each skipped field holding what the context gave. This
/// is what `to_bytes` followed by `from_bytes` returns.
pub proof fn lemma_read_after_write<C: SkipContext>(g: GraphV, c: C)
    requires
        handles_valid(g),
        encode(g).len() <= u64::MAX,
    ensures
        decode(encode(g), schema_of(g)) is Some,
        fill_skips(c, decode(encode(g), schema_of(g))->0, 0).0 is Ok ==> restores(
            g,
            fill_skips(c, decode(encode(g), schema_of(g))->0, 0).0->Ok_0,
        ),
{
    lemma_round_trip(g);
    lemma_fill_keeps_restores(g, c, decode(encode(g), schema_of(g))->0, 0);
}

/// The writer's table only holds handles that earlier fields name, and holds
/// every one of them.
proof fn lemma_table_keys(g: GraphV, n: nat)
    requires
        handles_valid(g),
        n <= g.fields.len(),
    ensures
        forall|k: nat| #[trigger] enc_prefix(g, n).table.contains_key(k) ==> k < g.shared.len(),
        forall|i: int|
            0 <= i < n && #[trigger] g.fields[i] is Shared ==> enc_prefix(g, n).table.contains_key(
                g.fields[i]->Shared_0,
            ),
    decreases n,
{
    if n > 0 {
        lemma_table_keys(g, (n - 1) as nat);
        lemma_enc_field_extends(g.shared, g.fields[n - 1], enc_prefix(g, (n - 1) as nat));
    }
}

/// `g` with field `j`, a shared field, pointing to a fresh copy of its value
/// at the end of the pool instead.
pub open spec fn with_copy(g: GraphV, j: int) -> GraphV {
    GraphV {
        shared: g.shared.push(g.shared[g.fields[j]->Shared_0 as int]),
        fields: g.fields.update(j, FieldV::Shared(g.shared.len())),
    }
}

proof fn lemma_copy_same_before(g: GraphV, j: int, n: nat)
    requires
        handles_valid(g),
        0 <= j < g.fields.len(),
        g.fields[j] is Shared,
        n <= j,
    ensures
        enc_prefix(with_copy(g, j), n) == enc_prefix(g, n),
    decreases n,
{
    if n > 0 {
        lemma_copy_same_before(g, j, (n - 1) as nat);
        lemma_table_keys(g, (n - 1) as nat);
        let f = g.fields[n - 1];
        assert(with_copy(g, j).fields[n - 1] == f);
        if f is Shared {
            assert(with_copy(g, j).shared[f->Shared_0 as int] == g.shared[f->Shared_0 as int]);
        }
    }
}

proof fn lemma_copy_shifted_after(g: GraphV, j: int, n: nat)
    requires
        handles_valid(g),
        0 <= j < g.fields.len(),
        g.fields[j] is Shared,
        exists|i: int| 0 <= i < j && g.fields[i] == g.fields[j],
        j < n <= g.fields.len(),
    ensures
        enc_prefix(with_copy(g, j), n).out.len() == enc_prefix(g, n).out.len() + 1
            + g.shared[g.fields[j]->Shared_0 as int].len(),
        enc_prefix(with_copy(g, j), n).table.contains_key(g.shared.len()),
        forall|k: nat|
            k != g.shared.len() ==> (#[trigger] enc_prefix(with_copy(g, j), n).table.contains_key(k)
                <==> enc_prefix(g, n).table.contains_key(k)),
    decreases n,
{
    let g2 = with_copy(g, j);
    let m = (n - 1) as nat;
    let e1 = enc_prefix(g, m);
    let e2 = enc_prefix(g2, m);
    lemma_table_keys(g, m);
    lemma_enc_field_extends(g.shared, g.fields[m as int], e1);
    lemma_enc_field_extends(g2.shared, g2.fields[m as int], e2);
    if m == j {
        lemma_copy_same_before(g, j, m);
        let i = choose|i: int| 0 <= i < j && g.fields[i] == g.fields[j];
        assert(g.fields[i] is Shared);
        assert(e1.table.contains_key(g.fields[j]->Shared_0));
        assert(!e2.table.contains_key(g.shared.len()));
    } else {
        lemma_copy_shifted_after(g, j, m);
        let f = g.fields[m as int];
        assert(g2.fields[m as int] == f);
        if f is Shared {
            let h = f->Shared_0;
            assert(h < g.shared.len());
            assert(g2.shared[h as int] == g.shared[h as int]);
            assert(e2.table.contains_key(h) == e1.table.contains_key(h));
        }
    }
}

/// Deduplication pays in any record: where a shared field names a value
/// that an earlier field already named, the archive is strictly shorter than
/// that of the same record with this field owning a fresh copy of the value,
/// whatever the value, empty or not.
pub proof fn lemma_sharing_shrinks_record(g: GraphV, j: int)
    requires
        handles_valid(g),
        0 <= j < g.fields.len(),
        g.fields[j] is Shared,
        exists|i: int| 0 <= i < j && g.fields[i] == g.fields[j],
    ensures
        encode(g).len() < encode(with_copy(g, j)).len(),
{
    lemma_copy_shifted_after(g, j, g.fields.len());
    lemma_encode_parts(g);
    lemma_encode_parts(with_copy(g, j));
    assert(with_copy(g, j).fields.len() == g.fields.len());
}

} // verus!
