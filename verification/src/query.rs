use vstd::prelude::*;
use crate::bytes::{
    char_count, char_count_vec, find, find_byte, join, join_vec, lemma_find, lemma_split_join,
    make_spaces, no_byte, push_all, spaces, split, split_vec, subvec, views_of,
};
use crate::model::{copy_vec, opt_view};
use crate::pct::{fenc, fenc_vec, lemma_fenc_bytes, lemma_pdecode_fenc, pdecode, pdecode_vec};
use crate::Error;

verus! {

broadcast use vstd::seq_lib::group_seq_properties;

// ---------------------------------------------------------------------------
// Decoding a query string into an ordered parameter list
// ---------------------------------------------------------------------------

/// View of a parameter vector as a sequence of key/optional-value pairs.
pub open spec fn pairs_view(s: Seq<(Vec<u8>, Option<Vec<u8>>)>) -> Seq<(Seq<u8>, Option<Seq<u8>>)> {
    Seq::new(s.len(), |i: int| (s[i].0@, opt_view(s[i].1)))
}

/// One `key[=value]` token, both sides form-decoded; a token without `=` is
/// a key with no value.
pub open spec fn pair_of(p: Seq<u8>) -> (Seq<u8>, Option<Seq<u8>>) {
    match find(p, 0x3d) {
        None => (pdecode(p), None),
        Some(i) => (pdecode(p.take(i)), Some(pdecode(p.skip(i + 1)))),
    }
}

/// The pairs of the `&`-separated tokens from index `i` on; empty tokens
/// are skipped.
pub open spec fn pairs_from(parts: Seq<Seq<u8>>, i: int) -> Seq<(Seq<u8>, Option<Seq<u8>>)>
    decreases parts.len() - i,
{
    if i < 0 || i >= parts.len() {
        Seq::empty()
    } else if parts[i].len() == 0 {
        pairs_from(parts, i + 1)
    } else {
        seq![pair_of(parts[i])] + pairs_from(parts, i + 1)
    }
}

/// The ordered parameter list a query string denotes.
pub open spec fn qs_pairs(q: Seq<u8>) -> Seq<(Seq<u8>, Option<Seq<u8>>)> {
    pairs_from(split(q, 0x26), 0)
}

/// Decode a query string into its ordered parameter list: split on `&`,
/// split each non-empty token at its first `=`, and form-decode keys and
/// values.  Duplicate keys are all retained, in order of appearance.
pub fn decode(query: &Vec<u8>) -> (r: Vec<(Vec<u8>, Option<Vec<u8>>)>)
    ensures
        pairs_view(r@) == qs_pairs(query@),
{
    let parts = split_vec(query, 0x26);
    let ghost pv = views_of(parts@);
    let mut r: Vec<(Vec<u8>, Option<Vec<u8>>)> = Vec::new();
    let mut i: usize = 0;
    proof {
        assert(pairs_view(r@) + pairs_from(pv, 0) =~= pairs_from(pv, 0));
    }
    while i < parts.len()
        invariant
            0 <= i <= parts@.len(),
            pv == views_of(parts@),
            pairs_view(r@) + pairs_from(pv, i as int) == pairs_from(pv, 0),
        decreases parts@.len() - i,
    {
        let ghost pre = r@;
        if parts[i].len() > 0 {
            let p = &parts[i];
            let pair: (Vec<u8>, Option<Vec<u8>>) = match find_byte(p, 0x3d) {
                None => (pdecode_vec(p), None),
                Some(x) => {
                    proof {
                        lemma_find(p@, 0x3d);
                    }
                    let n = p.len();
                    let k = subvec(p, 0, x);
                    let v = subvec(p, x + 1, n);
                    proof {
                        assert(k@ =~= p@.take(x as int));
                        assert(v@ =~= p@.skip(x + 1));
                    }
                    (pdecode_vec(&k), Some(pdecode_vec(&v)))
                },
            };
            r.push(pair);
            proof {
                assert(pv[i as int] == parts@[i as int]@);
                assert((pairs_view(r@)[pre.len() as int].0, pairs_view(r@)[pre.len() as int].1)
                    == pair_of(pv[i as int]));
                assert(pairs_view(r@) =~= pairs_view(pre) + seq![pair_of(pv[i as int])]);
                assert(pairs_view(pre) + (seq![pair_of(pv[i as int])] + pairs_from(
                    pv,
                    i + 1int,
                )) =~= (pairs_view(pre) + seq![pair_of(pv[i as int])]) + pairs_from(pv, i + 1int));
            }
        } else {
            proof {
                assert(pv[i as int] == parts@[i as int]@);
                assert(pv[i as int].len() == 0);
            }
        }
        i += 1;
    }
    proof {
        assert(pairs_view(r@) + pairs_from(pv, parts@.len() as int) =~= pairs_view(r@));
    }
    r
}

// ---------------------------------------------------------------------------
// Encoding an ordered parameter list
// ---------------------------------------------------------------------------

/// One encoded `key[=value]` token.
pub open spec fn enc_pair(p: (Seq<u8>, Option<Seq<u8>>)) -> Seq<u8> {
    fenc(p.0) + (match p.1 {
        None => Seq::empty(),
        Some(v) => seq![0x3du8] + fenc(v),
    })
}

/// The encoded tokens of a parameter list.
pub open spec fn enc_parts(pairs: Seq<(Seq<u8>, Option<Seq<u8>>)>) -> Seq<Seq<u8>> {
    Seq::new(pairs.len(), |i: int| enc_pair(pairs[i]))
}

/// The query string a parameter list encodes to.
pub open spec fn encode_model(pairs: Seq<(Seq<u8>, Option<Seq<u8>>)>) -> Seq<u8> {
    join(enc_parts(pairs), 0x26)
}

/// Encode a parameter list: keys and values are form-encoded (space
/// becomes `+`, and `&`, `=`, `%`, `+` are always percent-escaped), pairs
/// join with `&`, and a key with no value carries no `=`.
pub fn encode(pairs: &Vec<(Vec<u8>, Option<Vec<u8>>)>) -> (r: Vec<u8>)
    ensures
        r@ == encode_model(pairs_view(pairs@)),
{
    let mut parts: Vec<Vec<u8>> = Vec::new();
    let mut i: usize = 0;
    while i < pairs.len()
        invariant
            0 <= i <= pairs@.len(),
            parts@.len() == i,
            forall|t: int|
                0 <= t < i ==> #[trigger] parts@[t]@ == enc_pair(pairs_view(pairs@)[t]),
        decreases pairs@.len() - i,
    {
        let mut tok = fenc_vec(&pairs[i].0);
        match &pairs[i].1 {
            Some(v) => {
                tok.push(0x3d);
                let ev = fenc_vec(v);
                push_all(&mut tok, &ev);
            },
            None => (),
        }
        proof {
            assert(tok@ =~= enc_pair(pairs_view(pairs@)[i as int]));
        }
        parts.push(tok);
        i += 1;
    }
    let r = join_vec(&parts, 0x26);
    proof {
        assert(views_of(parts@) =~= enc_parts(pairs_view(pairs@)));
    }
    r
}

// ---------------------------------------------------------------------------
// Decode after encode
// ---------------------------------------------------------------------------

/// Tokens of dense (all non-empty) parts decode pairwise.
proof fn lemma_pairs_from_dense(parts: Seq<Seq<u8>>, i: int)
    requires
        forall|k: int| 0 <= k < parts.len() ==> #[trigger] parts[k].len() > 0,
        0 <= i <= parts.len(),
    ensures
        pairs_from(parts, i).len() == parts.len() - i,
        forall|t: int|
            0 <= t < parts.len() - i ==> #[trigger] pairs_from(parts, i)[t] == pair_of(
                parts[t + i],
            ),
    decreases parts.len() - i,
{
    if i < parts.len() {
        lemma_pairs_from_dense(parts, i + 1);
        assert(parts[i].len() > 0);
        assert(pairs_from(parts, i) == seq![pair_of(parts[i])] + pairs_from(parts, i + 1));
        assert forall|t: int| 0 <= t < parts.len() - i implies #[trigger] pairs_from(parts, i)[t]
            == pair_of(parts[t + i]) by {
            if t > 0 {
                assert(pairs_from(parts, i)[t] == pairs_from(parts, i + 1)[t - 1]);
                assert(pairs_from(parts, i + 1)[t - 1] == pair_of(parts[t - 1 + (i + 1)]));
            } else {
                assert(pairs_from(parts, i)[0] == pair_of(parts[i]));
            }
        }
    }
}

/// Decoding undoes encoding: for a parameter list whose pairs each carry a
/// key or a value (a pair with an empty key and no value would vanish) and
/// whose keys are unique, `decode(encode(p))` is `p` itself — order,
/// duplicates-free keys and missing values included.
pub proof fn lemma_decode_encode(pairs: Seq<(Seq<u8>, Option<Seq<u8>>)>)
    requires
        forall|i: int, j: int|
            0 <= i < pairs.len() && 0 <= j < pairs.len() && i != j ==> #[trigger] pairs[i].0
                != #[trigger] pairs[j].0,
        forall|i: int|
            0 <= i < pairs.len() ==> !(#[trigger] pairs[i].0.len() == 0 && pairs[i].1 is None),
    ensures
        qs_pairs(encode_model(pairs)) == pairs,
{
    let parts = enc_parts(pairs);
    if pairs.len() == 0 {
        assert(encode_model(pairs) =~= Seq::<u8>::empty());
        crate::bytes::lemma_find_none(Seq::<u8>::empty(), 0x26);
        assert(split(Seq::<u8>::empty(), 0x26) =~= seq![Seq::<u8>::empty()]);
        let sp = split(Seq::<u8>::empty(), 0x26);
        assert(pairs_from(sp, 1) =~= Seq::<(Seq<u8>, Option<Seq<u8>>)>::empty());
        assert(pairs_from(sp, 0) == pairs_from(sp, 1));
        assert(qs_pairs(encode_model(pairs)) =~= pairs);
    } else {
        // every token is non-empty and free of `&`
        assert forall|k: int| 0 <= k < parts.len() implies no_byte(#[trigger] parts[k], 0x26)
            && parts[k].len() > 0 by {
            let p = pairs[k];
            lemma_fenc_bytes(p.0);
            match p.1 {
                None => {
                    assert(parts[k] =~= fenc(p.0));
                },
                Some(v) => {
                    lemma_fenc_bytes(v);
                    assert forall|t: int| 0 <= t < parts[k].len() implies parts[k][t] != 0x26 by {
                        if t < fenc(p.0).len() {
                            assert(parts[k][t] == fenc(p.0)[t]);
                        } else if t == fenc(p.0).len() {
                            assert(parts[k][t] == 0x3d);
                        } else {
                            assert(parts[k][t] == fenc(v)[t - fenc(p.0).len() - 1]);
                        }
                    }
                },
            }
        }
        lemma_split_join(parts, 0x26);
        lemma_pairs_from_dense(parts, 0);
        assert forall|k: int| 0 <= k < parts.len() implies pair_of(#[trigger] parts[k])
            == pairs[k] by {
            let p = pairs[k];
            lemma_fenc_bytes(p.0);
            lemma_pdecode_fenc(p.0);
            match p.1 {
                None => {
                    assert(parts[k] =~= fenc(p.0));
                    crate::bytes::lemma_find_none(parts[k], 0x3d);
                },
                Some(v) => {
                    lemma_fenc_bytes(v);
                    lemma_pdecode_fenc(v);
                    assert forall|t: int| 0 <= t < fenc(p.0).len() implies parts[k][t] != 0x3d by {
                        assert(parts[k][t] == fenc(p.0)[t]);
                    }
                    assert(parts[k][fenc(p.0).len() as int] == 0x3d);
                    crate::bytes::lemma_find_at(parts[k], 0x3d, fenc(p.0).len() as int);
                    assert(parts[k].take(fenc(p.0).len() as int) =~= fenc(p.0));
                    assert(parts[k].skip(fenc(p.0).len() as int + 1) =~= fenc(v));
                },
            }
        }
        assert(qs_pairs(encode_model(pairs)) =~= pairs);
    }
}

// ---------------------------------------------------------------------------
// Merging positional pairs with explicit key/value flags
// ---------------------------------------------------------------------------

/// A raw `KEY[=VALUE]` token, split at its first `=` without decoding.
pub open spec fn raw_pair(t: Seq<u8>) -> (Seq<u8>, Option<Seq<u8>>) {
    match find(t, 0x3d) {
        None => (t, None),
        Some(i) => (t.take(i), Some(t.skip(i + 1))),
    }
}

/// The raw pairs of a token list.
pub open spec fn raw_pairs(ts: Seq<Seq<u8>>) -> Seq<(Seq<u8>, Option<Seq<u8>>)> {
    Seq::new(ts.len(), |i: int| raw_pair(ts[i]))
}

/// Insert or update one key: an existing entry keeps its position and takes
/// the new value; a new key appends.
pub open spec fn upsert(
    list: Seq<(Seq<u8>, Option<Seq<u8>>)>,
    k: Seq<u8>,
    v: Option<Seq<u8>>,
) -> Seq<(Seq<u8>, Option<Seq<u8>>)>
    decreases list.len(),
{
    if list.len() == 0 {
        seq![(k, v)]
    } else if list[0].0 == k {
        seq![(k, v)] + list.skip(1)
    } else {
        seq![list[0]] + upsert(list.skip(1), k, v)
    }
}

/// Upsert every item from index `i` on.
pub open spec fn upsert_all(
    acc: Seq<(Seq<u8>, Option<Seq<u8>>)>,
    items: Seq<(Seq<u8>, Option<Seq<u8>>)>,
    i: int,
) -> Seq<(Seq<u8>, Option<Seq<u8>>)>
    decreases items.len() - i,
{
    if i < 0 || i >= items.len() {
        acc
    } else {
        upsert_all(upsert(acc, items[i].0, items[i].1), items, i + 1)
    }
}

/// The explicit key/value flags as pairs.
pub open spec fn flag_pairs(ks: Seq<Seq<u8>>, vs: Seq<Seq<u8>>) -> Seq<(Seq<u8>, Option<Seq<u8>>)> {
    Seq::new(ks.len(), |i: int| (ks[i], Some(vs[i])))
}

/// The merged parameter list: positional `KEY[=VALUE]` tokens first, then
/// explicit flag pairs, each by last-write-wins upsert, so explicit flags
/// override positional pairs and first appearance fixes the order.
pub open spec fn merge_model(
    tokens: Seq<Seq<u8>>,
    ks: Seq<Seq<u8>>,
    vs: Seq<Seq<u8>>,
) -> Seq<(Seq<u8>, Option<Seq<u8>>)> {
    upsert_all(upsert_all(Seq::empty(), raw_pairs(tokens), 0), flag_pairs(ks, vs), 0)
}

/// Are two byte vectors equal?
pub(crate) fn eq_vec(a: &Vec<u8>, b: &Vec<u8>) -> (r: bool)
    ensures
        r == (a@ == b@),
{
    if a.len() != b.len() {
        return false;
    }
    let mut i: usize = 0;
    while i < a.len()
        invariant
            0 <= i <= a@.len(),
            a@.len() == b@.len(),
            forall|j: int| 0 <= j < i ==> a@[j] == b@[j],
        decreases a@.len() - i,
    {
        if a[i] != b[i] {
            return false;
        }
        i += 1;
    }
    proof {
        assert(a@ =~= b@);
    }
    true
}

/// Upsert one pair into the vector.
fn upsert_vec(list: &mut Vec<(Vec<u8>, Option<Vec<u8>>)>, k: Vec<u8>, v: Option<Vec<u8>>)
    ensures
        pairs_view(final(list)@) == upsert(pairs_view(old(list)@), k@, opt_view(v)),
{
    let mut i: usize = 0;
    while i < list.len()
        invariant
            0 <= i <= list@.len(),
            list@ == old(list)@,
            forall|j: int| 0 <= j < i ==> #[trigger] list@[j].0@ != k@,
        decreases list@.len() - i,
    {
        if eq_vec(&list[i].0, &k) {
            list[i] = (k, v);
            proof {
                lemma_upsert_at(pairs_view(old(list)@), k@, opt_view(v), i as int);
                assert(pairs_view(list@) =~= upsert(pairs_view(old(list)@), k@, opt_view(v)));
            }
            return ;
        }
        i += 1;
    }
    list.push((k, v));
    proof {
        lemma_upsert_missing(pairs_view(old(list)@), k@, opt_view(v));
        assert(pairs_view(list@) =~= pairs_view(old(list)@).push((k@, opt_view(v))));
    }
}

/// When the key first occurs at index `i`, upsert replaces that entry.
proof fn lemma_upsert_at(list: Seq<(Seq<u8>, Option<Seq<u8>>)>, k: Seq<u8>, v: Option<Seq<u8>>, i: int)
    requires
        0 <= i < list.len(),
        list[i].0 == k,
        forall|j: int| 0 <= j < i ==> #[trigger] list[j].0 != k,
    ensures
        upsert(list, k, v) == list.update(i, (k, v)),
    decreases i,
{
    if i == 0 {
        assert(upsert(list, k, v) =~= list.update(0, (k, v)));
    } else {
        assert forall|j: int| 0 <= j < i - 1 implies #[trigger] list.skip(1)[j].0 != k by {
            assert(list.skip(1)[j] == list[j + 1]);
        }
        lemma_upsert_at(list.skip(1), k, v, i - 1);
        assert(upsert(list, k, v) =~= list.update(i, (k, v)));
    }
}

/// When the key is absent, upsert appends.
proof fn lemma_upsert_missing(list: Seq<(Seq<u8>, Option<Seq<u8>>)>, k: Seq<u8>, v: Option<Seq<u8>>)
    requires
        forall|j: int| 0 <= j < list.len() ==> #[trigger] list[j].0 != k,
    ensures
        upsert(list, k, v) == list.push((k, v)),
    decreases list.len(),
{
    if list.len() == 0 {
        assert(upsert(list, k, v) =~= list.push((k, v)));
    } else {
        assert forall|j: int| 0 <= j < list.skip(1).len() implies #[trigger] list.skip(1)[j].0
            != k by {
            assert(list.skip(1)[j] == list[j + 1]);
        }
        lemma_upsert_missing(list.skip(1), k, v);
        assert(upsert(list, k, v) =~= list.push((k, v)));
    }
}

/// Merge positional tokens and explicit flag pairs into one ordered
/// parameter list.  Fails with `InvalidArgument` exactly when the key and
/// value flag counts differ.
pub fn merge_params(tokens: &Vec<Vec<u8>>, keys: &Vec<Vec<u8>>, values: &Vec<Vec<u8>>) -> (r:
    Result<Vec<(Vec<u8>, Option<Vec<u8>>)>, Error>)
    ensures
        match r {
            Ok(ps) => keys@.len() == values@.len() && pairs_view(ps@) == merge_model(
                views_of(tokens@),
                views_of(keys@),
                views_of(values@),
            ),
            Err(e) => keys@.len() != values@.len() && e == Error::InvalidArgument,
        },
{
    if keys.len() != values.len() {
        return Err(Error::InvalidArgument);
    }
    let ghost tv = views_of(tokens@);
    let mut ps: Vec<(Vec<u8>, Option<Vec<u8>>)> = Vec::new();
    let mut i: usize = 0;
    while i < tokens.len()
        invariant
            0 <= i <= tokens@.len(),
            tv == views_of(tokens@),
            pairs_view(ps@) == upsert_all(Seq::empty(), raw_pairs(tv).take(i as int), 0),
        decreases tokens@.len() - i,
    {
        let t = &tokens[i];
        let (k, v): (Vec<u8>, Option<Vec<u8>>) = match find_byte(t, 0x3d) {
            None => (copy_vec(t), None),
            Some(x) => {
                proof {
                    lemma_find(t@, 0x3d);
                }
                let n = t.len();
                let k = subvec(t, 0, x);
                let v = subvec(t, x + 1, n);
                proof {
                    assert(k@ =~= t@.take(x as int));
                    assert(v@ =~= t@.skip(x + 1));
                }
                (k, Some(v))
            },
        };
        proof {
            assert(tv[i as int] == tokens@[i as int]@);
            assert((k@, opt_view(v)) == raw_pair(tv[i as int]));
        }
        upsert_vec(&mut ps, k, v);
        proof {
            lemma_upsert_all_snoc(raw_pairs(tv), i as int);
        }
        i += 1;
    }
    proof {
        assert(raw_pairs(tv).take(tv.len() as int) =~= raw_pairs(tv));
    }
    let ghost kv = views_of(keys@);
    let ghost vv = views_of(values@);
    let ghost base = pairs_view(ps@);
    let mut j: usize = 0;
    while j < keys.len()
        invariant
            0 <= j <= keys@.len(),
            keys@.len() == values@.len(),
            kv == views_of(keys@),
            vv == views_of(values@),
            base == upsert_all(Seq::empty(), raw_pairs(tv), 0),
            tv == views_of(tokens@),
            pairs_view(ps@) == upsert_all(base, flag_pairs(kv, vv).take(j as int), 0),
        decreases keys@.len() - j,
    {
        let k = copy_vec(&keys[j]);
        let v = copy_vec(&values[j]);
        proof {
            assert(kv[j as int] == keys@[j as int]@);
            assert(vv[j as int] == values@[j as int]@);
        }
        upsert_vec(&mut ps, k, Some(v));
        proof {
            lemma_upsert_all_snoc(flag_pairs(kv, vv), j as int);
        }
        j += 1;
    }
    proof {
        assert(flag_pairs(kv, vv).take(kv.len() as int) =~= flag_pairs(kv, vv));
    }
    Ok(ps)
}

/// Extending the item prefix by one is one more upsert.
proof fn lemma_upsert_all_snoc(items: Seq<(Seq<u8>, Option<Seq<u8>>)>, i: int)
    requires
        0 <= i < items.len(),
    ensures
        forall|acc: Seq<(Seq<u8>, Option<Seq<u8>>)>|
            #[trigger] upsert_all(acc, items.take(i + 1), 0) == upsert(
                upsert_all(acc, items.take(i), 0),
                items[i].0,
                items[i].1,
            ),
{
    assert forall|acc: Seq<(Seq<u8>, Option<Seq<u8>>)>|
        #[trigger] upsert_all(acc, items.take(i + 1), 0) == upsert(
            upsert_all(acc, items.take(i), 0),
            items[i].0,
            items[i].1,
        ) by {
        lemma_upsert_all_shift(acc, items, i, 0);
    }
}

/// Generalized form of the prefix step.
proof fn lemma_upsert_all_shift(
    acc: Seq<(Seq<u8>, Option<Seq<u8>>)>,
    items: Seq<(Seq<u8>, Option<Seq<u8>>)>,
    i: int,
    j: int,
)
    requires
        0 <= j <= i < items.len(),
    ensures
        upsert_all(acc, items.take(i + 1), j) == upsert(
            upsert_all(acc, items.take(i), j),
            items[i].0,
            items[i].1,
        ),
    decreases i - j,
{
    let a = items.take(i + 1);
    let b = items.take(i);
    if j == i {
        assert(a[j] == items[i]);
        assert(upsert_all(acc, b, j) == acc);
        assert(upsert_all(acc, a, j) == upsert_all(upsert(acc, items[i].0, items[i].1), a, j + 1));
        assert(upsert_all(upsert(acc, items[i].0, items[i].1), a, j + 1) == upsert(
            acc,
            items[i].0,
            items[i].1,
        ));
    } else {
        assert(a[j] == items[j]);
        assert(b[j] == items[j]);
        lemma_upsert_all_shift(upsert(acc, items[j].0, items[j].1), items, i, j + 1);
    }
}

// ---------------------------------------------------------------------------
// Display helpers for the decode command
// ---------------------------------------------------------------------------

/// The value shown for a pair: its value, or nothing for a bare key.
pub open spec fn shown_value(v: Option<Seq<u8>>) -> Seq<u8> {
    match v {
        Some(s) => s,
        None => Seq::empty(),
    }
}

/// Widest key, in characters, of a parameter list.
pub open spec fn widest_key(ps: Seq<(Seq<u8>, Option<Seq<u8>>)>) -> int
    decreases ps.len(),
{
    if ps.len() == 0 {
        0
    } else {
        let rest = widest_key(ps.drop_last());
        let cc = char_count(ps.last().0);
        if cc > rest {
            cc
        } else {
            rest
        }
    }
}

/// One aligned `key: value` line.
pub open spec fn padded_line(p: (Seq<u8>, Option<Seq<u8>>), w: int) -> Seq<u8> {
    spaces(w - char_count(p.0)) + p.0 + seq![0x3au8, 0x20u8] + shown_value(p.1)
}

/// Compute the widest key of a parameter vector.
pub fn widest_key_vec(ps: &Vec<(Vec<u8>, Option<Vec<u8>>)>) -> (r: usize)
    ensures
        r == widest_key(pairs_view(ps@)),
        forall|i: int|
            0 <= i < ps@.len() ==> char_count(#[trigger] pairs_view(ps@)[i].0) <= r,
{
    let mut w: usize = 0;
    let mut i: usize = 0;
    while i < ps.len()
        invariant
            0 <= i <= ps@.len(),
            w == widest_key(pairs_view(ps@).take(i as int)),
            forall|j: int| 0 <= j < i ==> char_count(#[trigger] pairs_view(ps@)[j].0) <= w,
        decreases ps@.len() - i,
    {
        let cc = char_count_vec(&ps[i].0);
        proof {
            assert(pairs_view(ps@).take(i + 1int).drop_last() =~= pairs_view(ps@).take(i as int));
            assert(pairs_view(ps@).take(i + 1int).last() == pairs_view(ps@)[i as int]);
        }
        if cc > w {
            w = cc;
        }
        i += 1;
    }
    proof {
        assert(pairs_view(ps@).take(ps@.len() as int) =~= pairs_view(ps@));
    }
    w
}

/// Build one aligned `key: value` line.
pub fn padded_line_vec(key: &Vec<u8>, value: &Option<Vec<u8>>, w: usize) -> (r: Vec<u8>)
    requires
        char_count(key@) <= w,
    ensures
        r@ == padded_line((key@, opt_view(*value)), w as int),
{
    let cc = char_count_vec(key);
    let mut r = make_spaces(w - cc);
    push_all(&mut r, key);
    r.push(0x3a);
    r.push(0x20);
    match value {
        Some(v) => {
            push_all(&mut r, v);
        },
        None => (),
    }
    proof {
        assert(r@ =~= padded_line((key@, opt_view(*value)), w as int));
    }
    r
}

} // verus!
