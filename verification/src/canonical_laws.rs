//! What canonicalizing a value does to its deterministic encoding: the
//! encoding stays the same, so the map entries of the canonical form are
//! already in encoding order.

use vstd::prelude::*;

use crate::canonical::{
    before, enc_entries, enc_items, enc_value, lemma_strip_zeros_head, strip_zeros, encodings, equivalents, form, form_entries, form_items, has_duplicate, has_neg_zero,
    key_encs, insert_pos, insert_sorted, items_have_neg_zero, key_lt,
    lemma_form_entries, lemma_form_items, lemma_sort_prefix_perm, lex_lt, ordered_spec, pairs_have_neg_zero,
    sort_order, sort_prefix, tag_form, KeyOrder, prep, prep_items, prep_pairs, DEFAULT_RECURSION_LIMIT,
};
use crate::float::{canonical_nan, is_nan_bits, negative_zero};
use crate::canonical::CanonicalError;
use crate::value::ValueView;

verus! {

/// No sequence sorts strictly before itself.
proof fn lemma_lex_irreflexive(a: Seq<u8>)
    ensures
        !lex_lt(a, a),
    decreases a.len(),
{
    if a.len() > 0 {
        lemma_lex_irreflexive(a.drop_first());
    }
}

/// The bytewise order is transitive.
proof fn lemma_lex_transitive(a: Seq<u8>, b: Seq<u8>, c: Seq<u8>)
    requires
        lex_lt(a, b),
        lex_lt(b, c),
    ensures
        lex_lt(a, c),
    decreases a.len(),
{
    if a.len() > 0 && b.len() > 0 && c.len() > 0 && a[0] == b[0] && b[0] == c[0] {
        lemma_lex_transitive(a.drop_first(), b.drop_first(), c.drop_first());
    }
}

/// Two different sequences are ordered one way or the other.
proof fn lemma_lex_total(a: Seq<u8>, b: Seq<u8>)
    requires
        a != b,
    ensures
        lex_lt(a, b) || lex_lt(b, a),
    decreases a.len(),
{
    if a.len() > 0 && b.len() > 0 && a[0] == b[0] {
        if a.drop_first() == b.drop_first() {
            assert(a =~= seq![a[0]] + a.drop_first());
            assert(b =~= seq![b[0]] + b.drop_first());
        }
        lemma_lex_total(a.drop_first(), b.drop_first());
    } else if a.len() == 0 && b.len() == 0 {
        assert(a =~= b);
    }
}

/// Key order is a strict total order: irreflexive, transitive and total.
pub proof fn lemma_key_order(order: KeyOrder, a: Seq<u8>, b: Seq<u8>, c: Seq<u8>)
    ensures
        !key_lt(order, a, a),
        key_lt(order, a, b) && key_lt(order, b, c) ==> key_lt(order, a, c),
        a != b ==> key_lt(order, a, b) || key_lt(order, b, a),
{
    lemma_lex_irreflexive(a);
    if lex_lt(a, b) && lex_lt(b, c) {
        lemma_lex_transitive(a, b, c);
    }
    if a != b {
        lemma_lex_total(a, b);
    }
}

/// `a` sorts no later than `b`.
pub open spec fn key_le(order: KeyOrder, a: Seq<u8>, b: Seq<u8>) -> bool {
    !key_lt(order, b, a)
}

/// "No later than" is transitive.
proof fn lemma_le_transitive(order: KeyOrder, a: Seq<u8>, b: Seq<u8>, c: Seq<u8>)
    requires
        key_le(order, a, b),
        key_le(order, b, c),
    ensures
        key_le(order, a, c),
{
    lemma_key_order(order, a, b, c);
    lemma_key_order(order, c, a, b);
    lemma_key_order(order, b, c, a);
}

/// The keys taken in the order `r` never decrease.
pub open spec fn nondecreasing(keys: Seq<Seq<u8>>, order: KeyOrder, r: Seq<int>) -> bool {
    forall|i: int, j: int| 0 <= i < j < r.len() ==> key_le(order, #[trigger] keys[r[i]], #[trigger] keys[r[j]])
}

/// Where insertion puts `x`: everything after sorts after it, and the
/// element just before sorts before it.
proof fn lemma_insert_pos(sorted: Seq<int>, x: int, keys: Seq<Seq<u8>>, order: KeyOrder)
    ensures
        insert_pos(sorted, x, keys, order) <= sorted.len(),
        forall|i: int| insert_pos(sorted, x, keys, order) <= i < sorted.len() ==> !before(keys, order, #[trigger] sorted[i], x),
        insert_pos(sorted, x, keys, order) > 0 ==> before(keys, order, sorted[insert_pos(sorted, x, keys, order) - 1], x),
    decreases sorted.len(),
{
    if sorted.len() > 0 && !before(keys, order, sorted.last(), x) {
        let d = sorted.drop_last();
        lemma_insert_pos(d, x, keys, order);
        assert forall|i: int| insert_pos(sorted, x, keys, order) <= i < sorted.len() implies !before(keys, order, #[trigger] sorted[i], x) by {
            if i < d.len() {
                assert(sorted[i] == d[i]);
            }
        }
    }
}

/// Inserting into a sorted sequence gives a sorted sequence.
proof fn lemma_sort_prefix_sorted(keys: Seq<Seq<u8>>, order: KeyOrder, n: nat)
    requires
        n <= keys.len(),
    ensures
        nondecreasing(keys, order, sort_prefix(keys, order, n)),
    decreases n,
{
    if n > 0 {
        let prev = sort_prefix(keys, order, (n - 1) as nat);
        let x = n - 1;
        lemma_sort_prefix_sorted(keys, order, (n - 1) as nat);
        lemma_sort_prefix_perm(keys, order, (n - 1) as nat);
        crate::canonical::lemma_insert_shape(prev, x, keys, order);
        lemma_insert_pos(prev, x, keys, order);
        let p = insert_pos(prev, x, keys, order) as int;
        let r = sort_prefix(keys, order, n);
        assert(r == prev.take(p) + seq![x] + prev.skip(p));
        assert forall|i: int, j: int| 0 <= i < j < r.len() implies key_le(order, #[trigger] keys[r[i]], #[trigger] keys[r[j]]) by {
            if j < p {
                assert(r[i] == prev[i] && r[j] == prev[j]);
            } else if j == p {
                assert(r[i] == prev[i]);
                let e = prev[p - 1];
                lemma_key_order(order, keys[e], keys[x], keys[e]);
                if i < p - 1 {
                    assert(key_le(order, keys[prev[i]], keys[prev[p - 1]]));
                    lemma_le_transitive(order, keys[prev[i]], keys[e], keys[x]);
                }
            } else if i == p {
                assert(r[j] == prev[j - 1]);
                assert(!before(keys, order, prev[j - 1], x));
            } else if i < p {
                assert(r[i] == prev[i] && r[j] == prev[j - 1]);
            } else {
                assert(r[i] == prev[i - 1] && r[j] == prev[j - 1]);
            }
        }
    }
}

/// The first `n` indices in order.
pub open spec fn identity(n: nat) -> Seq<int> {
    Seq::new(n, |i: int| i)
}

/// Keys that never decrease are sorted by leaving them in place.
proof fn lemma_sort_prefix_identity(keys: Seq<Seq<u8>>, order: KeyOrder, n: nat)
    requires
        n <= keys.len(),
        forall|i: int, j: int| 0 <= i < j < n ==> key_le(order, #[trigger] keys[i], #[trigger] keys[j]),
    ensures
        sort_prefix(keys, order, n) == identity(n),
    decreases n,
{
    if n > 0 {
        lemma_sort_prefix_identity(keys, order, (n - 1) as nat);
        let prev = identity((n - 1) as nat);
        if n > 1 {
            assert(prev.last() == n - 2);
            lemma_key_order(order, keys[n - 2], keys[n - 1], keys[n - 1]);
            assert(key_le(order, keys[n - 2], keys[n - 1]));
            assert(before(keys, order, n - 2, n - 1));
        }
        assert(insert_sorted(prev, n - 1, keys, order) =~= identity(n));
    }
}

/// `a` holds each of `0..n` exactly once.
pub open spec fn is_perm(a: Seq<int>, n: nat) -> bool {
    &&& a.len() == n
    &&& forall|i: int| 0 <= i < n ==> 0 <= #[trigger] a[i] < n
    &&& forall|i: int, j: int| 0 <= i < j < n ==> a[i] != a[j]
    &&& forall|v: int| 0 <= v < n ==> #[trigger] a.contains(v)
}

/// The keys taken in the order `r` strictly increase.
pub open spec fn increasing(keys: Seq<Seq<u8>>, order: KeyOrder, r: Seq<int>) -> bool {
    forall|i: int, j: int| 0 <= i < j < r.len() ==> key_lt(order, #[trigger] keys[r[i]], #[trigger] keys[r[j]])
}

/// Two orders that both sort the same keys strictly agree on their first
/// `k` positions.
proof fn lemma_sorted_unique_upto(keys: Seq<Seq<u8>>, order: KeyOrder, a: Seq<int>, b: Seq<int>, n: nat, k: nat)
    requires
        k <= n,
        n <= keys.len(),
        is_perm(a, n),
        is_perm(b, n),
        increasing(keys, order, a),
        increasing(keys, order, b),
    ensures
        forall|d: int| 0 <= d < k ==> a[d] == b[d],
    decreases k,
{
    if k > 0 {
        lemma_sorted_unique_upto(keys, order, a, b, n, (k - 1) as nat);
        let d = k - 1;
        let x = a[d];
        let y = b[d];
        if x != y {
            assert(b.contains(x));
            assert(a.contains(y));
            let e = choose|i: int| 0 <= i < b.len() && b[i] == x;
            let f = choose|i: int| 0 <= i < a.len() && a[i] == y;
            if e < d {
                assert(a[e] == b[e]);
            }
            if f < d {
                assert(a[f] == b[f]);
            }
            assert(e > d && f > d);
            assert(key_lt(order, keys[b[d]], keys[b[e]]));
            assert(key_lt(order, keys[a[d]], keys[a[f]]));
            lemma_key_order(order, keys[x], keys[y], keys[x]);
        }
    }
}

/// Strictly sorting the same keys gives the same order.
proof fn lemma_sorted_unique(keys: Seq<Seq<u8>>, order: KeyOrder, a: Seq<int>, b: Seq<int>, n: nat)
    requires
        n <= keys.len(),
        is_perm(a, n),
        is_perm(b, n),
        increasing(keys, order, a),
        increasing(keys, order, b),
    ensures
        a == b,
{
    lemma_sorted_unique_upto(keys, order, a, b, n, n);
    assert(a =~= b);
}

/// Some item holds a negative zero, said by position.
proof fn lemma_items_neg_zero(items: Seq<ValueView>)
    ensures
        items_have_neg_zero(items) == exists|i: int| 0 <= i < items.len() && has_neg_zero(#[trigger] items[i]),
    decreases items.len(),
{
    if items.len() > 0 {
        let d = items.drop_last();
        lemma_items_neg_zero(d);
        if exists|i: int| 0 <= i < d.len() && has_neg_zero(#[trigger] d[i]) {
            let i = choose|i: int| 0 <= i < d.len() && has_neg_zero(#[trigger] d[i]);
            assert(has_neg_zero(items[i]));
        }
        if exists|i: int| 0 <= i < items.len() && has_neg_zero(#[trigger] items[i]) {
            let i = choose|i: int| 0 <= i < items.len() && has_neg_zero(#[trigger] items[i]);
            if i < d.len() {
                assert(has_neg_zero(d[i]));
            }
        }
    }
}

/// A key or value of the pair holds a negative zero.
pub open spec fn pair_neg_zero(p: (ValueView, ValueView)) -> bool {
    has_neg_zero(p.0) || has_neg_zero(p.1)
}

/// Some key or value holds a negative zero, said by position.
proof fn lemma_pairs_neg_zero(pairs: Seq<(ValueView, ValueView)>)
    ensures
        pairs_have_neg_zero(pairs) == exists|i: int| 0 <= i < pairs.len() && pair_neg_zero(#[trigger] pairs[i]),
    decreases pairs.len(),
{
    if pairs.len() > 0 {
        let d = pairs.drop_last();
        lemma_pairs_neg_zero(d);
        assert forall|i: int| 0 <= i < d.len() implies #[trigger] d[i] == pairs[i] by {}
        if exists|i: int| 0 <= i < d.len() && pair_neg_zero(#[trigger] d[i]) {
            let i = choose|i: int| 0 <= i < d.len() && pair_neg_zero(#[trigger] d[i]);
            assert(pair_neg_zero(pairs[i]));
        }
        assert(pair_neg_zero(pairs[pairs.len() - 1]) == (has_neg_zero(pairs.last().0) || has_neg_zero(pairs.last().1)));
        if exists|i: int| 0 <= i < pairs.len() && pair_neg_zero(#[trigger] pairs[i]) {
            let i = choose|i: int| 0 <= i < pairs.len() && pair_neg_zero(#[trigger] pairs[i]);
            if i < d.len() {
                assert(pair_neg_zero(d[i]));
            }
        }
    }
}

/// A NaN is neither negative zero nor other than a NaN after becoming
/// the canonical quiet NaN.
proof fn lemma_nan_facts(b: u64)
    ensures
        is_nan_bits(canonical_nan()),
        canonical_nan() != negative_zero(),
        is_nan_bits(b) ==> b != negative_zero(),
{
    assert(((0x7ff8_0000_0000_0000u64 >> 52u64) & 0x7ffu64 == 0x7ff) && (0x7ff8_0000_0000_0000u64
        & 0x000f_ffff_ffff_ffffu64 != 0) && (((b >> 52u64) & 0x7ffu64 == 0x7ff) ==> b != 0x8000_0000_0000_0000u64))
        by (bit_vector);
}

/// Forming items keeps where negative zeros are, given that forming each
/// item does.
proof fn lemma_form_items_neg_zero(items: Seq<ValueView>, order: KeyOrder, d: nat)
    requires
        forall|i: int| 0 <= i < items.len() ==> has_neg_zero(form(#[trigger] items[i], order, d)) == has_neg_zero(items[i]),
    ensures
        items_have_neg_zero(form_items(items, order, d)) == items_have_neg_zero(items),
{
    let f = form_items(items, order, d);
    lemma_form_items(items, order, d);
    lemma_items_neg_zero(items);
    lemma_items_neg_zero(f);
    if items_have_neg_zero(items) {
        let i = choose|i: int| 0 <= i < items.len() && has_neg_zero(#[trigger] items[i]);
        assert(has_neg_zero(f[i]));
    }
    if items_have_neg_zero(f) {
        let i = choose|i: int| 0 <= i < f.len() && has_neg_zero(#[trigger] f[i]);
        assert(has_neg_zero(items[i]));
    }
}

/// Forming the entries of a map in a permuted order keeps where negative
/// zeros are, given that forming each key and value does.
proof fn lemma_form_entries_neg_zero(pairs: Seq<(ValueView, ValueView)>, s: Seq<int>, order: KeyOrder, d: nat)
    requires
        is_perm(s, pairs.len()),
        forall|k: int| 0 <= k < pairs.len() ==> has_neg_zero(form(#[trigger] pairs[k].0, order, d)) == has_neg_zero(pairs[k].0)
            && has_neg_zero(form(pairs[k].1, order, d)) == has_neg_zero(pairs[k].1),
    ensures
        pairs_have_neg_zero(form_entries(pairs, s, order, d)) == pairs_have_neg_zero(pairs),
{
    let f = form_entries(pairs, s, order, d);
    lemma_form_entries(pairs, s, order, d);
    lemma_pairs_neg_zero(pairs);
    lemma_pairs_neg_zero(f);
    if pairs_have_neg_zero(pairs) {
        let k = choose|i: int| 0 <= i < pairs.len() && pair_neg_zero(#[trigger] pairs[i]);
        assert(s.contains(k));
        let i = choose|i: int| 0 <= i < s.len() && s[i] == k;
        assert(f[i] == (form(pairs[k].0, order, d), form(pairs[k].1, order, d)));
        assert(pair_neg_zero(f[i]));
    }
    if pairs_have_neg_zero(f) {
        let i = choose|i: int| 0 <= i < f.len() && pair_neg_zero(#[trigger] f[i]);
        let k = s[i];
        assert(f[i] == (form(pairs[k].0, order, d), form(pairs[k].1, order, d)));
        assert(pair_neg_zero(pairs[k]));
    }
}

/// The canonical form holds a negative zero exactly where the value does.
proof fn lemma_form_neg_zero(v: ValueView, order: KeyOrder, depth: nat)
    ensures
        has_neg_zero(form(v, order, depth)) == has_neg_zero(v),
    decreases v,
{
    let d = (depth - 1) as nat;
    match v {
        ValueView::Float(b) => {
            lemma_nan_facts(b);
            let x = if is_nan_bits(b) { canonical_nan() } else { b };
            assert(has_neg_zero(v) == (b == negative_zero()));
            assert(form(v, order, depth) == ValueView::Float(x));
            assert(has_neg_zero(ValueView::Float(x)) == (x == negative_zero()));
        },
        ValueView::Array(items) => {
            assert forall|i: int| 0 <= i < items.len() implies has_neg_zero(form(#[trigger] items[i], order, d))
                == has_neg_zero(items[i]) by {
                lemma_form_neg_zero(items[i], order, d);
            }
            lemma_form_items_neg_zero(items, order, d);
        },
        ValueView::Tag(t, inner) => {
            lemma_form_neg_zero(*inner, order, d);
            let f = form(*inner, order, d);
            if (t == 2 || t == 3) && (f is Bytes) {
                assert(!has_neg_zero(f));
                assert(!has_neg_zero(ValueView::Bytes(crate::canonical::strip_zeros(f->Bytes_0))));
            }
        },
        ValueView::Mapping(pairs) => {
            if let Ok(keys) = ordered_spec(pairs, order, false, d) {
                crate::canonical::lemma_key_encs_len(pairs, order, false, d);
                let s = sort_order(keys, order);
                lemma_sort_prefix_perm(keys, order, keys.len());
                assert forall|k: int| 0 <= k < pairs.len() implies has_neg_zero(form(#[trigger] pairs[k].0, order, d))
                    == has_neg_zero(pairs[k].0) && has_neg_zero(form(pairs[k].1, order, d)) == has_neg_zero(pairs[k].1) by {
                    lemma_form_neg_zero(pairs[k].0, order, d);
                    lemma_form_neg_zero(pairs[k].1, order, d);
                }
                lemma_form_entries_neg_zero(pairs, s, order, d);
            }
        },
        _ => {},
    }
}

/// A key's pair of encodings in a map: its encoding, and the encoding it
/// is compared by.
pub open spec fn key_enc_of(key: ValueView, order: KeyOrder, zero: bool, depth: nat) -> (Seq<u8>, Seq<u8>) {
    let e = enc_value(key, order, zero, depth)->Ok_0;
    if !zero && has_neg_zero(key) {
        (e, enc_value(key, order, true, depth)->Ok_0)
    } else {
        (e, e)
    }
}

/// A key's encodings exist.
pub open spec fn key_ok(key: ValueView, order: KeyOrder, zero: bool, depth: nat) -> bool {
    enc_value(key, order, zero, depth) is Ok && (!zero && has_neg_zero(key) ==> enc_value(key, order, true, depth) is Ok)
}

/// The key encodings of a map, key by key.
proof fn lemma_key_encs_char(pairs: Seq<(ValueView, ValueView)>, order: KeyOrder, zero: bool, depth: nat)
    ensures
        (key_encs(pairs, order, zero, depth) is Ok) == (forall|k: int| 0 <= k < pairs.len() ==> key_ok(#[trigger] pairs[k].0, order, zero, depth)),
        key_encs(pairs, order, zero, depth) is Ok ==> key_encs(pairs, order, zero, depth)->Ok_0 == Seq::new(
            pairs.len(),
            |k: int| key_enc_of(pairs[k].0, order, zero, depth),
        ),
    decreases pairs.len(),
{
    if pairs.len() > 0 {
        let d = pairs.drop_last();
        lemma_key_encs_char(d, order, zero, depth);
        assert forall|k: int| 0 <= k < d.len() implies #[trigger] d[k] == pairs[k] by {}
        if key_encs(pairs, order, zero, depth) is Ok {
            let kes = key_encs(pairs, order, zero, depth)->Ok_0;
            assert(kes =~= Seq::new(pairs.len(), |k: int| key_enc_of(pairs[k].0, order, zero, depth)));
        }
        let last = pairs[pairs.len() - 1].0;
        assert(pairs.last().0 == last);
        if forall|k: int| 0 <= k < pairs.len() ==> key_ok(#[trigger] pairs[k].0, order, zero, depth) {
            assert forall|k: int| 0 <= k < d.len() implies key_ok(#[trigger] d[k].0, order, zero, depth) by {
                assert(key_ok(pairs[k].0, order, zero, depth));
            }
            assert(key_ok(last, order, zero, depth));
            assert(key_encs(pairs, order, zero, depth) is Ok);
        }
        if key_encs(pairs, order, zero, depth) is Ok {
            assert(key_encs(d, order, zero, depth) is Ok);
            assert(key_ok(last, order, zero, depth));
            assert forall|k: int| 0 <= k < pairs.len() implies key_ok(#[trigger] pairs[k].0, order, zero, depth) by {
                if k < d.len() {
                    assert(key_ok(d[k].0, order, zero, depth));
                }
            }
        }
    }
}

/// A sequence taken in a permuted order.
pub open spec fn permuted<T>(e: Seq<T>, s: Seq<int>) -> Seq<T> {
    Seq::new(s.len(), |j: int| e[s[j]])
}

/// Permuting a sequence without repeats gives none.
proof fn lemma_permuted_no_duplicate(e: Seq<Seq<u8>>, s: Seq<int>)
    requires
        is_perm(s, e.len()),
        !has_duplicate(e),
    ensures
        !has_duplicate(permuted(e, s)),
{
    let p = permuted(e, s);
    if has_duplicate(p) {
        let (i, j) = choose|i: int, j: int| 0 <= i < j < p.len() && p[i] == p[j];
        if s[i] < s[j] {
            assert(e[s[i]] == e[s[j]]);
        } else {
            assert(e[s[j]] == e[s[i]]);
        }
    }
}

/// Encoding the formed entries of a map in the order `tau` is encoding the
/// entries before forming in the matching order `sigma`.
proof fn lemma_enc_entries_perm(
    pairs: Seq<(ValueView, ValueView)>,
    keys: Seq<Seq<u8>>,
    fpairs: Seq<(ValueView, ValueView)>,
    fkeys: Seq<Seq<u8>>,
    s: Seq<int>,
    tau: Seq<int>,
    sigma: Seq<int>,
    order: KeyOrder,
    zero: bool,
    depth: nat,
)
    requires
        fpairs.len() == s.len(),
        fkeys.len() == s.len(),
        forall|j: int| 0 <= j < s.len() ==> 0 <= #[trigger] s[j] < pairs.len(),
        forall|j: int| 0 <= j < s.len() ==> #[trigger] fpairs[j].1 == form(pairs[s[j]].1, order, depth),
        forall|j: int| 0 <= j < s.len() ==> #[trigger] fkeys[j] == keys[s[j]],
        tau.len() == sigma.len(),
        forall|i: int| 0 <= i < tau.len() ==> 0 <= #[trigger] tau[i] < s.len(),
        forall|i: int| 0 <= i < tau.len() ==> #[trigger] sigma[i] == s[tau[i]],
        enc_entries(pairs, keys, sigma, order, zero, depth) is Ok,
        forall|k: int| 0 <= k < pairs.len() ==> (enc_value(#[trigger] pairs[k].1, order, zero, depth) is Ok ==> enc_value(
            form(pairs[k].1, order, depth),
            order,
            zero,
            depth,
        ) == enc_value(pairs[k].1, order, zero, depth)),
    ensures
        enc_entries(fpairs, fkeys, tau, order, zero, depth) == enc_entries(pairs, keys, sigma, order, zero, depth),
    decreases tau.len(),
{
    if tau.len() > 0 {
        let t = tau.drop_last();
        let g = sigma.drop_last();
        assert forall|i: int| 0 <= i < t.len() implies 0 <= #[trigger] t[i] < s.len() by {
            assert(t[i] == tau[i]);
        }
        assert forall|i: int| 0 <= i < t.len() implies #[trigger] g[i] == s[t[i]] by {
            assert(t[i] == tau[i] && g[i] == sigma[i]);
        }
        lemma_enc_entries_perm(pairs, keys, fpairs, fkeys, s, t, g, order, zero, depth);
        let kk = tau.last();
        let k = sigma.last();
        assert(tau[tau.len() - 1] == kk && sigma[sigma.len() - 1] == k);
        assert(k == s[kk]);
    }
}

/// Stripping leading zeros twice is stripping them once.
proof fn lemma_strip_zeros_idempotent(b: Seq<u8>)
    ensures
        strip_zeros(strip_zeros(b)) == strip_zeros(b),
{
    lemma_strip_zeros_head(b);
}

/// Only a byte string has a byte string as its canonical form, and it is
/// its own form.
proof fn lemma_form_bytes(v: ValueView, order: KeyOrder, depth: nat)
    ensures
        form(v, order, depth) is Bytes ==> v is Bytes && form(v, order, depth) == v,
{
    match v {
        ValueView::Tag(t, inner) => {
            let f = form(*inner, order, (depth - 1) as nat);
            assert(!(tag_form(t, f) is Bytes));
        },
        _ => {},
    }
}

/// Forming items keeps their encoding, given that forming each item keeps
/// its own.
proof fn lemma_items_keep_encoding(items: Seq<ValueView>, order: KeyOrder, zero: bool, d: nat)
    requires
        enc_items(items, order, zero, d) is Ok,
        forall|i: int| 0 <= i < items.len() ==> (enc_value(#[trigger] items[i], order, zero, d) is Ok ==> enc_value(
            form(items[i], order, d),
            order,
            zero,
            d,
        ) == enc_value(items[i], order, zero, d)),
    ensures
        enc_items(form_items(items, order, d), order, zero, d) == enc_items(items, order, zero, d),
    decreases items.len(),
{
    if items.len() > 0 {
        let t = items.drop_last();
        assert forall|i: int| 0 <= i < t.len() implies (enc_value(#[trigger] t[i], order, zero, d) is Ok ==> enc_value(
            form(t[i], order, d),
            order,
            zero,
            d,
        ) == enc_value(t[i], order, zero, d)) by {
            assert(t[i] == items[i]);
        }
        lemma_items_keep_encoding(t, order, zero, d);
        let f = form_items(items, order, d);
        assert(f.drop_last() =~= form_items(t, order, d));
        assert(items.last() == items[items.len() - 1]);
    }
}

/// Keys taken in a non-decreasing order, none repeated, strictly increase.
proof fn lemma_strictly(keys: Seq<Seq<u8>>, order: KeyOrder, r: Seq<int>)
    requires
        nondecreasing(keys, order, r),
        !has_duplicate(keys),
        forall|i: int| 0 <= i < r.len() ==> 0 <= #[trigger] r[i] < keys.len(),
        forall|i: int, j: int| 0 <= i < j < r.len() ==> r[i] != r[j],
    ensures
        increasing(keys, order, r),
{
    assert forall|i: int, j: int| 0 <= i < j < r.len() implies key_lt(order, #[trigger] keys[r[i]], #[trigger] keys[r[j]]) by {
        assert(key_le(order, keys[r[i]], keys[r[j]]));
        if r[i] < r[j] {
            assert(keys[r[i]] != keys[r[j]]);
        } else {
            assert(keys[r[j]] != keys[r[i]]);
        }
        lemma_key_order(order, keys[r[i]], keys[r[j]], keys[r[i]]);
    }
}

/// The keys of a map's formed entries, taken in a permuted order, are its
/// keys in that order, given that forming each key keeps its encodings.
proof fn lemma_formed_keys(pairs: Seq<(ValueView, ValueView)>, s: Seq<int>, order: KeyOrder, zero: bool, d: nat)
    requires
        is_perm(s, pairs.len()),
        ordered_spec(pairs, order, zero, d) is Ok,
        forall|k: int| 0 <= k < pairs.len() ==> has_neg_zero(form(#[trigger] pairs[k].0, order, d)) == has_neg_zero(pairs[k].0),
        forall|k: int, z: bool| 0 <= k < pairs.len() ==> ((#[trigger] enc_value(pairs[k].0, order, z, d)) is Ok ==> enc_value(
            form(pairs[k].0, order, d),
            order,
            z,
            d,
        ) == enc_value(pairs[k].0, order, z, d)),
    ensures
        ordered_spec(form_entries(pairs, s, order, d), order, zero, d) == Ok::<Seq<Seq<u8>>, CanonicalError>(
            permuted(ordered_spec(pairs, order, zero, d)->Ok_0, s),
        ),
{
    let n = pairs.len();
    let fp = form_entries(pairs, s, order, d);
    lemma_form_entries(pairs, s, order, d);
    let kes = key_encs(pairs, order, zero, d)->Ok_0;
    lemma_key_encs_char(pairs, order, zero, d);
    lemma_key_encs_char(fp, order, zero, d);
    assert forall|j: int| 0 <= j < n implies key_ok(#[trigger] fp[j].0, order, zero, d) && key_enc_of(fp[j].0, order, zero, d)
        == key_enc_of(pairs[s[j]].0, order, zero, d) by {
        let k = s[j];
        assert(key_ok(pairs[k].0, order, zero, d));
        assert(fp[j].0 == form(pairs[k].0, order, d));
    }
    let pk = permuted(kes, s);
    assert(key_encs(fp, order, zero, d)->Ok_0 =~= pk);
    assert(equivalents(pk) =~= permuted(equivalents(kes), s));
    lemma_permuted_no_duplicate(equivalents(kes), s);
    assert(encodings(pk) =~= permuted(encodings(kes), s));
}

/// Sorting keys that are already in sorted order leaves them in place.
proof fn lemma_resort_in_place(keys: Seq<Seq<u8>>, order: KeyOrder)
    ensures
        sort_order(permuted(keys, sort_order(keys, order)), order) == identity(keys.len()),
{
    let n = keys.len();
    let s = sort_order(keys, order);
    lemma_sort_prefix_perm(keys, order, n);
    lemma_sort_prefix_sorted(keys, order, n);
    let fk = permuted(keys, s);
    assert forall|i: int, j: int| 0 <= i < j < n implies key_le(order, #[trigger] fk[i], #[trigger] fk[j]) by {
        assert(fk[i] == keys[s[i]] && fk[j] == keys[s[j]]);
    }
    lemma_sort_prefix_identity(fk, order, n);
}

/// Keys without repeats sort the same way whatever order they come in:
/// sorting them, or sorting them permuted and undoing the permutation.
proof fn lemma_resort_distinct(keys: Seq<Seq<u8>>, s: Seq<int>, order: KeyOrder)
    requires
        is_perm(s, keys.len()),
        !has_duplicate(keys),
    ensures
        forall|i: int| 0 <= i < keys.len() ==> #[trigger] sort_order(keys, order)[i] == s[sort_order(permuted(keys, s), order)[i]],
        forall|i: int| 0 <= i < keys.len() ==> 0 <= #[trigger] sort_order(permuted(keys, s), order)[i] < keys.len(),
        sort_order(keys, order).len() == keys.len(),
        sort_order(permuted(keys, s), order).len() == keys.len(),
{
    let n = keys.len();
    let fk = permuted(keys, s);
    lemma_permuted_no_duplicate(keys, s);
    let sigma = sort_order(keys, order);
    let tau = sort_order(fk, order);
    lemma_sort_prefix_perm(keys, order, n);
    lemma_sort_prefix_perm(fk, order, n);
    lemma_sort_prefix_sorted(keys, order, n);
    lemma_sort_prefix_sorted(fk, order, n);
    let b = Seq::new(n, |i: int| s[tau[i]]);
    assert forall|v: int| 0 <= v < n implies #[trigger] b.contains(v) by {
        assert(s.contains(v));
        let e = choose|e: int| 0 <= e < s.len() && s[e] == v;
        assert(tau.contains(e));
        let i = choose|i: int| 0 <= i < tau.len() && tau[i] == e;
        assert(b[i] == v);
    }
    assert(is_perm(b, n));
    lemma_strictly(keys, order, sigma);
    lemma_strictly(fk, order, tau);
    assert forall|i: int, j: int| 0 <= i < j < b.len() implies key_lt(order, #[trigger] keys[b[i]], #[trigger] keys[b[j]]) by {
        assert(keys[b[i]] == fk[tau[i]] && keys[b[j]] == fk[tau[j]]);
    }
    lemma_sorted_unique(keys, order, sigma, b, n);
    assert forall|i: int| 0 <= i < n implies #[trigger] sigma[i] == s[tau[i]] by {
        assert(b[i] == s[tau[i]]);
    }
}

/// The law for a map whose keys and values keep their encodings when
/// formed.
proof fn lemma_map_keeps_encoding(pairs: Seq<(ValueView, ValueView)>, order: KeyOrder, zero: bool, depth: nat, d: nat)
    requires
        depth == d + 1,
        enc_value(ValueView::Mapping(pairs), order, zero, depth) is Ok,
        ordered_spec(pairs, order, false, d) is Ok,
        forall|k: int| 0 <= k < pairs.len() ==> has_neg_zero(form(#[trigger] pairs[k].0, order, d)) == has_neg_zero(pairs[k].0),
        forall|k: int, z: bool| 0 <= k < pairs.len() ==> ((#[trigger] enc_value(pairs[k].0, order, z, d)) is Ok ==> enc_value(
            form(pairs[k].0, order, d),
            order,
            z,
            d,
        ) == enc_value(pairs[k].0, order, z, d)),
        forall|k: int| 0 <= k < pairs.len() ==> (enc_value(#[trigger] pairs[k].1, order, zero, d) is Ok ==> enc_value(
            form(pairs[k].1, order, d),
            order,
            zero,
            d,
        ) == enc_value(pairs[k].1, order, zero, d)),
    ensures
        enc_value(form(ValueView::Mapping(pairs), order, depth), order, zero, depth) == enc_value(
            ValueView::Mapping(pairs),
            order,
            zero,
            depth,
        ),
{
    let n = pairs.len();
    let keys_f = ordered_spec(pairs, order, false, d)->Ok_0;
    crate::canonical::lemma_key_encs_len(pairs, order, false, d);
    crate::canonical::lemma_key_encs_len(pairs, order, zero, d);
    let s = sort_order(keys_f, order);
    lemma_sort_prefix_perm(keys_f, order, keys_f.len());
    assert(is_perm(s, n));
    let fp = form_entries(pairs, s, order, d);
    lemma_form_entries(pairs, s, order, d);
    assert(form(ValueView::Mapping(pairs), order, depth) == ValueView::Mapping(fp));
    let keys = ordered_spec(pairs, order, zero, d)->Ok_0;
    lemma_formed_keys(pairs, s, order, zero, d);
    let fk = permuted(keys, s);
    assert forall|j: int| 0 <= j < s.len() implies #[trigger] fp[j].1 == form(pairs[s[j]].1, order, d) by {}
    assert forall|j: int| 0 <= j < s.len() implies #[trigger] fk[j] == keys[s[j]] by {}
    if !zero {
        lemma_resort_in_place(keys_f, order);
        let tau = identity(n);
        assert forall|i: int| 0 <= i < tau.len() implies #[trigger] s[i] == s[tau[i]] by {}
        lemma_enc_entries_perm(pairs, keys, fp, fk, s, tau, s, order, zero, d);
    } else {
        let kes = key_encs(pairs, order, zero, d)->Ok_0;
        lemma_key_encs_char(pairs, order, zero, d);
        assert(equivalents(kes) =~= keys);
        lemma_resort_distinct(keys, s, order);
        let sigma = sort_order(keys, order);
        let tau = sort_order(fk, order);
        lemma_enc_entries_perm(pairs, keys, fp, fk, s, tau, sigma, order, zero, d);
    }
}

/// Forming a value keeps its deterministic encoding.
proof fn lemma_form_keeps_encoding(v: ValueView, order: KeyOrder, zero: bool, depth: nat)
    requires
        enc_value(v, order, zero, depth) is Ok,
    ensures
        enc_value(form(v, order, depth), order, zero, depth) == enc_value(v, order, zero, depth),
    decreases v,
{
    let d = (depth - 1) as nat;
    match v {
        ValueView::Float(b) => {
            lemma_nan_facts(b);
        },
        ValueView::Array(items) => {
            assert forall|i: int| 0 <= i < items.len() implies (enc_value(#[trigger] items[i], order, zero, d) is Ok
                ==> enc_value(form(items[i], order, d), order, zero, d) == enc_value(items[i], order, zero, d)) by {
                if enc_value(items[i], order, zero, d) is Ok {
                    lemma_form_keeps_encoding(items[i], order, zero, d);
                }
            }
            lemma_items_keep_encoding(items, order, zero, d);
            crate::canonical::lemma_form_items(items, order, d);
        },
        ValueView::Tag(t, inner) => {
            let f = form(*inner, order, d);
            lemma_form_bytes(*inner, order, d);
            if (t == 2 || t == 3) && (*inner is Bytes) {
                let st = strip_zeros(inner->Bytes_0);
                lemma_strip_zeros_idempotent(inner->Bytes_0);
                assert(f == *inner);
            } else {
                lemma_form_keeps_encoding(*inner, order, zero, d);
                if t == 2 || t == 3 {
                    assert(!(f is Bytes));
                }
            }
        },
        ValueView::Mapping(pairs) => {
            if ordered_spec(pairs, order, false, d) is Ok {
                assert forall|k: int| 0 <= k < pairs.len() implies has_neg_zero(form(#[trigger] pairs[k].0, order, d))
                    == has_neg_zero(pairs[k].0) by {
                    lemma_form_neg_zero(pairs[k].0, order, d);
                }
                assert forall|k: int, z: bool| 0 <= k < pairs.len() implies ((#[trigger] enc_value(pairs[k].0, order, z, d)) is Ok
                    ==> enc_value(form(pairs[k].0, order, d), order, z, d) == enc_value(pairs[k].0, order, z, d)) by {
                    if enc_value(pairs[k].0, order, z, d) is Ok {
                        lemma_form_keeps_encoding(pairs[k].0, order, z, d);
                    }
                }
                assert forall|k: int| 0 <= k < pairs.len() implies (enc_value(#[trigger] pairs[k].1, order, zero, d) is Ok
                    ==> enc_value(form(pairs[k].1, order, d), order, zero, d) == enc_value(pairs[k].1, order, zero, d)) by {
                    if enc_value(pairs[k].1, order, zero, d) is Ok {
                        lemma_form_keeps_encoding(pairs[k].1, order, zero, d);
                    }
                }
                lemma_map_keeps_encoding(pairs, order, zero, depth, d);
            }
        },
        _ => {},
    }
}

/// Every item of an encodable list is encodable.
proof fn lemma_enc_items_each(items: Seq<ValueView>, order: KeyOrder, zero: bool, d: nat)
    requires
        enc_items(items, order, zero, d) is Ok,
    ensures
        forall|i: int| 0 <= i < items.len() ==> (#[trigger] enc_value(items[i], order, zero, d)) is Ok,
    decreases items.len(),
{
    if items.len() > 0 {
        let t = items.drop_last();
        lemma_enc_items_each(t, order, zero, d);
        assert forall|i: int| 0 <= i < items.len() implies (#[trigger] enc_value(items[i], order, zero, d)) is Ok by {
            if i < t.len() {
                assert(t[i] == items[i]);
                assert(enc_value(t[i], order, zero, d) is Ok);
            } else {
                assert(items[i] == items.last());
            }
        }
    }
}

/// Every value encoded by an encodable run of entries is encodable.
proof fn lemma_enc_entries_each(pairs: Seq<(ValueView, ValueView)>, keys: Seq<Seq<u8>>, s: Seq<int>, order: KeyOrder, zero: bool, d: nat)
    requires
        enc_entries(pairs, keys, s, order, zero, d) is Ok,
    ensures
        forall|j: int| 0 <= j < s.len() && 0 <= s[j] < pairs.len() ==> (#[trigger] enc_value(pairs[s[j]].1, order, zero, d)) is Ok,
    decreases s.len(),
{
    if s.len() > 0 {
        let t = s.drop_last();
        lemma_enc_entries_each(pairs, keys, t, order, zero, d);
        assert forall|j: int| 0 <= j < s.len() && 0 <= s[j] < pairs.len() implies (#[trigger] enc_value(pairs[s[j]].1, order, zero, d)) is Ok by {
            if j < t.len() {
                assert(t[j] == s[j]);
                assert(enc_value(pairs[t[j]].1, order, zero, d) is Ok);
            } else {
                assert(s[j] == s.last());
            }
        }
    }
}

/// Every map inside a value lists its entries in ascending order of their
/// keys' deterministic encodings (a map whose keys cannot be encoded is
/// taken as it is).
pub open spec fn maps_sorted(v: ValueView, order: KeyOrder, depth: nat) -> bool
    decreases v,
{
    match v {
        ValueView::Array(items) => items_sorted(items, order, (depth - 1) as nat),
        ValueView::Tag(_, inner) => maps_sorted(*inner, order, (depth - 1) as nat),
        ValueView::Mapping(pairs) => pairs_sorted(pairs, order, (depth - 1) as nat) && match ordered_spec(
            pairs,
            order,
            false,
            (depth - 1) as nat,
        ) {
            Ok(keys) => forall|i: int, j: int| 0 <= i < j < keys.len() ==> key_le(order, #[trigger] keys[i], #[trigger] keys[j]),
            Err(_) => true,
        },
        _ => true,
    }
}

/// Every item's maps are sorted.
pub open spec fn items_sorted(items: Seq<ValueView>, order: KeyOrder, depth: nat) -> bool
    decreases items,
{
    if items.len() == 0 {
        true
    } else {
        items_sorted(items.drop_last(), order, depth) && maps_sorted(items.last(), order, depth)
    }
}

/// Every key's and value's maps are sorted.
pub open spec fn pairs_sorted(pairs: Seq<(ValueView, ValueView)>, order: KeyOrder, depth: nat) -> bool
    decreases pairs,
{
    if pairs.len() == 0 {
        true
    } else {
        pairs_sorted(pairs.drop_last(), order, depth) && maps_sorted(pairs.last().0, order, depth) && maps_sorted(
            pairs.last().1,
            order,
            depth,
        )
    }
}

/// Items whose maps are each sorted.
proof fn lemma_items_sorted(items: Seq<ValueView>, order: KeyOrder, d: nat)
    requires
        forall|i: int| 0 <= i < items.len() ==> maps_sorted(#[trigger] items[i], order, d),
    ensures
        items_sorted(items, order, d),
    decreases items.len(),
{
    if items.len() > 0 {
        let t = items.drop_last();
        assert forall|i: int| 0 <= i < t.len() implies maps_sorted(#[trigger] t[i], order, d) by {
            assert(t[i] == items[i]);
        }
        lemma_items_sorted(t, order, d);
        assert(items.last() == items[items.len() - 1]);
    }
}

/// Pairs whose keys' and values' maps are each sorted.
proof fn lemma_pairs_sorted(pairs: Seq<(ValueView, ValueView)>, order: KeyOrder, d: nat)
    requires
        forall|i: int| 0 <= i < pairs.len() ==> maps_sorted(#[trigger] pairs[i].0, order, d) && maps_sorted(pairs[i].1, order, d),
    ensures
        pairs_sorted(pairs, order, d),
    decreases pairs.len(),
{
    if pairs.len() > 0 {
        let t = pairs.drop_last();
        assert forall|i: int| 0 <= i < t.len() implies maps_sorted(#[trigger] t[i].0, order, d) && maps_sorted(t[i].1, order, d) by {
            assert(t[i] == pairs[i]);
        }
        lemma_pairs_sorted(t, order, d);
        assert(pairs.last() == pairs[pairs.len() - 1]);
        assert(maps_sorted(pairs[pairs.len() - 1].0, order, d));
    }
}

/// A map's canonical form is sorted, given that its keys and values
/// each keep their encodings and have sorted canonical forms.
proof fn lemma_map_sorted(pairs: Seq<(ValueView, ValueView)>, order: KeyOrder, depth: nat, d: nat)
    requires
        depth == d + 1,
        ordered_spec(pairs, order, false, d) is Ok,
        forall|k: int| 0 <= k < pairs.len() ==> has_neg_zero(form(#[trigger] pairs[k].0, order, d)) == has_neg_zero(pairs[k].0),
        forall|k: int, z: bool| 0 <= k < pairs.len() ==> ((#[trigger] enc_value(pairs[k].0, order, z, d)) is Ok ==> enc_value(
            form(pairs[k].0, order, d),
            order,
            z,
            d,
        ) == enc_value(pairs[k].0, order, z, d)),
        forall|k: int| 0 <= k < pairs.len() ==> maps_sorted(form(#[trigger] pairs[k].0, order, d), order, d) && maps_sorted(
            form(pairs[k].1, order, d),
            order,
            d,
        ),
    ensures
        maps_sorted(form(ValueView::Mapping(pairs), order, depth), order, depth),
{
    let n = pairs.len();
    let keys_f = ordered_spec(pairs, order, false, d)->Ok_0;
    crate::canonical::lemma_key_encs_len(pairs, order, false, d);
    let s = sort_order(keys_f, order);
    lemma_sort_prefix_perm(keys_f, order, n);
    lemma_sort_prefix_sorted(keys_f, order, n);
    let fp = form_entries(pairs, s, order, d);
    lemma_form_entries(pairs, s, order, d);
    lemma_formed_keys(pairs, s, order, false, d);
    let fk = permuted(keys_f, s);
    assert forall|i: int, j: int| 0 <= i < j < fk.len() implies key_le(order, #[trigger] fk[i], #[trigger] fk[j]) by {
        assert(fk[i] == keys_f[s[i]] && fk[j] == keys_f[s[j]]);
    }
    assert forall|j: int| 0 <= j < fp.len() implies maps_sorted(#[trigger] fp[j].0, order, d) && maps_sorted(fp[j].1, order, d) by {
        let k = s[j];
        assert(maps_sorted(form(pairs[k].0, order, d), order, d));
    }
    lemma_pairs_sorted(fp, order, d);
    assert(form(ValueView::Mapping(pairs), order, depth) == ValueView::Mapping(fp));
}

/// The canonical form of an encodable map has every map sorted.
proof fn lemma_form_sorted_map(pairs: Seq<(ValueView, ValueView)>, order: KeyOrder, depth: nat, d: nat)
    requires
        depth == d + 1,
        enc_value(ValueView::Mapping(pairs), order, false, depth) is Ok,
        ordered_spec(pairs, order, false, d) is Ok,
    ensures
        maps_sorted(form(ValueView::Mapping(pairs), order, depth), order, depth),
    decreases pairs,
{
    let n = pairs.len();
    let keys_f = ordered_spec(pairs, order, false, d)->Ok_0;
    crate::canonical::lemma_key_encs_len(pairs, order, false, d);
    let s = sort_order(keys_f, order);
    lemma_sort_prefix_perm(keys_f, order, n);
    lemma_key_encs_char(pairs, order, false, d);
    lemma_enc_entries_each(pairs, keys_f, s, order, false, d);
    assert forall|k: int| 0 <= k < n implies has_neg_zero(form(#[trigger] pairs[k].0, order, d)) == has_neg_zero(pairs[k].0) by {
        lemma_form_neg_zero(pairs[k].0, order, d);
    }
    assert forall|k: int, z: bool| 0 <= k < n implies ((#[trigger] enc_value(pairs[k].0, order, z, d)) is Ok ==> enc_value(
        form(pairs[k].0, order, d),
        order,
        z,
        d,
    ) == enc_value(pairs[k].0, order, z, d)) by {
        if enc_value(pairs[k].0, order, z, d) is Ok {
            lemma_form_keeps_encoding(pairs[k].0, order, z, d);
        }
    }
    assert forall|k: int| 0 <= k < n implies maps_sorted(form(#[trigger] pairs[k].0, order, d), order, d) && maps_sorted(
        form(pairs[k].1, order, d),
        order,
        d,
    ) by {
        assert(key_ok(pairs[k].0, order, false, d));
        lemma_form_sorted(pairs[k].0, order, d);
        assert(s.contains(k));
        let j = choose|j: int| 0 <= j < s.len() && s[j] == k;
        assert(enc_value(pairs[s[j]].1, order, false, d) is Ok);
        lemma_form_sorted(pairs[k].1, order, d);
    }
    lemma_map_sorted(pairs, order, depth, d);
}

/// The canonical form of an encodable value has every map sorted.
proof fn lemma_form_sorted(v: ValueView, order: KeyOrder, depth: nat)
    requires
        enc_value(v, order, false, depth) is Ok,
    ensures
        maps_sorted(form(v, order, depth), order, depth),
    decreases v,
{
    let d = (depth - 1) as nat;
    match v {
        ValueView::Array(items) => {
            lemma_items_within(items, d);
            lemma_enc_items_each(items, order, false, d);
            let f = form_items(items, order, d);
            crate::canonical::lemma_form_items(items, order, d);
            assert forall|i: int| 0 <= i < f.len() implies maps_sorted(#[trigger] f[i], order, d) by {
                lemma_form_sorted(items[i], order, d);
            }
            lemma_items_sorted(f, order, d);
        },
        ValueView::Tag(t, inner) => {
            let f = form(*inner, order, d);
            if !((t == 2 || t == 3) && (f is Bytes)) {
                lemma_form_sorted(*inner, order, d);
            } else {
                let st = strip_zeros(f->Bytes_0);
                assert(maps_sorted(ValueView::Bytes(st), order, d));
            }
        },
        ValueView::Mapping(pairs) => {
            if ordered_spec(pairs, order, false, d) is Ok {
                lemma_form_sorted_map(pairs, order, depth, d);
            }
        },
        _ => {},
    }
}

/// Canonicalizing a value keeps its deterministic encoding: whenever the
/// value can be written deterministically, its canonical form is written
/// as the same bytes.
pub proof fn lemma_canonical_keeps_encoding(v: ValueView, order: KeyOrder, depth: nat)
    requires
        enc_value(v, order, false, depth) is Ok,
    ensures
        enc_value(form(v, order, depth), order, false, depth) == enc_value(v, order, false, depth),
{
    lemma_form_keeps_encoding(v, order, false, depth);
}

/// The canonical form of a value that can be written deterministically
/// lists the entries of every map in ascending order of their keys'
/// encodings.
pub proof fn lemma_canonical_maps_sorted(v: ValueView, order: KeyOrder, depth: nat)
    requires
        enc_value(v, order, false, depth) is Ok,
    ensures
        maps_sorted(form(v, order, depth), order, depth),
{
    lemma_form_sorted(v, order, depth);
}

/// A map's canonical form is its own canonical form, given that its keys
/// and values keep their encodings and their canonical forms are their own.
proof fn lemma_map_idempotent(pairs: Seq<(ValueView, ValueView)>, order: KeyOrder, depth: nat, d: nat)
    requires
        depth == d + 1,
        ordered_spec(pairs, order, false, d) is Ok,
        forall|k: int| 0 <= k < pairs.len() ==> has_neg_zero(form(#[trigger] pairs[k].0, order, d)) == has_neg_zero(pairs[k].0),
        forall|k: int, z: bool| 0 <= k < pairs.len() ==> ((#[trigger] enc_value(pairs[k].0, order, z, d)) is Ok ==> enc_value(
            form(pairs[k].0, order, d),
            order,
            z,
            d,
        ) == enc_value(pairs[k].0, order, z, d)),
        forall|k: int| 0 <= k < pairs.len() ==> form(form(#[trigger] pairs[k].0, order, d), order, d) == form(pairs[k].0, order, d)
            && form(form(pairs[k].1, order, d), order, d) == form(pairs[k].1, order, d),
    ensures
        form(form(ValueView::Mapping(pairs), order, depth), order, depth) == form(ValueView::Mapping(pairs), order, depth),
{
    let n = pairs.len();
    let keys_f = ordered_spec(pairs, order, false, d)->Ok_0;
    crate::canonical::lemma_key_encs_len(pairs, order, false, d);
    let s = sort_order(keys_f, order);
    lemma_sort_prefix_perm(keys_f, order, n);
    let fp = form_entries(pairs, s, order, d);
    lemma_form_entries(pairs, s, order, d);
    lemma_formed_keys(pairs, s, order, false, d);
    lemma_resort_in_place(keys_f, order);
    let id = identity(n);
    assert forall|j: int| 0 <= j < id.len() implies 0 <= #[trigger] id[j] < fp.len() by {}
    lemma_form_entries(fp, id, order, d);
    let ffp = form_entries(fp, id, order, d);
    assert forall|j: int| 0 <= j < n implies #[trigger] ffp[j] == fp[j] by {
        assert(id[j] == j);
        let k = s[j];
        assert(fp[j] == (form(pairs[k].0, order, d), form(pairs[k].1, order, d)));
        assert(form(form(pairs[k].0, order, d), order, d) == form(pairs[k].0, order, d));
    }
    assert(ffp =~= fp);
    assert(form(ValueView::Mapping(pairs), order, depth) == ValueView::Mapping(fp));
}

/// The canonical form of an encodable value is its own canonical form.
proof fn lemma_form_idempotent(v: ValueView, order: KeyOrder, depth: nat)
    requires
        enc_value(v, order, false, depth) is Ok,
    ensures
        form(form(v, order, depth), order, depth) == form(v, order, depth),
    decreases v,
{
    let d = (depth - 1) as nat;
    match v {
        ValueView::Float(b) => {
            lemma_nan_facts(b);
        },
        ValueView::Array(items) => {
            lemma_items_within(items, d);
            lemma_enc_items_each(items, order, false, d);
            let f = form_items(items, order, d);
            crate::canonical::lemma_form_items(items, order, d);
            crate::canonical::lemma_form_items(f, order, d);
            assert forall|i: int| 0 <= i < f.len() implies #[trigger] form_items(f, order, d)[i] == f[i] by {
                lemma_form_idempotent(items[i], order, d);
            }
            assert(form_items(f, order, d) =~= f);
        },
        ValueView::Tag(t, inner) => {
            let f = form(*inner, order, d);
            lemma_form_bytes(*inner, order, d);
            if (t == 2 || t == 3) && (f is Bytes) {
                let st = strip_zeros(f->Bytes_0);
                lemma_strip_zeros_idempotent(f->Bytes_0);
                let g = ValueView::Bytes(st);
                assert(form(g, order, d) == g);
                assert(tag_form(t, g) == tag_form(t, f));
            } else {
                lemma_form_idempotent(*inner, order, d);
                lemma_form_bytes(f, order, d);
                assert(form(v, order, depth) == ValueView::Tag(t, Box::new(f)));
                assert(form(ValueView::Tag(t, Box::new(f)), order, depth) == tag_form(t, form(f, order, d)));
            }
        },
        ValueView::Mapping(pairs) => {
            if ordered_spec(pairs, order, false, d) is Ok {
                lemma_form_idempotent_map(pairs, order, depth, d);
            }
        },
        _ => {},
    }
}

/// The canonical form of an encodable map is its own canonical form.
proof fn lemma_form_idempotent_map(pairs: Seq<(ValueView, ValueView)>, order: KeyOrder, depth: nat, d: nat)
    requires
        depth == d + 1,
        enc_value(ValueView::Mapping(pairs), order, false, depth) is Ok,
        ordered_spec(pairs, order, false, d) is Ok,
    ensures
        form(form(ValueView::Mapping(pairs), order, depth), order, depth) == form(ValueView::Mapping(pairs), order, depth),
    decreases pairs,
{
    let n = pairs.len();
    let keys_f = ordered_spec(pairs, order, false, d)->Ok_0;
    crate::canonical::lemma_key_encs_len(pairs, order, false, d);
    let s = sort_order(keys_f, order);
    lemma_sort_prefix_perm(keys_f, order, n);
    lemma_key_encs_char(pairs, order, false, d);
    lemma_enc_entries_each(pairs, keys_f, s, order, false, d);
    assert forall|k: int| 0 <= k < n implies has_neg_zero(form(#[trigger] pairs[k].0, order, d)) == has_neg_zero(pairs[k].0) by {
        lemma_form_neg_zero(pairs[k].0, order, d);
    }
    assert forall|k: int, z: bool| 0 <= k < n implies ((#[trigger] enc_value(pairs[k].0, order, z, d)) is Ok ==> enc_value(
        form(pairs[k].0, order, d),
        order,
        z,
        d,
    ) == enc_value(pairs[k].0, order, z, d)) by {
        if enc_value(pairs[k].0, order, z, d) is Ok {
            lemma_form_keeps_encoding(pairs[k].0, order, z, d);
        }
    }
    assert forall|k: int| 0 <= k < n implies form(form(#[trigger] pairs[k].0, order, d), order, d) == form(pairs[k].0, order, d)
        && form(form(pairs[k].1, order, d), order, d) == form(pairs[k].1, order, d) by {
        assert(key_ok(pairs[k].0, order, false, d));
        lemma_form_idempotent(pairs[k].0, order, d);
        assert(s.contains(k));
        let j = choose|j: int| 0 <= j < s.len() && s[j] == k;
        assert(enc_value(pairs[s[j]].1, order, false, d) is Ok);
        lemma_form_idempotent(pairs[k].1, order, d);
    }
    lemma_map_idempotent(pairs, order, depth, d);
}

/// Canonicalizing twice is canonicalizing once: the canonical form of a
/// value that can be written deterministically is its own canonical form.
pub proof fn lemma_canonical_idempotent(v: ValueView, order: KeyOrder, depth: nat)
    requires
        enc_value(v, order, false, depth) is Ok,
    ensures
        form(form(v, order, depth), order, depth) == form(v, order, depth),
{
    lemma_form_idempotent(v, order, depth);
}

/// Items whose plans all succeed can be written deterministically.
proof fn lemma_prep_items_enc(items: Seq<ValueView>, order: KeyOrder, d: nat)
    requires
        prep_items(items, order, d) is Ok,
    ensures
        enc_items(items, order, false, d) is Ok,
    decreases items,
{
    if items.len() > 0 {
        lemma_prep_items_enc(items.drop_last(), order, d);
        lemma_prep_enc(items.last(), order, d);
    }
}

/// The values of pairs whose plans all succeed can each be written
/// deterministically.
proof fn lemma_prep_pairs_values(pairs: Seq<(ValueView, ValueView)>, order: KeyOrder, d: nat)
    requires
        prep_pairs(pairs, order, d) is Ok,
    ensures
        forall|k: int| 0 <= k < pairs.len() ==> (#[trigger] enc_value(pairs[k].1, order, false, d)) is Ok,
    decreases pairs,
{
    if pairs.len() > 0 {
        lemma_prep_pairs_values(pairs.drop_last(), order, d);
        lemma_prep_enc(pairs.last().1, order, d);
        assert forall|k: int| 0 <= k < pairs.len() implies (#[trigger] enc_value(pairs[k].1, order, false, d)) is Ok by {
            if k < pairs.len() - 1 {
                assert(pairs.drop_last()[k] == pairs[k]);
            }
        }
    }
}

/// Entries whose values can all be written are written.
proof fn lemma_enc_entries_ok(
    pairs: Seq<(ValueView, ValueView)>,
    keys: Seq<Seq<u8>>,
    s: Seq<int>,
    order: KeyOrder,
    d: nat,
)
    requires
        forall|k: int| 0 <= k < pairs.len() ==> (#[trigger] enc_value(pairs[k].1, order, false, d)) is Ok,
    ensures
        enc_entries(pairs, keys, s, order, false, d) is Ok,
    decreases s.len(),
{
    if s.len() > 0 {
        lemma_enc_entries_ok(pairs, keys, s.drop_last(), order, d);
        let k = s.last();
        if 0 <= k < pairs.len() {
            assert(enc_value(pairs[k].1, order, false, d) is Ok);
        }
    }
}

/// A value whose plan succeeds can be written deterministically.
proof fn lemma_prep_enc(v: ValueView, order: KeyOrder, depth: nat)
    requires
        prep(v, order, depth) is Ok,
    ensures
        enc_value(v, order, false, depth) is Ok,
    decreases v,
{
    let d = (depth - 1) as nat;
    match v {
        ValueView::Array(items) => {
            lemma_prep_items_enc(items, order, d);
        },
        ValueView::Tag(t, inner) => {
            lemma_prep_enc(*inner, order, d);
        },
        ValueView::Mapping(pairs) => {
            lemma_prep_pairs_values(pairs, order, d);
            if let Ok(keys) = ordered_spec(pairs, order, false, d) {
                lemma_enc_entries_ok(pairs, keys, sort_order(keys, order), order, d);
            }
        },
        _ => {},
    }
}

/// Every value that canonicalizing accepts can be written
/// deterministically.
pub proof fn lemma_accepted_encodes(v: ValueView, order: KeyOrder, depth: nat)
    requires
        prep(v, order, depth) is Ok,
    ensures
        enc_value(v, order, false, depth) is Ok,
{
    lemma_prep_enc(v, order, depth);
}

/// Whenever `canonicalize_with` succeeds on a value, the value it leaves
/// lists the entries of every map in ascending order of their keys'
/// encodings, is written as the same bytes as the value it started from,
/// and is its own canonical form.
pub proof fn lemma_canonicalized_value(v: ValueView, order: KeyOrder)
    requires
        prep(v, order, DEFAULT_RECURSION_LIMIT as nat) is Ok,
    ensures
        ({
            let w = form(v, order, DEFAULT_RECURSION_LIMIT as nat);
            &&& maps_sorted(w, order, DEFAULT_RECURSION_LIMIT as nat)
            &&& enc_value(w, order, false, DEFAULT_RECURSION_LIMIT as nat) == enc_value(
                v,
                order,
                false,
                DEFAULT_RECURSION_LIMIT as nat,
            )
            &&& enc_value(v, order, false, DEFAULT_RECURSION_LIMIT as nat) is Ok
            &&& form(w, order, DEFAULT_RECURSION_LIMIT as nat) == w
        }),
{
    let depth = DEFAULT_RECURSION_LIMIT as nat;
    lemma_prep_enc(v, order, depth);
    lemma_canonical_maps_sorted(v, order, depth);
    lemma_canonical_keeps_encoding(v, order, depth);
    lemma_canonical_idempotent(v, order, depth);
}

/// A value is nested no deeper than `depth`: every item, tagged item,
/// key and value inside it stands at most `depth` levels down.
pub open spec fn within(v: ValueView, depth: nat) -> bool
    decreases v, 1nat,
{
    depth > 0 && match v {
        ValueView::Array(items) => items_within(items, (depth - 1) as nat),
        ValueView::Tag(_, inner) => within(*inner, (depth - 1) as nat),
        ValueView::Mapping(pairs) => pairs_within(pairs, (depth - 1) as nat),
        _ => true,
    }
}

/// Every item of a run is nested no deeper than `depth`.
pub open spec fn items_within(items: Seq<ValueView>, depth: nat) -> bool
    decreases items, 0nat,
{
    items.len() == 0 || (items_within(items.drop_last(), depth) && within(items.last(), depth))
}

/// Every key and value of a run of pairs is nested no deeper than `depth`.
pub open spec fn pairs_within(pairs: Seq<(ValueView, ValueView)>, depth: nat) -> bool
    decreases pairs, 0nat,
{
    pairs.len() == 0 || (pairs_within(pairs.drop_last(), depth) && within(pairs.last().0, depth) && within(
        pairs.last().1,
        depth,
    ))
}

/// A run is within a depth exactly when each item is.
proof fn lemma_items_within(items: Seq<ValueView>, d: nat)
    ensures
        items_within(items, d) == (forall|i: int| 0 <= i < items.len() ==> within(#[trigger] items[i], d)),
    decreases items.len(),
{
    if items.len() > 0 {
        let t = items.drop_last();
        lemma_items_within(t, d);
        assert forall|i: int| 0 <= i < t.len() implies #[trigger] t[i] == items[i] by {}
        if items_within(items, d) {
            assert forall|i: int| 0 <= i < items.len() implies within(#[trigger] items[i], d) by {
                if i < t.len() {
                    assert(within(t[i], d));
                }
            }
        }
        if forall|i: int| 0 <= i < items.len() ==> within(#[trigger] items[i], d) {
            assert forall|i: int| 0 <= i < t.len() implies within(#[trigger] t[i], d) by {
                assert(within(items[i], d));
            }
            assert(within(items[items.len() - 1], d));
        }
    }
}

/// A run of pairs is within a depth exactly when each key and value is.
proof fn lemma_pairs_within(pairs: Seq<(ValueView, ValueView)>, d: nat)
    ensures
        pairs_within(pairs, d) == (forall|k: int|
            0 <= k < pairs.len() ==> within(#[trigger] pairs[k].0, d) && within(pairs[k].1, d)),
    decreases pairs.len(),
{
    if pairs.len() > 0 {
        let t = pairs.drop_last();
        lemma_pairs_within(t, d);
        assert forall|k: int| 0 <= k < t.len() implies #[trigger] t[k] == pairs[k] by {}
        if pairs_within(pairs, d) {
            assert forall|k: int| 0 <= k < pairs.len() implies within(#[trigger] pairs[k].0, d) && within(pairs[k].1, d) by {
                if k < t.len() {
                    assert(within(t[k].0, d));
                }
            }
        }
        if forall|k: int| 0 <= k < pairs.len() ==> within(#[trigger] pairs[k].0, d) && within(pairs[k].1, d) {
            assert forall|k: int| 0 <= k < t.len() implies within(#[trigger] t[k].0, d) && within(t[k].1, d) by {
                assert(within(pairs[k].0, d));
            }
            assert(within(pairs[pairs.len() - 1].0, d));
        }
    }
}

/// The items of a run whose plans succeed each have a plan.
proof fn lemma_prep_items_each(items: Seq<ValueView>, order: KeyOrder, d: nat)
    ensures
        (prep_items(items, order, d) is Ok) == (forall|i: int| 0 <= i < items.len() ==> (#[trigger] prep(items[i], order, d)) is Ok),
    decreases items.len(),
{
    if items.len() > 0 {
        let t = items.drop_last();
        lemma_prep_items_each(t, order, d);
        assert forall|i: int| 0 <= i < t.len() implies #[trigger] t[i] == items[i] by {}
        if prep_items(items, order, d) is Ok {
            assert forall|i: int| 0 <= i < items.len() implies (#[trigger] prep(items[i], order, d)) is Ok by {
                if i < t.len() {
                    assert(prep(t[i], order, d) is Ok);
                }
            }
        }
        if forall|i: int| 0 <= i < items.len() ==> (#[trigger] prep(items[i], order, d)) is Ok {
            assert forall|i: int| 0 <= i < t.len() implies (#[trigger] prep(t[i], order, d)) is Ok by {
                assert(prep(items[i], order, d) is Ok);
            }
            assert(prep(items[items.len() - 1], order, d) is Ok);
        }
    }
}

/// The keys and values of a run of pairs whose plans succeed each have a
/// plan.
proof fn lemma_prep_pairs_each(pairs: Seq<(ValueView, ValueView)>, order: KeyOrder, d: nat)
    ensures
        (prep_pairs(pairs, order, d) is Ok) == (forall|k: int|
            0 <= k < pairs.len() ==> (#[trigger] prep(pairs[k].0, order, d)) is Ok && prep(pairs[k].1, order, d) is Ok),
    decreases pairs.len(),
{
    if pairs.len() > 0 {
        let t = pairs.drop_last();
        lemma_prep_pairs_each(t, order, d);
        assert forall|k: int| 0 <= k < t.len() implies #[trigger] t[k] == pairs[k] by {}
        if prep_pairs(pairs, order, d) is Ok {
            assert forall|k: int| 0 <= k < pairs.len() implies (#[trigger] prep(pairs[k].0, order, d)) is Ok && prep(
                pairs[k].1,
                order,
                d,
            ) is Ok by {
                if k < t.len() {
                    assert(prep(t[k].0, order, d) is Ok);
                }
            }
        }
        if forall|k: int|
            0 <= k < pairs.len() ==> (#[trigger] prep(pairs[k].0, order, d)) is Ok && prep(pairs[k].1, order, d) is Ok {
            assert forall|k: int| 0 <= k < t.len() implies (#[trigger] prep(t[k].0, order, d)) is Ok && prep(
                t[k].1,
                order,
                d,
            ) is Ok by {
                assert(prep(pairs[k].0, order, d) is Ok);
            }
            assert(prep(pairs[pairs.len() - 1].0, order, d) is Ok);
        }
    }
}

/// A value whose plan succeeds is nested no deeper than the depth it was
/// planned with.
proof fn lemma_prep_within(v: ValueView, order: KeyOrder, depth: nat)
    requires
        prep(v, order, depth) is Ok,
    ensures
        within(v, depth),
    decreases v,
{
    let d = (depth - 1) as nat;
    match v {
        ValueView::Array(items) => {
            lemma_prep_items_each(items, order, d);
            assert forall|i: int| 0 <= i < items.len() implies within(#[trigger] items[i], d) by {
                assert(decreases_to!(v => items));
                assert(decreases_to!(items => items[i]));
                lemma_prep_within(items[i], order, d);
            }
            lemma_items_within(items, d);
            assert(items_within(items, d));
        },
        ValueView::Tag(_, inner) => {
            lemma_prep_within(*inner, order, d);
            assert(within(v, depth));
        },
        ValueView::Mapping(pairs) => {
            lemma_prep_pairs_each(pairs, order, d);
            assert forall|k: int| 0 <= k < pairs.len() implies within(#[trigger] pairs[k].0, d) && within(
                pairs[k].1,
                d,
            ) by {
                assert(decreases_to!(v => pairs));
                assert(decreases_to!(pairs => pairs[k]));
                assert(decreases_to!(pairs[k] => pairs[k].0));
                assert(decreases_to!(pairs[k] => pairs[k].1));
                lemma_prep_within(pairs[k].0, order, d);
                lemma_prep_within(pairs[k].1, order, d);
            }
            lemma_pairs_within(pairs, d);
            assert(pairs_within(pairs, d));
            assert(depth > 0);
            assert(within(v, depth));
        },
        _ => {
            assert(within(v, depth));
        },
    }
}

/// The keys of a map whose keys can be encoded are as many as its pairs,
/// and its sort order lists every position once.
proof fn lemma_ordered_shape(pairs: Seq<(ValueView, ValueView)>, order: KeyOrder, d: nat)
    requires
        ordered_spec(pairs, order, false, d) is Ok,
    ensures
        ordered_spec(pairs, order, false, d)->Ok_0.len() == pairs.len(),
        forall|k: int| 0 <= k < pairs.len() ==> key_ok(#[trigger] pairs[k].0, order, false, d),
{
    lemma_key_encs_char(pairs, order, false, d);
    let keys = ordered_spec(pairs, order, false, d)->Ok_0;
    lemma_sort_prefix_perm(keys, order, keys.len());
}

/// A value nested no deeper than `depth` that can be written
/// deterministically has a plan.
proof fn lemma_enc_prep(v: ValueView, order: KeyOrder, depth: nat)
    requires
        enc_value(v, order, false, depth) is Ok,
        within(v, depth),
    ensures
        prep(v, order, depth) is Ok,
    decreases v,
{
    let d = (depth - 1) as nat;
    match v {
        ValueView::Array(items) => {
            lemma_items_within(items, d);
            lemma_enc_items_each(items, order, false, d);
            assert forall|i: int| 0 <= i < items.len() implies (#[trigger] prep(items[i], order, d)) is Ok by {
                assert(decreases_to!(v => items));
                assert(decreases_to!(items => items[i]));
                lemma_enc_prep(items[i], order, d);
            }
            lemma_prep_items_each(items, order, d);
            assert(prep_items(items, order, d) is Ok);
            assert(depth > 0);
            assert(prep(v, order, depth) is Ok);
        },
        ValueView::Tag(t, inner) => {
            if (t == 2 || t == 3) && (*inner is Bytes) {
                assert(within(*inner, d));
                assert(prep(*inner, order, d) is Ok);
            } else {
                lemma_enc_prep(*inner, order, d);
            }
            assert(prep(v, order, depth) is Ok);
        },
        ValueView::Mapping(pairs) => {
            lemma_pairs_within(pairs, d);
            lemma_ordered_shape(pairs, order, d);
            let keys = ordered_spec(pairs, order, false, d)->Ok_0;
            let s = sort_order(keys, order);
            lemma_sort_prefix_perm(keys, order, keys.len());
            lemma_enc_entries_each(pairs, keys, s, order, false, d);
            assert forall|k: int| 0 <= k < pairs.len() implies (#[trigger] prep(pairs[k].0, order, d)) is Ok && prep(
                pairs[k].1,
                order,
                d,
            ) is Ok by {
                assert(decreases_to!(v => pairs));
                assert(decreases_to!(pairs => pairs[k]));
                assert(decreases_to!(pairs[k] => pairs[k].0));
                assert(decreases_to!(pairs[k] => pairs[k].1));
                assert(key_ok(pairs[k].0, order, false, d));
                lemma_enc_prep(pairs[k].0, order, d);
                assert(s.contains(k));
                let j = choose|j: int| 0 <= j < s.len() && s[j] == k;
                assert(enc_value(pairs[s[j]].1, order, false, d) is Ok);
                lemma_enc_prep(pairs[k].1, order, d);
            }
            lemma_prep_pairs_each(pairs, order, d);
            assert(prep_pairs(pairs, order, d) is Ok);
            assert(depth > 0);
            assert(prep(v, order, depth) is Ok);
        },
        _ => {
            assert(depth > 0);
        },
    }
}

/// Canonicalizing keeps a value nested no deeper than it was.
#[verifier::rlimit(40)]
proof fn lemma_form_within(v: ValueView, order: KeyOrder, depth: nat)
    requires
        within(v, depth),
    ensures
        within(form(v, order, depth), depth),
    decreases v,
{
    let d = (depth - 1) as nat;
    match v {
        ValueView::Array(items) => {
            lemma_items_within(items, d);
            lemma_form_items(items, order, d);
            let f = form_items(items, order, d);
            assert forall|i: int| 0 <= i < f.len() implies within(#[trigger] f[i], d) by {
                assert(decreases_to!(v => items));
                assert(decreases_to!(items => items[i]));
                lemma_form_within(items[i], order, d);
            }
            lemma_items_within(f, d);
            assert(items_within(f, d));
            assert(depth > 0);
            assert(within(form(v, order, depth), depth));
        },
        ValueView::Tag(t, inner) => {
            lemma_form_within(*inner, order, d);
            let f = form(*inner, order, d);
            assert(d > 0);
            assert(form(v, order, depth) == tag_form(t, f));
            if (t == 2 || t == 3) && (f is Bytes) {
                assert(within(ValueView::Bytes(strip_zeros(f->Bytes_0)), d));
            } else {
                assert(tag_form(t, f) == ValueView::Tag(t, Box::new(f)));
            }
            assert(within(tag_form(t, f), depth));
        },
        ValueView::Mapping(pairs) => {
            lemma_pairs_within(pairs, d);
            if ordered_spec(pairs, order, false, d) is Ok {
                let keys = ordered_spec(pairs, order, false, d)->Ok_0;
                let s = sort_order(keys, order);
                lemma_ordered_shape(pairs, order, d);
                lemma_sort_prefix_perm(keys, order, keys.len());
                lemma_form_entries(pairs, s, order, d);
                let f = form_entries(pairs, s, order, d);
                assert forall|j: int| 0 <= j < f.len() implies within(#[trigger] f[j].0, d) && within(f[j].1, d) by {
                    let k = s[j];
                    assert(decreases_to!(v => pairs));
                    assert(decreases_to!(pairs => pairs[k]));
                    assert(decreases_to!(pairs[k] => pairs[k].0));
                    assert(decreases_to!(pairs[k] => pairs[k].1));
                    lemma_form_within(pairs[k].0, order, d);
                    lemma_form_within(pairs[k].1, order, d);
                }
                lemma_pairs_within(f, d);
                assert(pairs_within(f, d));
                assert(depth > 0);
                assert(within(form(v, order, depth), depth));
            }
        },
        _ => {},
    }
}

/// On a value nested no deeper than `depth`, canonicalizing succeeds
/// exactly when the value can be written deterministically, so
/// `canonicalize_with` and `to_writer` succeed on the same values nested
/// no deeper than the recursion limit.
pub proof fn lemma_accepted_iff_encodable(v: ValueView, order: KeyOrder, depth: nat)
    requires
        within(v, depth),
    ensures
        (prep(v, order, depth) is Ok) == (enc_value(v, order, false, depth) is Ok),
{
    if prep(v, order, depth) is Ok {
        lemma_prep_enc(v, order, depth);
    }
    if enc_value(v, order, false, depth) is Ok {
        lemma_enc_prep(v, order, depth);
    }
}

/// Whenever `canonicalize_with` succeeds on a value, it succeeds again on
/// the value it left, and leaves that value as it is.
pub proof fn lemma_canonicalize_twice(v: ValueView, order: KeyOrder)
    requires
        prep(v, order, DEFAULT_RECURSION_LIMIT as nat) is Ok,
    ensures
        prep(form(v, order, DEFAULT_RECURSION_LIMIT as nat), order, DEFAULT_RECURSION_LIMIT as nat) is Ok,
        form(form(v, order, DEFAULT_RECURSION_LIMIT as nat), order, DEFAULT_RECURSION_LIMIT as nat) == form(
            v,
            order,
            DEFAULT_RECURSION_LIMIT as nat,
        ),
{
    let depth = DEFAULT_RECURSION_LIMIT as nat;
    let w = form(v, order, depth);
    lemma_prep_enc(v, order, depth);
    lemma_prep_within(v, order, depth);
    lemma_form_within(v, order, depth);
    lemma_canonical_keeps_encoding(v, order, depth);
    lemma_enc_prep(w, order, depth);
    lemma_canonical_idempotent(v, order, depth);
}

} // verus!
