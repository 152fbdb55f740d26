//! Deterministic encoding support (RFC 8949 §4.2).

use vstd::prelude::*;
use vstd::utf8::encode_utf8;

use crate::codec::{float_bytes, simple_bytes, uint_bytes, len_bytes, Encoder};
use crate::float::{canonical_nan, is_nan_bits, negative_zero, frac_mask};
use crate::value::{
    Integer, Value, ValueView, view_items, view_pairs, lemma_view_items, lemma_view_pairs,
    simple_reserved,
};

verus! {

/// The map key ordering used by deterministic encoding.
///
/// RFC 8949 defines two deterministic key orderings. They agree whenever
/// all keys encode to the same length, but differ otherwise: `100`
/// (`0x1864`) sorts before `-1` (`0x20`) bytewise, but after it
/// length-first.
#[derive(Copy, Clone, Debug, PartialEq, Eq, Hash, Structural)]
#[non_exhaustive]
pub enum KeyOrder {
    /// Bytewise lexicographic order of the keys' deterministic encodings,
    /// as the core deterministic encoding requirements (RFC 8949 §4.2.1)
    /// ask.
    Bytewise,
    /// Length-first order: shorter encodings sort earlier, and encodings of
    /// equal length sort bytewise (RFC 8949 §4.2.3).
    LengthFirst,
}

impl Default for KeyOrder {
    fn default() -> (order: Self)
        ensures
            order == KeyOrder::Bytewise,
    {
        KeyOrder::Bytewise
    }
}

/// Why a value has no deterministic encoding.
#[derive(Copy, Clone, Debug, PartialEq, Eq, Structural)]
pub enum CanonicalError {
    /// A map holds two keys that are equal under deterministic encoding.
    DuplicateKey,
    /// The value nests deeper than the recursion limit.
    RecursionLimit,
}

/// How deep values may nest before encoding gives up.
pub const DEFAULT_RECURSION_LIMIT: usize = 256;

/// Strict bytewise lexicographic order: the first differing byte decides,
/// and a proper prefix sorts first.
pub open spec fn lex_lt(a: Seq<u8>, b: Seq<u8>) -> bool
    decreases a.len(),
{
    if a.len() == 0 {
        b.len() > 0
    } else if b.len() == 0 {
        false
    } else if a[0] != b[0] {
        a[0] < b[0]
    } else {
        lex_lt(a.drop_first(), b.drop_first())
    }
}

/// Strict order of two encoded keys under `order`.
pub open spec fn key_lt(order: KeyOrder, a: Seq<u8>, b: Seq<u8>) -> bool {
    match order {
        KeyOrder::Bytewise => lex_lt(a, b),
        KeyOrder::LengthFirst => a.len() < b.len() || (a.len() == b.len() && lex_lt(a, b)),
    }
}

/// The two key orders agree on keys whose encodings have the same length.
pub proof fn lemma_orders_agree(a: Seq<u8>, b: Seq<u8>)
    requires
        a.len() == b.len(),
    ensures
        key_lt(KeyOrder::Bytewise, a, b) == key_lt(KeyOrder::LengthFirst, a, b),
{
}

/// Entry `i` sorts before entry `j`: by key, then by original position.
pub open spec fn before(keys: Seq<Seq<u8>>, order: KeyOrder, i: int, j: int) -> bool {
    key_lt(order, keys[i], keys[j]) || (keys[i] == keys[j] && i < j)
}

/// Inserts index `x` into the sorted index sequence `sorted`.
pub open spec fn insert_sorted(sorted: Seq<int>, x: int, keys: Seq<Seq<u8>>, order: KeyOrder) -> Seq<int>
    decreases sorted.len(),
{
    if sorted.len() == 0 {
        seq![x]
    } else if before(keys, order, sorted.last(), x) {
        sorted.push(x)
    } else {
        insert_sorted(sorted.drop_last(), x, keys, order).push(sorted.last())
    }
}

/// The indices `0..n` sorted by their keys.
pub open spec fn sort_prefix(keys: Seq<Seq<u8>>, order: KeyOrder, n: nat) -> Seq<int>
    decreases n,
{
    if n == 0 {
        Seq::empty()
    } else {
        insert_sorted(sort_prefix(keys, order, (n - 1) as nat), n - 1, keys, order)
    }
}

/// The positions of `keys` in ascending key order (equal keys keep their
/// relative order).
pub open spec fn sort_order(keys: Seq<Seq<u8>>, order: KeyOrder) -> Seq<int> {
    sort_prefix(keys, order, keys.len())
}

/// The encoding of an integer in major type 0 or 1.
pub open spec fn int_bytes(i: int) -> Seq<u8> {
    if i < 0 {
        uint_bytes(0x20, (-1 - i) as u64)
    } else {
        uint_bytes(0x00, i as u64)
    }
}

/// The floating-point value written by deterministic encoding: NaNs become
/// the canonical quiet NaN, and under `zero` negative zero becomes zero.
pub open spec fn canon_float(b: u64, zero: bool) -> u64 {
    if is_nan_bits(b) {
        canonical_nan()
    } else if zero && (b == 0 || b == negative_zero()) {
        0
    } else {
        b
    }
}

/// A byte string without its leading zero bytes.
pub open spec fn strip_zeros(bytes: Seq<u8>) -> Seq<u8>
    decreases bytes.len(),
{
    if bytes.len() > 0 && bytes[0] == 0 {
        strip_zeros(bytes.drop_first())
    } else {
        bytes
    }
}

/// The big-endian value of a byte string.
pub open spec fn be_value(bytes: Seq<u8>) -> nat
    decreases bytes.len(),
{
    if bytes.len() == 0 {
        0
    } else {
        (be_value(bytes.drop_last()) * 256 + bytes.last()) as nat
    }
}

/// The plain integer of a bignum magnitude (tag 2 positive, tag 3
/// negative) that fits major type 0 or 1.
pub open spec fn small_bignum_spec(tag: u64, bytes: Seq<u8>) -> Option<int> {
    if bytes.len() > 8 {
        None
    } else if tag == 2 {
        Some(be_value(bytes) as int)
    } else {
        Some(-1 - be_value(bytes))
    }
}

/// Whether a value holds a floating-point negative zero anywhere.
pub open spec fn has_neg_zero(v: ValueView) -> bool
    decreases v,
{
    match v {
        ValueView::Float(b) => b == negative_zero(),
        ValueView::Array(items) => items_have_neg_zero(items),
        ValueView::Mapping(pairs) => pairs_have_neg_zero(pairs),
        ValueView::Tag(_, inner) => has_neg_zero(*inner),
        _ => false,
    }
}

/// Whether some item holds a negative zero.
pub open spec fn items_have_neg_zero(items: Seq<ValueView>) -> bool
    decreases items,
{
    if items.len() == 0 {
        false
    } else {
        items_have_neg_zero(items.drop_last()) || has_neg_zero(items.last())
    }
}

/// Whether some key or value holds a negative zero.
pub open spec fn pairs_have_neg_zero(pairs: Seq<(ValueView, ValueView)>) -> bool
    decreases pairs,
{
    if pairs.len() == 0 {
        false
    } else {
        pairs_have_neg_zero(pairs.drop_last()) || has_neg_zero(pairs.last().0) || has_neg_zero(
            pairs.last().1,
        )
    }
}

/// The deterministic encoding of a value, or the first error met in
/// encoding order. `zero` makes negative zero encode as zero (used to
/// compare keys); `depth` bounds the nesting.
pub open spec fn enc_value(v: ValueView, order: KeyOrder, zero: bool, depth: nat) -> Result<
    Seq<u8>,
    CanonicalError,
>
    decreases v, 0nat,
{
    if depth == 0 {
        Err(CanonicalError::RecursionLimit)
    } else {
        match v {
            ValueView::Integer(i) => Ok(int_bytes(i)),
            ValueView::Bytes(b) => Ok(uint_bytes(0x40, b.len() as u64) + b),
            ValueView::Text(t) => Ok(uint_bytes(0x60, encode_utf8(t).len() as u64) + encode_utf8(t)),
            ValueView::Bool(b) => Ok(seq![if b { 0xf5u8 } else { 0xf4u8 }]),
            ValueView::Null => Ok(seq![0xf6u8]),
            ValueView::Simple(x) => Ok(
                match simple_bytes(x) {
                    Some(b) => b,
                    None => Seq::empty(),
                },
            ),
            ValueView::Float(b) => Ok(float_bytes(canon_float(b, zero))),
            ValueView::Tag(t, inner) => {
                if (t == 2 || t == 3) && (*inner is Bytes) {
                    let stripped = strip_zeros(inner->Bytes_0);
                    match small_bignum_spec(t, stripped) {
                        Some(i) => Ok(int_bytes(i)),
                        None => Ok(uint_bytes(0xc0, t) + uint_bytes(0x40, stripped.len() as u64) + stripped),
                    }
                } else {
                    match enc_value(*inner, order, zero, (depth - 1) as nat) {
                        Ok(e) => Ok(uint_bytes(0xc0, t) + e),
                        Err(e) => Err(e),
                    }
                }
            },
            ValueView::Array(items) => match enc_items(items, order, zero, (depth - 1) as nat) {
                Ok(e) => Ok(uint_bytes(0x80, items.len() as u64) + e),
                Err(e) => Err(e),
            },
            ValueView::Mapping(pairs) => match ordered_spec(pairs, order, zero, (depth - 1) as nat) {
                Ok(keys) => match enc_entries(
                    pairs,
                    keys,
                    sort_order(keys, order),
                    order,
                    zero,
                    (depth - 1) as nat,
                ) {
                    Ok(body) => Ok(uint_bytes(0xa0, pairs.len() as u64) + body),
                    Err(e) => Err(e),
                },
                Err(e) => Err(e),
            },
        }
    }
}

/// The concatenated encodings of a sequence of values.
pub open spec fn enc_items(items: Seq<ValueView>, order: KeyOrder, zero: bool, depth: nat) -> Result<
    Seq<u8>,
    CanonicalError,
>
    decreases items, 0nat,
{
    if items.len() == 0 {
        Ok(Seq::empty())
    } else {
        match enc_items(items.drop_last(), order, zero, depth) {
            Ok(prev) => match enc_value(items.last(), order, zero, depth) {
                Ok(e) => Ok(prev + e),
                Err(e) => Err(e),
            },
            Err(e) => Err(e),
        }
    }
}

/// For every key, its encoding and the encoding it is compared by (with
/// negative zero as zero).
pub open spec fn key_encs(pairs: Seq<(ValueView, ValueView)>, order: KeyOrder, zero: bool, depth: nat) -> Result<
    Seq<(Seq<u8>, Seq<u8>)>,
    CanonicalError,
>
    decreases pairs, 0nat,
{
    if pairs.len() == 0 {
        Ok(Seq::empty())
    } else {
        match key_encs(pairs.drop_last(), order, zero, depth) {
            Ok(prev) => {
                let key = pairs.last().0;
                match enc_value(key, order, zero, depth) {
                    Ok(encoded) => if !zero && has_neg_zero(key) {
                        match enc_value(key, order, true, depth) {
                            Ok(equivalent) => Ok(prev.push((encoded, equivalent))),
                            Err(e) => Err(e),
                        }
                    } else {
                        Ok(prev.push((encoded, encoded)))
                    },
                    Err(e) => Err(e),
                }
            },
            Err(e) => Err(e),
        }
    }
}

/// The first components: the keys' encodings.
pub open spec fn encodings(kes: Seq<(Seq<u8>, Seq<u8>)>) -> Seq<Seq<u8>> {
    Seq::new(kes.len(), |i: int| kes[i].0)
}

/// The second components: the encodings keys are compared by.
pub open spec fn equivalents(kes: Seq<(Seq<u8>, Seq<u8>)>) -> Seq<Seq<u8>> {
    Seq::new(kes.len(), |i: int| kes[i].1)
}

/// Whether two entries are equal.
pub open spec fn has_duplicate(s: Seq<Seq<u8>>) -> bool {
    exists|i: int, j: int| 0 <= i < j < s.len() && s[i] == s[j]
}

/// The encoded keys of a map, when they have no duplicate.
pub open spec fn ordered_spec(pairs: Seq<(ValueView, ValueView)>, order: KeyOrder, zero: bool, depth: nat) -> Result<
    Seq<Seq<u8>>,
    CanonicalError,
>
    decreases pairs, 1nat,
{
    match key_encs(pairs, order, zero, depth) {
        Ok(kes) => if has_duplicate(equivalents(kes)) {
            Err(CanonicalError::DuplicateKey)
        } else {
            Ok(encodings(kes))
        },
        Err(e) => Err(e),
    }
}

/// The entries of a map in the order `s`: each encoded key followed by the
/// encoding of its value.
pub open spec fn enc_entries(
    pairs: Seq<(ValueView, ValueView)>,
    keys: Seq<Seq<u8>>,
    s: Seq<int>,
    order: KeyOrder,
    zero: bool,
    depth: nat,
) -> Result<Seq<u8>, CanonicalError>
    decreases pairs, s.len(),
{
    if s.len() == 0 {
        Ok(Seq::empty())
    } else {
        match enc_entries(pairs, keys, s.drop_last(), order, zero, depth) {
            Ok(prev) => {
                let k = s.last();
                if 0 <= k < pairs.len() {
                    match enc_value(pairs[k].1, order, zero, depth) {
                        Ok(e) => Ok(prev + keys[k] + e),
                        Err(e) => Err(e),
                    }
                } else {
                    Ok(prev)
                }
            },
            Err(e) => Err(e),
        }
    }
}


/// The byte sequences of a vector of byte vectors.
pub open spec fn key_views(keys: Seq<Vec<u8>>) -> Seq<Seq<u8>> {
    Seq::new(keys.len(), |i: int| keys[i]@)
}

/// Indices as integers.
pub open spec fn index_view(s: Seq<usize>) -> Seq<int> {
    Seq::new(s.len(), |i: int| s[i] as int)
}

/// Where `insert_sorted` puts `x`: after the last element, scanning from
/// the back, that sorts before it.
pub open spec fn insert_pos(sorted: Seq<int>, x: int, keys: Seq<Seq<u8>>, order: KeyOrder) -> nat
    decreases sorted.len(),
{
    if sorted.len() == 0 {
        0
    } else if before(keys, order, sorted.last(), x) {
        sorted.len()
    } else {
        insert_pos(sorted.drop_last(), x, keys, order)
    }
}

/// Insertion puts the new index at its insertion position and keeps the
/// others in order around it.
pub proof fn lemma_insert_shape(sorted: Seq<int>, x: int, keys: Seq<Seq<u8>>, order: KeyOrder)
    ensures
        insert_pos(sorted, x, keys, order) <= sorted.len(),
        insert_sorted(sorted, x, keys, order) == sorted.take(insert_pos(sorted, x, keys, order) as int)
            + seq![x] + sorted.skip(insert_pos(sorted, x, keys, order) as int),
    decreases sorted.len(),
{
    let p = insert_pos(sorted, x, keys, order) as int;
    if sorted.len() == 0 {
        assert(insert_sorted(sorted, x, keys, order) =~= sorted.take(p) + seq![x] + sorted.skip(p));
    } else if before(keys, order, sorted.last(), x) {
        assert(insert_sorted(sorted, x, keys, order) =~= sorted.take(p) + seq![x] + sorted.skip(p));
    } else {
        let d = sorted.drop_last();
        lemma_insert_shape(d, x, keys, order);
        assert(insert_sorted(sorted, x, keys, order) =~= sorted.take(p) + seq![x] + sorted.skip(p));
    }
}

/// Sorting the first `n` indices gives each of them exactly once.
pub proof fn lemma_sort_prefix_perm(keys: Seq<Seq<u8>>, order: KeyOrder, n: nat)
    ensures
        sort_prefix(keys, order, n).len() == n,
        forall|i: int| 0 <= i < n ==> 0 <= #[trigger] sort_prefix(keys, order, n)[i] < n,
        forall|i: int, j: int|
            0 <= i < j < n ==> sort_prefix(keys, order, n)[i] != sort_prefix(keys, order, n)[j],
        forall|v: int| 0 <= v < n ==> sort_prefix(keys, order, n).contains(v),
    decreases n,
{
    if n > 0 {
        let prev = sort_prefix(keys, order, (n - 1) as nat);
        lemma_sort_prefix_perm(keys, order, (n - 1) as nat);
        lemma_insert_shape(prev, n - 1, keys, order);
        let p = insert_pos(prev, n - 1, keys, order) as int;
        let r = sort_prefix(keys, order, n);
        assert(r == prev.take(p) + seq![n - 1] + prev.skip(p));
        assert forall|i: int| 0 <= i < n implies 0 <= #[trigger] r[i] < n by {
            if i < p {
                assert(r[i] == prev[i]);
            } else if i > p {
                assert(r[i] == prev[i - 1]);
            }
        }
        assert forall|i: int, j: int| 0 <= i < j < n implies r[i] != r[j] by {
            if i < p && j < p {
                assert(r[i] == prev[i] && r[j] == prev[j]);
            } else if i < p && j == p {
                assert(r[i] == prev[i]);
            } else if i < p && j > p {
                assert(r[i] == prev[i] && r[j] == prev[j - 1]);
            } else if i == p {
                assert(r[j] == prev[j - 1]);
            } else {
                assert(r[i] == prev[i - 1] && r[j] == prev[j - 1]);
            }
        }
        assert forall|v: int| 0 <= v < n implies r.contains(v) by {
            if v == n - 1 {
                assert(r[p] == v);
            } else {
                assert(prev.contains(v));
                let k = choose|k: int| 0 <= k < prev.len() && prev[k] == v;
                if k < p {
                    assert(r[k] == v);
                } else {
                    assert(r[k + 1] == v);
                }
            }
        }
    }
}

proof fn lemma_lex_skip(a: Seq<u8>, b: Seq<u8>, i: int)
    requires
        0 <= i <= a.len(),
        i <= b.len(),
        a.take(i) == b.take(i),
    ensures
        lex_lt(a, b) == lex_lt(a.skip(i), b.skip(i)),
    decreases i,
{
    if i > 0 {
        assert(a[0] == a.take(i)[0] && b[0] == b.take(i)[0]);
        assert(a.drop_first().take(i - 1) =~= a.take(i).drop_first());
        assert(b.drop_first().take(i - 1) =~= b.take(i).drop_first());
        lemma_lex_skip(a.drop_first(), b.drop_first(), i - 1);
        assert(a.drop_first().skip(i - 1) =~= a.skip(i));
        assert(b.drop_first().skip(i - 1) =~= b.skip(i));
    } else {
        assert(a.skip(0) =~= a);
        assert(b.skip(0) =~= b);
    }
}

/// Bytewise lexicographic comparison.
fn lex_less(a: &[u8], b: &[u8]) -> (r: bool)
    ensures
        r == lex_lt(a@, b@),
{
    let n = if a.len() < b.len() { a.len() } else { b.len() };
    let mut i: usize = 0;
    while i < n && a[i] == b[i]
        invariant
            n <= a@.len(),
            n <= b@.len(),
            n == a@.len() || n == b@.len(),
            i <= n,
            a@.take(i as int) == b@.take(i as int),
        decreases n - i,
    {
        assert(a@.take(i + 1) =~= a@.take(i as int).push(a@[i as int]));
        assert(b@.take(i + 1) =~= b@.take(i as int).push(b@[i as int]));
        i = i + 1;
    }
    proof {
        lemma_lex_skip(a@, b@, i as int);
    }
    if i < n {
        a[i] < b[i]
    } else {
        a.len() < b.len()
    }
}

/// Byte sequence equality.
pub(crate) fn bytes_eq(a: &[u8], b: &[u8]) -> (r: bool)
    ensures
        r == (a@ == b@),
{
    if a.len() != b.len() {
        return false;
    }
    let mut i: usize = 0;
    while i < a.len()
        invariant
            a@.len() == b@.len(),
            i <= a@.len(),
            a@.take(i as int) == b@.take(i as int),
        decreases a@.len() - i,
    {
        if a[i] != b[i] {
            return false;
        }
        assert(a@.take(i + 1) =~= a@.take(i as int).push(a@[i as int]));
        assert(b@.take(i + 1) =~= b@.take(i as int).push(b@[i as int]));
        i = i + 1;
    }
    assert(a@.take(a@.len() as int) =~= a@);
    assert(b@.take(b@.len() as int) =~= b@);
    true
}

/// The strict order of two encoded keys.
fn key_less(order: KeyOrder, a: &[u8], b: &[u8]) -> (r: bool)
    ensures
        r == key_lt(order, a@, b@),
{
    match order {
        KeyOrder::Bytewise => lex_less(a, b),
        KeyOrder::LengthFirst => a.len() < b.len() || (a.len() == b.len() && lex_less(a, b)),
    }
}

/// Whether entry `i` sorts before entry `j`.
fn sorts_before(keys: &Vec<Vec<u8>>, order: KeyOrder, i: usize, j: usize) -> (r: bool)
    requires
        i < keys@.len(),
        j < keys@.len(),
    ensures
        r == before(key_views(keys@), order, i as int, j as int),
{
    key_less(order, keys[i].as_slice(), keys[j].as_slice()) || (bytes_eq(
        keys[i].as_slice(),
        keys[j].as_slice(),
    ) && i < j)
}

/// The positions of `keys` in ascending order (equal keys keep their
/// relative order).
fn sort_indices(keys: &Vec<Vec<u8>>, order: KeyOrder) -> (s: Vec<usize>)
    ensures
        index_view(s@) == sort_order(key_views(keys@), order),
{
    let ghost kv = key_views(keys@);
    let n = keys.len();
    let mut sorted: Vec<usize> = Vec::new();
    let mut x: usize = 0;
    while x < n
        invariant
            n == keys@.len(),
            kv == key_views(keys@),
            x <= n,
            index_view(sorted@) == sort_prefix(kv, order, x as nat),
            forall|i: int| 0 <= i < sorted@.len() ==> sorted@[i] < x,
        decreases n - x,
    {
        let ghost sv = index_view(sorted@);
        proof {
            lemma_sort_prefix_perm(kv, order, x as nat);
        }
        let mut p = sorted.len();
        assert(sv.take(p as int) =~= sv);
        while p > 0 && !sorts_before(keys, order, sorted[p - 1], x)
            invariant
                n == keys@.len(),
                kv == key_views(keys@),
                x < n,
                sv == index_view(sorted@),
                forall|i: int| 0 <= i < sorted@.len() ==> sorted@[i] < x,
                p <= sorted@.len(),
                insert_pos(sv, x as int, kv, order) == insert_pos(sv.take(p as int), x as int, kv, order),
            decreases p,
        {
            assert(sv.take(p as int).drop_last() =~= sv.take(p - 1));
            assert(sv.take(p as int).last() == sv[p - 1]);
            p = p - 1;
        }
        proof {
            if p > 0 {
                assert(sv.take(p as int).last() == sv[p - 1]);
            }
            lemma_insert_shape(sv, x as int, kv, order);
        }
        sorted.insert(p, x);
        proof {
            assert(index_view(sorted@) =~= sv.take(p as int) + seq![x as int] + sv.skip(p as int));
        }
        x = x + 1;
        assert forall|i: int| 0 <= i < sorted@.len() implies sorted@[i] < x by {}
    }
    sorted
}


/// `256^n`.
pub open spec fn pow256(n: nat) -> nat
    decreases n,
{
    if n == 0 {
        1
    } else {
        256 * pow256((n - 1) as nat)
    }
}

pub(crate) proof fn lemma_be_value_bound(bytes: Seq<u8>)
    ensures
        be_value(bytes) < pow256(bytes.len()),
    decreases bytes.len(),
{
    if bytes.len() > 0 {
        lemma_be_value_bound(bytes.drop_last());
    }
}

pub(crate) proof fn lemma_pow256_8()
    ensures
        pow256(8) == 0x1_0000_0000_0000_0000,
{
    reveal_with_fuel(pow256, 9);
}

pub(crate) proof fn lemma_pow256_mono(a: nat, b: nat)
    requires
        a <= b,
    ensures
        pow256(a) <= pow256(b),
    decreases b,
{
    if a < b {
        lemma_pow256_mono(a, (b - 1) as nat);
    }
}

proof fn lemma_strip_zeros_skip(bytes: Seq<u8>, i: int)
    requires
        0 <= i < bytes.len(),
        bytes[i] == 0,
    ensures
        strip_zeros(bytes.skip(i)) == strip_zeros(bytes.skip(i + 1)),
{
    assert(bytes.skip(i).drop_first() =~= bytes.skip(i + 1));
}

/// The position of the first nonzero byte (the length if there is none).
pub(crate) fn leading_zeros_end(bytes: &[u8]) -> (first: usize)
    ensures
        first <= bytes@.len(),
        bytes@.skip(first as int) == strip_zeros(bytes@),
{
    let mut i: usize = 0;
    assert(bytes@.skip(0) =~= bytes@);
    while i < bytes.len() && bytes[i] == 0
        invariant
            i <= bytes@.len(),
            strip_zeros(bytes@) == strip_zeros(bytes@.skip(i as int)),
        decreases bytes@.len() - i,
    {
        proof {
            lemma_strip_zeros_skip(bytes@, i as int);
        }
        i = i + 1;
    }
    i
}

/// The plain integer of a bignum magnitude (tag 2 positive, tag 3
/// negative), when it fits major type 0 or 1.
fn small_bignum(tag: u64, bytes: &[u8]) -> (r: Option<Integer>)
    requires
        tag == 2 || tag == 3,
    ensures
        match small_bignum_spec(tag, bytes@) {
            Some(i) => r matches Some(x) && x@ == i && x.wf(),
            None => r is None,
        },
{
    if bytes.len() > 8 {
        return None;
    }
    let mut raw: u64 = 0;
    let mut i: usize = 0;
    proof {
        lemma_pow256_8();
    }
    while i < bytes.len()
        invariant
            bytes@.len() <= 8,
            i <= bytes@.len(),
            raw == be_value(bytes@.take(i as int)),
            pow256(8) == 0x1_0000_0000_0000_0000,
        decreases bytes@.len() - i,
    {
        proof {
            assert(bytes@.take(i + 1).drop_last() =~= bytes@.take(i as int));
            lemma_be_value_bound(bytes@.take(i + 1));
            lemma_pow256_mono((i + 1) as nat, 8);
        }
        raw = raw * 256 + bytes[i] as u64;
        i = i + 1;
    }
    assert(bytes@.take(bytes@.len() as int) =~= bytes@);
    if tag == 2 {
        Some(Integer::from_u64(raw))
    } else {
        Some(Integer::from_negative_arg(raw))
    }
}

/// Whether a value holds a floating-point negative zero anywhere.
fn has_negative_zero(value: &Value) -> (r: bool)
    ensures
        r == has_neg_zero(value@),
    decreases value@,
{
    match value {
        Value::Float(x) => *x == 0x8000_0000_0000_0000u64,
        Value::Array(items) => {
            let ghost vs = view_items(items@);
            proof {
                lemma_view_items(items@);
            }
            let mut found = false;
            let mut i: usize = 0;
            assert(vs.take(0) =~= Seq::<ValueView>::empty());
            while i < items.len()
                invariant
                    *value == Value::Array(*items),
                    vs == view_items(items@),
                    vs.len() == items@.len(),
                    forall|k: int| 0 <= k < items@.len() ==> #[trigger] vs[k] == items@[k]@,
                    i <= items@.len(),
                    found == items_have_neg_zero(vs.take(i as int)),
                decreases items@.len() - i,
            {
                assert(vs.take(i + 1).drop_last() =~= vs.take(i as int));
                if !found {
                    proof {
                        assert(vs[i as int] == items@[i as int]@);
                        assert(value@ == ValueView::Array(vs));
                        assert(decreases_to!(value@ => value@->Array_0));
                        assert(decreases_to!(vs => vs[i as int]));
                    }
                    found = has_negative_zero(&items[i]);
                }
                i = i + 1;
            }
            assert(vs.take(items@.len() as int) =~= vs);
            found
        },
        Value::Mapping(pairs) => {
            let ghost ps = view_pairs(pairs@);
            proof {
                lemma_view_pairs(pairs@);
            }
            let mut found = false;
            let mut i: usize = 0;
            assert(ps.take(0) =~= Seq::<(ValueView, ValueView)>::empty());
            while i < pairs.len()
                invariant
                    *value == Value::Mapping(*pairs),
                    ps == view_pairs(pairs@),
                    ps.len() == pairs@.len(),
                    forall|k: int| 0 <= k < pairs@.len() ==> #[trigger] ps[k] == (pairs@[k].0@, pairs@[k].1@),
                    i <= pairs@.len(),
                    found == pairs_have_neg_zero(ps.take(i as int)),
                decreases pairs@.len() - i,
            {
                assert(ps.take(i + 1).drop_last() =~= ps.take(i as int));
                if !found {
                    proof {
                        assert(ps[i as int].0 == pairs@[i as int].0@);
                        assert(value@ == ValueView::Mapping(ps));
                        assert(decreases_to!(value@ => value@->Mapping_0));
                        assert(decreases_to!(ps => ps[i as int]));
                        assert(decreases_to!(ps[i as int] => ps[i as int].0));
                    }
                    found = has_negative_zero(&pairs[i].0);
                }
                if !found {
                    proof {
                        assert(ps[i as int].1 == pairs@[i as int].1@);
                        assert(value@ == ValueView::Mapping(ps));
                        assert(decreases_to!(value@ => value@->Mapping_0));
                        assert(decreases_to!(ps => ps[i as int]));
                        assert(decreases_to!(ps[i as int] => ps[i as int].1));
                    }
                    found = has_negative_zero(&pairs[i].1);
                }
                i = i + 1;
            }
            assert(ps.take(pairs@.len() as int) =~= ps);
            found
        },
        Value::Tag(t, inner) => {
            proof {
                assert(value@ == ValueView::Tag(*t, Box::new((**inner)@)));
                assert(decreases_to!(value@ => value@->Tag_1));
            }
            has_negative_zero(inner)
        },
        _ => false,
    }
}

/// The bits written for a floating-point value by deterministic encoding.
fn canonical_float(bits: u64, zero: bool) -> (r: u64)
    ensures
        r == canon_float(bits, zero),
{
    if (bits >> 52u64) & 0x7ff == 0x7ff && bits & 0x000f_ffff_ffff_ffffu64 != 0 {
        0x7ff8_0000_0000_0000u64
    } else if zero && (bits == 0 || bits == 0x8000_0000_0000_0000u64) {
        0
    } else {
        bits
    }
}

/// A copy of a byte slice.
pub(crate) fn copy_bytes(bytes: &[u8]) -> (v: Vec<u8>)
    ensures
        v@ == bytes@,
{
    let mut v = Vec::new();
    let mut i: usize = 0;
    while i < bytes.len()
        invariant
            i <= bytes@.len(),
            v@ == bytes@.take(i as int),
        decreases bytes@.len() - i,
    {
        v.push(bytes[i]);
        i = i + 1;
        assert(bytes@.take(i as int) =~= bytes@.take(i - 1).push(bytes@[i - 1]));
    }
    assert(bytes@.take(bytes@.len() as int) =~= bytes@);
    v
}

/// A map has one pair of key encodings per entry.
pub proof fn lemma_key_encs_len(pairs: Seq<(ValueView, ValueView)>, order: KeyOrder, zero: bool, depth: nat)
    ensures
        key_encs(pairs, order, zero, depth) matches Ok(kes) ==> kes.len() == pairs.len(),
    decreases pairs.len(),
{
    if pairs.len() > 0 {
        lemma_key_encs_len(pairs.drop_last(), order, zero, depth);
    }
}

proof fn lemma_enc_items_err(items: Seq<ValueView>, i: int, order: KeyOrder, zero: bool, depth: nat)
    requires
        0 <= i <= items.len(),
        enc_items(items.take(i), order, zero, depth) is Err,
    ensures
        enc_items(items, order, zero, depth) == enc_items(items.take(i), order, zero, depth),
    decreases items.len() - i,
{
    if i < items.len() {
        assert(items.drop_last().take(i) =~= items.take(i));
        lemma_enc_items_err(items.drop_last(), i, order, zero, depth);
    } else {
        assert(items.take(i) =~= items);
    }
}

proof fn lemma_key_encs_err(pairs: Seq<(ValueView, ValueView)>, i: int, order: KeyOrder, zero: bool, depth: nat)
    requires
        0 <= i <= pairs.len(),
        key_encs(pairs.take(i), order, zero, depth) is Err,
    ensures
        key_encs(pairs, order, zero, depth) == key_encs(pairs.take(i), order, zero, depth),
    decreases pairs.len() - i,
{
    if i < pairs.len() {
        assert(pairs.drop_last().take(i) =~= pairs.take(i));
        lemma_key_encs_err(pairs.drop_last(), i, order, zero, depth);
    } else {
        assert(pairs.take(i) =~= pairs);
    }
}

proof fn lemma_enc_entries_err(
    pairs: Seq<(ValueView, ValueView)>,
    keys: Seq<Seq<u8>>,
    s: Seq<int>,
    i: int,
    order: KeyOrder,
    zero: bool,
    depth: nat,
)
    requires
        0 <= i <= s.len(),
        enc_entries(pairs, keys, s.take(i), order, zero, depth) is Err,
    ensures
        enc_entries(pairs, keys, s, order, zero, depth) == enc_entries(pairs, keys, s.take(i), order, zero, depth),
    decreases s.len() - i,
{
    if i < s.len() {
        assert(s.drop_last().take(i) =~= s.take(i));
        lemma_enc_entries_err(pairs, keys, s.drop_last(), i, order, zero, depth);
    } else {
        assert(s.take(i) =~= s);
    }
}

/// Encodes every key of a map, rejects duplicate keys (compared with
/// negative zero as zero) and sorts the entries in `order`. Returns the
/// encoded keys and the entry positions in sorted order.
fn ordered(pairs: &Vec<(Value, Value)>, order: KeyOrder, zero: bool, depth: usize) -> (r: Result<
    (Vec<Vec<u8>>, Vec<usize>),
    CanonicalError,
>)
    requires
        forall|i: int| 0 <= i < pairs@.len() ==> (#[trigger] pairs@[i]).0.wf() && pairs@[i].1.wf(),
    ensures
        match ordered_spec(view_pairs(pairs@), order, zero, depth as nat) {
            Ok(keys) => r matches Ok((k, s)) && key_views(k@) == keys && index_view(s@) == sort_order(keys, order),
            Err(e) => r == Err::<(Vec<Vec<u8>>, Vec<usize>), CanonicalError>(e),
        },
    decreases depth, 1nat,
{
    let ghost ps = view_pairs(pairs@);
    proof {
        lemma_view_pairs(pairs@);
    }
    let n = pairs.len();
    let mut encoded: Vec<Vec<u8>> = Vec::new();
    let mut equivalent: Vec<Vec<u8>> = Vec::new();
    let mut i: usize = 0;
    assert(ps.take(0) =~= Seq::<(ValueView, ValueView)>::empty());
    assert(Seq::new(0nat, |k: int| (encoded@[k]@, equivalent@[k]@)) =~= Seq::<(Seq<u8>, Seq<u8>)>::empty());
    while i < n
        invariant
            n == pairs@.len(),
            ps == view_pairs(pairs@),
            ps.len() == n,
            forall|k: int| 0 <= k < n ==> #[trigger] ps[k] == (pairs@[k].0@, pairs@[k].1@),
            forall|k: int| 0 <= k < n ==> (#[trigger] pairs@[k]).0.wf() && pairs@[k].1.wf(),
            i <= n,
            encoded@.len() == i,
            equivalent@.len() == i,
            key_encs(ps.take(i as int), order, zero, depth as nat) == Ok::<Seq<(Seq<u8>, Seq<u8>)>, CanonicalError>(
                Seq::new(i as nat, |k: int| (encoded@[k]@, equivalent@[k]@)),
            ),
        decreases n - i,
    {
        let ghost prev = Seq::new(i as nat, |k: int| (encoded@[k]@, equivalent@[k]@));
        assert(ps.take(i + 1).drop_last() =~= ps.take(i as int));
        assert(ps.take(i + 1).last() == ps[i as int]);
        let key = &pairs[i].0;
        let mut e1 = Encoder::from(Vec::new());
        match encode(key, &mut e1, order, zero, depth) {
            Ok(()) => {},
            Err(e) => {
                proof {
                    lemma_key_encs_err(ps, i + 1, order, zero, depth as nat);
                }
                return Err(e);
            },
        }
        let b1 = e1.into_inner();
        let b2 = if !zero && has_negative_zero(key) {
            let mut e2 = Encoder::from(Vec::new());
            match encode(key, &mut e2, order, true, depth) {
                Ok(()) => {},
                Err(e) => {
                    proof {
                        lemma_key_encs_err(ps, i + 1, order, zero, depth as nat);
                    }
                    return Err(e);
                },
            }
            e2.into_inner()
        } else {
            copy_bytes(b1.as_slice())
        };
        encoded.push(b1);
        equivalent.push(b2);
        i = i + 1;
        assert(Seq::new(i as nat, |k: int| (encoded@[k]@, equivalent@[k]@)) =~= prev.push(
            (encoded@[i - 1]@, equivalent@[i - 1]@),
        ));
    }
    assert(ps.take(n as int) =~= ps);
    let ghost kes = Seq::new(n as nat, |k: int| (encoded@[k]@, equivalent@[k]@));
    let ghost eqs = equivalents(kes);
    // Equality may differ from wire order (notably for negative zero).
    let mut a: usize = 0;
    while a < n
        invariant
            key_encs(ps, order, zero, depth as nat) == Ok::<Seq<(Seq<u8>, Seq<u8>)>, CanonicalError>(kes),
            ps == view_pairs(pairs@),
            eqs == equivalents(kes),
            n == equivalent@.len(),
            eqs.len() == n,
            forall|k: int| 0 <= k < n ==> #[trigger] eqs[k] == equivalent@[k]@,
            a <= n,
            forall|x: int, y: int| 0 <= x < y < a ==> eqs[x] != eqs[y],
        decreases n - a,
    {
        let mut b: usize = 0;
        while b < a
            invariant
                key_encs(ps, order, zero, depth as nat) == Ok::<Seq<(Seq<u8>, Seq<u8>)>, CanonicalError>(kes),
                ps == view_pairs(pairs@),
                eqs == equivalents(kes),
                n == equivalent@.len(),
                eqs.len() == n,
                forall|k: int| 0 <= k < n ==> #[trigger] eqs[k] == equivalent@[k]@,
                a < n,
                b <= a,
                forall|x: int, y: int| 0 <= x < y < a ==> eqs[x] != eqs[y],
                forall|x: int| 0 <= x < b ==> eqs[x] != eqs[a as int],
            decreases a - b,
        {
            if bytes_eq(equivalent[b].as_slice(), equivalent[a].as_slice()) {
                assert(eqs[b as int] == eqs[a as int]);
                assert(has_duplicate(eqs));
                return Err(CanonicalError::DuplicateKey);
            }
            b = b + 1;
        }
        a = a + 1;
    }
    assert(!has_duplicate(eqs));
    let sorted = sort_indices(&encoded, order);
    assert(key_views(encoded@) =~= encodings(kes));
    Ok((encoded, sorted))
}

/// Writes the deterministic encoding of `value`, or reports the first
/// error in encoding order.
fn encode(value: &Value, enc: &mut Encoder, order: KeyOrder, zero: bool, depth: usize) -> (r: Result<
    (),
    CanonicalError,
>)
    requires
        value.wf(),
    ensures
        match enc_value(value@, order, zero, depth as nat) {
            Ok(bytes) => r is Ok && final(enc)@ == old(enc)@ + bytes,
            Err(e) => r == Err::<(), CanonicalError>(e),
        },
    decreases depth, 0nat,
{
    if depth == 0 {
        return Err(CanonicalError::RecursionLimit);
    }
    match value {
        Value::Integer(integer) => {
            let i = integer.value();
            if i < 0 {
                let _ = enc.negative((-1 - i) as u64);
            } else {
                let _ = enc.positive(i as u64);
            }
            Ok(())
        },
        Value::Bytes(bytes) => {
            let _ = enc.bytes(bytes.as_slice());
            Ok(())
        },
        Value::Text(text) => {
            let _ = enc.text(text.as_str());
            Ok(())
        },
        Value::Bool(b) => {
            proof { crate::codec::lemma_prefix_bytes(); }
            let _ = enc.simple(if *b { 21 } else { 20 });
            Ok(())
        },
        Value::Null => {
            proof { crate::codec::lemma_prefix_bytes(); }
            let _ = enc.simple(22);
            Ok(())
        },
        Value::Simple(s) => {
            let _ = enc.simple(s.value());
            Ok(())
        },
        Value::Float(bits) => {
            let _ = enc.float(canonical_float(*bits, zero));
            Ok(())
        },
        Value::Tag(..) => encode_tag(value, enc, order, zero, depth - 1),
        Value::Array(..) => encode_array(value, enc, order, zero, depth - 1),
        Value::Mapping(..) => encode_map(value, enc, order, zero, depth - 1),
    }
}

/// Writes a tagged value; bignums (tags 2 and 3) are written in their
/// preferred form.
fn encode_tag(value: &Value, enc: &mut Encoder, order: KeyOrder, zero: bool, inner_depth: usize) -> (r: Result<
    (),
    CanonicalError,
>)
    requires
        value.wf(),
        value is Tag,
        inner_depth < usize::MAX,
    ensures
        match enc_value(value@, order, zero, (inner_depth + 1) as nat) {
            Ok(bytes) => r is Ok && final(enc)@ == old(enc)@ + bytes,
            Err(e) => r == Err::<(), CanonicalError>(e),
        },
    decreases inner_depth, 2nat,
{
    let Value::Tag(tag, inner) = value else { return Ok(()) };
    match &**inner {
        Value::Bytes(bytes) if *tag == 2 || *tag == 3 => {
            let first = leading_zeros_end(bytes.as_slice());
            let stripped = &bytes.as_slice()[first..bytes.len()];
            assert(stripped@ =~= bytes@.skip(first as int));
            match small_bignum(*tag, stripped) {
                Some(integer) => {
                    let i = integer.value();
                    if i < 0 {
                        let _ = enc.negative((-1 - i) as u64);
                    } else {
                        let _ = enc.positive(i as u64);
                    }
                },
                None => {
                    let _ = enc.tag(*tag);
                    let _ = enc.bytes(stripped);
                },
            }
            Ok(())
        },
        _ => {
            let _ = enc.tag(*tag);
            encode(inner, enc, order, zero, inner_depth)
        },
    }
}

/// Writes an array and its items.
fn encode_array(value: &Value, enc: &mut Encoder, order: KeyOrder, zero: bool, inner_depth: usize) -> (r: Result<
    (),
    CanonicalError,
>)
    requires
        value.wf(),
        value is Array,
        inner_depth < usize::MAX,
    ensures
        match enc_value(value@, order, zero, (inner_depth + 1) as nat) {
            Ok(bytes) => r is Ok && final(enc)@ == old(enc)@ + bytes,
            Err(e) => r == Err::<(), CanonicalError>(e),
        },
    decreases inner_depth, 2nat,
{
    let Value::Array(items) = value else { return Ok(()) };
    let ghost vs = view_items(items@);
    proof {
        lemma_view_items(items@);
        assert(value@ == ValueView::Array(vs));
    }
    let _ = enc.array(Some(items.len()));
    let ghost start = enc@;
    let mut i: usize = 0;
    assert(vs.take(0) =~= Seq::<ValueView>::empty());
    while i < items.len()
        invariant
            value@ == ValueView::Array(vs),
            vs == view_items(items@),
            vs.len() == items@.len(),
            forall|k: int| 0 <= k < items@.len() ==> #[trigger] vs[k] == items@[k]@,
            forall|k: int| 0 <= k < items@.len() ==> (#[trigger] items@[k]).wf(),
            i <= items@.len(),
            enc_items(vs.take(i as int), order, zero, inner_depth as nat) is Ok,
            enc@ == start + enc_items(vs.take(i as int), order, zero, inner_depth as nat)->Ok_0,
        decreases items@.len() - i,
    {
        assert(vs.take(i + 1).drop_last() =~= vs.take(i as int));
        assert(vs.take(i + 1).last() == vs[i as int]);
        match encode(&items[i], enc, order, zero, inner_depth) {
            Ok(()) => {},
            Err(e) => {
                proof {
                    assert(enc_value(vs[i as int], order, zero, inner_depth as nat) == Err::<Seq<u8>, CanonicalError>(e));
                    assert(enc_items(vs.take(i + 1), order, zero, inner_depth as nat) == Err::<Seq<u8>, CanonicalError>(e));
                    lemma_enc_items_err(vs, i + 1, order, zero, inner_depth as nat);
                    assert(enc_items(vs, order, zero, inner_depth as nat) == Err::<Seq<u8>, CanonicalError>(e));
                    assert(enc_value(value@, order, zero, (inner_depth + 1) as nat) == Err::<Seq<u8>, CanonicalError>(e));
                }
                return Err(e);
            },
        }
        i = i + 1;
    }
    assert(vs.take(items@.len() as int) =~= vs);
    Ok(())
}

/// Writes a map with its entries sorted by encoded key.
fn encode_map(value: &Value, enc: &mut Encoder, order: KeyOrder, zero: bool, inner_depth: usize) -> (r: Result<
    (),
    CanonicalError,
>)
    requires
        value.wf(),
        value is Mapping,
        inner_depth < usize::MAX,
    ensures
        match enc_value(value@, order, zero, (inner_depth + 1) as nat) {
            Ok(bytes) => r is Ok && final(enc)@ == old(enc)@ + bytes,
            Err(e) => r == Err::<(), CanonicalError>(e),
        },
    decreases inner_depth, 2nat,
{
    let Value::Mapping(pairs) = value else { return Ok(()) };
    let ghost ps = view_pairs(pairs@);
    proof {
        lemma_view_pairs(pairs@);
        assert(value@ == ValueView::Mapping(ps));
        lemma_key_encs_len(ps, order, zero, inner_depth as nat);
    }
    let (keys, sorted) = ordered(pairs, order, zero, inner_depth)?;
    let ghost kv = key_views(keys@);
    let ghost s = index_view(sorted@);
    proof {
        lemma_sort_prefix_perm(kv, order, kv.len());
    }
    let _ = enc.map(Some(pairs.len()));
    let ghost start = enc@;
    let n = sorted.len();
    let mut d: usize = 0;
    assert(s.take(0) =~= Seq::<int>::empty());
    while d < n
        invariant
            value@ == ValueView::Mapping(ps),
            ordered_spec(ps, order, zero, inner_depth as nat) == Ok::<Seq<Seq<u8>>, CanonicalError>(kv),
            ps == view_pairs(pairs@),
            ps.len() == pairs@.len(),
            forall|k: int| 0 <= k < pairs@.len() ==> #[trigger] ps[k] == (pairs@[k].0@, pairs@[k].1@),
            forall|k: int| 0 <= k < pairs@.len() ==> (#[trigger] pairs@[k]).0.wf() && pairs@[k].1.wf(),
            kv == key_views(keys@),
            kv.len() == pairs@.len(),
            s == index_view(sorted@),
            s == sort_order(kv, order),
            n == sorted@.len(),
            n == kv.len(),
            forall|k: int| 0 <= k < n ==> 0 <= #[trigger] s[k] < n,
            d <= n,
            enc_entries(ps, kv, s.take(d as int), order, zero, inner_depth as nat) is Ok,
            enc@ == start + enc_entries(ps, kv, s.take(d as int), order, zero, inner_depth as nat)->Ok_0,
        decreases n - d,
    {
        assert(s.take(d + 1).drop_last() =~= s.take(d as int));
        assert(s.take(d + 1).last() == s[d as int]);
        let k = sorted[d];
        assert(0 <= s[d as int] < n);
        let _ = enc.write_all(keys[k].as_slice());
        match encode(&pairs[k].1, enc, order, zero, inner_depth) {
            Ok(()) => {},
            Err(e) => {
                proof {
                    lemma_enc_entries_err(ps, kv, s, d + 1, order, zero, inner_depth as nat);
                }
                return Err(e);
            },
        }
        d = d + 1;
    }
    assert(s.take(n as int) =~= s);
    Ok(())
}


/// The sorting plans of every map inside a value, in postorder (children
/// before their map, keys and values in order), or the first error that
/// deterministic encoding would meet.
pub open spec fn prep(v: ValueView, order: KeyOrder, depth: nat) -> Result<Seq<Seq<int>>, CanonicalError>
    decreases v,
{
    if depth == 0 {
        Err(CanonicalError::RecursionLimit)
    } else {
        match v {
            ValueView::Array(items) => prep_items(items, order, (depth - 1) as nat),
            ValueView::Tag(_, inner) => prep(*inner, order, (depth - 1) as nat),
            ValueView::Mapping(pairs) => match prep_pairs(pairs, order, (depth - 1) as nat) {
                Ok(plans) => match ordered_spec(pairs, order, false, (depth - 1) as nat) {
                    Ok(keys) => Ok(plans.push(sort_order(keys, order))),
                    Err(e) => Err(e),
                },
                Err(e) => Err(e),
            },
            _ => Ok(Seq::empty()),
        }
    }
}

/// The plans of a sequence of items, in order.
pub open spec fn prep_items(items: Seq<ValueView>, order: KeyOrder, depth: nat) -> Result<
    Seq<Seq<int>>,
    CanonicalError,
>
    decreases items,
{
    if items.len() == 0 {
        Ok(Seq::empty())
    } else {
        match prep_items(items.drop_last(), order, depth) {
            Ok(a) => match prep(items.last(), order, depth) {
                Ok(b) => Ok(a + b),
                Err(e) => Err(e),
            },
            Err(e) => Err(e),
        }
    }
}

/// The plans of a sequence of pairs: each key, then its value.
pub open spec fn prep_pairs(pairs: Seq<(ValueView, ValueView)>, order: KeyOrder, depth: nat) -> Result<
    Seq<Seq<int>>,
    CanonicalError,
>
    decreases pairs,
{
    if pairs.len() == 0 {
        Ok(Seq::empty())
    } else {
        match prep_pairs(pairs.drop_last(), order, depth) {
            Ok(a) => match prep(pairs.last().0, order, depth) {
                Ok(b) => match prep(pairs.last().1, order, depth) {
                    Ok(c) => Ok(a + b + c),
                    Err(e) => Err(e),
                },
                Err(e) => Err(e),
            },
            Err(e) => Err(e),
        }
    }
}

/// The canonical form of a value: map entries sorted by their encoded
/// keys, NaNs replaced by the canonical quiet NaN and bignums reduced to
/// their preferred form.
pub open spec fn form(v: ValueView, order: KeyOrder, depth: nat) -> ValueView
    decreases v, 0nat,
{
    match v {
        ValueView::Float(b) => ValueView::Float(if is_nan_bits(b) { canonical_nan() } else { b }),
        ValueView::Array(items) => ValueView::Array(form_items(items, order, (depth - 1) as nat)),
        ValueView::Tag(t, inner) => tag_form(t, form(*inner, order, (depth - 1) as nat)),
        ValueView::Mapping(pairs) => match ordered_spec(pairs, order, false, (depth - 1) as nat) {
            Ok(keys) => ValueView::Mapping(
                form_entries(pairs, sort_order(keys, order), order, (depth - 1) as nat),
            ),
            Err(_) => v,
        },
        _ => v,
    }
}

/// A tag around an item already in canonical form: bignums (tags 2 and 3)
/// lose their leading zero bytes, and those that fit major type 0 or 1
/// become plain integers.
pub open spec fn tag_form(t: u64, inner: ValueView) -> ValueView {
    if (t == 2 || t == 3) && (inner is Bytes) {
        let stripped = strip_zeros(inner->Bytes_0);
        match small_bignum_spec(t, stripped) {
            Some(i) => ValueView::Integer(i),
            None => ValueView::Tag(t, Box::new(ValueView::Bytes(stripped))),
        }
    } else {
        ValueView::Tag(t, Box::new(inner))
    }
}

/// The canonical forms of a sequence of items.
pub open spec fn form_items(items: Seq<ValueView>, order: KeyOrder, depth: nat) -> Seq<ValueView>
    decreases items, 0nat,
{
    if items.len() == 0 {
        Seq::empty()
    } else {
        form_items(items.drop_last(), order, depth).push(form(items.last(), order, depth))
    }
}

/// The canonical forms of the pairs taken in the order `s`.
pub open spec fn form_entries(
    pairs: Seq<(ValueView, ValueView)>,
    s: Seq<int>,
    order: KeyOrder,
    depth: nat,
) -> Seq<(ValueView, ValueView)>
    decreases pairs, s.len(),
{
    if s.len() == 0 {
        Seq::empty()
    } else {
        let k = s.last();
        if 0 <= k < pairs.len() {
            form_entries(pairs, s.drop_last(), order, depth).push(
                (form(pairs[k].0, order, depth), form(pairs[k].1, order, depth)),
            )
        } else {
            form_entries(pairs, s.drop_last(), order, depth)
        }
    }
}

/// Plans as index sequences.
pub open spec fn plans_view(plans: Seq<Vec<usize>>) -> Seq<Seq<int>> {
    Seq::new(plans.len(), |i: int| index_view(plans[i]@))
}

proof fn lemma_prep_items_err(items: Seq<ValueView>, i: int, order: KeyOrder, depth: nat)
    requires
        0 <= i <= items.len(),
        prep_items(items.take(i), order, depth) is Err,
    ensures
        prep_items(items, order, depth) == prep_items(items.take(i), order, depth),
    decreases items.len() - i,
{
    if i < items.len() {
        assert(items.drop_last().take(i) =~= items.take(i));
        lemma_prep_items_err(items.drop_last(), i, order, depth);
    } else {
        assert(items.take(i) =~= items);
    }
}

proof fn lemma_prep_pairs_err(pairs: Seq<(ValueView, ValueView)>, i: int, order: KeyOrder, depth: nat)
    requires
        0 <= i <= pairs.len(),
        prep_pairs(pairs.take(i), order, depth) is Err,
    ensures
        prep_pairs(pairs, order, depth) == prep_pairs(pairs.take(i), order, depth),
    decreases pairs.len() - i,
{
    if i < pairs.len() {
        assert(pairs.drop_last().take(i) =~= pairs.take(i));
        lemma_prep_pairs_err(pairs.drop_last(), i, order, depth);
    } else {
        assert(pairs.take(i) =~= pairs);
    }
}

/// Validates `value` before anything changes: collects, in postorder, the
/// sorted entry order of every map, or reports the first error that
/// deterministic encoding would meet.
fn prepare(value: &Value, order: KeyOrder, plans: &mut Vec<Vec<usize>>, depth: usize) -> (r: Result<(), CanonicalError>)
    requires
        value.wf(),
    ensures
        match prep(value@, order, depth as nat) {
            Ok(p) => r is Ok && plans_view(final(plans)@) == plans_view(old(plans)@) + p,
            Err(e) => r == Err::<(), CanonicalError>(e),
        },
    decreases value@,
{
    if depth == 0 {
        return Err(CanonicalError::RecursionLimit);
    }
    let ghost start = plans_view(plans@);
    match value {
        Value::Array(items) => {
            let ghost vs = view_items(items@);
            proof {
                lemma_view_items(items@);
                assert(value@ == ValueView::Array(vs));
            }
            let mut i: usize = 0;
            assert(vs.take(0) =~= Seq::<ValueView>::empty());
            assert(start + Seq::<Seq<int>>::empty() =~= start);
            while i < items.len()
                invariant
                    value@ == ValueView::Array(vs),
                    *value == Value::Array(*items),
                    vs == view_items(items@),
                    vs.len() == items@.len(),
                    forall|k: int| 0 <= k < items@.len() ==> #[trigger] vs[k] == items@[k]@,
                    forall|k: int| 0 <= k < items@.len() ==> (#[trigger] items@[k]).wf(),
                    0 < depth,
                    i <= items@.len(),
                    prep_items(vs.take(i as int), order, (depth - 1) as nat) is Ok,
                    plans_view(plans@) == start + prep_items(vs.take(i as int), order, (depth - 1) as nat)->Ok_0,
                decreases items@.len() - i,
            {
                assert(vs.take(i + 1).drop_last() =~= vs.take(i as int));
                assert(vs.take(i + 1).last() == vs[i as int]);
                proof {
                    assert(decreases_to!(value@ => value@->Array_0));
                    assert(decreases_to!(vs => vs[i as int]));
                }
                match prepare(&items[i], order, plans, depth - 1) {
                    Ok(()) => {},
                    Err(e) => {
                        proof {
                            lemma_prep_items_err(vs, i + 1, order, (depth - 1) as nat);
                        }
                        return Err(e);
                    },
                }
                i = i + 1;
            }
            assert(vs.take(items@.len() as int) =~= vs);
            Ok(())
        },
        Value::Tag(t, inner) => {
            proof {
                assert(value@ == ValueView::Tag(*t, Box::new((**inner)@)));
                assert(decreases_to!(value@ => value@->Tag_1));
            }
            prepare(inner, order, plans, depth - 1)
        },
        Value::Mapping(pairs) => {
            let ghost ps = view_pairs(pairs@);
            proof {
                lemma_view_pairs(pairs@);
                assert(value@ == ValueView::Mapping(ps));
            }
            let mut i: usize = 0;
            assert(ps.take(0) =~= Seq::<(ValueView, ValueView)>::empty());
            assert(start + Seq::<Seq<int>>::empty() =~= start);
            while i < pairs.len()
                invariant
                    value@ == ValueView::Mapping(ps),
                    *value == Value::Mapping(*pairs),
                    ps == view_pairs(pairs@),
                    ps.len() == pairs@.len(),
                    forall|k: int| 0 <= k < pairs@.len() ==> #[trigger] ps[k] == (pairs@[k].0@, pairs@[k].1@),
                    forall|k: int| 0 <= k < pairs@.len() ==> (#[trigger] pairs@[k]).0.wf() && pairs@[k].1.wf(),
                    0 < depth,
                    i <= pairs@.len(),
                    prep_pairs(ps.take(i as int), order, (depth - 1) as nat) is Ok,
                    plans_view(plans@) == start + prep_pairs(ps.take(i as int), order, (depth - 1) as nat)->Ok_0,
                decreases pairs@.len() - i,
            {
                assert(ps.take(i + 1).drop_last() =~= ps.take(i as int));
                assert(ps.take(i + 1).last() == ps[i as int]);
                let ghost before_key = plans_view(plans@);
                proof {
                    assert(decreases_to!(value@ => value@->Mapping_0));
                    assert(decreases_to!(ps => ps[i as int]));
                    assert(decreases_to!(ps[i as int] => ps[i as int].0));
                    assert(decreases_to!(ps[i as int] => ps[i as int].1));
                }
                match prepare(&pairs[i].0, order, plans, depth - 1) {
                    Ok(()) => {},
                    Err(e) => {
                        proof {
                            lemma_prep_pairs_err(ps, i + 1, order, (depth - 1) as nat);
                        }
                        return Err(e);
                    },
                }
                match prepare(&pairs[i].1, order, plans, depth - 1) {
                    Ok(()) => {},
                    Err(e) => {
                        proof {
                            lemma_prep_pairs_err(ps, i + 1, order, (depth - 1) as nat);
                        }
                        return Err(e);
                    },
                }
                i = i + 1;
                proof {
                    let a = prep_pairs(ps.take(i - 1), order, (depth - 1) as nat)->Ok_0;
                    let b = prep(ps[i - 1].0, order, (depth - 1) as nat)->Ok_0;
                    let c = prep(ps[i - 1].1, order, (depth - 1) as nat)->Ok_0;
                    assert(start + (a + b + c) =~= start + a + b + c);
                }
            }
            assert(ps.take(pairs@.len() as int) =~= ps);
            let (_, sorted) = ordered(pairs, order, false, depth - 1)?;
            let ghost mid = plans_view(plans@);
            plans.push(sorted);
            proof {
                assert(plans_view(plans@) =~= mid.push(index_view(sorted@)));
                let a = prep_pairs(ps, order, (depth - 1) as nat)->Ok_0;
                assert(start + a.push(index_view(sorted@)) =~= (start + a).push(index_view(sorted@)));
            }
            Ok(())
        },
        _ => {
            assert(plans_view(plans@) + Seq::<Seq<int>>::empty() =~= plans_view(plans@));
            Ok(())
        },
    }
}

/// The items of a vector, last first.
fn reversed<T>(v: Vec<T>) -> (r: Vec<T>)
    ensures
        r@.len() == v@.len(),
        forall|i: int| 0 <= i < v@.len() ==> #[trigger] r@[i] == v@[v@.len() - 1 - i],
{
    let ghost orig = v@;
    let mut v = v;
    let mut r: Vec<T> = Vec::new();
    while v.len() > 0
        invariant
            v@.len() + r@.len() == orig.len(),
            v@ == orig.take(v@.len() as int),
            forall|i: int| 0 <= i < r@.len() ==> #[trigger] r@[i] == orig[orig.len() - 1 - i],
        decreases v@.len(),
    {
        let x = v.pop().unwrap();
        r.push(x);
    }
    r
}

/// The plans `p` stand in `plans` from position `at` on.
spec fn plans_at(plans: Seq<Vec<usize>>, at: int, p: Seq<Seq<int>>) -> bool {
    &&& 0 <= at
    &&& at + p.len() <= plans.len()
    &&& forall|k: int| 0 <= k < p.len() ==> #[trigger] p[k] == index_view(plans[at + k]@)
}

proof fn lemma_plans_at_take(plans: Seq<Vec<usize>>, at: int, p: Seq<Seq<int>>, n: int)
    requires
        plans_at(plans, at, p),
        0 <= n <= p.len(),
    ensures
        plans_at(plans, at, p.take(n)),
{
    assert forall|k: int| 0 <= k < n implies #[trigger] p.take(n)[k] == index_view(plans[at + k]@) by {
        assert(p[k] == index_view(plans[at + k]@));
    }
}

proof fn lemma_plans_at_split(plans: Seq<Vec<usize>>, at: int, a: Seq<Seq<int>>, b: Seq<Seq<int>>)
    requires
        plans_at(plans, at, a + b),
    ensures
        plans_at(plans, at, a),
        plans_at(plans, at + a.len(), b),
{
    assert forall|k: int| 0 <= k < a.len() implies #[trigger] a[k] == index_view(plans[at + k]@) by {
        assert((a + b)[k] == index_view(plans[at + k]@));
    }
    assert forall|k: int| 0 <= k < b.len() implies #[trigger] b[k] == index_view(plans[at + a.len() + k]@) by {
        assert((a + b)[a.len() + k] == index_view(plans[at + (a.len() + k)]@));
    }
}

proof fn lemma_prep_items_prefix(items: Seq<ValueView>, i: int, order: KeyOrder, depth: nat)
    requires
        0 <= i <= items.len(),
        prep_items(items, order, depth) is Ok,
    ensures
        prep_items(items.take(i), order, depth) is Ok,
        prep_items(items.take(i), order, depth)->Ok_0.len() <= prep_items(items, order, depth)->Ok_0.len(),
        prep_items(items, order, depth)->Ok_0.take(prep_items(items.take(i), order, depth)->Ok_0.len() as int)
            == prep_items(items.take(i), order, depth)->Ok_0,
    decreases items.len(),
{
    if i == items.len() {
        assert(items.take(i) =~= items);
        let p = prep_items(items, order, depth)->Ok_0;
        assert(p.take(p.len() as int) =~= p);
    } else {
        let d = items.drop_last();
        lemma_prep_items_prefix(d, i, order, depth);
        assert(d.take(i) =~= items.take(i));
        let a = prep_items(d, order, depth)->Ok_0;
        let b = prep(items.last(), order, depth)->Ok_0;
        let n = prep_items(items.take(i), order, depth)->Ok_0.len() as int;
        assert((a + b).take(n) =~= a.take(n));
    }
}

proof fn lemma_prep_pairs_prefix(pairs: Seq<(ValueView, ValueView)>, i: int, order: KeyOrder, depth: nat)
    requires
        0 <= i <= pairs.len(),
        prep_pairs(pairs, order, depth) is Ok,
    ensures
        prep_pairs(pairs.take(i), order, depth) is Ok,
        prep_pairs(pairs.take(i), order, depth)->Ok_0.len() <= prep_pairs(pairs, order, depth)->Ok_0.len(),
        prep_pairs(pairs, order, depth)->Ok_0.take(prep_pairs(pairs.take(i), order, depth)->Ok_0.len() as int)
            == prep_pairs(pairs.take(i), order, depth)->Ok_0,
    decreases pairs.len(),
{
    if i == pairs.len() {
        assert(pairs.take(i) =~= pairs);
        let p = prep_pairs(pairs, order, depth)->Ok_0;
        assert(p.take(p.len() as int) =~= p);
    } else {
        let d = pairs.drop_last();
        lemma_prep_pairs_prefix(d, i, order, depth);
        assert(d.take(i) =~= pairs.take(i));
        let a = prep_pairs(d, order, depth)->Ok_0;
        let b = prep(pairs.last().0, order, depth)->Ok_0;
        let c = prep(pairs.last().1, order, depth)->Ok_0;
        let n = prep_pairs(pairs.take(i), order, depth)->Ok_0.len() as int;
        assert((a + b + c).take(n) =~= a.take(n));
    }
}

/// The forms of items are formed item by item.
pub proof fn lemma_form_items(items: Seq<ValueView>, order: KeyOrder, depth: nat)
    ensures
        form_items(items, order, depth).len() == items.len(),
        forall|k: int| 0 <= k < items.len() ==> #[trigger] form_items(items, order, depth)[k] == form(items[k], order, depth),
    decreases items.len(),
{
    if items.len() > 0 {
        lemma_form_items(items.drop_last(), order, depth);
    }
}

/// The formed entries in an order are the forms of the entries at those
/// positions.
pub proof fn lemma_form_entries(pairs: Seq<(ValueView, ValueView)>, s: Seq<int>, order: KeyOrder, depth: nat)
    requires
        forall|d: int| 0 <= d < s.len() ==> 0 <= #[trigger] s[d] < pairs.len(),
    ensures
        form_entries(pairs, s, order, depth).len() == s.len(),
        forall|d: int| 0 <= d < s.len() ==> #[trigger] form_entries(pairs, s, order, depth)[d] == (
            form(pairs[s[d]].0, order, depth),
            form(pairs[s[d]].1, order, depth),
        ),
    decreases s.len(),
{
    if s.len() > 0 {
        let t = s.drop_last();
        assert forall|d: int| 0 <= d < t.len() implies 0 <= #[trigger] t[d] < pairs.len() by {
            assert(t[d] == s[d]);
        }
        lemma_form_entries(pairs, t, order, depth);
        assert(s.last() == s[s.len() - 1]);
    }
}

/// The position at which a permutation holds `k`.
spec fn position_of(s: Seq<int>, k: int) -> int {
    choose|e: int| 0 <= e < s.len() && s[e] == k
}

/// The pairs of `v` in the order `s`: entry `d` of the result is entry
/// `s[d]` of `v`.
fn arrange(v: Vec<(Value, Value)>, s: &Vec<usize>) -> (r: Vec<(Value, Value)>)
    requires
        s@.len() == v@.len(),
        forall|i: int| 0 <= i < s@.len() ==> #[trigger] s@[i] < v@.len(),
        forall|i: int, e: int| 0 <= i < e < s@.len() ==> s@[i] != s@[e],
        forall|k: int| 0 <= k < v@.len() ==> index_view(s@).contains(k),
    ensures
        r@.len() == v@.len(),
        forall|d: int| 0 <= d < v@.len() ==> #[trigger] r@[d] == v@[s@[d] as int],
{
    let ghost sv = index_view(s@);
    let ghost orig = v@;
    let n = v.len();
    let mut v = v;
    let mut out: Vec<(Value, Value)> = Vec::new();
    let mut d: usize = 0;
    while d < n
        invariant
            n == orig.len(),
            v@.len() == n,
            s@.len() == n,
            sv == index_view(s@),
            forall|i: int| 0 <= i < n ==> #[trigger] s@[i] < n,
            forall|i: int, e: int| 0 <= i < e < n ==> s@[i] != s@[e],
            forall|k: int| 0 <= k < n ==> sv.contains(k),
            d <= n,
            forall|k: int| 0 <= k < n && position_of(sv, k) >= d ==> #[trigger] v@[k] == orig[k],
            out@.len() == d,
            forall|e: int| 0 <= e < d ==> #[trigger] out@[e] == orig[s@[e] as int],
        decreases n - d,
    {
        let idx = s[d];
        proof {
            assert(sv[d as int] == idx);
            assert(sv.contains(idx as int));
            let e = position_of(sv, idx as int);
            assert(0 <= e < n && sv[e] == idx);
            if e != d {
                if e < d {
                    assert(s@[e] != s@[d as int]);
                } else {
                    assert(s@[d as int] != s@[e]);
                }
            }
            assert(v@[idx as int] == orig[idx as int]);
        }
        let mut taken = (Value::Null, Value::Null);
        v.set_and_swap(idx, &mut taken);
        out.push(taken);
        d = d + 1;
        proof {
            assert forall|k: int| 0 <= k < n && position_of(sv, k) >= d implies #[trigger] v@[k] == orig[k] by {
                assert(sv.contains(k));
                let e = position_of(sv, k);
                assert(sv[e] == k);
                if k == idx {
                    assert(s@[e] == s@[d - 1]);
                }
            }
        }
    }
    out
}

/// Wraps an item in canonical form in a tag, reducing bignums.
fn retag(t: u64, inner: Value) -> (r: Value)
    requires
        inner.wf(),
    ensures
        r.wf(),
        r@ == tag_form(t, inner@),
{
    if t == 2 || t == 3 {
        match inner {
            Value::Bytes(bytes) => {
                let first = leading_zeros_end(bytes.as_slice());
                let tail = &bytes.as_slice()[first..bytes.len()];
                assert(tail@ =~= bytes@.skip(first as int));
                let stripped = copy_bytes(tail);
                match small_bignum(t, stripped.as_slice()) {
                    Some(integer) => Value::Integer(integer),
                    None => {
                        let magnitude = Value::Bytes(stripped);
                        assert(magnitude@ == ValueView::Bytes(stripped@) && magnitude.wf());
                        Value::Tag(t, Box::new(magnitude))
                    },
                }
            },
            other => Value::Tag(t, Box::new(other)),
        }
    } else {
        Value::Tag(t, Box::new(inner))
    }
}

/// Puts a value into canonical form, following the sorting plans that
/// `prepare` collected for it, which stand in `plans` from `*cursor` on.
fn normalize(value: Value, order: KeyOrder, plans: &Vec<Vec<usize>>, cursor: &mut usize, depth: usize) -> (r: Value)
    requires
        value.wf(),
        prep(value@, order, depth as nat) is Ok,
        plans_at(plans@, *old(cursor) as int, prep(value@, order, depth as nat)->Ok_0),
    ensures
        r.wf(),
        r@ == form(value@, order, depth as nat),
        *final(cursor) == *old(cursor) + prep(value@, order, depth as nat)->Ok_0.len(),
    decreases value@,
{
    let ghost vv = value@;
    match value {
        Value::Float(bits) => Value::Float(canonical_float(bits, false)),
        Value::Tag(t, inner) => {
            proof {
                assert(vv == ValueView::Tag(t, Box::new((*inner)@)));
                assert(decreases_to!(vv => vv->Tag_1));
            }
            let fi = normalize(*inner, order, plans, cursor, depth - 1);
            retag(t, fi)
        },
        Value::Array(items) => {
            proof {
                lemma_view_items(items@);
                assert(vv == ValueView::Array(view_items(items@)));
                assert(decreases_to!(vv => vv->Array_0));
            }
            let out = normalize_items(items, order, plans, cursor, depth - 1);
            Value::Array(out)
        },
        Value::Mapping(pairs) => {
            let ghost ps = view_pairs(pairs@);
            let ghost d1 = (depth - 1) as nat;
            let ghost total = prep_pairs(ps, order, d1)->Ok_0;
            let ghost keys = ordered_spec(ps, order, false, d1)->Ok_0;
            let ghost sv = sort_order(keys, order);
            let ghost start = *cursor as int;
            proof {
                lemma_view_pairs(pairs@);
                assert(vv == ValueView::Mapping(ps));
                assert(decreases_to!(vv => vv->Mapping_0));
                assert(total.push(sv).take(total.len() as int) =~= total);
                lemma_plans_at_take(plans@, start, total.push(sv), total.len() as int);
            }
            let np = normalize_pairs(pairs, order, plans, cursor, depth - 1);
            proof {
                lemma_key_encs_len(ps, order, false, d1);
                lemma_sort_prefix_perm(keys, order, keys.len());
                assert(total.push(sv)[total.len() as int] == sv);
                assert(index_view(plans@[start + total.len()]@) == sv);
                assert forall|i: int, e: int| 0 <= i < e < sv.len() implies plans@[*cursor as int]@[i]
                    != plans@[*cursor as int]@[e] by {
                    assert(sv[i] != sv[e]);
                }
                assert forall|i: int| 0 <= i < sv.len() implies #[trigger] plans@[*cursor as int]@[i] < np@.len() by {
                    assert(0 <= sv[i] < sv.len());
                }
            }
            let count = plans.len();
            assert(*cursor < count);
            let plan = &plans[*cursor];
            *cursor = *cursor + 1;
            let out = arrange(np, plan);
            proof {
                assert forall|d: int| 0 <= d < out@.len() implies (#[trigger] out@[d]).0.wf() && out@[d].1.wf() by {
                    assert(out@[d] == np@[plan@[d] as int]);
                }
                lemma_view_pairs(out@);
                lemma_form_entries(ps, sv, order, d1);
                assert(view_pairs(out@) =~= form_entries(ps, sv, order, d1));
            }
            Value::Mapping(out)
        },
        other => other,
    }
}

/// Puts every item of an array into canonical form, in order.
#[verifier::loop_isolation(false)]
fn normalize_items(items: Vec<Value>, order: KeyOrder, plans: &Vec<Vec<usize>>, cursor: &mut usize, depth: usize) -> (r: Vec<Value>)
    requires
        forall|k: int| 0 <= k < items@.len() ==> (#[trigger] items@[k]).wf(),
        prep_items(view_items(items@), order, depth as nat) is Ok,
        plans_at(plans@, *old(cursor) as int, prep_items(view_items(items@), order, depth as nat)->Ok_0),
    ensures
        forall|k: int| 0 <= k < r@.len() ==> (#[trigger] r@[k]).wf(),
        view_items(r@) == form_items(view_items(items@), order, depth as nat),
        *final(cursor) == *old(cursor) + prep_items(view_items(items@), order, depth as nat)->Ok_0.len(),
    decreases view_items(items@),
{
    let ghost iv = items@;
    let ghost vs = view_items(iv);
    let ghost total = prep_items(vs, order, depth as nat)->Ok_0;
    let ghost start = *cursor as int;
    proof {
        lemma_view_items(iv);
        assert(vs.take(0) =~= Seq::<ValueView>::empty());
    }
    let n = items.len();
    let mut rest = reversed(items);
    let mut out: Vec<Value> = Vec::new();
    let mut j: usize = 0;
    while j < n
        invariant
            j <= n,
            rest@.len() == n - j,
            forall|i: int| 0 <= i < n - j ==> #[trigger] rest@[i] == iv[n - 1 - i],
            out@.len() == j,
            forall|k: int| 0 <= k < j ==> (#[trigger] out@[k]).wf() && out@[k]@ == form(vs[k], order, depth as nat),
            prep_items(vs.take(j as int), order, depth as nat) is Ok,
            *cursor == start + prep_items(vs.take(j as int), order, depth as nat)->Ok_0.len(),
        decreases n - j,
    {
        let item = rest.pop().unwrap();
        proof {
            lemma_prep_items_prefix(vs, j + 1, order, depth as nat);
            assert(vs.take(j + 1).drop_last() =~= vs.take(j as int));
            assert(vs.take(j + 1).last() == vs[j as int]);
            let a = prep_items(vs.take(j as int), order, depth as nat)->Ok_0;
            let b = prep(vs[j as int], order, depth as nat)->Ok_0;
            lemma_plans_at_take(plans@, start, total, (a + b).len() as int);
            lemma_plans_at_split(plans@, start, a, b);
            assert(decreases_to!(vs => vs[j as int]));
        }
        let x = normalize(item, order, plans, cursor, depth);
        out.push(x);
        j = j + 1;
    }
    proof {
        assert(vs.take(n as int) =~= vs);
        lemma_view_items(out@);
        lemma_form_items(vs, order, depth as nat);
        assert(view_items(out@) =~= form_items(vs, order, depth as nat));
    }
    out
}

/// Puts every key and value of a map into canonical form, in order,
/// leaving the entries where they are.
#[verifier::loop_isolation(false)]
fn normalize_pairs(
    pairs: Vec<(Value, Value)>,
    order: KeyOrder,
    plans: &Vec<Vec<usize>>,
    cursor: &mut usize,
    depth: usize,
) -> (r: Vec<(Value, Value)>)
    requires
        forall|k: int| 0 <= k < pairs@.len() ==> (#[trigger] pairs@[k]).0.wf() && pairs@[k].1.wf(),
        prep_pairs(view_pairs(pairs@), order, depth as nat) is Ok,
        plans_at(plans@, *old(cursor) as int, prep_pairs(view_pairs(pairs@), order, depth as nat)->Ok_0),
    ensures
        r@.len() == pairs@.len(),
        forall|k: int| 0 <= k < r@.len() ==> (#[trigger] r@[k]).0.wf() && r@[k].1.wf()
            && r@[k].0@ == form(view_pairs(pairs@)[k].0, order, depth as nat)
            && r@[k].1@ == form(view_pairs(pairs@)[k].1, order, depth as nat),
        *final(cursor) == *old(cursor) + prep_pairs(view_pairs(pairs@), order, depth as nat)->Ok_0.len(),
    decreases view_pairs(pairs@),
{
    let ghost pv = pairs@;
    let ghost ps = view_pairs(pv);
    let ghost total = prep_pairs(ps, order, depth as nat)->Ok_0;
    let ghost start = *cursor as int;
    proof {
        lemma_view_pairs(pv);
        assert(ps.take(0) =~= Seq::<(ValueView, ValueView)>::empty());
    }
    let n = pairs.len();
    let mut rest = reversed(pairs);
    let mut out: Vec<(Value, Value)> = Vec::new();
    let mut j: usize = 0;
    while j < n
        invariant
            j <= n,
            rest@.len() == n - j,
            forall|i: int| 0 <= i < n - j ==> #[trigger] rest@[i] == pv[n - 1 - i],
            out@.len() == j,
            forall|k: int| 0 <= k < j ==> (#[trigger] out@[k]).0.wf() && out@[k].1.wf()
                && out@[k].0@ == form(ps[k].0, order, depth as nat) && out@[k].1@ == form(ps[k].1, order, depth as nat),
            prep_pairs(ps.take(j as int), order, depth as nat) is Ok,
            *cursor == start + prep_pairs(ps.take(j as int), order, depth as nat)->Ok_0.len(),
        decreases n - j,
    {
        let (key, val) = rest.pop().unwrap();
        proof {
            lemma_prep_pairs_prefix(ps, j + 1, order, depth as nat);
            assert(ps.take(j + 1).drop_last() =~= ps.take(j as int));
            assert(ps.take(j + 1).last() == ps[j as int]);
            let a = prep_pairs(ps.take(j as int), order, depth as nat)->Ok_0;
            let b = prep(ps[j as int].0, order, depth as nat)->Ok_0;
            let c = prep(ps[j as int].1, order, depth as nat)->Ok_0;
            lemma_plans_at_take(plans@, start, total, (a + b + c).len() as int);
            lemma_plans_at_split(plans@, start, a + b, c);
            lemma_plans_at_split(plans@, start, a, b);
            assert(decreases_to!(ps => ps[j as int]));
            assert(decreases_to!(ps[j as int] => ps[j as int].0));
            assert(decreases_to!(ps[j as int] => ps[j as int].1));
        }
        let k2 = normalize(key, order, plans, cursor, depth);
        let v2 = normalize(val, order, plans, cursor, depth);
        out.push((k2, v2));
        j = j + 1;
    }
    proof {
        assert(ps.take(n as int) =~= ps);
    }
    out
}

impl Value {
    /// Rewrites this value so that encoding it satisfies the core
    /// deterministic encoding requirements (RFC 8949 §4.2.1): this is
    /// [`canonicalize_with`](Self::canonicalize_with) with
    /// [`KeyOrder::Bytewise`].
    pub fn canonicalize(&mut self) -> (r: Result<(), CanonicalError>)
        requires
            old(self).wf(),
        ensures
            match prep(old(self)@, KeyOrder::Bytewise, DEFAULT_RECURSION_LIMIT as nat) {
                Ok(_) => r is Ok && final(self).wf()
                    && final(self)@ == form(old(self)@, KeyOrder::Bytewise, DEFAULT_RECURSION_LIMIT as nat),
                Err(e) => r == Err::<(), CanonicalError>(e) && *final(self) == *old(self),
            },
    {
        self.canonicalize_with(KeyOrder::Bytewise)
    }

    /// Rewrites this value so that encoding it is deterministic, with map
    /// keys sorted in `order`.
    ///
    /// The entries of every map are sorted by their keys' deterministic
    /// encodings in `order`, and a map with two keys equal under that
    /// encoding is refused; bignums (tags 2 and 3) are reduced to their
    /// preferred form; every NaN becomes the canonical quiet NaN. On error
    /// the value is left unchanged.
    pub fn canonicalize_with(&mut self, order: KeyOrder) -> (r: Result<(), CanonicalError>)
        requires
            old(self).wf(),
        ensures
            match prep(old(self)@, order, DEFAULT_RECURSION_LIMIT as nat) {
                Ok(_) => r is Ok && final(self).wf() && final(self)@ == form(old(self)@, order, DEFAULT_RECURSION_LIMIT as nat),
                Err(e) => r == Err::<(), CanonicalError>(e) && *final(self) == *old(self),
            },
    {
        let mut plans: Vec<Vec<usize>> = Vec::new();
        match prepare(&*self, order, &mut plans, DEFAULT_RECURSION_LIMIT) {
            Ok(()) => {},
            Err(e) => return Err(e),
        }
        proof {
            let p = prep(self@, order, DEFAULT_RECURSION_LIMIT as nat)->Ok_0;
            assert(plans_view(plans@) =~= p);
            assert forall|k: int| 0 <= k < p.len() implies #[trigger] p[k] == index_view(plans@[0 + k]@) by {
                assert(plans_view(plans@)[k] == index_view(plans@[k]@));
            }
        }
        let mut current = Value::Null;
        std::mem::swap(&mut current, self);
        let mut cursor: usize = 0;
        let canonical = normalize(current, order, &plans, &mut cursor, DEFAULT_RECURSION_LIMIT);
        *self = canonical;
        Ok(())
    }
}

/// Writes the deterministic encoding of `value` with map keys in `order`
/// at the end of `out`. On error nothing is written.
pub fn to_writer(value: &Value, out: &mut Vec<u8>, order: KeyOrder) -> (r: Result<(), CanonicalError>)
    requires
        value.wf(),
    ensures
        match enc_value(value@, order, false, DEFAULT_RECURSION_LIMIT as nat) {
            Ok(bytes) => r is Ok && final(out)@ == old(out)@ + bytes,
            Err(e) => r == Err::<(), CanonicalError>(e) && final(out)@ == old(out)@,
        },
{
    let mut enc = Encoder::from(Vec::new());
    match encode(value, &mut enc, order, false, DEFAULT_RECURSION_LIMIT) {
        Ok(()) => {},
        Err(e) => return Err(e),
    }
    let mut bytes = enc.into_inner();
    out.append(&mut bytes);
    Ok(())
}

/// A bignum magnitude in preferred form: longer than eight bytes, without
/// a leading zero byte.
pub open spec fn preferred_bignum(bytes: Seq<u8>) -> bool {
    bytes.len() > 8 && bytes[0] != 0
}

/// A value whose every NaN is the canonical quiet NaN and whose every
/// bignum (tag 2 or 3 around a byte string) is in preferred form.
pub open spec fn reduced(v: ValueView) -> bool
    decreases v,
{
    match v {
        ValueView::Float(b) => !is_nan_bits(b) || b == canonical_nan(),
        ValueView::Array(items) => reduced_items(items),
        ValueView::Mapping(pairs) => reduced_pairs(pairs),
        ValueView::Tag(t, inner) => reduced(*inner) && ((t == 2 || t == 3) && (*inner is Bytes) ==> preferred_bignum(
            inner->Bytes_0,
        )),
        _ => true,
    }
}

/// Every item is reduced.
pub open spec fn reduced_items(items: Seq<ValueView>) -> bool
    decreases items,
{
    if items.len() == 0 {
        true
    } else {
        reduced_items(items.drop_last()) && reduced(items.last())
    }
}

/// Every key and value is reduced.
pub open spec fn reduced_pairs(pairs: Seq<(ValueView, ValueView)>) -> bool
    decreases pairs,
{
    if pairs.len() == 0 {
        true
    } else {
        reduced_pairs(pairs.drop_last()) && reduced(pairs.last().0) && reduced(pairs.last().1)
    }
}

/// Stripping leading zeros leaves no leading zero.
pub proof fn lemma_strip_zeros_head(bytes: Seq<u8>)
    ensures
        strip_zeros(bytes).len() == 0 || strip_zeros(bytes)[0] != 0,
    decreases bytes.len(),
{
    if bytes.len() > 0 && bytes[0] == 0 {
        lemma_strip_zeros_head(bytes.drop_first());
    }
}

/// Each key and value of pairs that prepare has a preparation.
proof fn lemma_prep_pairs_elem(pairs: Seq<(ValueView, ValueView)>, k: int, order: KeyOrder, depth: nat)
    requires
        prep_pairs(pairs, order, depth) is Ok,
        0 <= k < pairs.len(),
    ensures
        prep(pairs[k].0, order, depth) is Ok,
        prep(pairs[k].1, order, depth) is Ok,
    decreases pairs.len(),
{
    if k < pairs.len() - 1 {
        lemma_prep_pairs_elem(pairs.drop_last(), k, order, depth);
    }
}

/// The canonical form of a value that deterministic encoding accepts is
/// reduced.
proof fn lemma_form_reduced(v: ValueView, order: KeyOrder, depth: nat)
    requires
        prep(v, order, depth) is Ok,
    ensures
        reduced(form(v, order, depth)),
    decreases v, 0nat,
{
    match v {
        ValueView::Array(items) => {
            lemma_form_items_reduced(items, order, (depth - 1) as nat);
        },
        ValueView::Tag(t, inner) => {
            lemma_form_reduced(*inner, order, (depth - 1) as nat);
            let f = form(*inner, order, (depth - 1) as nat);
            if (t == 2 || t == 3) && (f is Bytes) {
                lemma_strip_zeros_head(f->Bytes_0);
                assert(reduced(ValueView::Bytes(strip_zeros(f->Bytes_0))));
            }
        },
        ValueView::Mapping(pairs) => {
            let keys = ordered_spec(pairs, order, false, (depth - 1) as nat)->Ok_0;
            lemma_form_entries_reduced(pairs, sort_order(keys, order), order, (depth - 1) as nat);
        },
        _ => {},
    }
}

/// The canonical forms of items that deterministic encoding accepts are
/// reduced.
proof fn lemma_form_items_reduced(items: Seq<ValueView>, order: KeyOrder, depth: nat)
    requires
        prep_items(items, order, depth) is Ok,
    ensures
        reduced_items(form_items(items, order, depth)),
    decreases items, 0nat,
{
    if items.len() > 0 {
        lemma_form_items_reduced(items.drop_last(), order, depth);
        lemma_form_reduced(items.last(), order, depth);
        let f = form_items(items, order, depth);
        assert(f.drop_last() =~= form_items(items.drop_last(), order, depth));
    }
}

/// The canonical forms of pairs that deterministic encoding accepts,
/// taken in any order, are reduced.
proof fn lemma_form_entries_reduced(pairs: Seq<(ValueView, ValueView)>, s: Seq<int>, order: KeyOrder, depth: nat)
    requires
        prep_pairs(pairs, order, depth) is Ok,
    ensures
        reduced_pairs(form_entries(pairs, s, order, depth)),
    decreases pairs, s.len(),
{
    if s.len() > 0 {
        lemma_form_entries_reduced(pairs, s.drop_last(), order, depth);
        let k = s.last();
        if 0 <= k < pairs.len() {
            lemma_prep_pairs_elem(pairs, k, order, depth);
            lemma_form_reduced(pairs[k].0, order, depth);
            lemma_form_reduced(pairs[k].1, order, depth);
            let f = form_entries(pairs, s, order, depth);
            assert(f.drop_last() =~= form_entries(pairs, s.drop_last(), order, depth));
        }
    }
}

/// What canonicalizing a value leaves: every NaN is the canonical quiet
/// NaN and every bignum is in preferred form (plain integers where they
/// fit, no leading zero bytes otherwise), at any depth.
pub proof fn lemma_canonical_form_reduced(v: ValueView, order: KeyOrder)
    requires
        prep(v, order, DEFAULT_RECURSION_LIMIT as nat) is Ok,
    ensures
        reduced(form(v, order, DEFAULT_RECURSION_LIMIT as nat)),
{
    lemma_form_reduced(v, order, DEFAULT_RECURSION_LIMIT as nat);
}

} // verus!
