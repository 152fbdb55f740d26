//! Deterministic fixtures for comparing CBOR codecs: a flat integer array
//! spanning every header width, a batch of structured log records and a
//! large byte string, all drawn from a small SplitMix64 generator so that
//! every run sees the same input.

use vstd::prelude::*;
use vstd::wrapping::u64_specs::{wrapping_add, wrapping_mul};

use crate::derive_rules::{collect_text, push_text};

verus! {

/// The SplitMix64 increment.
pub const GAMMA: u64 = 0x9E37_79B9_7F4A_7C15;

/// The state after one step.
pub open spec fn mix_state(s: u64) -> u64 {
    wrapping_add(s, GAMMA)
}

/// The output of a step, from the new state.
pub open spec fn mix_output(z: u64) -> u64 {
    let z1 = wrapping_mul(z ^ (z >> 30u64), 0xBF58_476D_1CE4_E5B9);
    let z2 = wrapping_mul(z1 ^ (z1 >> 27u64), 0x94D0_49BB_1331_11EB);
    z2 ^ (z2 >> 31u64)
}

/// The state after `k` steps from `seed`.
pub open spec fn state_after(seed: u64, k: nat) -> u64
    decreases k,
{
    if k == 0 {
        seed
    } else {
        mix_state(state_after(seed, (k - 1) as nat))
    }
}

/// The `k`-th output (counting from one) from `seed`.
pub open spec fn output(seed: u64, k: nat) -> u64 {
    mix_output(state_after(seed, k))
}

/// SplitMix64, a deterministic generator for fixtures.
pub struct SplitMix64(u64);

impl View for SplitMix64 {
    type V = u64;

    /// The current state.
    closed spec fn view(&self) -> u64 {
        self.0
    }
}

impl SplitMix64 {
    /// A generator in state `seed`.
    pub fn new(seed: u64) -> (g: Self)
        ensures
            g@ == seed,
    {
        SplitMix64(seed)
    }

    /// Advances the generator and returns its next output.
    pub fn next_u64(&mut self) -> (x: u64)
        ensures
            final(self)@ == mix_state(old(self)@),
            x == mix_output(final(self)@),
    {
        self.0 = self.0.wrapping_add(GAMMA);
        let mut z = self.0;
        z = (z ^ (z >> 30)).wrapping_mul(0xBF58_476D_1CE4_E5B9);
        z = (z ^ (z >> 27)).wrapping_mul(0x94D0_49BB_1331_11EB);
        z ^ (z >> 31)
    }
}

/// The seed of [`int_array`].
pub const INT_SEED: u64 = 0x1234_5678;

/// The seed of [`blob`].
pub const BLOB_SEED: u64 = 0xDEAD_BEEF;

/// Element `i` of the integer fixture, from the generator output `x`: by
/// `i` modulo 5 it fits an immediate, one, two or four argument bytes, or
/// takes the full eight.
pub open spec fn int_element(i: int, x: u64) -> u64 {
    let m = i % 5;
    if m == 0 {
        x % 24
    } else if m == 1 {
        x % 256
    } else if m == 2 {
        x % 65_536
    } else if m == 3 {
        x % 0x1_0000_0000
    } else {
        x
    }
}

/// A flat array of `n` pseudo-random integers spanning every header width.
pub fn int_array(n: usize) -> (v: Vec<u64>)
    ensures
        v@.len() == n,
        forall|i: int| 0 <= i < n ==> #[trigger] v@[i] == int_element(i, output(INT_SEED, (i + 1) as nat)),
{
    let mut rng = SplitMix64::new(INT_SEED);
    let mut v: Vec<u64> = Vec::new();
    let mut i: usize = 0;
    while i < n
        invariant
            i <= n,
            v@.len() == i,
            rng@ == state_after(INT_SEED, i as nat),
            forall|k: int| 0 <= k < i ==> #[trigger] v@[k] == int_element(k, output(INT_SEED, (k + 1) as nat)),
        decreases n - i,
    {
        let x = rng.next_u64();
        let m = i % 5;
        let e = if m == 0 {
            x % 24
        } else if m == 1 {
            x % 256
        } else if m == 2 {
            x % 65_536
        } else if m == 3 {
            x % 0x1_0000_0000
        } else {
            x
        };
        v.push(e);
        i = i + 1;
    }
    v
}

/// Byte `j` (from the least significant) of `x`.
pub open spec fn le_byte(x: u64, j: nat) -> u8 {
    ((x >> (8 * j) as u64) & 0xff) as u8
}

/// A byte string of `n` pseudo-random bytes: the little-endian bytes of
/// successive generator outputs, cut to length.
pub fn blob(n: usize) -> (v: Vec<u8>)
    ensures
        v@.len() == n,
        forall|k: int| 0 <= k < n ==> #[trigger] v@[k] == le_byte(output(BLOB_SEED, (k / 8 + 1) as nat), (k % 8) as nat),
{
    let mut rng = SplitMix64::new(BLOB_SEED);
    let mut out: Vec<u8> = Vec::new();
    let mut words: usize = 0;
    while out.len() < n
        invariant
            out@.len() <= n,
            out@.len() < n ==> out@.len() == 8 * words,
            out@.len() <= 8 * words,
            out@.len() > 8 * words - 8 || words == 0,
            rng@ == state_after(BLOB_SEED, words as nat),
            forall|k: int| 0 <= k < out@.len() ==> #[trigger] out@[k] == le_byte(
                output(BLOB_SEED, (k / 8 + 1) as nat),
                (k % 8) as nat,
            ),
        decreases n - out@.len(),
    {
        let x = rng.next_u64();
        let ghost base = out@.len();
        let mut j: u64 = 0;
        while j < 8 && out.len() < n
            invariant
                base == 8 * words,
                j <= 8,
                out@.len() <= n,
                out@.len() == base + j || (out@.len() == n && out@.len() <= base + j),
                out@.len() >= base,
                x == output(BLOB_SEED, (words + 1) as nat),
                forall|k: int| 0 <= k < out@.len() ==> #[trigger] out@[k] == le_byte(
                    output(BLOB_SEED, (k / 8 + 1) as nat),
                    (k % 8) as nat,
                ),
            decreases 8 - j,
        {
            let b = ((x >> (8 * j)) & 0xff) as u8;
            let ghost k = out@.len() as int;
            proof {
                assert(k == base + j);
                assert(k / 8 == words && k % 8 == j) by (nonlinear_arith)
                    requires
                        k == 8 * words + j,
                        j < 8,
                ;
            }
            out.push(b);
            j = j + 1;
        }
        words = words + 1;
    }
    out
}

/// The target of a log record picked by `k`.
pub open spec fn target_text(k: u64) -> Seq<char> {
    if k % 6 == 0 {
        "net::http::server"@
    } else if k % 6 == 1 {
        "db::pool"@
    } else if k % 6 == 2 {
        "auth::token"@
    } else if k % 6 == 3 {
        "cbor2::de"@
    } else if k % 6 == 4 {
        "runtime::worker"@
    } else {
        "telemetry::export"@
    }
}

/// The target picked by `k`.
fn target_of(k: u64) -> (r: &'static str)
    ensures
        r@ == target_text(k),
{
    if k % 6 == 0 {
        "net::http::server"
    } else if k % 6 == 1 {
        "db::pool"
    } else if k % 6 == 2 {
        "auth::token"
    } else if k % 6 == 3 {
        "cbor2::de"
    } else if k % 6 == 4 {
        "runtime::worker"
    } else {
        "telemetry::export"
    }
}

/// The message word picked by `k`.
pub open spec fn word_text(k: u64) -> Seq<char> {
    if k % 12 == 0 {
        "request"@
    } else if k % 12 == 1 {
        "completed"@
    } else if k % 12 == 2 {
        "timeout"@
    } else if k % 12 == 3 {
        "retry"@
    } else if k % 12 == 4 {
        "cache"@
    } else if k % 12 == 5 {
        "miss"@
    } else if k % 12 == 6 {
        "handshake"@
    } else if k % 12 == 7 {
        "expired"@
    } else if k % 12 == 8 {
        "queued"@
    } else if k % 12 == 9 {
        "flush"@
    } else if k % 12 == 10 {
        "deadline"@
    } else {
        "exceeded"@
    }
}

/// The word picked by `k`.
fn word_of(k: u64) -> (r: &'static str)
    ensures
        r@ == word_text(k),
{
    if k % 12 == 0 {
        "request"
    } else if k % 12 == 1 {
        "completed"
    } else if k % 12 == 2 {
        "timeout"
    } else if k % 12 == 3 {
        "retry"
    } else if k % 12 == 4 {
        "cache"
    } else if k % 12 == 5 {
        "miss"
    } else if k % 12 == 6 {
        "handshake"
    } else if k % 12 == 7 {
        "expired"
    } else if k % 12 == 8 {
        "queued"
    } else if k % 12 == 9 {
        "flush"
    } else if k % 12 == 10 {
        "deadline"
    } else {
        "exceeded"
    }
}

/// The label picked by `k`.
pub open spec fn label_text(k: u64) -> Seq<char> {
    if k % 8 == 0 {
        "prod"@
    } else if k % 8 == 1 {
        "region=eu"@
    } else if k % 8 == 2 {
        "shard=3"@
    } else if k % 8 == 3 {
        "tls"@
    } else if k % 8 == 4 {
        "h2"@
    } else if k % 8 == 5 {
        "ipv6"@
    } else if k % 8 == 6 {
        "warm"@
    } else {
        "canary"@
    }
}

/// The label picked by `k`.
fn label_of(k: u64) -> (r: &'static str)
    ensures
        r@ == label_text(k),
{
    if k % 8 == 0 {
        "prod"
    } else if k % 8 == 1 {
        "region=eu"
    } else if k % 8 == 2 {
        "shard=3"
    } else if k % 8 == 3 {
        "tls"
    } else if k % 8 == 4 {
        "h2"
    } else if k % 8 == 5 {
        "ipv6"
    } else if k % 8 == 6 {
        "warm"
    } else {
        "canary"
    }
}

/// The seed of [`log_batch`].
pub const LOG_SEED: u64 = 0xC0DE_CAFE;

/// `count` more words drawn from state `s`, and the state after them.
pub open spec fn pick_words(s: u64, count: nat) -> (Seq<Seq<char>>, u64)
    decreases count,
{
    if count == 0 {
        (Seq::empty(), s)
    } else {
        let (prev, s1) = pick_words(s, (count - 1) as nat);
        let s2 = mix_state(s1);
        (prev.push(word_text(mix_output(s2))), s2)
    }
}

/// `count` labels drawn from state `s`, and the state after them.
pub open spec fn pick_labels(s: u64, count: nat) -> (Seq<Seq<char>>, u64)
    decreases count,
{
    if count == 0 {
        (Seq::empty(), s)
    } else {
        let (prev, s1) = pick_labels(s, (count - 1) as nat);
        let s2 = mix_state(s1);
        (prev.push(label_text(mix_output(s2))), s2)
    }
}

/// Words joined by single spaces.
pub open spec fn join_words(ws: Seq<Seq<char>>) -> Seq<char>
    decreases ws.len(),
{
    if ws.len() == 0 {
        Seq::empty()
    } else if ws.len() == 1 {
        ws[0]
    } else {
        join_words(ws.drop_last()) + seq![' '] + ws.last()
    }
}

/// A structured telemetry record. Its latency is held in 1/1024 ms, the
/// unit it is drawn in.
pub struct LogRecord {
    pub timestamp: u64,
    pub level: u8,
    pub target: String,
    pub message: String,
    pub line: u32,
    pub success: bool,
    pub latency_1024ths_ms: u64,
    pub labels: Vec<String>,
}

/// The content of a [`LogRecord`].
pub struct LogRecordView {
    pub timestamp: u64,
    pub level: u8,
    pub target: Seq<char>,
    pub message: Seq<char>,
    pub line: u32,
    pub success: bool,
    pub latency_1024ths_ms: u64,
    pub labels: Seq<Seq<char>>,
}

/// The texts of some strings.
pub open spec fn texts_of(v: Seq<String>) -> Seq<Seq<char>> {
    Seq::new(v.len(), |i: int| v[i]@)
}

impl View for LogRecord {
    type V = LogRecordView;

    open spec fn view(&self) -> LogRecordView {
        LogRecordView {
            timestamp: self.timestamp,
            level: self.level,
            target: self.target@,
            message: self.message@,
            line: self.line,
            success: self.success,
            latency_1024ths_ms: self.latency_1024ths_ms,
            labels: texts_of(self.labels@),
        }
    }
}

/// Record `i` drawn from state `s`, and the state after it: one draw
/// picks the target, the word and label counts and the numbers, then each
/// word and each label takes a draw of its own.
#[verifier::opaque]
pub open spec fn record_spec(i: nat, s: u64) -> (LogRecordView, u64) {
    let s1 = mix_state(s);
    let r = mix_output(s1);
    let (words, s2) = pick_words(s1, (4 + (r >> 8u64) % 6) as nat);
    let (labels, s3) = pick_labels(s2, ((r >> 16u64) % 4) as nat);
    (
        LogRecordView {
            timestamp: (1_700_000_000_000 + i * 37) as u64,
            level: (((r >> 24u64) % 256) % 5) as u8,
            target: target_text(r),
            message: join_words(words),
            line: ((r >> 32u64) % 4096) as u32,
            success: r % 2 == 0,
            latency_1024ths_ms: r >> 40u64,
            labels,
        },
        s3,
    )
}

/// The first `n` records from [`LOG_SEED`], and the state after them.
pub open spec fn batch_spec(n: nat) -> (Seq<LogRecordView>, u64)
    decreases n,
{
    if n == 0 {
        (Seq::empty(), LOG_SEED)
    } else {
        let (prev, s) = batch_spec((n - 1) as nat);
        let (rec, s2) = record_spec((n - 1) as nat, s);
        (prev.push(rec), s2)
    }
}

/// A batch of `n` records holds `n` records.
proof fn lemma_batch_len(n: nat)
    ensures
        batch_spec(n).0.len() == n,
    decreases n,
{
    if n > 0 {
        lemma_batch_len((n - 1) as nat);
    }
}

/// Draws the words of a message.
fn draw_message(rng: &mut SplitMix64, count: u64) -> (m: String)
    ensures
        m@ == join_words(pick_words(old(rng)@, count as nat).0),
        final(rng)@ == pick_words(old(rng)@, count as nat).1,
{
    let ghost s0 = rng@;
    let mut out: Vec<char> = Vec::new();
    let mut w: u64 = 0;
    while w < count
        invariant
            w <= count,
            rng@ == pick_words(s0, w as nat).1,
            out@ == join_words(pick_words(s0, w as nat).0),
        decreases count - w,
    {
        let x = rng.next_u64();
        if w > 0 {
            out.push(' ');
        }
        push_text(&mut out, word_of(x));
        proof {
            let ws = pick_words(s0, w as nat).0;
            let ws1 = pick_words(s0, (w + 1) as nat).0;
            assert(ws1 == ws.push(word_text(x)));
            assert(ws1.drop_last() =~= ws);
            if w == 0 {
                assert(out@ =~= join_words(ws1));
            } else {
                assert(out@ =~= join_words(ws1));
            }
        }
        w = w + 1;
    }
    collect_text(&out)
}

/// Draws the labels of a record.
fn draw_labels(rng: &mut SplitMix64, count: u64) -> (l: Vec<String>)
    ensures
        texts_of(l@) == pick_labels(old(rng)@, count as nat).0,
        final(rng)@ == pick_labels(old(rng)@, count as nat).1,
{
    let ghost s0 = rng@;
    let mut out: Vec<String> = Vec::new();
    let mut k: u64 = 0;
    while k < count
        invariant
            k <= count,
            rng@ == pick_labels(s0, k as nat).1,
            texts_of(out@) == pick_labels(s0, k as nat).0,
        decreases count - k,
    {
        let x = rng.next_u64();
        let label = label_of(x).to_owned();
        let ghost before = out@;
        out.push(label);
        proof {
            assert(texts_of(out@) =~= texts_of(before).push(label_text(x)));
        }
        k = k + 1;
    }
    out
}

/// Draws record `i`.
fn draw_record(rng: &mut SplitMix64, i: u64) -> (rec: LogRecord)
    requires
        1_700_000_000_000 + i * 37 <= u64::MAX,
    ensures
        (rec@, final(rng)@) == record_spec(i as nat, old(rng)@),
{
    reveal(record_spec);
    let r = rng.next_u64();
    let target = target_of(r).to_owned();
    let message = draw_message(rng, 4 + (r >> 8) % 6);
    let labels = draw_labels(rng, (r >> 16) % 4);
    LogRecord {
        timestamp: 1_700_000_000_000 + i * 37,
        level: (((r >> 24) % 256) % 5) as u8,
        target,
        message,
        line: ((r >> 32) % 4096) as u32,
        success: r % 2 == 0,
        latency_1024ths_ms: r >> 40,
        labels,
    }
}

/// A deterministic batch of `n` log records mixing text, integers,
/// booleans and lists.
pub fn log_batch(n: usize) -> (v: Vec<LogRecord>)
    requires
        n == 0 || 1_700_000_000_000 + (n - 1) * 37 <= u64::MAX,
    ensures
        v@.len() == n,
        forall|i: int| 0 <= i < n ==> #[trigger] v@[i]@ == batch_spec(n as nat).0[i],
{
    let mut rng = SplitMix64::new(LOG_SEED);
    let mut v: Vec<LogRecord> = Vec::new();
    let mut i: usize = 0;
    while i < n
        invariant
            i <= n,
            n == 0 || 1_700_000_000_000 + (n - 1) * 37 <= u64::MAX,
            v@.len() == i,
            rng@ == batch_spec(i as nat).1,
            forall|k: int| 0 <= k < i ==> #[trigger] v@[k]@ == batch_spec(i as nat).0[k],
        decreases n - i,
    {
        let ghost before = rng@;
        let rec = draw_record(&mut rng, i as u64);
        let ghost prev = batch_spec(i as nat).0;
        let ghost rv = rec@;
        v.push(rec);
        proof {
            lemma_batch_len(i as nat);
            let next = batch_spec((i + 1) as nat);
            assert(next.0 == prev.push(record_spec(i as nat, before).0));
            assert(next.1 == record_spec(i as nat, before).1);
            assert forall|k: int| 0 <= k < i + 1 implies #[trigger] v@[k]@ == batch_spec((i + 1) as nat).0[k] by {
                if k < i {
                    assert(next.0[k] == prev[k]);
                } else {
                    assert(v@[k]@ == rv);
                }
            }
        }
        i = i + 1;
    }
    v
}

/// The encodings of one fixture by each codec under comparison.
pub struct Encoded {
    pub cbor2: Vec<u8>,
    pub ciborium: Vec<u8>,
    pub serde_cbor: Vec<u8>,
    pub cbor4ii: Vec<u8>,
    pub minicbor: Vec<u8>,
}

impl Encoded {
    /// Whether every codec wrote the same bytes, as the integer-array and
    /// byte-string fixtures should.
    pub fn assert_identical(&self) -> (same: bool)
        ensures
            same == (self.ciborium@ == self.cbor2@ && self.serde_cbor@ == self.cbor2@ && self.cbor4ii@
                == self.cbor2@ && self.minicbor@ == self.cbor2@),
    {
        let c = self.cbor2.as_slice();
        crate::canonical::bytes_eq(self.ciborium.as_slice(), c) && crate::canonical::bytes_eq(
            self.serde_cbor.as_slice(),
            c,
        ) && crate::canonical::bytes_eq(self.cbor4ii.as_slice(), c) && crate::canonical::bytes_eq(
            self.minicbor.as_slice(),
            c,
        )
    }
}

} // verus!
