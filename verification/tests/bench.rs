use cbor2::bench::{log_batch, blob, int_array, Encoded, SplitMix64};

#[test]
fn splitmix_is_deterministic() {
    let mut a = SplitMix64::new(0);
    let mut b = SplitMix64::new(0);
    for _ in 0..10 {
        assert_eq!(a.next_u64(), b.next_u64());
    }
    // The reference first output of SplitMix64 from seed zero.
    assert_eq!(SplitMix64::new(0).next_u64(), 0xe220a8397b1dcdaf);
}

#[test]
fn int_array_spans_every_header_width() {
    let ints = int_array(1024);
    assert_eq!(ints.len(), 1024);
    let mut rng = SplitMix64::new(0x1234_5678);
    for (i, &x) in ints.iter().enumerate() {
        let r = rng.next_u64();
        let expected = match i % 5 {
            0 => r % 24,
            1 => r % 256,
            2 => r % 65_536,
            3 => r % (1 << 32),
            _ => r,
        };
        assert_eq!(x, expected);
    }
    assert!(ints.iter().step_by(5).all(|&x| x < 24));
    assert_eq!(int_array(0), Vec::<u64>::new());
}

#[test]
fn blob_is_little_endian_outputs() {
    let data = blob(20);
    let mut rng = SplitMix64::new(0xDEAD_BEEF);
    let mut expected = Vec::new();
    while expected.len() < 20 {
        expected.extend_from_slice(&rng.next_u64().to_le_bytes());
    }
    expected.truncate(20);
    assert_eq!(data, expected);
    assert_eq!(blob(4096).len(), 4096);
    assert!(blob(0).is_empty());
}

#[test]
fn identical_encodings() {
    let same = Encoded {
        cbor2: vec![1, 2],
        ciborium: vec![1, 2],
        serde_cbor: vec![1, 2],
        cbor4ii: vec![1, 2],
        minicbor: vec![1, 2],
    };
    assert!(same.assert_identical());
    let different = Encoded {
        cbor2: vec![1, 2],
        ciborium: vec![1, 2],
        serde_cbor: vec![1, 2],
        cbor4ii: vec![1, 3],
        minicbor: vec![1, 2],
    };
    assert!(!different.assert_identical());
}

// An independent reference for the log records: the generator and the draws
// spelled out directly, with the latency as a float in milliseconds.
fn reference_log_batch(n: usize) -> Vec<(u64, u8, String, String, u32, bool, f64, Vec<String>)> {
    const TARGETS: [&str; 6] =
        ["net::http::server", "db::pool", "auth::token", "cbor2::de", "runtime::worker", "telemetry::export"];
    const WORDS: [&str; 12] = [
        "request", "completed", "timeout", "retry", "cache", "miss", "handshake", "expired", "queued", "flush",
        "deadline", "exceeded",
    ];
    const LABELS: [&str; 8] = ["prod", "region=eu", "shard=3", "tls", "h2", "ipv6", "warm", "canary"];
    let mut state = 0xC0DE_CAFEu64;
    let mut next = move || {
        state = state.wrapping_add(0x9E37_79B9_7F4A_7C15);
        let mut z = state;
        z = (z ^ (z >> 30)).wrapping_mul(0xBF58_476D_1CE4_E5B9);
        z = (z ^ (z >> 27)).wrapping_mul(0x94D0_49BB_1331_11EB);
        z ^ (z >> 31)
    };
    (0..n)
        .map(|i| {
            let r = next();
            let target = TARGETS[(r as usize) % TARGETS.len()].to_string();
            let word_count = 4 + (r >> 8) as usize % 6;
            let words: Vec<&str> = (0..word_count).map(|_| WORDS[(next() as usize) % WORDS.len()]).collect();
            let label_count = (r >> 16) as usize % 4;
            let labels = (0..label_count).map(|_| LABELS[(next() as usize) % LABELS.len()].to_string()).collect();
            (
                1_700_000_000_000 + i as u64 * 37,
                (r >> 24) as u8 % 5,
                target,
                words.join(" "),
                (r >> 32) as u32 % 4096,
                r & 1 == 0,
                (r >> 40) as f64 / 1024.0,
                labels,
            )
        })
        .collect()
}

#[test]
fn log_batch_matches_its_draws() {
    let batch = log_batch(128);
    let reference = reference_log_batch(128);
    assert_eq!(batch.len(), 128);
    for (rec, want) in batch.iter().zip(reference.iter()) {
        assert_eq!(rec.timestamp, want.0);
        assert_eq!(rec.level, want.1);
        assert_eq!(rec.target, want.2);
        assert_eq!(rec.message, want.3);
        assert_eq!(rec.line, want.4);
        assert_eq!(rec.success, want.5);
        assert_eq!(rec.latency_1024ths_ms as f64 / 1024.0, want.6);
        assert_eq!(rec.labels, want.7);
    }
    assert!(log_batch(0).is_empty());
}
