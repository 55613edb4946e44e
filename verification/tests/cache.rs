//! Tests for the multiply-referenced chunk cache.

use backy_extract::cache::{Cache, Entry};
use backy_extract::CHUNKSZ;

fn mapping() -> Vec<(Vec<u8>, Vec<u8>)> {
    let pairs: Vec<(&str, &str)> = vec![
        ("0", "091b34a64e50a123da8547a1b700c7e8"),
        ("1", "df834550b74a5878179484f622ef7461"),
        ("2", "a06db62ff5c8e32a5c8132535f74b13d"),
        ("3", "830438f8c407cbf6712b9bd07731e6e2"), // 2 times
        ("4", "c72b4ba82d1f51b71c8a18195ad33fc8"), // 14 times
        ("5", "c72b4ba82d1f51b71c8a18195ad33fc8"),
        ("6", "c72b4ba82d1f51b71c8a18195ad33fc8"),
        ("7", "c72b4ba82d1f51b71c8a18195ad33fc8"),
        ("8", "c72b4ba82d1f51b71c8a18195ad33fc8"),
        ("9", "c72b4ba82d1f51b71c8a18195ad33fc8"),
        ("10", "c72b4ba82d1f51b71c8a18195ad33fc8"),
        ("11", "c72b4ba82d1f51b71c8a18195ad33fc8"),
        ("12", "c72b4ba82d1f51b71c8a18195ad33fc8"),
        ("13", "c72b4ba82d1f51b71c8a18195ad33fc8"),
        ("14", "c72b4ba82d1f51b71c8a18195ad33fc8"),
        ("15", "c72b4ba82d1f51b71c8a18195ad33fc8"),
        ("16", "c72b4ba82d1f51b71c8a18195ad33fc8"),
        ("17", "c72b4ba82d1f51b71c8a18195ad33fc8"),
        ("18", "cc4cb29100f1ce22515f3d44051f0c54"),
        ("19", "3ea3bc4448ff4b3f24dc4b904e9166f4"),
        ("20", "830438f8c407cbf6712b9bd07731e6e2"),
        ("21", "4c1088bf55ed131cf2ebf54b6283e0a2"),
        ("22", "eaf125854dcf1c4e071a5cddcaf37c37"), // 3 times
        ("23", "eaf125854dcf1c4e071a5cddcaf37c37"),
        ("24", "eaf125854dcf1c4e071a5cddcaf37c37"),
    ];
    pairs
        .into_iter()
        .map(|(k, v)| (k.as_bytes().to_vec(), v.as_bytes().to_vec()))
        .collect()
}

#[test]
fn consider_only_interesting_ids() {
    let c = Cache::new(&mapping());
    let mut keys = c.interesting();
    keys.sort();
    assert_eq!(
        keys,
        vec![
            b"830438f8c407cbf6712b9bd07731e6e2".to_vec(),
            b"c72b4ba82d1f51b71c8a18195ad33fc8".to_vec(),
            b"eaf125854dcf1c4e071a5cddcaf37c37".to_vec(),
        ]
    );
}

#[test]
fn unknown_and_ignored_entries() {
    let c = Cache::new(&mapping());
    // ID is present only once
    assert_eq!(c.query(b"091b34a64e50a123da8547a1b700c7e8"), Entry::Ignored);
    // ID is present multiple times
    assert_eq!(c.query(b"830438f8c407cbf6712b9bd07731e6e2"), Entry::Unknown);
}

#[test]
fn memorize_data() {
    let mut c = Cache::new(&mapping());
    assert_eq!(c.query(b"eaf125854dcf1c4e071a5cddcaf37c37"), Entry::Unknown);
    c.memorize(b"eaf125854dcf1c4e071a5cddcaf37c37", b"data");
    assert_eq!(
        c.query(b"eaf125854dcf1c4e071a5cddcaf37c37"),
        Entry::Known(b"data".to_vec())
    );
}

#[test]
fn memorize_zero_chunk() {
    let mut c = Cache::new(&mapping());
    assert_eq!(c.query(b"c72b4ba82d1f51b71c8a18195ad33fc8"), Entry::Unknown);
    let zero = vec![0u8; CHUNKSZ];
    c.memorize(b"c72b4ba82d1f51b71c8a18195ad33fc8", &zero);
    assert_eq!(c.query(b"c72b4ba82d1f51b71c8a18195ad33fc8"), Entry::KnownZero);
}
