use rembed::dvec::DVec;
use rembed::parsing::encode_history;

#[test]
fn history_bytes_round_trip() {
    // encode two snapshots of three 2-dimensional positions and read
    // them back with plain little-endian decoding
    let snap = |a: i32| vec![
        DVec::new(vec![a, -a]),
        DVec::new(vec![2 * a, 0]),
        DVec::new(vec![-1, a]),
    ];
    let entries = vec![(0u64, snap(100)), (10u64, snap(-3000))];
    let bytes = encode_history(3, 2, &entries);
    assert_eq!(bytes.len(), 16 + 2 * (8 + 3 * 2 * 4));
    let u64_at = |off: usize| u64::from_le_bytes(bytes[off..off + 8].try_into().unwrap());
    let i32_at = |off: usize| i32::from_le_bytes(bytes[off..off + 4].try_into().unwrap());
    assert_eq!(u64_at(0), 3);
    assert_eq!(u64_at(8), 2);
    let mut off = 16;
    for (num, snap) in &entries {
        assert_eq!(u64_at(off), *num);
        off += 8;
        for p in snap {
            for i in 0..2 {
                assert_eq!(i32_at(off), p.get(i));
                off += 4;
            }
        }
    }
}
