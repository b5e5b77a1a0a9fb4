use station_stats::sorter::{name_le, sort_by_name};

#[test]
fn name_le_is_the_order_of_byte_strings() {
    let names: [&[u8]; 9] =
        [b"", b"A", b"Z", b"a", b"ab", b"abc", b"b", b"~", &[0xc3, 0xa9]];
    for (i, a) in names.iter().enumerate() {
        for (j, b) in names.iter().enumerate() {
            assert_eq!(name_le(a, b), i <= j, "{:?} {:?}", a, b);
            assert_eq!(name_le(a, b), a <= b);
        }
    }
}

#[test]
fn a_prefix_comes_first() {
    assert!(name_le(b"London", b"Londonderry"));
    assert!(!name_le(b"Londonderry", b"London"));
    assert!(name_le(b"London", b"London"));
}

#[test]
fn sort_orders_entries_by_name() {
    let entries: Vec<(Vec<u8>, u32)> = vec![
        (b"Paris".to_vec(), 1),
        (b"London".to_vec(), 2),
        (b"Zagreb".to_vec(), 3),
        (b"Aachen".to_vec(), 4),
        (b"Paris, Texas".to_vec(), 5),
    ];
    assert_eq!(
        sort_by_name(entries),
        vec![
            (b"Aachen".to_vec(), 4),
            (b"London".to_vec(), 2),
            (b"Paris".to_vec(), 1),
            (b"Paris, Texas".to_vec(), 5),
            (b"Zagreb".to_vec(), 3),
        ]
    );
}

#[test]
fn sort_of_nothing_and_of_one() {
    assert_eq!(sort_by_name(Vec::<(Vec<u8>, u8)>::new()), vec![]);
    assert_eq!(sort_by_name(vec![(b"x".to_vec(), 7u8)]), vec![(b"x".to_vec(), 7u8)]);
}

#[test]
fn sort_keeps_every_entry() {
    let mut entries: Vec<(Vec<u8>, usize)> = Vec::new();
    let mut seed: u32 = 12345;
    for i in 0..1000 {
        seed = seed.wrapping_mul(1664525).wrapping_add(1013904223);
        let len = (seed >> 28) as usize;
        let name: Vec<u8> = (0..len).map(|k| (seed >> (k % 24)) as u8).collect();
        entries.push((name, i));
    }
    let sorted = sort_by_name(entries.clone());
    assert_eq!(sorted.len(), entries.len());
    for pair in sorted.windows(2) {
        assert!(pair[0].0 <= pair[1].0);
    }
    let mut expected = entries;
    expected.sort();
    let mut got = sorted;
    got.sort();
    assert_eq!(got, expected);
}
