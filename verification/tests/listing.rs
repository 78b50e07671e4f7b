use dca::listing::{sort, ListingSort};

fn data() -> Vec<(Vec<u8>, u64)> {
    vec![
        (b"world".to_vec(), 5),
        (b"hello".to_vec(), 3),
        (b"empty".to_vec(), 0),
    ]
}

#[test]
fn test_sort() {
    let mut a = data();
    sort(&mut a, ListingSort::Unsorted);
    assert_eq!(a, data());

    let mut a = data();
    sort(&mut a, ListingSort::Name);
    assert_eq!(
        a,
        vec![
            (b"empty".to_vec(), 0),
            (b"hello".to_vec(), 3),
            (b"world".to_vec(), 5),
        ]
    );

    let mut a = data();
    sort(&mut a, ListingSort::Size);
    assert_eq!(
        a,
        vec![
            (b"world".to_vec(), 5),
            (b"hello".to_vec(), 3),
            (b"empty".to_vec(), 0),
        ]
    );
}

#[test]
fn test_sort_equal_keys() {
    let mut a: Vec<(Vec<u8>, u64)> = vec![
        (b"b".to_vec(), 7),
        (b"a".to_vec(), 7),
        (b"a".to_vec(), 2),
    ];
    sort(&mut a, ListingSort::Name);
    assert_eq!(a[0].0, b"a");
    assert_eq!(a[1].0, b"a");
    assert_eq!(a[2].0, b"b");

    let mut a: Vec<(Vec<u8>, u64)> = vec![
        (b"b".to_vec(), 7),
        (b"a".to_vec(), 7),
        (b"c".to_vec(), 9),
    ];
    sort(&mut a, ListingSort::Size);
    assert_eq!(a[0].1, 9);
    assert_eq!(a[1].1, 7);
    assert_eq!(a[2].1, 7);
}

#[test]
fn test_default_is_unsorted() {
    assert!(matches!(ListingSort::default(), ListingSort::Unsorted));
}
