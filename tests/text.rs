use minibatch::text::TextData;

#[test]
fn four_bytes_encode_in_first_occurrence_order() {
    let d = TextData::new(&vec![10, 20, 10, 30]);
    assert_eq!(d.data(), &vec![0, 1, 0, 2]);
    assert_eq!(d.labels(), 3);
    assert_eq!(d.label_to_char(0), 10u8 as char);
    assert_eq!(d.label_to_char(1), 20u8 as char);
    assert_eq!(d.label_to_char(2), 30u8 as char);
}

#[test]
fn encoding_is_deterministic() {
    let src: Vec<u8> = b"hello world, hello verus".to_vec();
    let a = TextData::new(&src);
    let b = TextData::new(&src);
    assert_eq!(a.data(), b.data());
    assert_eq!(a.labels(), b.labels());
    for l in 0..a.labels() {
        assert_eq!(a.label_to_char(l), b.label_to_char(l));
    }
}

#[test]
fn labels_count_distinct_bytes() {
    let src: Vec<u8> = b"abracadabra".to_vec();
    let d = TextData::new(&src);
    assert_eq!(d.labels(), 5);
    let all: Vec<u8> = (0..=255u8).chain(0..=255u8).collect();
    assert_eq!(TextData::new(&all).labels(), 256);
    assert_eq!(TextData::new(&Vec::new()).labels(), 0);
}

#[test]
fn labels_decode_to_their_bytes() {
    let src: Vec<u8> = b"the quick brown fox".to_vec();
    let d = TextData::new(&src);
    for (i, &b) in src.iter().enumerate() {
        assert_eq!(d.label_to_char(d.data()[i] as usize), b as char);
    }
}

#[test]
fn windows_stay_inside_the_data() {
    let src: Vec<u8> = (0..20u8).collect();
    let d = TextData::new(&src);
    let mut it = d.iter_shuffle(4, 3, 7);
    let mut count = 0;
    let mut starts = Vec::new();
    while let Some(batch) = it.next() {
        assert_eq!(batch.len(), 3);
        for w in &batch {
            assert_eq!(w.len(), 4);
            let s = w[0] as usize;
            assert!(s + 4 <= 20);
            assert_eq!(w, &d.data()[s..s + 4].to_vec());
            starts.push(s);
        }
        count += 1;
    }
    // 17 valid starts in batches of 3: 5 batches, 2 starts dropped.
    assert_eq!(count, 5);
    starts.sort();
    starts.dedup();
    assert_eq!(starts.len(), 15);
}

#[test]
fn windows_follow_the_given_order() {
    let d = TextData::new(&vec![5, 6, 7, 8, 9]);
    let mut it = d.iter_with_order(3, 2, vec![2, 0, 1]);
    assert_eq!(it.next(), Some(vec![vec![2, 3, 4], vec![0, 1, 2]]));
    assert_eq!(it.next(), None);
    assert_eq!(it.next(), None);
}

#[test]
fn window_longer_than_data_yields_nothing() {
    let d = TextData::new(&vec![1, 2, 3]);
    let mut it = d.iter_shuffle(4, 1, 0);
    assert_eq!(it.next(), None);
    let mut exact = d.iter_shuffle(3, 1, 0);
    assert_eq!(exact.next(), Some(vec![vec![0, 1, 2]]));
    assert_eq!(exact.next(), None);
}
