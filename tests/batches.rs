use minibatch::batch::Iter2;
use minibatch::perm::{identity_permutation, random_permutation};
use minibatch::tensor::{Device, Tensor};

fn column(values: &[i64]) -> Tensor {
    Tensor::from_rows(values.iter().map(|v| vec![*v]).collect())
}

fn firsts(t: &Tensor) -> Vec<i64> {
    t.to_rows().iter().map(|r| r[0]).collect()
}

fn drain(it: &mut Iter2) -> Vec<(Vec<i64>, Vec<i64>)> {
    let mut out = Vec::new();
    while let Some((x, y)) = it.next() {
        out.push((firsts(&x), firsts(&y)));
    }
    out
}

fn is_perm(p: &[usize], n: usize) -> bool {
    let mut seen = vec![false; n];
    if p.len() != n {
        return false;
    }
    for &v in p {
        if v >= n || seen[v] {
            return false;
        }
        seen[v] = true;
    }
    true
}

#[test]
fn five_rows_in_pairs_drop_the_last() {
    let xs = column(&[0, 1, 2, 3, 4]);
    let ys = column(&[10, 11, 12, 13, 14]);
    let mut it = Iter2::new(&xs, &ys, 2);
    let batches = drain(&mut it);
    assert_eq!(
        batches,
        vec![(vec![0, 1], vec![10, 11]), (vec![2, 3], vec![12, 13])]
    );
    assert!(it.next().is_none());
}

#[test]
fn five_rows_in_pairs_keep_the_last() {
    let xs = column(&[0, 1, 2, 3, 4]);
    let ys = column(&[10, 11, 12, 13, 14]);
    let mut it = Iter2::new(&xs, &ys, 2);
    it.return_smaller_last_batch();
    let batches = drain(&mut it);
    let sizes: Vec<usize> = batches.iter().map(|b| b.0.len()).collect();
    assert_eq!(sizes, vec![2, 2, 1]);
    assert_eq!(batches[2], (vec![4], vec![14]));
    assert!(it.next().is_none());
}

#[test]
fn batch_counts_follow_division() {
    for n in 0..12usize {
        for k in 1..5usize {
            let vals: Vec<i64> = (0..n as i64).collect();
            let xs = column(&vals);
            let mut full = Iter2::new(&xs, &xs, k);
            let batches = drain(&mut full);
            assert_eq!(batches.len(), n / k);
            assert!(batches.iter().all(|b| b.0.len() == k));
            let mut partial = Iter2::new(&xs, &xs, k);
            partial.return_smaller_last_batch();
            let batches = drain(&mut partial);
            let extra = if n % k != 0 { 1 } else { 0 };
            assert_eq!(batches.len(), n / k + extra);
            if n % k != 0 {
                assert_eq!(batches.last().unwrap().0.len(), n % k);
            }
        }
    }
}

#[test]
fn partial_batches_cover_each_row_once() {
    let vals: Vec<i64> = (0..7).collect();
    let xs = column(&vals);
    let mut it = Iter2::new(&xs, &xs, 3);
    it.return_smaller_last_batch();
    let all: Vec<i64> = drain(&mut it).into_iter().flat_map(|b| b.0).collect();
    assert_eq!(all, vals);
}

#[test]
fn shuffle_by_moves_pairs_together() {
    let xs = column(&[0, 1, 2, 3]);
    let ys = column(&[10, 11, 12, 13]);
    let mut it = Iter2::new(&xs, &ys, 4);
    it.shuffle_by(&vec![2, 0, 3, 1]);
    let batches = drain(&mut it);
    assert_eq!(batches, vec![(vec![2, 0, 3, 1], vec![12, 10, 13, 11])]);
}

#[test]
fn shuffle_keeps_the_set_of_pairs() {
    let vals: Vec<i64> = (0..20).collect();
    let targets: Vec<i64> = vals.iter().map(|v| v * 100).collect();
    let xs = column(&vals);
    let ys = column(&targets);
    for seed in [1u64, 2, 99] {
        let mut it = Iter2::new(&xs, &ys, 5);
        it.shuffle(seed);
        let batches = drain(&mut it);
        let mut pairs: Vec<(i64, i64)> = batches
            .iter()
            .flat_map(|(x, y)| x.iter().copied().zip(y.iter().copied()))
            .collect();
        assert!(pairs.iter().all(|(x, y)| *y == x * 100));
        pairs.sort();
        let expected: Vec<(i64, i64)> = vals.iter().map(|v| (*v, v * 100)).collect();
        assert_eq!(pairs, expected);
    }
}

#[test]
fn random_permutations_are_permutations() {
    for n in [0usize, 1, 2, 7, 50] {
        for seed in [0u64, 5, 12345] {
            assert!(is_perm(&random_permutation(n, seed), n));
        }
    }
    assert_eq!(identity_permutation(4), vec![0, 1, 2, 3]);
    assert_ne!(random_permutation(50, 1), identity_permutation(50));
}

#[test]
fn batches_move_to_the_device() {
    let xs = column(&[1, 2]);
    let mut it = Iter2::new(&xs, &xs, 1);
    it.to_device(Device::Cuda(0));
    let (x, y) = it.next().unwrap();
    assert_eq!(x.device(), Device::Cuda(0));
    assert_eq!(y.device(), Device::Cuda(0));
    assert_eq!(xs.device(), Device::Cpu);
}

#[test]
fn tensor_operations() {
    let t = Tensor::from_rows(vec![vec![1, 2], vec![3, 4], vec![5, 6]]);
    assert_eq!(t.size0(), 3);
    assert_eq!(t.row(1), vec![3, 4]);
    assert_eq!(t.narrow(1, 2).to_rows(), vec![vec![3, 4], vec![5, 6]]);
    assert_eq!(t.index_select(&vec![2, 2, 0]).to_rows(), vec![vec![5, 6], vec![5, 6], vec![1, 2]]);
    assert_eq!(t.copy().to_rows(), t.to_rows());
}
