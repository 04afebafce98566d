use heap_analyzer::ranking::rank;

#[test]
fn greatest_first() {
    assert_eq!(rank(&vec![]), Vec::<usize>::new());
    assert_eq!(rank(&vec![5]), vec![0]);
    assert_eq!(rank(&vec![1, 3, 2]), vec![1, 2, 0]);
}

#[test]
fn equal_keys_keep_their_order() {
    assert_eq!(rank(&vec![4, 4, 9, 4, 9]), vec![2, 4, 0, 1, 3]);
}

#[test]
fn agrees_with_a_stable_sort() {
    let mut x: u64 = 3;
    for len in 0..200usize {
        let mut keys: Vec<u64> = Vec::new();
        for _ in 0..len {
            x = x.wrapping_mul(6364136223846793005).wrapping_add(1442695040888963407);
            keys.push((x >> 40) % 17);
        }
        let mut expected: Vec<usize> = (0..len).collect();
        expected.sort_by(|a, b| keys[*b].cmp(&keys[*a]));
        assert_eq!(rank(&keys), expected);
    }
}
