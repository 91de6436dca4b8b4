use bitonic_sorter::second::sort;

#[test]
fn second_sort_u32_ascending() {
    let mut x: Vec<u32> = vec![10, 30, 11, 20, 4, 330, 21, 110];
    sort(&mut x, true);
    assert_eq!(x, vec![4, 10, 11, 20, 21, 30, 110, 330]);
}

#[test]
fn second_sort_u32_descending() {
    let mut x: Vec<u32> = vec![10, 30, 11, 20, 4, 330, 21, 110];
    sort(&mut x, false);
    assert_eq!(x, vec![330, 110, 30, 21, 20, 11, 10, 4]);
}

#[test]
fn second_sort_str_ascending() {
    let mut x = vec!["Rust", "is", "fast", "and", "memory-efficient", "with", "no", "GC"];
    sort(&mut x, true);
    assert_eq!(x, vec!["GC", "Rust", "and", "fast", "is", "memory-efficient", "no", "with"]);
}

#[test]
fn second_sort_str_descending() {
    let mut x = vec!["Rust", "is", "fast", "and", "memory-efficient", "with", "no", "GC"];
    sort(&mut x, false);
    assert_eq!(x, vec!["with", "no", "memory-efficient", "is", "fast", "and", "Rust", "GC"]);
}

#[test]
fn second_sort_leaves_empty_and_single_alone() {
    let mut none: Vec<u32> = vec![];
    sort(&mut none, true);
    assert_eq!(none, Vec::<u32>::new());
    let mut one: Vec<u32> = vec![7];
    sort(&mut one, false);
    assert_eq!(one, vec![7]);
}

#[test]
fn second_sort_pair() {
    let mut x: Vec<u32> = vec![2, 1];
    sort(&mut x, true);
    assert_eq!(x, vec![1, 2]);
    sort(&mut x, false);
    assert_eq!(x, vec![2, 1]);
}

#[test]
fn second_sort_again_changes_nothing() {
    let mut x: Vec<u32> = vec![4, 10, 11, 20, 21, 30, 110, 330];
    sort(&mut x, true);
    assert_eq!(x, vec![4, 10, 11, 20, 21, 30, 110, 330]);
    let mut y: Vec<u32> = vec![9, 7, 7, 1];
    sort(&mut y, false);
    assert_eq!(y, vec![9, 7, 7, 1]);
}

#[test]
fn second_sort_rearranges_any_length() {
    for n in 0..20usize {
        let mut x: Vec<u32> = (0..n as u32).map(|i| (i * 7 + 3) % 11).collect();
        let mut expected = x.clone();
        expected.sort();
        sort(&mut x, true);
        let mut got = x.clone();
        got.sort();
        assert_eq!(got, expected);
    }
}

#[test]
fn second_sort_sorts_every_power_of_two() {
    for k in 0..8u32 {
        let n = 1usize << k;
        let mut x: Vec<u32> = (0..n as u32).map(|i| (i * 37 + 5) % 101).collect();
        let mut up = x.clone();
        up.sort();
        let mut down = up.clone();
        down.reverse();
        sort(&mut x, true);
        assert_eq!(x, up);
        sort(&mut x, false);
        assert_eq!(x, down);
    }
}

#[test]
fn second_sort_need_not_sort_other_lengths() {
    let mut x: Vec<u32> = vec![3, 2, 1];
    sort(&mut x, true);
    assert_eq!(x, vec![2, 1, 3]);
}
