use bitonic_sorter::third::{sort, sort_by};
use bitonic_sorter::utils::{is_sorted_ascending, is_sorted_descending, new_u32_vec};
use bitonic_sorter::SortOrder::{Ascending, Descending};

#[derive(Debug, PartialEq)]
struct Student {
    first_name: String,
    last_name: String,
    age: u8,
}

impl Student {
    fn new(first_name: &str, last_name: &str, age: u8) -> Self {
        Self {
            first_name: first_name.to_string(),
            last_name: last_name.to_string(),
            age,
        }
    }
}

#[test]
fn third_sort_u32_ascending() {
    let mut x: Vec<u32> = vec![10, 30, 11, 20, 4, 330, 21, 110];
    assert_eq!(sort(&mut x, &Ascending), Ok(()));
}

#[test]
fn third_sort_u32_descending() {
    let mut x: Vec<u32> = vec![10, 30, 11, 20, 4, 330, 21, 110];
    assert_eq!(sort(&mut x, &Descending), Ok(()));
}

#[test]
fn third_sort_str_ascending() {
    let mut x = vec!["Rust", "is", "fast", "and", "memory-efficient", "with", "no", "GC"];
    assert_eq!(sort(&mut x, &Ascending), Ok(()));
}

#[test]
fn third_sort_str_descending() {
    let mut x = vec!["Rust", "is", "fast", "and", "memory-efficient", "with", "no", "GC"];
    assert_eq!(sort(&mut x, &Descending), Ok(()));
}

#[test]
fn sort_to_fail() {
    let mut x = vec![10, 30, 11];
    assert!(sort(&mut x, &Ascending).is_err())
}

#[test]
fn sort_students_by_age_ascending() {
    let taro = Student::new("Taro", "Yamada", 16);
    let hanako = Student::new("Hanako", "Yamada", 14);
    let kyoko = Student::new("Kyoko", "Ito", 15);
    let ryosuke = Student::new("Ryosuke", "Hayashi", 17);
    let mut x = vec![&taro, &hanako, &kyoko, &ryosuke];
    let expected = vec![&hanako, &kyoko, &taro, &ryosuke];
    assert_eq!(sort_by(&mut x, &|a, b| a.age.cmp(&b.age)), Ok(()));
    assert_eq!(x, expected)
}

#[test]
fn sort_students_by_name_ascending() {
    let taro = Student::new("Taro", "Yamada", 16);
    let hanako = Student::new("Hanako", "Yamada", 14);
    let kyoko = Student::new("Kyoko", "Ito", 15);
    let ryosuke = Student::new("Ryosuke", "Hayashi", 17);
    let mut x = vec![&taro, &hanako, &kyoko, &ryosuke];
    let expected = vec![&ryosuke, &kyoko, &hanako, &taro];
    assert_eq!(
        sort_by(&mut x, &|a, b| a
            .last_name
            .cmp(&b.last_name)
            .then_with(|| a.first_name.cmp(&b.first_name))),
        Ok(())
    );
    assert_eq!(x, expected);
}

#[test]
fn sort_u32_large() {
    {
        let mut x = new_u32_vec(65536);
        assert_eq!(sort(&mut x, &Ascending), Ok(()));
        assert!(is_sorted_ascending(&x));
    }
    {
        let mut x = new_u32_vec(65536);
        assert_eq!(sort(&mut x, &Descending), Ok(()));
        assert!(is_sorted_descending(&x));
    }
}

#[test]
fn third_sort_u32_both_ways() {
    let mut x: Vec<u32> = vec![10, 30, 11, 20, 4, 330, 21, 110];
    assert_eq!(sort(&mut x, &Ascending), Ok(()));
    assert_eq!(x, vec![4, 10, 11, 20, 21, 30, 110, 330]);
    assert_eq!(sort(&mut x, &Descending), Ok(()));
    assert_eq!(x, vec![330, 110, 30, 21, 20, 11, 10, 4]);
}

#[test]
fn third_sort_str_both_ways() {
    let mut x = vec!["Rust", "is", "fast", "and", "memory-efficient", "with", "no", "GC"];
    assert_eq!(sort(&mut x, &Ascending), Ok(()));
    assert_eq!(x, vec!["GC", "Rust", "and", "fast", "is", "memory-efficient", "no", "with"]);
    assert_eq!(sort(&mut x, &Descending), Ok(()));
    assert_eq!(x, vec!["with", "no", "memory-efficient", "is", "fast", "and", "Rust", "GC"]);
}

#[test]
fn third_sort_refuses_other_lengths_untouched() {
    let mut three = vec![10, 30, 11];
    assert_eq!(
        sort(&mut three, &Ascending),
        Err("The length of `x` is not a power of two. (x.len(): 3)".to_string())
    );
    assert_eq!(three, vec![10, 30, 11]);
    let mut five = vec![5, 4, 3, 2, 1];
    assert_eq!(
        sort(&mut five, &Descending),
        Err("The length of `x` is not a power of two. (x.len(): 5)".to_string())
    );
    assert_eq!(five, vec![5, 4, 3, 2, 1]);
    let mut six = vec![6, 5, 4, 3, 2, 1];
    assert_eq!(
        sort_by(&mut six, &|a: &i32, b: &i32| a.cmp(b)),
        Err("The length of `x` is not a power of two. (x.len(): 6)".to_string())
    );
    assert_eq!(six, vec![6, 5, 4, 3, 2, 1]);
}

#[test]
fn third_sort_names_long_lengths_in_full() {
    let mut x: Vec<u32> = (0..1030).rev().collect();
    let before = x.clone();
    assert_eq!(
        sort(&mut x, &Ascending),
        Err("The length of `x` is not a power of two. (x.len(): 1030)".to_string())
    );
    assert_eq!(x, before);
}

#[test]
fn third_sort_takes_empty_and_single() {
    let mut none: Vec<u32> = vec![];
    assert_eq!(sort(&mut none, &Ascending), Ok(()));
    assert_eq!(none, Vec::<u32>::new());
    assert_eq!(sort_by(&mut none, &|a: &u32, b: &u32| a.cmp(b)), Ok(()));
    let mut one: Vec<u32> = vec![7];
    assert_eq!(sort(&mut one, &Descending), Ok(()));
    assert_eq!(one, vec![7]);
}

#[test]
fn third_sort_pair() {
    let mut x: Vec<u32> = vec![2, 1];
    assert_eq!(sort(&mut x, &Ascending), Ok(()));
    assert_eq!(x, vec![1, 2]);
    assert_eq!(sort(&mut x, &Descending), Ok(()));
    assert_eq!(x, vec![2, 1]);
}

#[test]
fn third_sort_again_changes_nothing() {
    let mut x: Vec<u32> = vec![4, 10, 11, 20, 21, 30, 110, 330];
    assert_eq!(sort(&mut x, &Ascending), Ok(()));
    assert_eq!(x, vec![4, 10, 11, 20, 21, 30, 110, 330]);
    let mut y: Vec<u32> = vec![9, 7, 7, 1];
    assert_eq!(sort(&mut y, &Descending), Ok(()));
    assert_eq!(y, vec![9, 7, 7, 1]);
}

#[test]
fn third_sort_rearranges() {
    for k in 0..8u32 {
        let n = 1usize << k;
        let mut x: Vec<u32> = (0..n as u32).map(|i| (i * 37 + 5) % 101).collect();
        let mut expected = x.clone();
        expected.sort();
        assert_eq!(sort(&mut x, &Ascending), Ok(()));
        assert_eq!(x, expected);
        expected.reverse();
        assert_eq!(sort(&mut x, &Descending), Ok(()));
        assert_eq!(x, expected);
    }
}

#[test]
fn sort_by_follows_the_comparator() {
    let mut x: Vec<u32> = vec![10, 30, 11, 20, 4, 330, 21, 110];
    assert_eq!(sort_by(&mut x, &|a: &u32, b: &u32| b.cmp(a)), Ok(()));
    assert_eq!(x, vec![330, 110, 30, 21, 20, 11, 10, 4]);
    assert_eq!(sort_by(&mut x, &|a: &u32, b: &u32| (a % 10).cmp(&(b % 10)).then_with(|| a.cmp(b))), Ok(()));
    assert_eq!(x, vec![10, 20, 30, 110, 330, 11, 21, 4]);
}

#[test]
fn sort_by_may_move_elements_that_compare_equal() {
    let mut x: Vec<(u8, u8)> = vec![(0, 0), (0, 1), (0, 2), (0, 3), (0, 4), (1, 5), (1, 6), (1, 7)];
    assert_eq!(sort_by(&mut x, &|a: &(u8, u8), b: &(u8, u8)| a.0.cmp(&b.0)), Ok(()));
    assert_eq!(x, vec![(0, 0), (0, 1), (0, 2), (0, 3), (0, 4), (1, 6), (1, 7), (1, 5)]);
}

#[test]
fn sort_by_rearranges_under_any_comparator() {
    let mut x: Vec<u32> = vec![3, 1, 4, 1, 5, 9, 2, 6];
    assert_eq!(sort_by(&mut x, &|_: &u32, _: &u32| std::cmp::Ordering::Greater), Ok(()));
    x.sort();
    assert_eq!(x, vec![1, 1, 2, 3, 4, 5, 6, 9]);
}
