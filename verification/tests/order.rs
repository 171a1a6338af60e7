use rep_grow::order::{comes_before, list_by_rank, listed_before, ranking_of, SortKey};

fn key(frequency: u32, san: &str) -> SortKey {
    SortKey { frequency, san: san.to_string() }
}

#[test]
fn texts_compare_as_strings_do() {
    let samples = ["", "a", "ab", "b", "Nf3", "Nc3", "O-O", "O-O-O", "e4", "é", "z", "\u{10348}", "aa"];
    for a in samples {
        for b in samples {
            assert_eq!(comes_before(a, b), a < b, "{:?} {:?}", a, b);
        }
    }
}

#[test]
fn more_frequent_comes_first_then_notation() {
    assert!(listed_before(&key(2, "z"), &key(1, "a")));
    assert!(!listed_before(&key(1, "a"), &key(2, "z")));
    assert!(listed_before(&key(1, "a"), &key(1, "b")));
    assert!(!listed_before(&key(1, "b"), &key(1, "a")));
    assert!(!listed_before(&key(1, "a"), &key(1, "a")));
}

#[test]
fn ranking_is_a_stable_sort() {
    let keys = vec![key(1, "Nf3"), key(3, "e4"), key(1, "Nc3"), key(3, "d4"), key(1, "Nf3"), key(0, "a3")];
    let order = ranking_of(&keys);
    assert_eq!(order, vec![3, 1, 2, 0, 4, 5]);
    let mut want: Vec<usize> = (0..keys.len()).collect();
    want.sort_by(|&a, &b| keys[b].frequency.cmp(&keys[a].frequency).then(keys[a].san.cmp(&keys[b].san)));
    assert_eq!(order, want);
    assert_eq!(ranking_of(&vec![]), Vec::<usize>::new());
}

#[test]
fn ranking_agrees_with_the_standard_sort_on_many_lists() {
    let sans = ["a", "b", "ab", "", "Nf3", "e4"];
    let mut seed: u32 = 12345;
    for len in 0..12usize {
        for _ in 0..20 {
            let mut keys = Vec::new();
            for _ in 0..len {
                seed = seed.wrapping_mul(1103515245).wrapping_add(12345);
                let f = (seed >> 16) % 3;
                seed = seed.wrapping_mul(1103515245).wrapping_add(12345);
                let s = sans[((seed >> 16) % 6) as usize];
                keys.push(key(f, s));
            }
            let mut want: Vec<usize> = (0..len).collect();
            want.sort_by(|&a, &b| {
                keys[b].frequency.cmp(&keys[a].frequency).then(keys[a].san.cmp(&keys[b].san))
            });
            assert_eq!(ranking_of(&keys), want);
        }
    }
}

#[test]
fn items_are_listed_by_their_keys() {
    let items = vec!["zero".to_string(), "one".to_string(), "two".to_string(), "three".to_string()];
    let keys = vec![key(1, "b"), key(2, "z"), key(1, "a"), key(1, "b")];
    assert_eq!(list_by_rank(items, &keys), Some(vec!["one".to_string(), "two".into(), "zero".into(), "three".into()]));
    assert_eq!(list_by_rank(Vec::<u8>::new(), &vec![]), Some(vec![]));
    assert_eq!(list_by_rank(vec![1u8, 2], &vec![key(0, "a")]), None);
    assert_eq!(list_by_rank(vec![1u8], &vec![]), None);
}
