use pinyin_hmm::merge::merge;

fn ranked(list: &[(usize, &str)]) -> Vec<(usize, String)> {
    list.iter().map(|(r, s)| (*r, s.to_string())).collect()
}

#[test]
fn merge_interleaves_by_rank() {
    let a = ranked(&[(0, "A0"), (1, "A1")]);
    let b = ranked(&[(0, "B0"), (1, "B1"), (2, "B2")]);
    let c = ranked(&[(0, "C0")]);
    assert_eq!(
        merge(&vec![a, b, c]),
        vec!["A0", "B0", "C0", "A1", "B1", "B2"]
    );
}

#[test]
fn merge_of_nothing() {
    assert_eq!(merge(&Vec::new()), Vec::<String>::new());
    assert_eq!(merge(&vec![Vec::new(), Vec::new()]), Vec::<String>::new());
}

#[test]
fn merge_one_list_keeps_it() {
    let a = ranked(&[(0, "x"), (1, "y"), (2, "z")]);
    assert_eq!(merge(&vec![a]), vec!["x", "y", "z"]);
}

#[test]
fn merge_is_a_stable_sort_by_rank() {
    let a = ranked(&[(5, "x"), (1, "y"), (5, "x2")]);
    let b = ranked(&[(5, "z"), (0, "w"), (usize::MAX, "last"), (1, "y")]);
    let lists = vec![a, b];
    let mut flat: Vec<(usize, String)> = lists.iter().flatten().cloned().collect();
    flat.sort_by_key(|x| x.0);
    let expected: Vec<String> = flat.into_iter().map(|x| x.1).collect();
    assert_eq!(merge(&lists), expected);
    assert_eq!(merge(&lists), vec!["w", "y", "y", "x", "x2", "z", "last"]);
}

#[test]
fn merge_puts_earlier_segmentation_first_within_a_rank() {
    let lists: Vec<Vec<(usize, String)>> = (0..4)
        .map(|a| (0..(a + 2)).map(|k| (k, format!("s{}r{}", a, k))).collect())
        .collect();
    let out = merge(&lists);
    assert_eq!(out.len(), 2 + 3 + 4 + 5);
    let place = |s: String| out.iter().position(|x| *x == s).unwrap();
    for k in 0..2 {
        for a in 0..3 {
            assert!(place(format!("s{}r{}", a, k)) < place(format!("s{}r{}", a + 1, k)));
        }
    }
    assert!(place("s3r0".to_string()) < place("s0r1".to_string()));
    assert_eq!(out[0], "s0r0");
    assert_eq!(out[13], "s3r4");
}
