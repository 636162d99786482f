use gcast::lcs::LCS;

fn sorted_dedup(mut v: Vec<Vec<usize>>) -> Vec<Vec<usize>> {
    v.sort();
    v.dedup();
    v
}

#[test]
fn standalone_lcs_test_lcs() {
    let mut lcs = LCS::new("GAC".into());
    assert!(lcs.push_str("AGCAT").is_ok());
    assert_eq!(lcs.length(), 2);
    let indices = lcs.get_leftmost_indices();
    assert!(vec!["AC", "GC", "GA"].contains(&lcs.get_string(&indices).as_str()));
}

#[test]
fn standalone_lcs_test_empty_lcs() {
    let lcs = LCS::new("asd".into());
    let indices = lcs.get_leftmost_indices();
    assert!(indices.is_empty());
    assert!(lcs.get_string(&indices).is_empty());
}

#[test]
fn standalone_lcs_test_lcs_intersperse() {
    let mut lcs = LCS::new("asd".into());
    assert!(lcs.push('s').is_ok());
    let indices = lcs.get_leftmost_indices();
    assert_eq!(
        lcs.get_interspersed(&indices, |c| format!("1{}2", c), |c| c.to_string()),
        "a1s2d"
    );
}

#[test]
fn standalone_lcs_test_lcs_all_subsequences() {
    let mut lcs = LCS::new("src/lc".into());
    assert!(lcs.push_str("src").is_ok());
    assert_eq!(lcs.length(), 3);

    let all = sorted_dedup(lcs.get_all_indices());
    assert_eq!(all, vec![vec![0, 1, 2], vec![0, 1, 5]]);
    assert!(all.contains(&lcs.get_leftmost_indices()));

    let strings: Vec<String> = all.iter().map(|indices| lcs.get_string(indices)).collect();
    assert_eq!(strings, vec!["src", "src"]);

    let first_poses: Vec<Option<usize>> =
        all.iter().map(|indices| lcs.first_pos(indices)).collect();
    assert_eq!(first_poses, vec![Some(0), Some(0)]);

    let spreads: Vec<usize> = all.iter().map(|indices| lcs.spread_ref(indices)).collect();
    assert_eq!(spreads, vec![0, 3]);
}

#[test]
fn standalone_lcs_test_lcs_leftmost() {
    let mut lcs = LCS::new("scsrrcc/src".into());
    assert!(lcs.push_str("src").is_ok());
    assert_eq!(lcs.length(), 3);

    let left = lcs.get_leftmost_indices();
    assert_eq!(left, vec![0, 3, 5]);
    assert_eq!(lcs.spread(left), 3);
}

#[test]
fn standalone_lcs_test_lcs_pop() {
    let mut lcs = LCS::new("asd".into());
    assert!(lcs.push('s').is_ok());
    assert!(lcs.push('d').is_ok());
    let indices = lcs.get_leftmost_indices();
    assert_eq!(lcs.get_string(&indices), "sd");

    lcs.pop();
    let indices = lcs.get_leftmost_indices();
    assert_eq!(lcs.get_string(&indices), "s");
}

#[test]
fn standalone_lcs_grid_counts() {
    let mut lcs = LCS::new("asd".into());
    assert_eq!(lcs.grid_columns(), 0);
    assert!(lcs.push_str("sd").is_ok());
    assert_eq!(lcs.grid_columns(), 2);
    assert_eq!(lcs.grid_len(), 6);
    lcs.pop();
    assert_eq!(lcs.grid_columns(), 1);
    assert_eq!(lcs.grid_len(), 3);
}

#[test]
fn standalone_lcs_push_fails_past_the_largest_length() {
    let mut lcs = LCS::new("a".repeat(300));
    for _ in 0..255 {
        assert!(lcs.push('a').is_ok());
    }
    assert_eq!(lcs.length(), 255);
    let before = lcs.get_leftmost_indices();
    assert_eq!(lcs.push('a'), Err(()));
    assert_eq!(lcs.length(), 255);
    assert_eq!(lcs.grid_columns(), 255);
    assert_eq!(lcs.grid_len(), 255 * 300);
    assert_eq!(lcs.get_leftmost_indices(), before);
    assert!(lcs.push('b').is_ok());
    assert_eq!(lcs.grid_columns(), 256);
    lcs.pop();
    assert_eq!(lcs.get_leftmost_indices(), before);
}
