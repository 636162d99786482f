use gcast::fuzzy::compile::compile_search_term_to_regexes;
use gcast::searcher::compile::{compile_word, fuzzy_word, literal_word};
use gcast::fuzzy::dp::{Element, Grid};
use gcast::fuzzy::iterator::{path_to_indices, LCSIterator};
use gcast::fuzzy::lcs::LCS;
use gcast::fuzzy::matcher::{first_pos_ref, spread, spread_ref, Matcher};
use gcast::fuzzy::substring::SubStr;
use gcast::fuzzy::util::{compact_to_ranges, get_interspersed};
use gcast::searcher::util::compact_to_ranges as compact_slice;

fn sorted_dedup(mut v: Vec<Vec<usize>>) -> Vec<Vec<usize>> {
    v.sort();
    v.dedup();
    v
}

#[test]
fn lcs_test_lcs() {
    let mut lcs = LCS::new("GAC");
    assert!(lcs.push_str("AGCAT").is_ok());
    assert_eq!(lcs.length(), 2);
    let indices = lcs.get_leftmost_indices();
    assert!(vec!["AC", "GC", "GA"].contains(&lcs.longest_seq_str(&indices).as_str()));
}

#[test]
fn lcs_test_empty_lcs() {
    let lcs = LCS::new("asd");
    let indices = lcs.get_leftmost_indices();
    assert!(indices.is_empty());
    assert!(lcs.longest_seq_str(&indices).is_empty());
}

#[test]
fn lcs_test_lcs_intersperse() {
    let mut lcs = LCS::new("asd");
    assert!(lcs.push('s').is_ok());
    let indices = lcs.get_leftmost_indices();
    assert_eq!(
        get_interspersed(lcs.get_compare(), &indices, |c| format!("1{}2", c), |c| c.to_string()),
        "a1s2d"
    );
}

#[test]
fn lcs_test_lcs_all_subsequences() {
    let mut lcs = LCS::new("src/lc");
    assert!(lcs.push_str("src").is_ok());
    assert_eq!(lcs.length(), 3);

    let all: Vec<Vec<usize>> = sorted_dedup(lcs.get_all_indices());
    assert_eq!(all, vec![vec![0, 1, 2], vec![0, 1, 5]]);
    assert!(all.contains(&lcs.get_leftmost_indices()));

    let strings: Vec<String> = all.iter().map(|indices| lcs.longest_seq_str(indices)).collect();
    assert_eq!(strings, vec!["src", "src"]);

    let first_poses: Vec<Option<usize>> = all.iter().map(|indices| first_pos_ref(indices)).collect();
    assert_eq!(first_poses, vec![Some(0), Some(0)]);

    let spreads: Vec<usize> = all.iter().map(|indices| spread_ref(indices)).collect();
    assert_eq!(spreads, vec![0, 3]);
}

#[test]
fn lcs_test_lcs_leftmost() {
    let mut lcs = LCS::new("scsrrcc/src");
    assert!(lcs.push_str("src").is_ok());
    assert_eq!(lcs.length(), 3);

    let left = lcs.get_leftmost_indices();
    assert_eq!(left, vec![0, 3, 5]);
    assert_eq!(spread(left), 3);
}

#[test]
fn lcs_test_lcs_pop() {
    let mut lcs = LCS::new("asd");
    assert!(lcs.push('s').is_ok());
    assert!(lcs.push('d').is_ok());
    let indices = lcs.get_leftmost_indices();
    assert_eq!(lcs.longest_seq_str(&indices), "sd");

    lcs.pop();
    let indices = lcs.get_leftmost_indices();
    assert_eq!(lcs.longest_seq_str(&indices), "s");
}

#[test]
fn matcher_trait_push_pop() {
    let mut lcs = LCS::new("abc");
    assert!(Matcher::push(&mut lcs, 'B').is_ok());
    assert_eq!(Matcher::get_indices(&lcs), vec![1]);
    assert_eq!(Matcher::get_compare(&lcs), "abc");
    Matcher::pop(&mut lcs);
    assert!(lcs.is_empty());
    assert_eq!(lcs.grid_columns(), 0);
}

#[test]
fn lcs_push_overflow_is_refused() {
    let long: String = std::iter::repeat('a').take(300).collect();
    let mut lcs = LCS::new(&long);
    assert_eq!(lcs.push_str(&long), Err(255));
    assert_eq!(lcs.length(), 255);
    assert_eq!(lcs.grid_columns(), 255);
    assert_eq!(lcs.grid_len(), 255 * 300);
}

#[test]
fn lcs_pop_restores_length() {
    let mut lcs = LCS::new("hello world");
    assert!(lcs.push_str("hlo").is_ok());
    let before = lcs.length();
    assert!(lcs.push('d').is_ok());
    assert_eq!(lcs.length(), 4);
    lcs.pop();
    assert_eq!(lcs.length(), before);
    assert_eq!(lcs.get_leftmost_indices(), vec![0, 2, 4]);
}

#[test]
fn test_empty() {
    let g = Grid::new_usize(3);
    assert_eq!(g.columns_non_zero(), 0);
    assert!(g.is_empty());
    assert_eq!(g.get_last(), None);
    assert_eq!(g.get(0, 0), Some(Element::empty()));
    assert_eq!(g.get(1, 0), Some(Element::empty()));
    assert_eq!(g.get(0, 1), Some(Element::empty()));
    assert_eq!(g.get(1, 1), None);
    assert_eq!(g.get(42, 67), None);
}

#[test]
fn test_one_column() {
    let mut g = Grid::new_usize(3);
    let ele = Element { length: 42, matched: false };
    assert!(g.generate_col(|_r, _a, _b, _c| Ok(ele)).is_ok());
    assert_eq!(g.len(), 3);
    assert_eq!(g.columns_non_zero(), 1);
    assert_eq!(g.get(4, 1), None);
    assert_eq!(g.get(3, 1), Some(ele));
    assert_eq!(g.get(1, 1), Some(ele));
    assert_eq!(g.get(1, 2), None);
    assert_eq!(g.get_last(), g.get(3, 1));
}

#[test]
fn test_pop_column() {
    let mut g = Grid::new_usize(3);
    let ele = Element { length: 42, matched: false };
    assert!(g.generate_col(|_r, _a, _b, _c| Ok(ele)).is_ok());
    assert!(g.generate_col(|_r, _a, _b, _c| Ok(ele)).is_ok());
    assert_eq!(g.len(), 6);
    assert_eq!(g.columns_non_zero(), 2);
    assert_eq!(g.get(4, 2), None);
    assert_eq!(g.get(3, 2), Some(ele));
    assert_eq!(g.get(1, 2), Some(ele));
    assert_eq!(g.get(1, 3), None);

    g.pop_col();
    assert_eq!(g.len(), 3);
    assert_eq!(g.columns_non_zero(), 1);
}

#[test]
fn grid_failed_column_leaves_grid_unchanged() {
    let mut g = Grid::new(2);
    let ele = Element { length: 1, matched: true };
    assert!(g.generate_col(|_r, _a, _b, _c| Ok(ele)).is_ok());
    assert!(g.generate_col(|r, _a, _b, _c| if r == 2 { Err(()) } else { Ok(ele) }).is_err());
    assert_eq!(g.columns_non_zero(), 1);
    assert_eq!(g.bottom_right(), (2, 1));
    assert_eq!(Element::new_matched(Element { length: 255, matched: false }), Err(()));
    assert_eq!(
        Element::new_not_matched(Element { length: 3, matched: true }, ele),
        Element { length: 3, matched: false }
    );
}

#[test]
fn test_lcs_iterator() {
    let mut lcs = LCS::new("GAC");
    assert!(lcs.push_str("AGCAT").is_ok());
    assert_eq!(lcs.length(), 2);

    let mut it = LCSIterator::new(&lcs);
    let mut paths: Vec<Vec<(usize, usize)>> = Vec::new();
    while let Some(p) = it.next() {
        paths.push(p.to_vec());
    }
    paths.sort_unstable();
    let org_len = paths.len();
    paths.dedup();
    assert_eq!(org_len, paths.len(), "should not have duplicates");

    let mut indices: Vec<Vec<usize>> = paths.iter().map(|x| path_to_indices(x)).collect();
    indices.dedup();

    let mut strings: Vec<String> = indices.iter().map(|indices| lcs.longest_seq_str(indices)).collect();
    strings.sort();

    assert_eq!(strings, vec!["AC", "GA", "GC"]);
}

#[test]
fn test_lcs_iterator_empty() {
    {
        let lcs = LCS::new("asd");
        assert_eq!(lcs.length(), 0);
        let mut iter = LCSIterator::new(&lcs);
        assert_eq!(iter.next(), None);
        assert_eq!(iter.next(), None);
        assert_eq!(iter.next(), None);
        assert_eq!(iter.next(), None);
    }

    {
        let mut lcs = LCS::new("asd");
        assert!(lcs.push('x').is_ok());
        assert_eq!(lcs.length(), 0);
        let mut iter = LCSIterator::new(&lcs);
        assert_eq!(iter.next(), None);
        assert_eq!(iter.next(), None);
        assert_eq!(iter.next(), None);
        assert_eq!(iter.next(), None);
    }
}

#[test]
fn test_substr() {
    let _cmp = SubStr::new("asd".to_string());
    let _cmp2 = SubStr::new("asd".to_string());
}

#[test]
fn util_test_compact_ranges() {
    assert_eq!(compact_to_ranges(vec![], 1), Vec::<std::ops::Range<usize>>::new());
    assert_eq!(compact_to_ranges(vec![1, 2, 3], 1), vec![1..4]);
    assert_eq!(compact_to_ranges(vec![1, 3, 4], 1), vec![1..2, 3..5]);
    assert_eq!(
        compact_to_ranges(vec![1, 3, 7, 9], 1),
        vec![1..2, 3..4, 7..8, 9..10]
    );

    assert_eq!(compact_slice(&[]), Vec::<std::ops::Range<usize>>::new());
    assert_eq!(compact_slice(&[1, 2, 3]), vec![1..4]);
    assert_eq!(compact_slice(&[1, 3, 4]), vec![1..2, 3..5]);
    assert_eq!(compact_slice(&[1, 3, 7, 9]), vec![1..2, 3..4, 7..8, 9..10]);
}

#[test]
fn compact_ranges_with_larger_step() {
    assert_eq!(compact_to_ranges(vec![0, 2, 4, 10], 2), vec![0..6, 10..12]);
}

#[test]
fn spread_and_first_pos() {
    assert_eq!(spread(vec![]), 0);
    assert_eq!(spread(vec![4]), 0);
    assert_eq!(spread(vec![1, 2, 6, 9]), 5);
    assert_eq!(first_pos_ref(&[]), None);
    assert_eq!(first_pos_ref(&[7, 8]), Some(7));
    assert_eq!(gcast::fuzzy::matcher::first_pos(vec![3]), Some(3));
}

#[test]
fn leftmost_is_the_first_path_handed_out() {
    let mut lcs = LCS::new("GAC");
    assert!(lcs.push_str("AGCAT").is_ok());
    let all = lcs.get_all_indices();
    assert_eq!(all[0], lcs.get_leftmost_indices());
    let mut it = LCSIterator::new(&lcs);
    let mut count = 0;
    while let Some(p) = it.next() {
        assert_eq!(path_to_indices(p), all[count]);
        count += 1;
    }
    assert_eq!(count, all.len());
    assert_eq!(it.next(), None);
}

#[test]
fn test_compile() {
    assert_eq!(literal_word("a?"), "(?i).*?(a\\?).*?");
    assert_eq!(fuzzy_word("a?"), "(?i).*?(a).*?(\\?).*?");
    assert!(compile_word("'a").is_ok());
    assert!(compile_word("'").is_err());

    let regs = compile_search_term_to_regexes("'a asd");
    assert!(regs.is_ok());
    assert_eq!(regs.unwrap().len(), 2);
}
