use gcast::fuzzy::compile::compile_search_term_to_regexes as compile_words;
use gcast::searcher::compile::{
    compile_fzf, compile_search_term_to_regexes, compile_swiper, compile_word, fuzzy_word,
    literal_word, CompileError,
};
use gcast::searcher::matches::Match;
use gcast::searcher::search::{search, SearchRes};
use gcast::order::Ranked;
use gcast::searcher::util::{complement, slice_chars, sorted_take, stylize};

fn hits_of<T>(res: &[SearchRes<T>]) -> Vec<(usize, Vec<usize>)> {
    res.iter()
        .map(|r| (r.get_index(), r.get_match().indices().to_vec()))
        .collect()
}

#[test]
fn test_search_simple() {
    let cands = vec!["hej"];
    let res = search("hej", cands.clone()).unwrap();
    assert_eq!(hits_of(&res), vec![(0, vec![0, 1, 2])]);
    assert_eq!(*res[0].get_inner(), "hej");

    assert!(search::<&'static str>("hej", vec![]).unwrap().is_empty());

    assert!(search("nej", cands).unwrap().is_empty());
}

#[test]
fn search_empty_term_finds_everything() {
    let cands = vec!["a".to_string(), "b".to_string()];
    let res = search("", cands).unwrap();
    assert_eq!(hits_of(&res), vec![(0, vec![]), (1, vec![])]);
    assert_eq!(res[1].get_inner(), "b");
}

#[test]
fn search_refused_term() {
    assert_eq!(search(" x", vec!["x"]).map(|v| v.len()), Err(CompileError));
    assert_eq!(search(" ", vec!["x"]).map(|v| v.len()), Err(CompileError));
}

#[test]
fn search_words_and_spaces() {
    let cands = vec!["hej hopp", "hejhopp", "xx hej  hopp", "HEJ hopp"];
    let res = search("hej hopp", cands.clone()).unwrap();
    assert_eq!(
        hits_of(&res),
        vec![
            (0, vec![0, 1, 2, 4, 5, 6, 7]),
            (1, vec![0, 1, 2, 3, 4, 5, 6]),
            (2, vec![3, 4, 5, 8, 9, 10, 11]),
            (3, vec![0, 1, 2, 4, 5, 6, 7]),
        ]
    );
    // upper case in the term makes the search case sensitive
    let res = search("HEJ", cands.clone()).unwrap();
    assert_eq!(hits_of(&res), vec![(3, vec![0, 1, 2])]);
    // two spaces ask for exactly one space
    let res = search("hej  hopp", cands).unwrap();
    assert_eq!(
        hits_of(&res),
        vec![(0, vec![0, 1, 2, 4, 5, 6, 7]), (3, vec![0, 1, 2, 4, 5, 6, 7])]
    );
}

#[test]
fn search_positions_are_characters_not_bytes() {
    let res = search("ö", vec!["åäö"]).unwrap();
    assert_eq!(hits_of(&res), vec![(0, vec![2])]);
}

#[test]
fn results_rank_by_spread_first_and_index() {
    let cands = vec!["a b", "ab", "xab", "ab"];
    let mut res = search("a", cands).unwrap();
    let best = sorted_take(&mut res, 10);
    let order: Vec<usize> = best.iter().map(|r| r.get_index()).collect();
    assert_eq!(order, vec![0, 1, 3, 2]);
    assert!(best[0].ranks_le(&best[1]));
    assert!(!best[3].ranks_le(&best[0]));
}

#[test]
fn match_from_vec_sorts() {
    let m = Match::from_vec(vec![5, 1, 3]);
    assert_eq!(m.indices(), &[1, 3, 5]);
    assert_eq!(m.first(), Some(1));
    assert_eq!(m.spread(), 2);
    assert_eq!(Match::empty().first(), None);
    assert_eq!(Match::empty().indices(), &[] as &[usize]);
}

#[test]
fn test_compile_fzf() {
    assert_eq!(literal_word("a?"), "(?i).*?(a\\?).*?");
    assert_eq!(fuzzy_word("a?"), "(?i).*?(a).*?(\\?).*?");
    assert!(compile_word("'a").is_ok());
    assert!(compile_word("'").is_err());

    let regs = compile_fzf("'a asd");
    assert!(regs.is_ok());
    assert_eq!(regs.unwrap().len(), 2);
}

#[test]
fn compile_fzf_refusals() {
    assert_eq!(compile_fzf(""), Err(CompileError));
    assert_eq!(compile_fzf("   "), Err(CompileError));
    assert_eq!(compile_fzf("a ' b"), Err(CompileError));
    assert_eq!(compile_fzf(" \tAb\n"), Ok(vec!["(?-i).*?(A).*?(b).*?".to_string()]));
}

#[test]
fn test_compile_swiper() {
    assert_eq!(compile_swiper(" "), Err(CompileError));
    assert_eq!(compile_swiper(""), Err(CompileError));
    assert_eq!(compile_swiper(" x"), Err(CompileError));
    assert!(compile_swiper("x ").is_ok());
    assert!(compile_swiper("x  ").is_ok());

    assert_eq!(
        compile_swiper("hej hej"),
        Ok(vec![format!("{}(hej){}(hej)", "(?i)", ".*?")])
    );
    assert_eq!(
        compile_swiper("hej  hej"),
        Ok(vec![format!("{}(hej) {{1}}(hej)", "(?i)")])
    );
    assert_eq!(
        compile_swiper("hej    hej"),
        Ok(vec![format!("{}(hej) {{3}}(hej)", "(?i)")])
    );
    assert_eq!(
        compile_swiper("hEj"),
        Ok(vec![format!("{}(hEj)", "(?-i)")])
    );
}

#[test]
fn swiper_trailing_space_and_escaping() {
    assert_eq!(compile_swiper("x "), Ok(vec!["(?i)(x)".to_string()]));
    assert_eq!(compile_swiper("x  "), Ok(vec!["(?i)(x) {1}".to_string()]));
    assert_eq!(compile_swiper("  a.b"), Ok(vec!["(?i) {1}(a\\.b)".to_string()]));
    assert_eq!(compile_search_term_to_regexes("a b").map(|v| v.len()), Ok(1));
    assert_eq!(compile_search_term_to_regexes(" b").map(|v| v.len()), Err(CompileError));
}

#[test]
fn test_range_complement() {
    assert_eq!(complement(&[], 1..6), vec![1..6]);
    assert_eq!(complement(&[0..2], 0..5), vec![0..0, 2..5]);
    assert_eq!(complement(&[1..2], 0..5), vec![0..1, 2..5]);
    assert_eq!(complement(&[1..2, 2..3], 0..5), vec![0..1, 2..2, 3..5]);
}

fn stylize_string(string: &str, indices: &[usize], on: char, off: char) -> String {
    stylize(string, indices, |_: &str| on, |_: &str| off)
        .into_iter()
        .collect()
}

#[test]
fn test_stylize() {
    assert_eq!(stylize_string("hej", &[1], 'a', 'b'), "bab");

    assert_eq!(stylize_string("", &[], 'a', 'b'), "");

    assert_eq!(stylize_string("hej", &[0, 1, 2], 'a', 'b'), "a");
    assert_eq!(stylize_string("hej", &[], 'a', 'b'), "b");

    let path = "/ständiga frågan  www.instagram.com_uumemes-461225481079299.mp4";
    let joined: String = stylize(path, &[], |x: &str| x.to_string(), |x: &str| x.to_string())
        .into_iter()
        .collect();
    assert_eq!(joined, path);
}

#[test]
fn stylize_pieces_in_order() {
    let pieces = stylize("hejsan", &[1, 2, 5], |x: &str| format!("[{}]", x), |x: &str| x.to_string());
    assert_eq!(pieces, vec!["h", "[ej]", "sa", "[n]"]);
    let joined: String = stylize("åäöÅÄÖ", &[0, 3], |x: &str| x.to_string(), |x: &str| x.to_string())
        .into_iter()
        .collect();
    assert_eq!(joined, "åäöÅÄÖ");
}

#[test]
fn test_slice_chars() {
    let s = "åäöÅÄÖ";
    assert_eq!(s.len(), 2 * s.chars().count());
    assert_eq!(slice_chars(s, 0..1), "å");
    assert_eq!(slice_chars(s, 0..2), "åä");
    assert_eq!(slice_chars(s, 1..2), "ä");
    assert_eq!(slice_chars(s, 0..6), s);
    assert_eq!(slice_chars(s, 0..5), "åäöÅÄ");

    assert_eq!(slice_chars("", 0..0), "");
    assert_eq!(slice_chars(s, 0..0), "");
    assert_eq!(slice_chars(s, 4..4), "");
}

#[test]
fn test_sorted_take() {
    let mut list = vec![6, 4, 3, 1];
    assert_eq!(sorted_take(&mut list, 2), &[1, 3]);

    assert_eq!(sorted_take(&mut list, 0), &[] as &[i32]);

    assert_eq!(sorted_take(&mut list, 10), &[1, 3, 4, 6]);

    assert_eq!(sorted_take::<()>(&mut [], 10), &[] as &[()]);
}

#[test]
fn gcast_test_compile() {
    assert_eq!(literal_word("a?"), "(?i).*?(a\\?).*?");
    assert_eq!(fuzzy_word("a?"), "(?i).*?(a).*?(\\?).*?");
    assert!(compile_word("'a").is_ok());
    assert!(compile_word("'").is_err());

    let regs = compile_words("'a asd");
    assert!(regs.is_ok());
    assert_eq!(regs.unwrap().len(), 2);
}

#[test]
fn test_search() {
    let cands: Vec<String> = vec!["hej".to_string()];
    gcast::fuzzy::search::search("hej", cands.as_slice()).unwrap();
}

#[test]
fn fuzzy_search_words() {
    let cands: Vec<String> = vec!["abc".to_string(), "xaybzc".to_string(), "cab".to_string()];
    let res = gcast::fuzzy::search::search("abc", cands.as_slice()).unwrap();
    let found: Vec<(usize, &str, Vec<usize>)> = res
        .iter()
        .map(|r| (r.get_index(), r.get_string(), r.get_match().indices().to_vec()))
        .collect();
    assert_eq!(found, vec![(0, "abc", vec![0, 1, 2]), (1, "xaybzc", vec![1, 3, 5])]);
    let res = gcast::fuzzy::search::search("'ab c", cands.as_slice()).unwrap();
    let idx: Vec<usize> = res.iter().map(|r| r.get_index()).collect();
    assert_eq!(idx, vec![0, 2]);
    assert!(gcast::fuzzy::search::search("'", cands.as_slice()).is_err());
    assert_eq!(gcast::fuzzy::search::search("", cands.as_slice()).unwrap().len(), 3);
}

#[test]
fn sorted_take_of_nothing_leaves_items_alone() {
    let mut v = vec![3, 1, 2];
    assert!(sorted_take(&mut v, 0).is_empty());
    assert_eq!(v, vec![3, 1, 2]);
    let mut w: Vec<i32> = Vec::new();
    assert!(sorted_take(&mut w, 2).is_empty());
}
