//! Compiling a search term, fzf style, into one regular expression per word.
use vstd::prelude::*;
use crate::searcher::compile::{compile_fzf, word_pattern, words, some_word_rejected};
use crate::searcher::pattern::{Pattern, pattern_new, regex_compiles};

verus! {

/// The term is refused: it has no word, or a word is a lone quote.
pub open spec fn term_rejected(t: Seq<char>) -> bool {
    words(t).len() == 0 || some_word_rejected(t)
}

/// The expressions of the words of `t`, in order.
pub open spec fn word_patterns(t: Seq<char>) -> Seq<Seq<char>> {
    words(t).map_values(|w: Seq<char>| word_pattern(w))
}

/// The expression sources for every white-space separated word of the term (see
/// `word_pattern`); refused terms give `Err`.
pub fn compile_search_term_to_strings(search_term: &str) -> (res: Result<Vec<String>, ()>)
    ensures
        res is Err <==> term_rejected(search_term@),
        res matches Ok(v) ==> v@.len() == words(search_term@).len() && forall|j: int|
            0 <= j < v@.len() ==> (#[trigger] v@[j])@ == word_patterns(search_term@)[j],
{
    match compile_fzf(search_term) {
        Ok(v) => Ok(v),
        Err(_) => Err(()),
    }
}

/// The compiled expressions for every word of the term; `Err` for a refused term
/// or when an expression does not compile.
pub fn compile_search_term_to_regexes(search_term: &str) -> (res: Result<Vec<Pattern>, ()>)
    ensures
        res is Ok <==> !term_rejected(search_term@) && forall|j: int|
            0 <= j < words(search_term@).len() ==> regex_compiles(
                #[trigger] word_patterns(search_term@)[j],
            ),
        res matches Ok(v) ==> v@.len() == words(search_term@).len() && forall|j: int|
            0 <= j < v@.len() ==> (#[trigger] v@[j])@ == word_patterns(search_term@)[j],
{
    let ghost pats = word_patterns(search_term@);
    let strs = compile_search_term_to_strings(search_term)?;
    let mut res: Vec<Pattern> = Vec::new();
    let mut i: usize = 0;
    while i < strs.len()
        invariant
            strs@.len() == words(search_term@).len(),
            pats == word_patterns(search_term@),
            forall|j: int| 0 <= j < strs@.len() ==> (#[trigger] strs@[j])@ == pats[j],
            i <= strs@.len(),
            res@.len() == i,
            forall|j: int| 0 <= j < i ==> (#[trigger] res@[j])@ == pats[j] && regex_compiles(pats[j]),
        decreases strs@.len() - i,
    {
        match pattern_new(strs[i].clone()) {
            Ok(p) => {
                res.push(p);
            },
            Err(_) => {
                proof {
                    assert(!regex_compiles(word_patterns(search_term@)[i as int]));
                }
                return Err(());
            },
        }
        i += 1;
    }
    proof {
        assert forall|j: int| 0 <= j < words(search_term@).len() implies regex_compiles(
            #[trigger] word_patterns(search_term@)[j],
        ) by {
            assert(res@[j]@ == pats[j]);
        }
    }
    Ok(res)
}

} // verus!
