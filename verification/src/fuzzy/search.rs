//! Searching borrowed candidate strings with the fzf-style expressions of a term.
use vstd::prelude::*;
use crate::fuzzy::compile::{compile_search_term_to_regexes, term_rejected, word_patterns};
use crate::searcher::compile::words;
use crate::searcher::pattern::regex_compiles;
use crate::searcher::search::{
    Candidate, SearchRes, describes, hits, texts_of, search_empty, search_with_regex,
    pattern_views, positions_within,
};

verus! {

/// The candidates as borrowed strings.
fn borrow_all<'a, I: Candidate>(candidates: &'a [I]) -> (v: Vec<&'a str>)
    ensures
        v@.len() == candidates@.len(),
        texts_of(v@) == texts_of(candidates@),
{
    let mut v: Vec<&'a str> = Vec::new();
    let mut i: usize = 0;
    while i < candidates.len()
        invariant
            i <= candidates@.len(),
            v@.len() == i,
            forall|j: int| 0 <= j < i ==> (#[trigger] v@[j])@ == candidates@[j].text(),
        decreases candidates@.len() - i,
    {
        v.push(candidates[i].as_text());
        i += 1;
    }
    proof {
        assert(texts_of(v@) =~= texts_of(candidates@));
    }
    v
}

/// Searches the candidates for the term: with an empty term every candidate is
/// found with nothing matched; otherwise every word of the term becomes an
/// expression (see `word_pattern`) and the candidates that all of them match are
/// found, in order, with the characters that their groups cover. Refused terms,
/// and expressions that do not compile, give `Err`.
pub fn search<'a, I: Candidate>(search_term: &str, candidates: &'a [I]) -> (res: Result<
    Vec<SearchRes<&'a str>>,
    (),
>)
    ensures
        search_term@.len() == 0 ==> (res matches Ok(v) && v@.len() == candidates@.len() && forall|
            j: int,
        |
            0 <= j < v@.len() ==> {
                &&& (#[trigger] v@[j]).index_of() == j
                &&& v@[j].positions() == Seq::<usize>::empty()
                &&& v@[j].candidate()@ == candidates@[j].text()
            }),
        res matches Ok(v) ==> forall|j: int| 0 <= j < v@.len() ==> positions_within(#[trigger] v@[j]),
        search_term@.len() > 0 ==> (res is Ok <==> !term_rejected(search_term@) && forall|j: int|
            0 <= j < words(search_term@).len() ==> regex_compiles(
                #[trigger] word_patterns(search_term@)[j],
            )),
        search_term@.len() > 0 ==> (res matches Ok(v) ==> {
            let h = hits(
                word_patterns(search_term@),
                texts_of(candidates@),
                candidates@.len() as int,
            );
            &&& v@.len() == h.len()
            &&& forall|j: int|
                0 <= j < v@.len() ==> {
                    &&& (#[trigger] v@[j]).index_of() == h[j].0
                    &&& v@[j].positions() == h[j].1
                    &&& v@[j].candidate()@ == candidates@[h[j].0].text()
                }
        }),
{
    let strs = borrow_all(candidates);
    let ghost sv = strs@;
    if search_term.unicode_len() == 0 {
        let v = search_empty(strs);
        proof {
            assert forall|j: int| 0 <= j < v@.len() implies (#[trigger] v@[j]).candidate()@
                == candidates@[j].text() by {
                assert(describes(v@[j], (j, Seq::<usize>::empty()), sv));
                assert(texts_of(sv)[j] == texts_of(candidates@)[j]);
            }
        }
        Ok(v)
    } else {
        let regs = compile_search_term_to_regexes(search_term)?;
        proof {
            assert(pattern_views(regs@) =~= word_patterns(search_term@));
        }
        let v = search_with_regex(regs.as_slice(), strs);
        proof {
            let h = hits(word_patterns(search_term@), texts_of(sv), sv.len() as int);
            assert forall|j: int| 0 <= j < v@.len() implies (#[trigger] v@[j]).candidate()@
                == candidates@[h[j].0].text() by {
                assert(describes(v@[j], h[j], sv));
                lemma_hits_index_bound(word_patterns(search_term@), texts_of(sv), sv.len() as int, j);
                assert(texts_of(sv)[h[j].0] == texts_of(candidates@)[h[j].0]);
            }
        }
        Ok(v)
    }
}

/// The index of every hit is one of the candidates searched.
pub proof fn lemma_hits_index_bound(pats: Seq<Seq<char>>, texts: Seq<Seq<char>>, n: int, j: int)
    requires
        0 <= j < hits(pats, texts, n).len(),
    ensures
        0 <= hits(pats, texts, n)[j].0 < n,
    decreases n,
{
    if n > 0 {
        let prev = hits(pats, texts, n - 1);
        if j < prev.len() {
            lemma_hits_index_bound(pats, texts, n - 1, j);
        }
    }
}

/// The hits come in the order of the candidates, each candidate at most once.
pub proof fn lemma_hits_increasing(pats: Seq<Seq<char>>, texts: Seq<Seq<char>>, n: int, i: int, j: int)
    requires
        0 <= i < j < hits(pats, texts, n).len(),
    ensures
        hits(pats, texts, n)[i].0 < hits(pats, texts, n)[j].0,
    decreases n,
{
    if n > 0 {
        let prev = hits(pats, texts, n - 1);
        if j < prev.len() {
            lemma_hits_increasing(pats, texts, n - 1, i, j);
        } else {
            lemma_hits_index_bound(pats, texts, n - 1, i);
        }
    }
}

} // verus!
