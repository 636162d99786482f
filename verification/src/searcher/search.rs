//! Searching a list of candidates with the compiled expressions of a term.
use vstd::prelude::*;
use crate::order::Ranked;
use crate::fuzzy::matcher::{strictly_increasing, spread_of};
use crate::searcher::compile::{
    CompileError, compile_search_term_to_regexes, swiper_rejects, swiper_pattern, swiper_trimmed,
};
use crate::searcher::matches::{Match, sorted};
use crate::searcher::pattern::{Pattern, pattern_captures, regex_captures, regex_compiles};
use crate::text::{chars_of, byte_offset, utf8_len, len_utf8};

verus! {

/// A candidate that can be searched: something that reads as a string.
pub trait Candidate {
    /// The characters of the candidate.
    spec fn text(&self) -> Seq<char>;

    /// The candidate as a string.
    fn as_text(&self) -> (r: &str)
        ensures
            r@ == self.text(),
    ;
}

impl Candidate for String {
    open spec fn text(&self) -> Seq<char> {
        self@
    }

    fn as_text(&self) -> (r: &str) {
        self.as_str()
    }
}

impl<'a> Candidate for &'a str {
    open spec fn text(&self) -> Seq<char> {
        (*self)@
    }

    fn as_text(&self) -> (r: &str) {
        *self
    }
}

/// The byte ranges of the groups of a match that took part in it, leaving out
/// group 0 (the whole match).
pub open spec fn group_ranges(caps: Seq<Option<(usize, usize)>>) -> Seq<(usize, usize)>
    decreases caps.len(),
{
    if caps.len() <= 1 {
        Seq::empty()
    } else {
        group_ranges(caps.drop_last()) + match caps.last() {
            Some(r) => seq![r],
            None => Seq::empty(),
        }
    }
}

/// The byte ranges of the groups of every expression, when every expression
/// matches `text`; `None` when one does not.
pub open spec fn regex_ranges(pats: Seq<Seq<char>>, text: Seq<char>) -> Option<Seq<(usize, usize)>>
    decreases pats.len(),
{
    if pats.len() == 0 {
        Some(Seq::empty())
    } else {
        match (regex_ranges(pats.drop_last(), text), regex_captures(pats.last(), text)) {
            (Some(prev), Some(caps)) => Some(prev + group_ranges(caps)),
            _ => None,
        }
    }
}

/// Byte `b` lies in one of the ranges.
pub open spec fn in_ranges(ranges: Seq<(usize, usize)>, b: int) -> bool {
    exists|k: int| 0 <= k < ranges.len() && (#[trigger] ranges[k]).0 <= b < ranges[k].1
}

/// The positions, below `n`, of the characters of `text` whose first byte lies in
/// one of the ranges, in increasing order.
pub open spec fn char_positions(text: Seq<char>, ranges: Seq<(usize, usize)>, n: int) -> Seq<usize>
    decreases n,
{
    if n <= 0 {
        Seq::empty()
    } else {
        char_positions(text, ranges, n - 1) + if in_ranges(ranges, byte_offset(text, n - 1) as int) {
            seq![(n - 1) as usize]
        } else {
            Seq::empty()
        }
    }
}

/// The candidates, among the first `n`, that every expression matches: their
/// index and the positions of their matched characters, in order.
pub open spec fn hits(pats: Seq<Seq<char>>, texts: Seq<Seq<char>>, n: int) -> Seq<(int, Seq<usize>)>
    decreases n,
{
    if n <= 0 {
        Seq::empty()
    } else {
        hits(pats, texts, n - 1) + match regex_ranges(pats, texts[n - 1]) {
            Some(r) => seq![(n - 1, char_positions(texts[n - 1], r, texts[n - 1].len() as int))],
            None => Seq::empty(),
        }
    }
}

/// The texts of the candidates.
pub open spec fn texts_of<T: Candidate>(cands: Seq<T>) -> Seq<Seq<char>> {
    cands.map_values(|c: T| c.text())
}

/// The views of compiled expressions.
pub open spec fn pattern_views(pats: Seq<Pattern>) -> Seq<Seq<char>> {
    pats.map_values(|p: Pattern| p@)
}

/// The positions built from ranges are strictly increasing and below `n`.
pub proof fn lemma_char_positions_increasing(text: Seq<char>, ranges: Seq<(usize, usize)>, n: int)
    requires
        n <= usize::MAX,
    ensures
        strictly_increasing(char_positions(text, ranges, n)),
        forall|j: int|
            0 <= j < char_positions(text, ranges, n).len() ==> #[trigger] char_positions(
                text,
                ranges,
                n,
            )[j] < n,
    decreases n,
{
    if n > 0 {
        lemma_char_positions_increasing(text, ranges, n - 1);
    }
}

/// Byte offsets grow with the position.
pub proof fn lemma_byte_offset_monotone(s: Seq<char>, i: int, j: int)
    requires
        0 <= i <= j,
    ensures
        byte_offset(s, i) <= byte_offset(s, j),
    decreases j - i,
{
    if i < j {
        lemma_byte_offset_monotone(s, i, j - 1);
    }
}

/// A candidate found by a search: its index among the candidates, the candidate
/// and the positions of its matched characters.
#[derive(Debug)]
pub struct SearchRes<T> {
    mat: Match,
    index: usize,
    inner: T,
}

impl<T> SearchRes<T> {
    #[verifier::type_invariant]
    closed spec fn inv(&self) -> bool {
        strictly_increasing(self.mat@)
    }

    /// The matched positions.
    pub closed spec fn positions(&self) -> Seq<usize> {
        self.mat@
    }

    /// The index of the candidate among the candidates searched.
    pub closed spec fn index_of(&self) -> int {
        self.index as int
    }

    /// The candidate.
    pub closed spec fn candidate(&self) -> T {
        self.inner
    }

    /// The candidate.
    pub fn get_inner(&self) -> (r: &T)
        ensures
            *r == self.candidate(),
    {
        &self.inner
    }

    /// The index of the candidate among the candidates searched.
    pub fn get_index(&self) -> (r: usize)
        ensures
            r == self.index_of(),
    {
        self.index
    }

    /// The matched positions.
    pub fn get_match(&self) -> (r: &Match)
        ensures
            r@ == self.positions(),
            strictly_increasing(r@),
    {
        proof {
            use_type_invariant(self);
        }
        &self.mat
    }
}

/// The positions of the characters of `string` whose first byte lies in one of
/// the ranges.
fn positions_in_ranges(ranges: &[(usize, usize)], string: &str) -> (v: Vec<usize>)
    ensures
        v@ == char_positions(string@, ranges@, string@.len() as int),
        string@.len() <= usize::MAX,
{
    let chars = chars_of(string);
    let len = chars.len();
    let mut v: Vec<usize> = Vec::new();
    let mut offset: usize = 0;
    let mut i: usize = 0;
    while i < chars.len()
        invariant
            chars@ == string@,
            len == chars@.len(),
            i <= chars@.len(),
            offset == byte_offset(string@, i as int),
            v@ == char_positions(string@, ranges@, i as int),
        decreases chars@.len() - i,
    {
        let mut found = false;
        let mut k: usize = 0;
        while k < ranges.len()
            invariant
                k <= ranges@.len(),
                found <==> exists|q: int|
                    0 <= q < k && (#[trigger] ranges@[q]).0 <= offset < ranges@[q].1,
            decreases ranges@.len() - k,
        {
            if ranges[k].0 <= offset && offset < ranges[k].1 {
                found = true;
            }
            k += 1;
        }
        if found {
            v.push(i);
        }
        let w = len_utf8(chars[i]);
        match offset.checked_add(w) {
            Some(next) => {
                offset = next;
                i += 1;
            },
            None => {
                proof {
                    assert(v@ == char_positions(string@, ranges@, i + 1));
                    lemma_no_position_after(string@, ranges@, i + 1, string@.len() as int);
                }
                return v;
            },
        }
    }
    v
}

/// Once the byte offset passes `usize::MAX`, no later character starts in a range.
proof fn lemma_no_position_after(s: Seq<char>, ranges: Seq<(usize, usize)>, m: int, j: int)
    requires
        0 < m <= j <= s.len(),
        byte_offset(s, m) > usize::MAX,
    ensures
        char_positions(s, ranges, j) == char_positions(s, ranges, m),
    decreases j - m,
{
    if j > m {
        lemma_no_position_after(s, ranges, m, j - 1);
        lemma_byte_offset_monotone(s, m, j - 1);
        if in_ranges(ranges, byte_offset(s, j - 1) as int) {
            let k = choose|k: int| 0 <= k < ranges.len() && (#[trigger] ranges[k]).0 <= byte_offset(s, j - 1) < ranges[k].1;
            assert(ranges[k].1 <= usize::MAX);
        }
    }
}

impl<'a> SearchRes<&'a str> {
    /// The candidate string.
    pub fn get_string(&self) -> (r: &'a str)
        ensures
            r == self.candidate(),
    {
        self.inner
    }
}

impl<T> SearchRes<T> {
    /// The result for candidate `index`: the characters of `string` whose first
    /// byte lies in one of the ranges are matched.
    pub fn from_bytes(ranges: &[(usize, usize)], index: usize, string: T) -> (r: Self)
        where T: Candidate
        ensures
            r.positions() == char_positions(string.text(), ranges@, string.text().len() as int),
            r.index_of() == index,
            r.candidate() == string,
            positions_within(r),
    {
        let v = positions_in_ranges(ranges, string.as_text());
        proof {
            lemma_char_positions_increasing(string.text(), ranges@, string.text().len() as int);
            assert(sorted(v@));
        }
        SearchRes { index, inner: string, mat: Match::from_vec(v) }
    }

    /// The result for candidate `index` with nothing matched.
    pub fn empty(index: usize, string: T) -> (r: Self)
        ensures
            r.positions() == Seq::<usize>::empty(),
            r.index_of() == index,
            r.candidate() == string,
    {
        SearchRes { index, inner: string, mat: Match::empty() }
    }
}

} // verus!

verus! {

/// The byte ranges of the groups of every expression when all of them match
/// `string`, `None` as soon as one does not match.
fn run_regexes_get_bytes(regs: &[Pattern], string: &str) -> (r: Option<Vec<(usize, usize)>>)
    requires
        regs@.len() > 0,
    ensures
        match r {
            Some(v) => regex_ranges(pattern_views(regs@), string@) == Some(v@),
            None => regex_ranges(pattern_views(regs@), string@) is None,
        },
{
    let ghost pv = pattern_views(regs@);
    let mut ranges: Vec<(usize, usize)> = Vec::new();
    let mut k: usize = 0;
    while k < regs.len()
        invariant
            k <= regs@.len(),
            pv == pattern_views(regs@),
            regex_ranges(pv.take(k as int), string@) == Some(ranges@),
        decreases regs@.len() - k,
    {
        proof {
            assert(pv.take(k + 1).drop_last() =~= pv.take(k as int));
            assert(pv.take(k + 1).last() == regs@[k as int]@);
        }
        match pattern_captures(&regs[k], string) {
            None => {
                proof {
                    lemma_regex_ranges_none_extends(pv, string@, k + 1);
                }
                return None;
            },
            Some(caps) => {
                let ghost before = ranges@;
                let mut j: usize = 0;
                proof {
                    assert(ranges@ =~= before + group_ranges(caps@.take(0)));
                }
                while j < caps.len()
                    invariant
                        j <= caps@.len(),
                        ranges@ == before + group_ranges(caps@.take(j as int)),
                    decreases caps@.len() - j,
                {
                    proof {
                        assert(caps@.take(j + 1).drop_last() =~= caps@.take(j as int));
                    }
                    if j >= 1 {
                        match caps[j] {
                            Some(r) => {
                                ranges.push(r);
                            },
                            None => {},
                        }
                    }
                    proof {
                        assert(ranges@ =~= before + group_ranges(caps@.take(j + 1)));
                    }
                    j += 1;
                }
                proof {
                    assert(caps@.take(j as int) =~= caps@);
                }
            },
        }
        k += 1;
    }
    proof {
        assert(pv.take(k as int) =~= pv);
    }
    Some(ranges)
}

/// Once one expression fails, every longer list of expressions fails.
proof fn lemma_regex_ranges_none_extends(pats: Seq<Seq<char>>, text: Seq<char>, n: int)
    requires
        0 < n <= pats.len(),
        regex_ranges(pats.take(n), text) is None,
    ensures
        regex_ranges(pats, text) is None,
    decreases pats.len() - n,
{
    if n < pats.len() {
        assert(pats.take(n + 1).drop_last() =~= pats.take(n));
        lemma_regex_ranges_none_extends(pats, text, n + 1);
    } else {
        assert(pats.take(n) =~= pats);
    }
}

} // verus!

verus! {

/// Every matched position of `r` is a character position of its candidate.
pub open spec fn positions_within<T: Candidate>(r: SearchRes<T>) -> bool {
    forall|m: int| 0 <= m < r.positions().len() ==> #[trigger] r.positions()[m] < r.candidate().text().len()
}

/// The result `r` describes hit `h` of a search over `cands`.
pub open spec fn describes<T>(r: SearchRes<T>, h: (int, Seq<usize>), cands: Seq<T>) -> bool {
    &&& r.index_of() == h.0
    &&& r.positions() == h.1
    &&& r.candidate() == cands[h.0]
}

/// Every candidate that all the expressions match, in order, with the characters
/// that their groups cover.
pub(crate) fn search_with_regex<T: Candidate>(regs: &[Pattern], candidates: Vec<T>) -> (res: Vec<SearchRes<T>>)
    requires
        regs@.len() > 0,
    ensures
        res@.len() == hits(pattern_views(regs@), texts_of(candidates@), candidates@.len() as int).len(),
        forall|j: int|
            0 <= j < res@.len() ==> describes(
                #[trigger] res@[j],
                hits(pattern_views(regs@), texts_of(candidates@), candidates@.len() as int)[j],
                candidates@,
            ),
        forall|j: int| 0 <= j < res@.len() ==> positions_within(#[trigger] res@[j]),
{
    let ghost cands = candidates@;
    let ghost pv = pattern_views(regs@);
    let ghost texts = texts_of(cands);
    let mut res: Vec<SearchRes<T>> = Vec::new();
    let n = candidates.len();
    let mut rest = candidates;
    let mut i: usize = 0;
    while rest.len() > 0
        invariant
            n == cands.len(),
            i <= cands.len(),
            rest@ == cands.skip(i as int),
            texts == texts_of(cands),
            pv == pattern_views(regs@),
            regs@.len() > 0,
            res@.len() == hits(pv, texts, i as int).len(),
            forall|j: int|
                0 <= j < res@.len() ==> describes(#[trigger] res@[j], hits(pv, texts, i as int)[j], cands),
            forall|j: int| 0 <= j < res@.len() ==> positions_within(#[trigger] res@[j]),
        decreases rest@.len(),
    {
        let cand = rest.remove(0);
        proof {
            assert(cand == cands[i as int]);
            assert(rest@ =~= cands.skip(i + 1));
        }
        let ghost before = res@;
        match run_regexes_get_bytes(regs, cand.as_text()) {
            Some(ranges) => {
                let r = SearchRes::from_bytes(ranges.as_slice(), i, cand);
                res.push(r);
            },
            None => {},
        }
        proof {
            assert(texts[i as int] == cand.text());
            assert forall|j: int| 0 <= j < res@.len() implies describes(
                #[trigger] res@[j],
                hits(pv, texts, i + 1)[j],
                cands,
            ) by {
                if j < before.len() {
                    assert(res@[j] == before[j]);
                }
            }
            assert forall|j: int| 0 <= j < res@.len() implies positions_within(#[trigger] res@[j]) by {
                if j < before.len() {
                    assert(res@[j] == before[j]);
                }
            }
        }
        i += 1;
    }
    res
}

/// Every candidate, in order, with nothing matched.
pub(crate) fn search_empty<T>(candidates: Vec<T>) -> (res: Vec<SearchRes<T>>)
    ensures
        res@.len() == candidates@.len(),
        forall|j: int|
            0 <= j < res@.len() ==> describes(
                #[trigger] res@[j],
                (j, Seq::<usize>::empty()),
                candidates@,
            ),
{
    let ghost cands = candidates@;
    let mut res: Vec<SearchRes<T>> = Vec::new();
    let n = candidates.len();
    let mut rest = candidates;
    let mut i: usize = 0;
    while rest.len() > 0
        invariant
            n == cands.len(),
            i <= cands.len(),
            rest@ == cands.skip(i as int),
            res@.len() == i,
            forall|j: int|
                0 <= j < res@.len() ==> describes(#[trigger] res@[j], (j, Seq::<usize>::empty()), cands),
        decreases rest@.len(),
    {
        let cand = rest.remove(0);
        proof {
            assert(cand == cands[i as int]);
            assert(rest@ =~= cands.skip(i + 1));
        }
        res.push(SearchRes::empty(i, cand));
        i += 1;
    }
    res
}

/// Searches the candidates for the term: with an empty term every candidate is
/// found with nothing matched; otherwise the term is compiled (swiper style) and
/// the candidates that its expression matches are found, in order, with the
/// characters that its groups cover.
pub fn search<T: Candidate>(search_term: &str, candidates: Vec<T>) -> (res: Result<
    Vec<SearchRes<T>>,
    CompileError,
>)
    ensures
        search_term@.len() == 0 ==> (res matches Ok(v) && v@.len() == candidates@.len() && forall|
            j: int,
        |
            0 <= j < v@.len() ==> describes(
                #[trigger] v@[j],
                (j, Seq::<usize>::empty()),
                candidates@,
            )),
        res matches Ok(v) ==> forall|j: int| 0 <= j < v@.len() ==> positions_within(#[trigger] v@[j]),
        search_term@.len() > 0 ==> (res is Ok <==> !swiper_rejects(search_term@) && regex_compiles(
            swiper_pattern(swiper_trimmed(search_term@)),
        )),
        search_term@.len() > 0 ==> (res matches Ok(v) ==> {
            let h = hits(
                seq![swiper_pattern(swiper_trimmed(search_term@))],
                texts_of(candidates@),
                candidates@.len() as int,
            );
            &&& v@.len() == h.len()
            &&& forall|j: int| 0 <= j < v@.len() ==> describes(#[trigger] v@[j], h[j], candidates@)
        }),
{
    if search_term.unicode_len() == 0 {
        Ok(search_empty(candidates))
    } else {
        let regs = compile_search_term_to_regexes(search_term)?;
        proof {
            assert(pattern_views(regs@) =~= seq![swiper_pattern(swiper_trimmed(search_term@))]);
        }
        Ok(search_with_regex(regs.as_slice(), candidates))
    }
}

} // verus!

verus! {

/// The first of the positions, if any.
pub open spec fn first_of(s: Seq<usize>) -> Option<usize> {
    if s.len() == 0 {
        None
    } else {
        Some(s[0])
    }
}

/// `a` comes before `b`, where no position comes before any position.
pub open spec fn first_lt(a: Option<usize>, b: Option<usize>) -> bool {
    match (a, b) {
        (None, Some(_)) => true,
        (Some(x), Some(y)) => x < y,
        _ => false,
    }
}

/// Results are ranked by spread (smaller first), then by first matched position
/// (none first, then earlier first), then by index.
pub open spec fn result_rank_le(
    spread_a: int,
    first_a: Option<usize>,
    index_a: int,
    spread_b: int,
    first_b: Option<usize>,
    index_b: int,
) -> bool {
    spread_a < spread_b || (spread_a == spread_b && (first_lt(first_a, first_b) || (first_a
        == first_b && index_a <= index_b)))
}

/// Whether `a` comes before `b` (see `first_lt`).
fn first_before(a: Option<usize>, b: Option<usize>) -> (r: bool)
    ensures
        r == first_lt(a, b),
{
    match (a, b) {
        (None, Some(_)) => true,
        (Some(x), Some(y)) => x < y,
        _ => false,
    }
}

impl<T> crate::order::Ranked for SearchRes<T> {
    open spec fn rank_le(&self, other: &Self) -> bool {
        result_rank_le(
            spread_of(self.positions()),
            first_of(self.positions()),
            self.index_of(),
            spread_of(other.positions()),
            first_of(other.positions()),
            other.index_of(),
        )
    }

    proof fn lemma_rank_total(a: &Self, b: &Self) {
    }

    proof fn lemma_rank_transitive(a: &Self, b: &Self, c: &Self) {
    }

    fn ranks_le(&self, other: &Self) -> (r: bool) {
        proof {
            use_type_invariant(self);
            use_type_invariant(other);
        }
        let sa = self.mat.spread();
        let sb = other.mat.spread();
        if sa != sb {
            return sa < sb;
        }
        let fa = self.mat.first();
        let fb = other.mat.first();
        if first_before(fa, fb) {
            return true;
        }
        if fa != fb {
            return false;
        }
        self.index <= other.index
    }
}

/// Results are ranked best first by the spread of their matched positions (a
/// smaller spread ranks strictly before a larger one); on equal spread, a result
/// with no matched position ranks before one with some, and otherwise the one
/// whose first matched position comes earlier ranks strictly first; on equal
/// spread and first position, the one with the smaller index ranks first.
pub proof fn lemma_result_ranking<T>(a: &SearchRes<T>, b: &SearchRes<T>)
    ensures
        spread_of(a.positions()) < spread_of(b.positions()) ==> a.rank_le(b) && !b.rank_le(a),
        spread_of(a.positions()) == spread_of(b.positions()) && a.positions().len() == 0 && b.positions().len()
            > 0 ==> a.rank_le(b) && !b.rank_le(a),
        spread_of(a.positions()) == spread_of(b.positions()) && a.positions().len() > 0 && b.positions().len()
            > 0 && a.positions()[0] < b.positions()[0] ==> a.rank_le(b) && !b.rank_le(a),
        spread_of(a.positions()) == spread_of(b.positions()) && a.positions().len() == 0
            && b.positions().len() == 0 ==> (a.rank_le(b) <==> a.index_of() <= b.index_of()),
        spread_of(a.positions()) == spread_of(b.positions()) && a.positions().len() > 0 && b.positions().len()
            > 0 && a.positions()[0] == b.positions()[0] ==> (a.rank_le(b) <==> a.index_of()
            <= b.index_of()),
{
}

} // verus!
