//! Compiling a search term into regular expressions.
use vstd::prelude::*;
use crate::searcher::pattern::{Pattern, pattern_new, escape, escape_into, escaped, regex_compiles};
use crate::text::{
    chars_of, string_from_chars, char_is_uppercase, is_uppercase_char, usize_to_string, decimal,
    split_runs, segments, separator, views_of, concat_all, lemma_segments_nonempty,
    is_whitespace_char, Split,
};

verus! {

/// The search term could not be compiled into a regular expression.
#[derive(Debug, PartialEq, Eq, Structural)]
pub struct CompileError;

/// Whether some character of `s` is upper case.
pub open spec fn has_uppercase(s: Seq<char>) -> bool {
    exists|i: int| 0 <= i < s.len() && is_uppercase_char(#[trigger] s[i])
}

/// The case flag for `s`: case sensitive when it holds an upper-case character,
/// insensitive otherwise.
pub open spec fn case_flag(s: Seq<char>) -> Seq<char> {
    if has_uppercase(s) {
        "(?-i)"@
    } else {
        "(?i)"@
    }
}

/// The regular expression for a run of characters of a swiper term: a single space
/// matches anything, `n` spaces match exactly `n - 1` spaces, a word matches
/// itself literally as a capture group.
pub open spec fn swiper_piece(run: Seq<char>) -> Seq<char> {
    if run.len() > 0 && run[0] == ' ' {
        if run.len() == 1 {
            ".*?"@
        } else {
            " {"@ + decimal((run.len() - 1) as nat) + "}"@
        }
    } else {
        "("@ + escaped(run) + ")"@
    }
}

/// Terms that are refused: empty, a single space, or a space followed by a
/// non-space at the start.
pub open spec fn swiper_rejects(t: Seq<char>) -> bool {
    t.len() == 0 || (t.len() == 1 && t[0] == ' ') || (t.len() >= 2 && t[0] == ' ' && t[1] != ' ')
}

/// The term without a single trailing space that follows a non-space.
pub open spec fn swiper_trimmed(t: Seq<char>) -> Seq<char> {
    if t.len() >= 2 && t.last() == ' ' && t[t.len() - 2] != ' ' {
        t.drop_last()
    } else {
        t
    }
}

/// The regular expression of a (trimmed) swiper term: the case flag followed by
/// the expressions of its maximal runs of spaces and non-spaces.
pub open spec fn swiper_pattern(t: Seq<char>) -> Seq<char> {
    case_flag(t) + concat_all(segments(t, separator(Split::Spaces)).map_values(|run: Seq<char>| swiper_piece(run)))
}

/// A literal word: anything, the escaped word as a group, anything.
pub open spec fn literal_pattern(w: Seq<char>) -> Seq<char> {
    case_flag(w) + ".*?"@ + "("@ + escaped(w) + ")"@ + ".*?"@
}

/// A fuzzy word: every character as its own group, with anything in between.
pub open spec fn fuzzy_pattern(w: Seq<char>) -> Seq<char> {
    case_flag(w) + ".*?"@ + concat_all(
        w.map_values(|c: char| "("@ + escaped(seq![c]) + ")"@ + ".*?"@),
    )
}

/// The expression of a word of an fzf term: a word starting with a quote is
/// matched literally (without the quote), others fuzzily.
pub open spec fn word_pattern(w: Seq<char>) -> Seq<char> {
    if w.len() > 0 && w[0] == '\'' {
        literal_pattern(w.drop_first())
    } else {
        fuzzy_pattern(w)
    }
}

/// A word that is a lone quote is refused.
pub open spec fn word_rejected(w: Seq<char>) -> bool {
    w.len() == 1 && w[0] == '\''
}

/// Some white-space separated word of `t` is a lone quote.
pub open spec fn some_word_rejected(t: Seq<char>) -> bool {
    exists|j: int|
        0 <= j < segments(t, separator(Split::WhiteSpace)).len() && !is_whitespace_char(
            segments(t, separator(Split::WhiteSpace))[j][0],
        ) && word_rejected(#[trigger] segments(t, separator(Split::WhiteSpace))[j])
}

/// The white-space separated words of `t`.
pub open spec fn words(t: Seq<char>) -> Seq<Seq<char>> {
    segments(t, separator(Split::WhiteSpace)).filter(|run: Seq<char>| !is_whitespace_char(run[0]))
}

fn lit(s: &str) -> (r: String)
    ensures
        r@ == s@,
{
    String::from_str(s)
}

/// The case flag of a non-empty word.
pub fn smart_case(word: &str) -> (r: &'static str)
    requires
        word@.len() > 0,
    ensures
        r@ == case_flag(word@),
{
    let chars = chars_of(word);
    let mut i: usize = 0;
    while i < chars.len()
        invariant
            chars@ == word@,
            i <= chars@.len(),
            forall|j: int| 0 <= j < i ==> !is_uppercase_char(#[trigger] chars@[j]),
        decreases chars@.len() - i,
    {
        if char_is_uppercase(chars[i]) {
            return "(?-i)";
        }
        i += 1;
    }
    "(?i)"
}

/// The expression for a non-empty run of spaces.
pub fn swiper_space(spaces: &str) -> (r: String)
    requires
        spaces@.len() > 0,
        spaces@[0] == ' ',
    ensures
        r@ == swiper_piece(spaces@),
{
    let chars = chars_of(spaces);
    let n = chars.len();
    if n == 1 {
        lit(".*?")
    } else {
        let mut r = lit(" {");
        let num = usize_to_string(n - 1);
        r.append(num.as_str());
        r.append("}");
        r
    }
}

/// The expression for a non-empty word: the escaped word as a group.
pub fn swiper_word(word: &str) -> (r: String)
    requires
        word@.len() > 0,
    ensures
        r@ == "("@ + escaped(word@) + ")"@,
{
    let mut r = lit("(");
    let e = escape(word);
    r.append(e.as_str());
    r.append(")");
    r
}

/// Compiles a term in the style of swiper: runs of spaces are wildcards (one space)
/// or exact space counts (several), words are matched literally.
pub fn compile_swiper(search_term: &str) -> (res: Result<Vec<String>, CompileError>)
    ensures
        swiper_rejects(search_term@) ==> res is Err,
        !swiper_rejects(search_term@) ==> (res matches Ok(v) && v@.len() == 1 && v@[0]@
            == swiper_pattern(swiper_trimmed(search_term@))),
{
    let chars = chars_of(search_term);
    let n = chars.len();
    if n == 0 || (n == 1 && chars[0] == ' ') || (n >= 2 && chars[0] == ' ' && chars[1] != ' ') {
        return Err(CompileError);
    }
    let term: &str = if n >= 2 && chars[n - 1] == ' ' && chars[n - 2] != ' ' {
        search_term.substring_char(0, n - 1)
    } else {
        search_term
    };
    let ghost t = term@;
    proof {
        assert(t =~= swiper_trimmed(search_term@));
    }
    let tchars = chars_of(term);
    let runs = split_runs(tchars.as_slice(), Split::Spaces);
    let ghost segs = segments(t, separator(Split::Spaces));
    proof {
        lemma_segments_nonempty(t, separator(Split::Spaces));
    }
    let mut r = lit(smart_case(term));
    let ghost pieces = segs.map_values(|run: Seq<char>| swiper_piece(run));
    let mut i: usize = 0;
    while i < runs.len()
        invariant
            views_of(runs@) == segs,
            segs == segments(t, separator(Split::Spaces)),
            pieces == segs.map_values(|run: Seq<char>| swiper_piece(run)),
            forall|j: int| 0 <= j < segs.len() ==> (#[trigger] segs[j]).len() > 0,
            i <= runs@.len(),
            r@ == case_flag(t) + concat_all(pieces.take(i as int)),
        decreases runs@.len() - i,
    {
        let run = string_from_chars(runs[i].as_slice());
        proof {
            assert(run@ == segs[i as int]);
        }
        let piece = if runs[i][0] == ' ' {
            swiper_space(run.as_str())
        } else {
            swiper_word(run.as_str())
        };
        r.append(piece.as_str());
        proof {
            assert(pieces.take(i + 1).drop_last() =~= pieces.take(i as int));
            assert(pieces.take(i + 1).last() == pieces[i as int]);
            assert(case_flag(t) + concat_all(pieces.take(i + 1)) =~= case_flag(t) + concat_all(
                pieces.take(i as int),
            ) + piece@);
        }
        i += 1;
    }
    proof {
        assert(pieces.take(i as int) =~= pieces);
    }
    let mut v: Vec<String> = Vec::new();
    v.push(r);
    Ok(v)
}

/// A literal word: anything, the escaped word as a group, anything.
pub fn literal_word(word: &str) -> (r: String)
    requires
        word@.len() > 0,
    ensures
        r@ == literal_pattern(word@),
{
    let mut r = lit(smart_case(word));
    r.append(".*?");
    r.append("(");
    let e = escape(word);
    r.append(e.as_str());
    r.append(")");
    r.append(".*?");
    r
}

/// A fuzzy word: every character as its own group, with anything in between.
pub fn fuzzy_word(word: &str) -> (r: String)
    requires
        word@.len() > 0,
    ensures
        r@ == fuzzy_pattern(word@),
{
    let mut fuzz = lit(smart_case(word));
    fuzz.append(".*?");
    let chars = chars_of(word);
    let ghost w = word@;
    let ghost pieces = w.map_values(|c: char| "("@ + escaped(seq![c]) + ")"@ + ".*?"@);
    let ghost head = case_flag(w) + ".*?"@;
    let mut i: usize = 0;
    while i < chars.len()
        invariant
            chars@ == w,
            i <= chars@.len(),
            pieces == w.map_values(|c: char| "("@ + escaped(seq![c]) + ")"@ + ".*?"@),
            fuzz@ == head + concat_all(pieces.take(i as int)),
        decreases chars@.len() - i,
    {
        let mut one: Vec<char> = Vec::new();
        one.push(chars[i]);
        let s = string_from_chars(one.as_slice());
        proof {
            assert(one@ =~= seq![w[i as int]]);
        }
        let ghost before = fuzz@;
        fuzz.append("(");
        escape_into(s.as_str(), &mut fuzz);
        fuzz.append(")");
        fuzz.append(".*?");
        proof {
            assert(pieces.take(i + 1).drop_last() =~= pieces.take(i as int));
            assert(pieces.take(i + 1).last() == pieces[i as int]);
            assert(fuzz@ =~= before + pieces[i as int]);
        }
        i += 1;
    }
    proof {
        assert(pieces.take(i as int) =~= pieces);
    }
    fuzz
}

/// Compiles one non-empty word of an fzf term; a lone quote is refused.
pub fn compile_word(word: &str) -> (res: Result<String, CompileError>)
    requires
        word@.len() > 0,
    ensures
        word_rejected(word@) ==> res is Err,
        !word_rejected(word@) ==> (res matches Ok(s) && s@ == word_pattern(word@)),
{
    let chars = chars_of(word);
    if chars[0] == '\'' {
        let n = chars.len();
        if n == 1 {
            return Err(CompileError);
        }
        let w = word.substring_char(1, n);
        proof {
            assert(w@ =~= word@.drop_first());
        }
        Ok(literal_word(w))
    } else {
        Ok(fuzzy_word(word))
    }
}

/// Compiles an fzf-style term: every white-space separated word becomes one
/// expression. Refused when there is no word or some word is a lone quote.
pub fn compile_fzf(search_term: &str) -> (res: Result<Vec<String>, CompileError>)
    ensures
        (words(search_term@).len() == 0 || some_word_rejected(search_term@)) ==> res is Err,
        !(words(search_term@).len() == 0 || some_word_rejected(search_term@)) ==> res is Ok,
        res matches Ok(v) ==> v@.len() == words(search_term@).len() && forall|j: int|
            0 <= j < v@.len() ==> (#[trigger] v@[j])@ == word_pattern(words(search_term@)[j]),
{
    let chars = chars_of(search_term);
    let runs = split_runs(chars.as_slice(), Split::WhiteSpace);
    let ghost segs = segments(search_term@, separator(Split::WhiteSpace));
    let ghost pred = |run: Seq<char>| !is_whitespace_char(run[0]);
    proof {
        lemma_segments_nonempty(search_term@, separator(Split::WhiteSpace));
    }
    let mut v: Vec<String> = Vec::new();
    let mut i: usize = 0;
    while i < runs.len()
        invariant
            views_of(runs@) == segs,
            segs == segments(search_term@, separator(Split::WhiteSpace)),
            pred == (|run: Seq<char>| !is_whitespace_char(run[0])),
            forall|j: int| 0 <= j < segs.len() ==> (#[trigger] segs[j]).len() > 0,
            i <= runs@.len(),
            v@.len() == segs.take(i as int).filter(pred).len(),
            forall|j: int|
                0 <= j < v@.len() ==> (#[trigger] v@[j])@ == word_pattern(
                    segs.take(i as int).filter(pred)[j],
                ),
            forall|j: int|
                0 <= j < i && !is_whitespace_char(segs[j][0]) ==> !word_rejected(#[trigger] segs[j]),
        decreases runs@.len() - i,
    {
        proof {
            assert(segs.take(i + 1).drop_last() =~= segs.take(i as int));
            reveal_with_fuel(Seq::<_>::filter, 1);
            assert(views_of(runs@)[i as int] == runs@[i as int]@);
        }
        if !crate::text::is_whitespace(runs[i][0]) {
            let word = string_from_chars(runs[i].as_slice());
            match compile_word(word.as_str()) {
                Ok(s) => {
                    v.push(s);
                },
                Err(e) => {
                    proof {
                        assert(word_rejected(segs[i as int]));
                        assert(some_word_rejected(search_term@));
                    }
                    return Err(e);
                },
            }
        }
        i += 1;
    }
    proof {
        assert(segs.take(i as int) =~= segs);
        assert(!some_word_rejected(search_term@));
    }
    if v.len() == 0 {
        return Err(CompileError);
    }
    Ok(v)
}

/// Compiles a search term (swiper style) into regular expressions. Refused terms,
/// and expressions that the regex engine does not accept, give `CompileError`.
pub fn compile_search_term_to_regexes(search_term: &str) -> (res: Result<Vec<Pattern>, CompileError>)
    ensures
        res is Ok <==> !swiper_rejects(search_term@) && regex_compiles(
            swiper_pattern(swiper_trimmed(search_term@)),
        ),
        res matches Ok(v) ==> v@.len() == 1 && v@[0]@ == swiper_pattern(swiper_trimmed(search_term@)),
{
    match compile_swiper(search_term) {
        Err(e) => Err(e),
        Ok(mut strs) => {
            let s = strs.pop().unwrap();
            match pattern_new(s) {
                Ok(p) => {
                    let mut v: Vec<Pattern> = Vec::new();
                    v.push(p);
                    Ok(v)
                },
                Err(_) => Err(CompileError),
            }
        },
    }
}

} // verus!
