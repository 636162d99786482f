//! Character and string helpers shared by the matchers.
use vstd::prelude::*;

verus! {

/// The code of `c` after ASCII lower-casing (non-ASCII-uppercase characters are
/// unchanged).
pub open spec fn ascii_lower_code(c: char) -> u32 {
    if 'A' <= c && c <= 'Z' {
        (c as u32 + 32) as u32
    } else {
        c as u32
    }
}

/// Equality of characters ignoring ASCII case, as `char::eq_ignore_ascii_case`.
pub open spec fn ci_eq(a: char, b: char) -> bool {
    ascii_lower_code(a) == ascii_lower_code(b)
}

/// Whether two characters are equal when ASCII case is ignored.
pub fn eq_ignore_ascii_case(a: char, b: char) -> (r: bool)
    ensures
        r == ci_eq(a, b),
{
    let la: u32 = if 'A' <= a && a <= 'Z' {
        a as u32 + 32
    } else {
        a as u32
    };
    let lb: u32 = if 'A' <= b && b <= 'Z' {
        b as u32 + 32
    } else {
        b as u32
    };
    la == lb
}

/// The characters of `s`, in order.
pub fn chars_of(s: &str) -> (v: Vec<char>)
    ensures
        v@ == s@,
{
    let mut v: Vec<char> = Vec::new();
    for c in it: s.chars()
        invariant
            v@ == it.seq().take(it.index() as int),
    {
        v.push(c);
    }
    v
}

/// `String::push`: appends one character to the string, as documented.
#[verifier::external_body]
pub(crate) fn push_char(s: &mut String, c: char)
    ensures
        final(s)@ == old(s)@.push(c),
{
    s.push(c);
}

/// A string holding exactly the given characters.
pub fn string_from_chars(v: &[char]) -> (s: String)
    ensures
        s@ == v@,
{
    let mut s = String::new();
    let mut i: usize = 0;
    while i < v.len()
        invariant
            i <= v@.len(),
            s@ == v@.take(i as int),
        decreases v@.len() - i,
    {
        push_char(&mut s, v[i]);
        i += 1;
        proof {
            assert(v@.take(i as int) =~= v@.take(i - 1).push(v@[i - 1]));
        }
    }
    proof {
        assert(v@.take(v@.len() as int) =~= v@);
    }
    s
}

/// Whether `c` has the Unicode `Uppercase` property, as `char::is_uppercase`
/// reports it.
pub uninterp spec fn is_uppercase_char(c: char) -> bool;

/// `char::is_uppercase`: whether `c` has the Unicode `Uppercase` property; among
/// ASCII characters, exactly `A` to `Z` have it.
#[verifier::external_body]
pub(crate) fn char_is_uppercase(c: char) -> (b: bool)
    ensures
        b == is_uppercase_char(c),
        (c as u32) < 128 ==> (b <==> ('A' <= c && c <= 'Z')),
{
    c.is_uppercase()
}

/// Whether `c` has the Unicode `Alphabetic` property, as `char::is_alphabetic`
/// reports it.
pub uninterp spec fn is_alphabetic_char(c: char) -> bool;

/// `char::is_alphabetic`: whether `c` has the Unicode `Alphabetic` property;
/// among ASCII characters, exactly the letters have it.
#[verifier::external_body]
pub(crate) fn char_is_alphabetic(c: char) -> (b: bool)
    ensures
        b == is_alphabetic_char(c),
        (c as u32) < 128 ==> (b <==> (('A' <= c && c <= 'Z') || ('a' <= c && c <= 'z'))),
{
    c.is_alphabetic()
}

/// The Unicode `White_Space` characters, as `char::is_whitespace` reports them.
pub open spec fn is_whitespace_char(c: char) -> bool {
    let u = c as u32;
    (0x9 <= u && u <= 0xd) || u == 0x20 || u == 0x85 || u == 0xa0 || u == 0x1680 || (0x2000 <= u
        && u <= 0x200a) || u == 0x2028 || u == 0x2029 || u == 0x202f || u == 0x205f || u == 0x3000
}

/// Whether `c` is a Unicode `White_Space` character.
pub fn is_whitespace(c: char) -> (b: bool)
    ensures
        b == is_whitespace_char(c),
{
    let u = c as u32;
    (0x9 <= u && u <= 0xd) || u == 0x20 || u == 0x85 || u == 0xa0 || u == 0x1680 || (0x2000 <= u
        && u <= 0x200a) || u == 0x2028 || u == 0x2029 || u == 0x202f || u == 0x205f || u == 0x3000
}

/// The number of bytes of `c` in UTF-8, as `char::len_utf8`.
pub open spec fn utf8_len(c: char) -> nat {
    let u = c as u32;
    if u < 0x80 {
        1
    } else if u < 0x800 {
        2
    } else if u < 0x10000 {
        3
    } else {
        4
    }
}

/// The number of bytes of `c` in UTF-8.
pub fn len_utf8(c: char) -> (n: usize)
    ensures
        n == utf8_len(c),
{
    let u = c as u32;
    if u < 0x80 {
        1
    } else if u < 0x800 {
        2
    } else if u < 0x10000 {
        3
    } else {
        4
    }
}

/// The byte offset in UTF-8 of the character at position `i` of `s`.
pub open spec fn byte_offset(s: Seq<char>, i: int) -> nat
    decreases i,
{
    if i <= 0 {
        0
    } else {
        byte_offset(s, i - 1) + utf8_len(s[i - 1])
    }
}

/// The decimal digits of `n`, most significant first, without leading zeros
/// ("0" for zero).
pub open spec fn decimal(n: nat) -> Seq<char>
    decreases n,
{
    if n < 10 {
        seq![(n + 48) as char]
    } else {
        decimal(n / 10) + seq![((n % 10) + 48) as char]
    }
}

/// `usize::to_string`: the decimal representation of `n`.
#[verifier::external_body]
pub(crate) fn usize_to_string(n: usize) -> (s: String)
    ensures
        s@ == decimal(n as nat),
{
    n.to_string()
}

/// Maximal runs of consecutive characters on which `p` agrees, in order.
pub open spec fn segments(s: Seq<char>, p: spec_fn(char) -> bool) -> Seq<Seq<char>>
    decreases s.len(),
{
    if s.len() == 0 {
        Seq::empty()
    } else {
        let prev = segments(s.drop_last(), p);
        let c = s.last();
        if prev.len() > 0 && p(prev.last().last()) == p(c) {
            prev.update(prev.len() - 1, prev.last().push(c))
        } else {
            prev.push(seq![c])
        }
    }
}

/// The segments of `s` are non-empty.
pub proof fn lemma_segments_nonempty(s: Seq<char>, p: spec_fn(char) -> bool)
    ensures
        forall|j: int| 0 <= j < segments(s, p).len() ==> (#[trigger] segments(s, p)[j]).len() > 0,
        s.len() > 0 ==> segments(s, p).len() > 0 && segments(s, p).last().last() == s.last(),
    decreases s.len(),
{
    if s.len() > 0 {
        lemma_segments_nonempty(s.drop_last(), p);
        let prev = segments(s.drop_last(), p);
        let cur = segments(s, p);
        assert forall|j: int| 0 <= j < cur.len() implies (#[trigger] cur[j]).len() > 0 by {
            if j < prev.len() && j != prev.len() - 1 {
                assert(cur[j] == prev[j]);
            }
        }
    }
}

/// How a string is cut into runs.
#[derive(Debug, Clone, Copy, PartialEq, Eq, Structural)]
pub enum Split {
    /// Runs of ASCII spaces and runs of other characters.
    Spaces,
    /// Runs of Unicode white space and runs of other characters.
    WhiteSpace,
    /// Runs of alphabetic and runs of non-alphabetic characters.
    NonAlphabetic,
}

/// The predicate that tells the two kinds of runs apart.
pub open spec fn separator(kind: Split) -> spec_fn(char) -> bool {
    match kind {
        Split::Spaces => |c: char| c == ' ',
        Split::WhiteSpace => |c: char| is_whitespace_char(c),
        Split::NonAlphabetic => |c: char| !is_alphabetic_char(c),
    }
}

/// The views of a list of character vectors.
pub open spec fn views_of(v: Seq<Vec<char>>) -> Seq<Seq<char>> {
    Seq::new(v.len(), |i: int| v[i]@)
}

/// Whether `c` separates runs (see `separator`).
pub fn is_separator(c: char, kind: Split) -> (b: bool)
    ensures
        b == (separator(kind))(c),
{
    match kind {
        Split::Spaces => c == ' ',
        Split::WhiteSpace => is_whitespace(c),
        Split::NonAlphabetic => !char_is_alphabetic(c),
    }
}

/// The maximal runs of separator and non-separator characters of `s`, in order.
pub fn split_runs(s: &[char], kind: Split) -> (res: Vec<Vec<char>>)
    ensures
        views_of(res@) == segments(s@, separator(kind)),
{
    let mut res: Vec<Vec<char>> = Vec::new();
    let mut i: usize = 0;
    while i < s.len()
        invariant
            i <= s@.len(),
            views_of(res@) == segments(s@.take(i as int), separator(kind)),
        decreases s@.len() - i,
    {
        let c = s[i];
        let ghost prev = views_of(res@);
        proof {
            assert(s@.take(i + 1).drop_last() =~= s@.take(i as int));
            lemma_segments_nonempty(s@.take(i as int), separator(kind));
        }
        let n = res.len();
        let extend = if n > 0 {
            proof {
                assert(views_of(res@)[n - 1] == res@[n - 1]@);
            }
            let last_run = &res[n - 1];
            let last_c = last_run[last_run.len() - 1];
            is_separator(last_c, kind) == is_separator(c, kind)
        } else {
            false
        };
        if extend {
            let mut run = res.pop().unwrap();
            run.push(c);
            res.push(run);
        } else {
            let mut run: Vec<char> = Vec::new();
            run.push(c);
            res.push(run);
        }
        i += 1;
        proof {
            assert(views_of(res@) =~= segments(s@.take(i as int), separator(kind)));
        }
    }
    proof {
        assert(s@.take(i as int) =~= s@);
    }
    res
}

/// The concatenation of the sequences, in order.
pub open spec fn concat_all(ss: Seq<Seq<char>>) -> Seq<char>
    decreases ss.len(),
{
    if ss.len() == 0 {
        Seq::empty()
    } else {
        concat_all(ss.drop_last()) + ss.last()
    }
}

/// Lexicographic order of character sequences by code point, as `str`'s `Ord`
/// orders strings (for UTF-8, byte order and code point order agree): `a` comes
/// before `b` or equals it.
pub open spec fn seq_le(a: Seq<char>, b: Seq<char>) -> bool
    decreases a.len(),
{
    if a.len() == 0 {
        true
    } else if b.len() == 0 {
        false
    } else if a[0] != b[0] {
        (a[0] as int) < (b[0] as int)
    } else {
        seq_le(a.drop_first(), b.drop_first())
    }
}

/// Every sequence is ordered with itself.
pub proof fn lemma_seq_le_reflexive(a: Seq<char>)
    ensures
        seq_le(a, a),
    decreases a.len(),
{
    if a.len() > 0 {
        lemma_seq_le_reflexive(a.drop_first());
    }
}

/// Any two sequences are ordered one way or the other.
pub proof fn lemma_seq_le_total(a: Seq<char>, b: Seq<char>)
    ensures
        seq_le(a, b) || seq_le(b, a),
    decreases a.len(),
{
    if a.len() > 0 && b.len() > 0 {
        if a[0] == b[0] {
            lemma_seq_le_total(a.drop_first(), b.drop_first());
        } else {
            assert((a[0] as int) != (b[0] as int));
        }
    }
}

/// The order is transitive.
pub proof fn lemma_seq_le_transitive(a: Seq<char>, b: Seq<char>, c: Seq<char>)
    requires
        seq_le(a, b),
        seq_le(b, c),
    ensures
        seq_le(a, c),
    decreases a.len(),
{
    if a.len() > 0 && b.len() > 0 && c.len() > 0 && a[0] == b[0] && b[0] == c[0] {
        lemma_seq_le_transitive(a.drop_first(), b.drop_first(), c.drop_first());
    }
}

/// Two sequences each ordered before the other are equal.
pub proof fn lemma_seq_le_antisymmetric(a: Seq<char>, b: Seq<char>)
    requires
        seq_le(a, b),
        seq_le(b, a),
    ensures
        a == b,
    decreases a.len(),
{
    if a.len() > 0 && b.len() > 0 {
        lemma_seq_le_antisymmetric(a.drop_first(), b.drop_first());
        assert(a =~= seq![a[0]] + a.drop_first());
        assert(b =~= seq![b[0]] + b.drop_first());
    }
}

/// Whether `a` comes before `b` or equals it (see `seq_le`).
pub fn str_le(a: &str, b: &str) -> (r: bool)
    ensures
        r == seq_le(a@, b@),
{
    let ac = chars_of(a);
    let bc = chars_of(b);
    let mut i: usize = 0;
    proof {
        assert(a@.skip(0) =~= a@);
        assert(b@.skip(0) =~= b@);
    }
    while i < ac.len() && i < bc.len()
        invariant
            ac@ == a@,
            bc@ == b@,
            i <= ac@.len(),
            i <= bc@.len(),
            seq_le(a@, b@) == seq_le(a@.skip(i as int), b@.skip(i as int)),
        decreases ac@.len() - i,
    {
        let x = ac[i];
        let y = bc[i];
        proof {
            assert(a@.skip(i as int)[0] == x);
            assert(b@.skip(i as int)[0] == y);
            assert(a@.skip(i as int).drop_first() =~= a@.skip(i + 1));
            assert(b@.skip(i as int).drop_first() =~= b@.skip(i + 1));
        }
        if x != y {
            return x < y;
        }
        i += 1;
    }
    i == ac.len()
}

/// `s` without its leading white space.
pub open spec fn trim_front(s: Seq<char>) -> Seq<char>
    decreases s.len(),
{
    if s.len() > 0 && is_whitespace_char(s[0]) {
        trim_front(s.drop_first())
    } else {
        s
    }
}

/// `s` without its trailing white space.
pub open spec fn trim_back(s: Seq<char>) -> Seq<char>
    decreases s.len(),
{
    if s.len() > 0 && is_whitespace_char(s.last()) {
        trim_back(s.drop_last())
    } else {
        s
    }
}

/// `s` without its leading and trailing white space, as `str::trim`.
pub open spec fn trimmed(s: Seq<char>) -> Seq<char> {
    trim_back(trim_front(s))
}

/// `s` without its leading and trailing white space.
pub fn trim(s: &str) -> (r: &str)
    ensures
        r@ == trimmed(s@),
{
    let n = s.unicode_len();
    let mut i: usize = 0;
    proof {
        assert(s@.subrange(0, n as int) =~= s@);
    }
    while i < n && is_whitespace(s.get_char(i))
        invariant
            n == s@.len(),
            i <= n,
            trim_front(s@) == trim_front(s@.subrange(i as int, n as int)),
        decreases n - i,
    {
        proof {
            assert(s@.subrange(i as int, n as int).drop_first() =~= s@.subrange(i + 1, n as int));
        }
        i += 1;
    }
    let mut j: usize = n;
    while j > i && is_whitespace(s.get_char(j - 1))
        invariant
            n == s@.len(),
            i <= j <= n,
            trim_front(s@) == s@.subrange(i as int, n as int),
            trim_back(s@.subrange(i as int, n as int)) == trim_back(s@.subrange(i as int, j as int)),
        decreases j - i,
    {
        proof {
            assert(s@.subrange(i as int, j as int).drop_last() =~= s@.subrange(i as int, j - 1));
        }
        j -= 1;
    }
    s.substring_char(i, j)
}

} // verus!
