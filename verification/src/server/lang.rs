//! Choosing subtitle and audio tracks by their language and title.
use vstd::prelude::*;
use crate::text::{
    chars_of, ci_eq, is_alphabetic_char, segments, separator, split_runs, string_from_chars,
    views_of, lemma_segments_nonempty, char_is_alphabetic, Split,
};
use crate::server::tracks::{Track, TrackType, of_type, tracks_of_type};

verus! {

/// The two strings are equal.
pub fn str_eq(a: &str, b: &str) -> (r: bool)
    ensures
        r == (a@ == b@),
{
    let ac = chars_of(a);
    let bc = chars_of(b);
    if ac.len() != bc.len() {
        return false;
    }
    let mut i: usize = 0;
    while i < ac.len()
        invariant
            ac@ == a@,
            bc@ == b@,
            ac@.len() == bc@.len(),
            i <= ac@.len(),
            forall|j: int| 0 <= j < i ==> ac@[j] == bc@[j],
        decreases ac@.len() - i,
    {
        if ac[i] != bc[i] {
            return false;
        }
        i += 1;
    }
    proof {
        assert(a@ =~= b@);
    }
    true
}

/// The two sequences are equal when ASCII case is ignored.
pub open spec fn ci_seq_eq(a: Seq<char>, b: Seq<char>) -> bool {
    a.len() == b.len() && forall|i: int| 0 <= i < a.len() ==> ci_eq(#[trigger] a[i], b[i])
}

/// The two strings are equal when ASCII case is ignored, as
/// `str::eq_ignore_ascii_case`.
pub fn str_eq_ignore_ascii_case(a: &str, b: &str) -> (r: bool)
    ensures
        r == ci_seq_eq(a@, b@),
{
    let ac = chars_of(a);
    let bc = chars_of(b);
    if ac.len() != bc.len() {
        return false;
    }
    let mut i: usize = 0;
    while i < ac.len()
        invariant
            ac@ == a@,
            bc@ == b@,
            ac@.len() == bc@.len(),
            i <= ac@.len(),
            forall|j: int| 0 <= j < i ==> ci_eq(#[trigger] ac@[j], bc@[j]),
        decreases ac@.len() - i,
    {
        if !crate::text::eq_ignore_ascii_case(ac[i], bc[i]) {
            return false;
        }
        i += 1;
    }
    true
}

/// The words of a sentence: its maximal runs of alphabetic characters, in order.
pub open spec fn alpha_words(s: Seq<char>) -> Seq<Seq<char>> {
    segments(s, separator(Split::NonAlphabetic)).filter(|run: Seq<char>| is_alphabetic_char(run[0]))
}

/// The words of a sentence: its maximal runs of alphabetic characters, in order.
pub fn words(sentence: &str) -> (res: Vec<String>)
    ensures
        res@.len() == alpha_words(sentence@).len(),
        forall|j: int| 0 <= j < res@.len() ==> (#[trigger] res@[j])@ == alpha_words(sentence@)[j],
{
    let chars = chars_of(sentence);
    let runs = split_runs(chars.as_slice(), Split::NonAlphabetic);
    let ghost segs = segments(sentence@, separator(Split::NonAlphabetic));
    let ghost pred = |run: Seq<char>| is_alphabetic_char(run[0]);
    proof {
        lemma_segments_nonempty(sentence@, separator(Split::NonAlphabetic));
    }
    let mut v: Vec<String> = Vec::new();
    let mut i: usize = 0;
    while i < runs.len()
        invariant
            views_of(runs@) == segs,
            segs == segments(sentence@, separator(Split::NonAlphabetic)),
            pred == (|run: Seq<char>| is_alphabetic_char(run[0])),
            forall|j: int| 0 <= j < segs.len() ==> (#[trigger] segs[j]).len() > 0,
            i <= runs@.len(),
            v@.len() == segs.take(i as int).filter(pred).len(),
            forall|j: int|
                0 <= j < v@.len() ==> (#[trigger] v@[j])@ == segs.take(i as int).filter(pred)[j],
        decreases runs@.len() - i,
    {
        proof {
            assert(segs.take(i + 1).drop_last() =~= segs.take(i as int));
            reveal_with_fuel(Seq::<_>::filter, 1);
            assert(views_of(runs@)[i as int] == runs@[i as int]@);
        }
        if char_is_alphabetic(runs[i][0]) {
            v.push(string_from_chars(runs[i].as_slice()));
        }
        i += 1;
    }
    proof {
        assert(segs.take(i as int) =~= segs);
    }
    v
}

/// The language and title of a track. Neither is ever the empty string.
#[derive(Debug, Clone, PartialEq, Eq)]
pub struct Lang {
    title: Option<String>,
    lang: Option<String>,
}

/// The view of an optional string.
pub open spec fn opt_view(s: Option<String>) -> Option<Seq<char>> {
    match s {
        Some(x) => Some(x@),
        None => None,
    }
}

/// The text of an optional string, the empty sequence for none.
pub open spec fn text_or_empty(s: Option<Seq<char>>) -> Seq<char> {
    match s {
        Some(x) => x,
        None => Seq::empty(),
    }
}

/// How a track is shown: its language, then its title in quotes, separated by a
/// space; `None` when it has neither.
pub open spec fn lang_display(title: Option<Seq<char>>, lang: Option<Seq<char>>) -> Seq<char> {
    match (lang, title) {
        (Some(l), Some(t)) => l + " '"@ + t + "'"@,
        (Some(l), None) => l,
        (None, Some(t)) => "'"@ + t + "'"@,
        (None, None) => "None"@,
    }
}

/// Whether the two optional strings are equal.
fn opt_str_eq(a: &Option<String>, b: &Option<String>) -> (r: bool)
    ensures
        r == (opt_view(*a) == opt_view(*b)),
{
    match (a, b) {
        (Some(x), Some(y)) => str_eq(x.as_str(), y.as_str()),
        (None, None) => true,
        _ => false,
    }
}

impl Lang {
    /// The title.
    pub closed spec fn title_of(&self) -> Option<Seq<char>> {
        opt_view(self.title)
    }

    /// The language.
    pub closed spec fn lang_of(&self) -> Option<Seq<char>> {
        opt_view(self.lang)
    }

    /// A track language from a title and a language, neither of them empty.
    pub fn new(title: Option<String>, lang: Option<String>) -> (r: Self)
        requires
            title matches Some(t) ==> t@.len() > 0,
            lang matches Some(l) ==> l@.len() > 0,
        ensures
            r.title_of() == opt_view(title),
            r.lang_of() == opt_view(lang),
    {
        Self { title, lang }
    }

    /// No title and no language.
    pub fn empty() -> (r: Self)
        ensures
            r.title_of() is None,
            r.lang_of() is None,
    {
        Self { title: None, lang: None }
    }

    /// Whether the two have the same title and the same language.
    pub fn same_as(&self, other: &Lang) -> (r: bool)
        ensures
            r == (self.title_of() == other.title_of() && self.lang_of() == other.lang_of()),
    {
        opt_str_eq(&self.title, &other.title) && opt_str_eq(&self.lang, &other.lang)
    }

    fn matcher_of(s: &Option<String>) -> (m: Matcher<'_>)
        ensures
            m.text() == text_or_empty(opt_view(*s)),
            !m.ignores_case(),
    {
        match s {
            Some(x) => Matcher::new(Some(x.as_str())),
            None => Matcher::new(None),
        }
    }

    fn lang(&self) -> (m: Matcher<'_>)
        ensures
            m.text() == text_or_empty(self.lang_of()),
            !m.ignores_case(),
    {
        Self::matcher_of(&self.lang)
    }

    fn title(&self) -> (m: Matcher<'_>)
        ensures
            m.text() == text_or_empty(self.title_of()),
            !m.ignores_case(),
    {
        Self::matcher_of(&self.title)
    }

    fn ilang(&self) -> (m: Matcher<'_>)
        ensures
            m.text() == text_or_empty(self.lang_of()),
            m.ignores_case(),
    {
        self.lang().case_insensitive()
    }

    fn ititle(&self) -> (m: Matcher<'_>)
        ensures
            m.text() == text_or_empty(self.title_of()),
            m.ignores_case(),
    {
        self.title().case_insensitive()
    }

    /// How the track is shown (see `lang_display`).
    pub fn to_string(&self) -> (r: String)
        ensures
            r@ == lang_display(self.title_of(), self.lang_of()),
    {
        let mut r = String::new();
        let mut written = false;
        if let Some(lang) = &self.lang {
            r.append(lang.as_str());
            written = true;
        }
        if let Some(title) = &self.title {
            if written {
                r.append(" ");
            }
            r.append("'");
            r.append(title.as_str());
            r.append("'");
            written = true;
        }
        if !written {
            r.append("None");
        }
        proof {
            reveal_strlit(" ");
            reveal_strlit("'");
            reveal_strlit(" '");
            reveal_strlit("None");
            assert(r@ =~= lang_display(self.title_of(), self.lang_of()));
        }
        r
    }
}

/// Compares a text (exactly, or ignoring ASCII case) with strings and words.
struct Matcher<'a> {
    inner: Option<&'a str>,
    ignore_case: bool,
}

/// `a` equals `b`, ignoring ASCII case when `ci` holds.
pub open spec fn text_eq(a: Seq<char>, b: Seq<char>, ci: bool) -> bool {
    if ci {
        ci_seq_eq(a, b)
    } else {
        a == b
    }
}

/// Some word of `text` equals `word` (see `text_eq`).
pub open spec fn has_word(text: Seq<char>, word: Seq<char>, ci: bool) -> bool {
    exists|k: int| 0 <= k < alpha_words(text).len() && text_eq(#[trigger] alpha_words(text)[k], word, ci)
}

impl<'a> Matcher<'a> {
    spec fn text(&self) -> Seq<char> {
        match self.inner {
            Some(s) => s@,
            None => Seq::empty(),
        }
    }

    spec fn ignores_case(&self) -> bool {
        self.ignore_case
    }

    fn new(inner: Option<&'a str>) -> (m: Self)
        ensures
            m.text() == match inner {
                Some(s) => s@,
                None => Seq::empty(),
            },
            !m.ignores_case(),
    {
        Self { inner, ignore_case: false }
    }

    fn case_insensitive(self) -> (m: Self)
        ensures
            m.text() == self.text(),
            m.ignores_case(),
    {
        Self { inner: self.inner, ignore_case: true }
    }

    fn inner(&self) -> (r: &str)
        ensures
            r@ == self.text(),
    {
        match self.inner {
            Some(s) => s,
            None => {
                proof {
                    reveal_strlit("");
                }
                ""
            },
        }
    }

    fn cmp(&self, a: &str, b: &str) -> (r: bool)
        ensures
            r == text_eq(a@, b@, self.ignores_case()),
    {
        if self.ignore_case {
            str_eq_ignore_ascii_case(a, b)
        } else {
            str_eq(a, b)
        }
    }

    fn equals(&self, b: &str) -> (r: bool)
        ensures
            r == text_eq(self.text(), b@, self.ignores_case()),
    {
        self.cmp(self.inner(), b)
    }

    fn contains(&self, word: &str) -> (r: bool)
        ensures
            r == has_word(self.text(), word@, self.ignores_case()),
    {
        let ws = words(self.inner());
        let mut i: usize = 0;
        while i < ws.len()
            invariant
                ws@.len() == alpha_words(self.text()).len(),
                forall|j: int| 0 <= j < ws@.len() ==> (#[trigger] ws@[j])@ == alpha_words(self.text())[j],
                i <= ws@.len(),
                forall|j: int|
                    0 <= j < i ==> !text_eq(#[trigger] alpha_words(self.text())[j], word@, self.ignores_case()),
            decreases ws@.len() - i,
        {
            if self.cmp(ws[i].as_str(), word) {
                return true;
            }
            i += 1;
        }
        false
    }
}

/// How much a track is wanted, from least to most.
#[derive(Debug, Ord, PartialOrd, Eq, PartialEq, Clone, Copy, Structural)]
pub enum Prio {
    Avoid,
    NotUse,
    Use,
    Prefer,
}

/// The place of a priority in the order `Avoid < NotUse < Use < Prefer`.
pub open spec fn prio_rank(p: Prio) -> int {
    match p {
        Prio::Avoid => 0,
        Prio::NotUse => 1,
        Prio::Use => 2,
        Prio::Prefer => 3,
    }
}

impl Prio {
    /// The place of the priority in the order (see `prio_rank`).
    pub fn rank(self) -> (r: u8)
        ensures
            r == prio_rank(self),
    {
        match self {
            Prio::Avoid => 0,
            Prio::NotUse => 1,
            Prio::Use => 2,
            Prio::Prefer => 3,
        }
    }
}

/// `l` equals one of the words, ignoring ASCII case.
pub open spec fn ci_one_of(l: Seq<char>, ws: Seq<Seq<char>>) -> bool {
    exists|k: int| 0 <= k < ws.len() && ci_seq_eq(l, #[trigger] ws[k])
}

/// The language names taken for English.
pub open spec fn english_names() -> Seq<Seq<char>> {
    seq!["eng"@, "en-US"@, "en"@, "english"@]
}

/// The title words that mark a special English track.
pub open spec fn special_words() -> Seq<Seq<char>> {
    seq!["SDH"@, "signs"@, "forced"@]
}

/// A special English track: a word of the title is one of the special words.
pub open spec fn is_special_title(title: Seq<char>) -> bool {
    exists|k: int| 0 <= k < special_words().len() && has_word(title, #[trigger] special_words()[k], true)
}

/// The priority of a track for an English speaker: avoid the `live_chat` track,
/// prefer English tracks, use special English tracks (hearing impaired, signs,
/// forced), do not use anything else.
pub open spec fn eng_prio(title: Option<Seq<char>>, lang: Option<Seq<char>>) -> Prio {
    let l = text_or_empty(lang);
    if ci_seq_eq(l, "live_chat"@) {
        Prio::Avoid
    } else if ci_one_of(l, english_names()) {
        if is_special_title(text_or_empty(title)) {
            Prio::Use
        } else {
            Prio::Prefer
        }
    } else {
        Prio::NotUse
    }
}

/// The priority of a track for a Japanese speaker: use Japanese tracks.
pub open spec fn jap_prio(lang: Option<Seq<char>>) -> Prio {
    let l = text_or_empty(lang);
    if ci_seq_eq(l, "ja"@) || ci_seq_eq(l, "jpn"@) {
        Prio::Use
    } else {
        Prio::NotUse
    }
}

/// The priority of a track for an English speaker (see `eng_prio`).
pub fn choose_eng(lang: &Lang) -> (p: Prio)
    ensures
        p == eng_prio(lang.title_of(), lang.lang_of()),
{
    proof {
        reveal_strlit("live_chat");
        reveal_strlit("eng");
        reveal_strlit("en-US");
        reveal_strlit("en");
        reveal_strlit("english");
        reveal_strlit("SDH");
        reveal_strlit("signs");
        reveal_strlit("forced");
    }
    let ghost l = text_or_empty(lang.lang_of());
    let ghost t = text_or_empty(lang.title_of());
    if lang.ilang().equals("live_chat") {
        return Prio::Avoid;
    }
    let e0 = lang.ilang().equals("eng");
    let e1 = lang.ilang().equals("en-US");
    let e2 = lang.ilang().equals("en");
    let e3 = lang.ilang().equals("english");
    let is_english = e0 || e1 || e2 || e3;
    proof {
        let ws = english_names();
        if is_english {
            if e0 {
                assert(ci_seq_eq(l, ws[0]));
            } else if e1 {
                assert(ci_seq_eq(l, ws[1]));
            } else if e2 {
                assert(ci_seq_eq(l, ws[2]));
            } else {
                assert(ci_seq_eq(l, ws[3]));
            }
        } else {
            assert forall|k: int| 0 <= k < ws.len() implies !ci_seq_eq(l, #[trigger] ws[k]) by {
                if k == 0 {
                } else if k == 1 {
                } else if k == 2 {
                } else {
                }
            }
        }
    }
    let s0 = lang.ititle().contains("SDH");
    let s1 = lang.ititle().contains("signs");
    let s2 = lang.ititle().contains("forced");
    let is_special = s0 || s1 || s2;
    proof {
        let ws = special_words();
        if is_special {
            if s0 {
                assert(has_word(t, ws[0], true));
            } else if s1 {
                assert(has_word(t, ws[1], true));
            } else {
                assert(has_word(t, ws[2], true));
            }
        } else {
            assert forall|k: int| 0 <= k < ws.len() implies !has_word(t, #[trigger] ws[k], true) by {
                if k == 0 {
                } else if k == 1 {
                } else {
                }
            }
        }
    }
    if is_english && is_special {
        Prio::Use
    } else if is_english && !is_special {
        Prio::Prefer
    } else {
        Prio::NotUse
    }
}

/// The priority of a track for a Japanese speaker (see `jap_prio`).
pub fn choose_jap(lang: &Lang) -> (p: Prio)
    ensures
        p == jap_prio(lang.lang_of()),
{
    proof {
        reveal_strlit("ja");
        reveal_strlit("jpn");
    }
    if lang.ilang().equals("ja") || lang.ilang().equals("jpn") {
        Prio::Use
    } else {
        Prio::NotUse
    }
}

/// The language a viewer understands.
#[derive(Copy, Clone, Debug, PartialEq, Eq, Structural)]
pub enum HumanLang {
    English,
    Japanese,
}

/// The priority of a track for a viewer.
pub open spec fn human_prio(h: HumanLang, l: Lang) -> Prio {
    match h {
        HumanLang::English => eng_prio(l.title_of(), l.lang_of()),
        HumanLang::Japanese => jap_prio(l.lang_of()),
    }
}

impl HumanLang {
    /// The priority of a track for this viewer.
    pub fn prio_of(self, lang: &Lang) -> (p: Prio)
        ensures
            p == human_prio(self, *lang),
    {
        match self {
            HumanLang::English => choose_eng(lang),
            HumanLang::Japanese => choose_jap(lang),
        }
    }
}

/// Something that has a track language.
pub trait AsLang {
    /// The language.
    spec fn lang_view(&self) -> Lang;

    /// The language.
    fn as_lang(&self) -> (r: &Lang)
        ensures
            *r == self.lang_view(),
    ;
}

impl AsLang for Lang {
    open spec fn lang_view(&self) -> Lang {
        *self
    }

    fn as_lang(&self) -> (r: &Lang) {
        self
    }
}

impl<'a> AsLang for &'a Lang {
    open spec fn lang_view(&self) -> Lang {
        **self
    }

    fn as_lang(&self) -> (r: &Lang) {
        *self
    }
}

/// The priorities of the first `n` of the tracks.
pub open spec fn prios_of<T: AsLang>(tracks: Seq<T>, h: HumanLang) -> Seq<Prio> {
    tracks.map_values(|t: T| human_prio(h, t.lang_view()))
}

/// The leftmost of the highest priorities among the first `n` that are not
/// `Avoid`, if any.
pub open spec fn best_of(ps: Seq<Prio>, n: int) -> Option<int>
    decreases n,
{
    if n <= 0 {
        None
    } else {
        let b = best_of(ps, n - 1);
        if ps[n - 1] == Prio::Avoid {
            b
        } else {
            match b {
                None => Some(n - 1),
                Some(j) => if prio_rank(ps[n - 1]) > prio_rank(ps[j]) {
                    Some(n - 1)
                } else {
                    Some(j)
                },
            }
        }
    }
}

/// The best track is never an avoided one, has the highest priority among the
/// tracks that are not avoided, and is the leftmost track with that priority;
/// there is none only when every track is avoided.
pub proof fn lemma_best_of(ps: Seq<Prio>, n: int)
    requires
        0 <= n <= ps.len(),
    ensures
        match best_of(ps, n) {
            None => forall|i: int| 0 <= i < n ==> #[trigger] ps[i] == Prio::Avoid,
            Some(b) => {
                &&& 0 <= b < n
                &&& ps[b] != Prio::Avoid
                &&& forall|i: int|
                    0 <= i < n && #[trigger] ps[i] != Prio::Avoid ==> prio_rank(ps[i]) <= prio_rank(
                        ps[b],
                    )
                &&& forall|i: int|
                    0 <= i < b && #[trigger] ps[i] != Prio::Avoid ==> prio_rank(ps[i]) < prio_rank(
                        ps[b],
                    )
            },
        },
    decreases n,
{
    if n > 0 {
        lemma_best_of(ps, n - 1);
    }
}

/// The choice among tracks with priorities `ps`, where track `selected` is the
/// one playing (none when out of range): the best track (see `best_of`), when
/// it is to be used or the playing track is to be avoided; otherwise none.
pub open spec fn choice(ps: Seq<Prio>, selected: int) -> Option<int> {
    match best_of(ps, ps.len() as int) {
        None => None,
        Some(b) => if (0 <= selected < ps.len() && ps[selected] == Prio::Avoid) || prio_rank(ps[b])
            >= prio_rank(Prio::Use) {
            Some(b)
        } else {
            None
        },
    }
}

/// Chooses a track for the viewer (see `choice`), giving its index and the track.
pub fn auto_choose<T: AsLang>(tracks: Vec<T>, selected: usize, human: HumanLang) -> (r: Option<
    (usize, T),
>)
    ensures
        match choice(prios_of(tracks@, human), selected as int) {
            None => r is None,
            Some(b) => r matches Some((i, t)) && i == b && t == tracks@[b],
        },
{
    let ghost ps = prios_of(tracks@, human);
    let mut selected_prio = Prio::NotUse;
    let mut best: Option<(usize, Prio)> = None;
    let mut i: usize = 0;
    while i < tracks.len()
        invariant
            ps == prios_of(tracks@, human),
            i <= tracks@.len(),
            match best_of(ps, i as int) {
                None => best is None,
                Some(b) => best matches Some((bi, bp)) && bi == b && bp == ps[b],
            },
            selected_prio == if selected < i {
                ps[selected as int]
            } else {
                Prio::NotUse
            },
        decreases tracks@.len() - i,
    {
        let prio = human.prio_of(tracks[i].as_lang());
        if i == selected {
            selected_prio = prio;
        }
        if prio.rank() >= Prio::NotUse.rank() {
            match best {
                None => {
                    best = Some((i, prio));
                },
                Some((_, bp)) => {
                    if prio.rank() > bp.rank() {
                        best = Some((i, prio));
                    }
                },
            }
        }
        i += 1;
    }
    proof {
        lemma_best_of(ps, ps.len() as int);
    }
    match best {
        None => None,
        Some((bi, bp)) => {
            if selected_prio == Prio::Avoid || bp.rank() >= Prio::Use.rank() {
                let mut tracks = tracks;
                let t = tracks.remove(bi);
                Some((bi, t))
            } else {
                None
            }
        },
    }
}

/// The position of the first selected track at or after `i`, `usize::MAX` when
/// there is none.
pub open spec fn first_selected(ts: Seq<Track>, i: int) -> int
    decreases ts.len() - i,
{
    if i >= ts.len() || i < 0 {
        usize::MAX as int
    } else if ts[i].selected {
        i
    } else {
        first_selected(ts, i + 1)
    }
}

/// The track chosen among the tracks of a kind for a viewer: the one that
/// `choice` picks among the tracks of that kind, where the playing one is the
/// first selected.
pub open spec fn track_choice(tracks: Seq<Track>, ttype: TrackType, preferred: HumanLang) -> Option<
    i64,
> {
    let ft = of_type(tracks, ttype);
    match choice(prios_of(ft, preferred), first_selected(ft, 0)) {
        None => None,
        Some(b) => Some(ft[b].id),
    }
}

/// Automatic choice of the subtitle and audio tracks, made once per file.
pub struct AutoLang {
    has_chosen: bool,
    preferred_sub: HumanLang,
    preferred_audio: HumanLang,
}

impl AutoLang {
    /// Whether the choice has been made.
    pub closed spec fn chosen(&self) -> bool {
        self.has_chosen
    }

    /// The language wanted for subtitles.
    pub closed spec fn sub_lang(&self) -> HumanLang {
        self.preferred_sub
    }

    /// The language wanted for audio.
    pub closed spec fn audio_lang(&self) -> HumanLang {
        self.preferred_audio
    }

    /// No choice made yet, with the languages wanted for subtitles and audio.
    pub fn new(sub: HumanLang, dub: HumanLang) -> (r: Self)
        ensures
            !r.chosen(),
            r.sub_lang() == sub,
            r.audio_lang() == dub,
    {
        Self { has_chosen: false, preferred_sub: sub, preferred_audio: dub }
    }

    /// Makes the choice: the subtitle track and the audio track to set, if any
    /// (see `track_choice`). Afterwards the choice counts as made.
    pub fn auto_choose(&mut self, tracks: &[Track]) -> (r: (Option<i64>, Option<i64>))
        ensures
            final(self).chosen(),
            final(self).sub_lang() == old(self).sub_lang(),
            final(self).audio_lang() == old(self).audio_lang(),
            r.0 == track_choice(tracks@, TrackType::Sub, old(self).sub_lang()),
            r.1 == track_choice(tracks@, TrackType::Audio, old(self).audio_lang()),
    {
        self.has_chosen = true;
        let sub = Self::choose_track(tracks, TrackType::Sub, self.preferred_sub);
        let audio = Self::choose_track(tracks, TrackType::Audio, self.preferred_audio);
        (sub, audio)
    }

    /// The track of the kind to set for a viewer, if any (see `track_choice`).
    pub fn choose_track(tracks: &[Track], ttype: TrackType, preferred: HumanLang) -> (r: Option<i64>)
        ensures
            r == track_choice(tracks@, ttype, preferred),
    {
        let ghost ft = of_type(tracks@, ttype);
        let of = tracks_of_type(tracks, ttype);
        let mut selected: usize = usize::MAX;
        let mut i: usize = of.len();
        while i > 0
            invariant
                ft == of_type(tracks@, ttype),
                of@.len() == ft.len(),
                forall|j: int| 0 <= j < of@.len() ==> *(#[trigger] of@[j]) == ft[j],
                i <= of@.len(),
                selected == first_selected(ft, i as int),
            decreases i,
        {
            i -= 1;
            if of[i].selected {
                selected = i;
            }
        }
        let ghost ov = of@;
        proof {
            assert(prios_of(ov, preferred) =~= prios_of(ft, preferred)) by {
                assert forall|j: int| 0 <= j < ov.len() implies #[trigger] prios_of(ov, preferred)[j]
                    == prios_of(ft, preferred)[j] by {
                    assert(*ov[j] == ft[j]);
                }
            }
        }
        match auto_choose(of, selected, preferred) {
            Some((bi, t)) => {
                proof {
                    lemma_best_of(prios_of(ov, preferred), ov.len() as int);
                    assert(*ov[bi as int] == ft[bi as int]);
                }
                Some(t.id)
            },
            None => None,
        }
    }

    /// Whether the choice is still to be made.
    pub fn has_not_chosen(&self) -> (b: bool)
        ensures
            b == !self.chosen(),
    {
        !self.has_chosen
    }
}

} // verus!
