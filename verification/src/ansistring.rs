//! Strings with ANSI escape sequences for colours, which keep count of their
//! printable characters apart from the escape sequences.
use vstd::prelude::*;

verus! {

/// Control sequence introducer.
pub const CSI: &'static str = "\x1b[";

/// End of a colour sequence.
pub const COLOREND: &'static str = "m";

/// Separator between codes.
pub const SEP: &'static str = ";";

/// Reset all attributes.
pub const RESET: &'static str = "0";

/// Blink.
pub const BLINK: &'static str = "5";

/// Bold (bright).
pub const BOLD: &'static str = "1";

/// Normal intensity.
pub const NORMAL: &'static str = "22";

/// The eight basic terminal colours.
#[derive(PartialEq, Eq, Debug, Clone, Copy, Structural)]
pub enum Color {
    Black,
    Red,
    Green,
    Yellow,
    Blue,
    Magenta,
    Cyan,
    White,
}

/// The digit of a colour in its ANSI codes.
pub open spec fn color_digit(c: Color) -> char {
    match c {
        Color::Black => '0',
        Color::Red => '1',
        Color::Green => '2',
        Color::Yellow => '3',
        Color::Blue => '4',
        Color::Magenta => '5',
        Color::Cyan => '6',
        Color::White => '7',
    }
}

/// The colours carry the standard ANSI digits: black 0, red 1, green 2, yellow 3,
/// blue 4, magenta 5, cyan 6 and white 7; no two colours share a digit.
pub proof fn lemma_ansi_color_digits()
    ensures
        color_digit(Color::Black) == '0',
        color_digit(Color::Red) == '1',
        color_digit(Color::Green) == '2',
        color_digit(Color::Yellow) == '3',
        color_digit(Color::Blue) == '4',
        color_digit(Color::Magenta) == '5',
        color_digit(Color::Cyan) == '6',
        color_digit(Color::White) == '7',
        forall|a: Color, b: Color| color_digit(a) == color_digit(b) ==> a == b,
{
}

impl Color {
    /// The foreground code of the colour: `3` followed by its digit.
    pub fn fg_code(self) -> (r: &'static str)
        ensures
            r@ == seq!['3', color_digit(self)],
            self == Color::Black ==> r@ == seq!['3', '0'],
            self == Color::Red ==> r@ == seq!['3', '1'],
            self == Color::Green ==> r@ == seq!['3', '2'],
            self == Color::Yellow ==> r@ == seq!['3', '3'],
            self == Color::Blue ==> r@ == seq!['3', '4'],
            self == Color::Magenta ==> r@ == seq!['3', '5'],
            self == Color::Cyan ==> r@ == seq!['3', '6'],
            self == Color::White ==> r@ == seq!['3', '7'],
    {
        match self {
            Color::Black => {
                proof {
                    reveal_strlit("30");
                }
                "30"
            },
            Color::Red => {
                proof {
                    reveal_strlit("31");
                }
                "31"
            },
            Color::Green => {
                proof {
                    reveal_strlit("32");
                }
                "32"
            },
            Color::Yellow => {
                proof {
                    reveal_strlit("33");
                }
                "33"
            },
            Color::Blue => {
                proof {
                    reveal_strlit("34");
                }
                "34"
            },
            Color::Magenta => {
                proof {
                    reveal_strlit("35");
                }
                "35"
            },
            Color::Cyan => {
                proof {
                    reveal_strlit("36");
                }
                "36"
            },
            Color::White => {
                proof {
                    reveal_strlit("37");
                }
                "37"
            },
        }
    }

    /// The background code of the colour: `4` followed by its digit.
    pub fn bg_code(self) -> (r: &'static str)
        ensures
            r@ == seq!['4', color_digit(self)],
            self == Color::Black ==> r@ == seq!['4', '0'],
            self == Color::Red ==> r@ == seq!['4', '1'],
            self == Color::Green ==> r@ == seq!['4', '2'],
            self == Color::Yellow ==> r@ == seq!['4', '3'],
            self == Color::Blue ==> r@ == seq!['4', '4'],
            self == Color::Magenta ==> r@ == seq!['4', '5'],
            self == Color::Cyan ==> r@ == seq!['4', '6'],
            self == Color::White ==> r@ == seq!['4', '7'],
    {
        match self {
            Color::Black => {
                proof {
                    reveal_strlit("40");
                }
                "40"
            },
            Color::Red => {
                proof {
                    reveal_strlit("41");
                }
                "41"
            },
            Color::Green => {
                proof {
                    reveal_strlit("42");
                }
                "42"
            },
            Color::Yellow => {
                proof {
                    reveal_strlit("43");
                }
                "43"
            },
            Color::Blue => {
                proof {
                    reveal_strlit("44");
                }
                "44"
            },
            Color::Magenta => {
                proof {
                    reveal_strlit("45");
                }
                "45"
            },
            Color::Cyan => {
                proof {
                    reveal_strlit("46");
                }
                "46"
            },
            Color::White => {
                proof {
                    reveal_strlit("47");
                }
                "47"
            },
        }
    }
}

/// Things that have a length in printable characters.
pub trait Len {
    /// The length in characters.
    spec fn spec_char_len(&self) -> nat;

    /// The length in characters.
    fn char_len(&self) -> (r: usize)
        ensures
            r == self.spec_char_len(),
    ;
}

impl Len for String {
    open spec fn spec_char_len(&self) -> nat {
        self@.len()
    }

    fn char_len(&self) -> (r: usize) {
        self.as_str().unicode_len()
    }
}

impl<'a> Len for &'a str {
    open spec fn spec_char_len(&self) -> nat {
        (*self)@.len()
    }

    fn char_len(&self) -> (r: usize) {
        self.unicode_len()
    }
}

/// A string with escape sequences, and the number of characters that it shows.
pub struct AnsiString {
    string: String,
    length: usize,
}

impl Len for AnsiString {
    open spec fn spec_char_len(&self) -> nat {
        self.shown() as nat
    }

    fn char_len(&self) -> (r: usize) {
        self.length
    }
}

/// The codes joined by `;`.
pub open spec fn join_codes(codes: Seq<Seq<char>>) -> Seq<char>
    decreases codes.len(),
{
    if codes.len() == 0 {
        Seq::empty()
    } else if codes.len() == 1 {
        codes[0]
    } else {
        join_codes(codes.drop_last()) + ";"@ + codes.last()
    }
}

/// The escape sequence that sets the given codes.
pub open spec fn ansi_sequence(codes: Seq<Seq<char>>) -> Seq<char> {
    "\x1b["@ + join_codes(codes) + "m"@
}

impl AnsiString {
    /// The characters of the string, escape sequences included.
    pub closed spec fn text(&self) -> Seq<char> {
        self.string@
    }

    /// The number of characters counted as shown.
    pub closed spec fn shown(&self) -> usize {
        self.length
    }

    /// The string `s`, all of whose characters are shown.
    pub fn new(s: String) -> (r: Self)
        ensures
            r.text() == s@,
            r.shown() == s@.len(),
    {
        let len = s.char_len();
        AnsiString { string: s, length: len }
    }

    /// The empty string.
    pub fn empty() -> (r: Self)
        ensures
            r.text() == Seq::<char>::empty(),
            r.shown() == 0,
    {
        let s = String::new();
        Self::new(s)
    }

    /// Appends shown text.
    pub fn push_str(&mut self, s: &str) -> (r: &mut Self)
        requires
            old(self).shown() + s@.len() <= usize::MAX,
        ensures
            r.text() == old(self).text() + s@,
            r.shown() == old(self).shown() + s@.len(),
            *final(self) == *final(r),
    {
        self.string.append(s);
        self.length = self.length + s.char_len();
        self
    }

    /// Appends a character; the count grows by the number of bytes of the
    /// character in UTF-8.
    pub fn push_char(&mut self, s: char) -> (r: &mut Self)
        requires
            old(self).shown() + crate::text::utf8_len(s) <= usize::MAX,
        ensures
            r.text() == old(self).text().push(s),
            r.shown() == old(self).shown() + crate::text::utf8_len(s),
            *final(self) == *final(r),
    {
        crate::text::push_char(&mut self.string, s);
        self.length = self.length + crate::text::len_utf8(s);
        self
    }

    /// Appends text that is not shown (an escape sequence).
    fn push_ansi(&mut self, s: &str) -> (r: &mut Self)
        ensures
            r.text() == old(self).text() + s@,
            r.shown() == old(self).shown(),
            *final(self) == *final(r),
    {
        self.string.append(s);
        self
    }

    /// Appends the escape sequence that sets the codes.
    fn push_ansi_codes(&mut self, codes: &[&str]) -> (r: &mut Self)
        ensures
            r.text() == old(self).text() + ansi_sequence(codes@.map_values(|c: &str| c@)),
            r.shown() == old(self).shown(),
            *final(self) == *final(r),
    {
        let ghost cv = codes@.map_values(|c: &str| c@);
        let ghost start = self.text();
        self.push_ansi(CSI);
        proof {
            reveal_strlit("\x1b[");
        }
        let mut first = true;
        let mut i: usize = 0;
        while i < codes.len()
            invariant
                i <= codes@.len(),
                cv == codes@.map_values(|c: &str| c@),
                first == (i == 0),
                self.text() == start + "\x1b["@ + join_codes(cv.take(i as int)),
                self.shown() == old(self).shown(),
            decreases codes@.len() - i,
        {
            let ghost before = self.text();
            if first {
                first = false;
            } else {
                self.push_ansi(SEP);
                proof {
                    reveal_strlit(";");
                }
            }
            self.push_ansi(codes[i]);
            proof {
                assert(cv.take(i + 1).drop_last() =~= cv.take(i as int));
                assert(cv.take(i + 1).last() == codes@[i as int]@);
                if i == 0 {
                    assert(join_codes(cv.take(1)) == cv.take(1)[0]);
                }
                assert(self.text() =~= start + "\x1b["@ + join_codes(cv.take(i + 1)));
            }
            i += 1;
        }
        self.push_ansi(COLOREND);
        proof {
            reveal_strlit("m");
            assert(cv.take(i as int) =~= cv);
            assert(self.text() =~= old(self).text() + ansi_sequence(cv));
        }
        self
    }
}

impl AnsiString {
    /// Sets the foreground colour, at normal intensity.
    pub fn push_fg(&mut self, col: Color) -> (r: &mut Self)
        ensures
            r.text() == old(self).text() + ansi_sequence(seq!["22"@, seq!['3', color_digit(col)]]),
            r.shown() == old(self).shown(),
            *final(self) == *final(r),
    {
        let codes = [NORMAL, col.fg_code()];
        proof {
            reveal_strlit("22");
            assert(codes@.map_values(|c: &str| c@) =~= seq!["22"@, seq!['3', color_digit(col)]]);
        }
        self.push_ansi_codes(&codes)
    }

    /// Sets the background colour, at normal intensity.
    pub fn push_bg(&mut self, col: Color) -> (r: &mut Self)
        ensures
            r.text() == old(self).text() + ansi_sequence(seq!["22"@, seq!['4', color_digit(col)]]),
            r.shown() == old(self).shown(),
            *final(self) == *final(r),
    {
        let codes = [NORMAL, col.bg_code()];
        proof {
            reveal_strlit("22");
            assert(codes@.map_values(|c: &str| c@) =~= seq!["22"@, seq!['4', color_digit(col)]]);
        }
        self.push_ansi_codes(&codes)
    }

    /// Sets the foreground colour, bold.
    pub fn push_fg_bright(&mut self, col: Color) -> (r: &mut Self)
        ensures
            r.text() == old(self).text() + ansi_sequence(seq!["1"@, seq!['3', color_digit(col)]]),
            r.shown() == old(self).shown(),
            *final(self) == *final(r),
    {
        let codes = [BOLD, col.fg_code()];
        proof {
            reveal_strlit("1");
            assert(codes@.map_values(|c: &str| c@) =~= seq!["1"@, seq!['3', color_digit(col)]]);
        }
        self.push_ansi_codes(&codes)
    }

    /// Sets the background colour, bold.
    pub fn push_bg_bright(&mut self, col: Color) -> (r: &mut Self)
        ensures
            r.text() == old(self).text() + ansi_sequence(seq!["1"@, seq!['4', color_digit(col)]]),
            r.shown() == old(self).shown(),
            *final(self) == *final(r),
    {
        let codes = [BOLD, col.bg_code()];
        proof {
            reveal_strlit("1");
            assert(codes@.map_values(|c: &str| c@) =~= seq!["1"@, seq!['4', color_digit(col)]]);
        }
        self.push_ansi_codes(&codes)
    }

    /// Resets all attributes.
    pub fn push_reset(&mut self) -> (r: &mut Self)
        ensures
            r.text() == old(self).text() + ansi_sequence(seq!["0"@]),
            r.shown() == old(self).shown(),
            *final(self) == *final(r),
    {
        let codes = [RESET];
        proof {
            assert(codes@.map_values(|c: &str| c@) =~= seq!["0"@]);
        }
        self.push_ansi_codes(&codes)
    }

    /// Starts blinking.
    pub fn push_blink(&mut self) -> (r: &mut Self)
        ensures
            r.text() == old(self).text() + ansi_sequence(seq!["5"@]),
            r.shown() == old(self).shown(),
            *final(self) == *final(r),
    {
        let codes = [BLINK];
        proof {
            assert(codes@.map_values(|c: &str| c@) =~= seq!["5"@]);
        }
        self.push_ansi_codes(&codes)
    }

    /// Sets the given code.
    pub fn push_code(&mut self, code: &str) -> (r: &mut Self)
        ensures
            r.text() == old(self).text() + ansi_sequence(seq![code@]),
            r.shown() == old(self).shown(),
            *final(self) == *final(r),
    {
        let codes = [code];
        proof {
            assert(codes@.map_values(|c: &str| c@) =~= seq![code@]);
        }
        self.push_ansi_codes(&codes)
    }

    /// Sets the code when there is one; otherwise nothing changes.
    pub fn push_maybe_code(&mut self, format_code: Option<&str>) -> (r: &mut Self)
        ensures
            r.text() == match format_code {
                Some(code) => old(self).text() + ansi_sequence(seq![code@]),
                None => old(self).text(),
            },
            r.shown() == old(self).shown(),
            *final(self) == *final(r),
    {
        if let Some(code) = format_code {
            self.push_code(code);
        }
        self
    }

    /// Appends another string; its shown characters count as shown here.
    pub fn push_ansistring(&mut self, other: &AnsiString) -> (r: &mut Self)
        requires
            old(self).shown() + other.shown() <= usize::MAX,
        ensures
            r.text() == old(self).text() + other.text(),
            r.shown() == old(self).shown() + other.shown(),
            *final(self) == *final(r),
    {
        self.length = self.length + other.length;
        self.string.append(other.string.as_str());
        self
    }

    /// The characters, escape sequences included.
    pub fn as_str(&self) -> (r: &str)
        ensures
            r@ == self.text(),
    {
        self.string.as_str()
    }
}

/// Something that holds a string that can be written to in place.
pub trait AsString {
    /// The string held.
    spec fn held(&self) -> Seq<char>;

    /// The string held, to be written to.
    fn as_string(&mut self) -> (r: &mut String)
        ensures
            r@ == old(self).held(),
            final(self).held() == final(r)@,
    ;
}

impl AsString for String {
    open spec fn held(&self) -> Seq<char> {
        self@
    }

    fn as_string(&mut self) -> (r: &mut String) {
        self
    }
}

impl AsString for AnsiString {
    open spec fn held(&self) -> Seq<char> {
        self.text()
    }

    fn as_string(&mut self) -> (r: &mut String)
        ensures
            final(self).shown() == old(self).shown(),
    {
        &mut self.string
    }
}

} // verus!
