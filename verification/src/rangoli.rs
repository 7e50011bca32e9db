//! Alphabet rangoli: a text pattern of lines of letters that widen towards
//! the middle, each line a palindrome around its smallest letter.

use crate::text::{pretty_list, pretty_list_text, signed_decimal, signed_decimal_text};
use vstd::prelude::*;
use vstd::string::{StrSliceExecFns, StringExecFns};
use vstd::utf8::{encode_utf8, is_scalar};

verus! {

/// The least number of letters a pattern can be asked for.
pub const LOWER_BOUND: i32 = 1;

/// The greatest number of letters a pattern can be asked for, and the
/// number of characters an alphabet must have.
pub const UPPER_BOUND: i32 = 26;

/// Why a request for a pattern is turned down.
#[derive(Debug, Clone, Copy, PartialEq, Eq, Structural)]
pub enum ParameterError {
    /// The number of letters is not between [`LOWER_BOUND`] and
    /// [`UPPER_BOUND`].
    NumberOutOfBounds,
    /// The alphabet is not a run of exactly [`UPPER_BOUND`] characters.
    AlphabetLength,
}

/// What [`check_parameters`] answers: the number is looked at first.
pub open spec fn parameters_verdict(number: int, first_char: char, last_char: char) -> Result<
    (),
    ParameterError,
> {
    if number < LOWER_BOUND || number > UPPER_BOUND {
        Err(ParameterError::NumberOutOfBounds)
    } else if last_char as int - first_char as int != UPPER_BOUND - 1 {
        Err(ParameterError::AlphabetLength)
    } else {
        Ok(())
    }
}

/// Decides whether a pattern of `number` letters over the alphabet from
/// `first_char` to `last_char` may be asked for.
pub fn check_parameters(number: i32, first_char: char, last_char: char) -> (r: Result<
    (),
    ParameterError,
>)
    ensures
        r == parameters_verdict(number as int, first_char, last_char),
{
    if (number < LOWER_BOUND) || (number > UPPER_BOUND) {
        return Err(ParameterError::NumberOutOfBounds);
    }
    let alphabet_range_len = last_char as i32 - first_char as i32;
    if alphabet_range_len != UPPER_BOUND - 1 {
        return Err(ParameterError::AlphabetLength);
    }
    Ok(())
}

/// `char::from_u32` gives the character with the given code, and `None`
/// where the code is no Unicode scalar value: a surrogate, or above
/// `0x10FFFF`.
pub assume_specification[ char::from_u32 ](i: u32) -> (r: Option<char>)
    ensures
        r == (if is_scalar(i) {
            Some(i as char)
        } else {
            None
        }),
;

/// `String::push` appends one character.
pub assume_specification[ String::push ](s: &mut String, ch: char)
    ensures
        final(s)@ == old(s)@.push(ch),
;

/// The characters with codes from `low` to `high`, in ascending order.
pub open spec fn characters(low: int, high: int) -> Seq<char>
    decreases high - low + 1,
{
    if high < low {
        Seq::empty()
    } else if 0 <= high <= u32::MAX && is_scalar(high as u32) {
        characters(low, high - 1).push(high as char)
    } else {
        characters(low, high - 1)
    }
}

/// The letters that a pattern is written with, the character that joins
/// them and the character that stands in where the letters run out.
pub struct AlphabetSet {
    a_vec: Vec<char>,
    delimiter: char,
    false_token: char,
}

impl AlphabetSet {
    /// The letters, in order.
    pub closed spec fn letters(&self) -> Seq<char> {
        self.a_vec@
    }

    /// The character that separates two letters of a line.
    pub closed spec fn joint(&self) -> char {
        self.delimiter
    }

    /// The character written for a letter that the alphabet does not have.
    pub closed spec fn filler(&self) -> char {
        self.false_token
    }

    /// The alphabet from `lower` to `upper`, joined by `-` and filled up
    /// with blanks.
    pub fn new(lower: char, upper: char) -> (r: Self)
        ensures
            r.letters() == characters(lower as int, upper as int),
            r.joint() == '-',
            r.filler() == ' ',
    {
        let mut a_vec: Vec<char> = Vec::new();
        let first = lower as u32;
        let last = upper as u32;
        if first <= last {
            let mut code = first;
            loop
                invariant_except_break
                    a_vec@ == characters(first as int, code - 1),
                invariant
                    first <= code <= last,
                ensures
                    a_vec@ == characters(first as int, last as int),
                decreases last - code,
            {
                if let Some(letter) = char::from_u32(code) {
                    a_vec.push(letter);
                }
                if code == last {
                    break;
                }
                code += 1;
            }
        }
        Self { a_vec, delimiter: '-', false_token: ' ' }
    }

    /// The letters, in order.
    pub fn get_alphabet(&self) -> (r: &Vec<char>)
        ensures
            r@ == self.letters(),
    {
        &self.a_vec
    }

    /// The character that separates two letters of a line.
    pub fn get_delimiter(&self) -> (r: char)
        ensures
            r == self.joint(),
    {
        self.delimiter
    }

    /// The character written for a letter that the alphabet does not have.
    pub fn get_false_token(&self) -> (r: char)
        ensures
            r == self.filler(),
    {
        self.false_token
    }
}

/// Where the alphabet has no gaps (no surrogate lies between the two
/// codes), it holds one character for each code, in order.
pub proof fn lemma_characters_without_gap(low: int, high: int)
    requires
        0 <= low,
        high <= 0x10FFFF,
        high < 0xD800 || 0xDFFF < low,
    ensures
        characters(low, high).len() == (if high < low { 0 } else { high - low + 1 }),
        forall|i: int| 0 <= i <= high - low ==> #[trigger] characters(low, high)[i] == (low + i) as char,
    decreases high - low + 1,
{
    if low <= high {
        lemma_characters_without_gap(low, high - 1);
    }
}

/// The letter written for place `x` of the alphabet: the letter that stands
/// there, or the filler where the alphabet has no such place.
pub open spec fn token(letters: Seq<char>, filler: char, x: int) -> char {
    if 0 <= x < letters.len() {
        letters[x]
    } else {
        filler
    }
}

/// The number of letters in the line that runs from place `n` down to place
/// `m + 1` and up again to `n`.
pub open spec fn letters_in_line(n: int, m: int) -> int {
    if n > m {
        2 * (n - m) - 1
    } else {
        0
    }
}

/// The alphabet place of the `k`-th letter of that line.
pub open spec fn place_in_line(n: int, m: int, k: int) -> int {
    if k < n - m {
        n - k
    } else {
        2 * m + 2 + k - n
    }
}

/// The line that runs from place `n` down to place `m + 1` and up again to
/// `n`, with the joint between each two letters: `c-b-c` for `n = 2`,
/// `m = 0` over the alphabet from `a`.
pub open spec fn text_line(letters: Seq<char>, joint: char, filler: char, n: int, m: int) -> Seq<char> {
    Seq::new(
        (if n > m { 2 * letters_in_line(n, m) - 1 } else { 0 }) as nat,
        |p: int|
            if p % 2 == 0 {
                token(letters, filler, place_in_line(n, m, p / 2))
            } else {
                joint
            },
    )
}

/// The upper half of the pattern for `n` letters, from the single letter at
/// the top to the full line in the middle.
pub open spec fn upper_half(letters: Seq<char>, joint: char, filler: char, n: int) -> Seq<Seq<char>> {
    Seq::new(n as nat, |k: int| text_line(letters, joint, filler, n - 1, n - 2 - k))
}

/// The width of a line as the pattern counts it: the number of bytes of its
/// UTF-8 encoding.
pub open spec fn width(line: Seq<char>) -> nat {
    encode_utf8(line).len()
}

/// `w` is the width of the widest of `lines`.
pub open spec fn is_greatest_width(lines: Seq<Seq<char>>, w: int) -> bool {
    &&& exists|i: int| 0 <= i < lines.len() && #[trigger] width(lines[i]) == w
    &&& forall|i: int| 0 <= i < lines.len() ==> #[trigger] width(lines[i]) <= w
}

/// The lines of `lines` followed by the same lines in reverse order, the
/// last one left out: a half pattern made whole.
pub open spec fn mirrored<A>(lines: Seq<A>) -> Seq<A> {
    if lines.len() == 0 {
        lines
    } else {
        lines + lines.drop_last().reverse()
    }
}

/// The lines of a vector of strings.
pub open spec fn texts(lines: Seq<String>) -> Seq<Seq<char>> {
    Seq::new(lines.len(), |i: int| lines[i]@)
}

/// A character takes at most four bytes, so a line is at most four times as
/// wide as it has characters.
pub proof fn lemma_width_bound(line: Seq<char>)
    ensures
        width(line) <= 4 * line.len(),
    decreases line.len(),
{
    if line.len() > 0 {
        lemma_width_bound(line.drop_first());
    }
}

/// The letters of a line, each with the place at which it stands in the
/// line: every second character, the joints between them left out.
pub open spec fn cells_of(line: Seq<char>) -> Seq<(char, usize)> {
    Seq::new(((line.len() + 1) / 2) as nat, |k: int| (line[2 * k], (2 * k) as usize))
}

/// The letters of `line` with their places, to lay them out one by one.
pub fn letter_cells(line: &str) -> (cells: Vec<(char, usize)>)
    ensures
        cells@ == cells_of(line@),
{
    let count = line.unicode_len();
    let mut cells: Vec<(char, usize)> = Vec::new();
    let mut char_index: usize = 0;
    while char_index < count
        invariant_except_break
            cells@ == cells_of(line@).take(char_index as int / 2),
        invariant
            count == line@.len(),
            char_index % 2 == 0,
            char_index <= count + 1,
        ensures
            cells@ == cells_of(line@),
        decreases count + 1 - char_index,
    {
        // A line has its letters at the even places; the odd places hold
        // the joints.
        cells.push((line.get_char(char_index), char_index));
        proof {
            assert(cells@ =~= cells_of(line@).take(char_index as int / 2 + 1));
        }
        if char_index >= count - 1 {
            proof {
                assert(cells@ =~= cells_of(line@));
            }
            break;
        }
        char_index += 2;
    }
    cells
}

/// The place in the middle of `line`, around which its letters are laid
/// out.
pub fn middle_of(line: &str) -> (mid_index: usize)
    ensures
        mid_index == line@.len() / 2,
{
    line.unicode_len() / 2
}

/// A rangoli pattern: its lines from the top to the bottom, and the width
/// of the widest of them.
pub struct RangoliTextPattern {
    rangoli_lines: Vec<String>,
    max_width: i32,
}

impl RangoliTextPattern {
    /// The lines still held, from the top.
    pub closed spec fn lines(&self) -> Seq<Seq<char>> {
        texts(self.rangoli_lines@)
    }

    /// The width recorded when the pattern was made.
    pub closed spec fn widest(&self) -> int {
        self.max_width as int
    }

    /// The pattern for `n` letters over `alphabet`. Line `k` of the upper
    /// half runs from letter `n - 1` down to letter `n - 1 - k` and up again;
    /// the lower half mirrors the upper, so the pattern has `2 * n - 1`
    /// lines. The width is that of the widest line, which is the middle one.
    ///
    /// `n` is at most `0x800_0000`, so that the width fits in an `i32`.
    pub fn new(n: i32, alphabet: &AlphabetSet) -> (r: Self)
        requires
            1 <= n <= 0x800_0000,
        ensures
            r.lines() == mirrored(
                upper_half(alphabet.letters(), alphabet.joint(), alphabet.filler(), n as int),
            ),
            is_greatest_width(r.lines(), r.widest()),
    {
        let ghost half = upper_half(
            alphabet.letters(),
            alphabet.joint(),
            alphabet.filler(),
            n as int,
        );
        let ghost whole = mirrored(half);
        let mut rangoli_lines: Vec<String> = Vec::new();
        let mut x = n - 2;
        while x >= -1
            invariant
                1 <= n <= 0x800_0000,
                -2 <= x <= n - 2,
                half == upper_half(alphabet.letters(), alphabet.joint(), alphabet.filler(), n as int),
                texts(rangoli_lines@) == half.take(n - 2 - x),
            decreases x + 2,
        {
            let line = Self::generate_text_line(n - 1, x, alphabet);
            let ghost held = rangoli_lines@;
            proof {
                assert(half[n - 2 - x] == line@);
            }
            rangoli_lines.push(line);
            x -= 1;
            proof {
                assert(half.len() == n);
                assert(texts(held).len() == held.len());
                assert(held.len() == n - 3 - x);
                assert forall|k: int| 0 <= k < rangoli_lines@.len() implies texts(
                    rangoli_lines@,
                )[k] == half.take(n - 2 - x)[k] by {
                    if k < held.len() {
                        assert(texts(held)[k] == half.take(n - 3 - x)[k]);
                        assert(rangoli_lines@[k] == held[k]);
                    } else {
                        assert(rangoli_lines@[k] == line);
                    }
                }
                assert(texts(rangoli_lines@) =~= half.take(n - 2 - x));
            }
        }
        proof {
            assert(half.len() == n);
            assert(half.drop_last().reverse().len() == n - 1);
            assert(whole.len() == 2 * n - 1);
            assert(texts(rangoli_lines@) =~= whole.take(n as int));
        }
        // Up till this point, the pattern has only its upper half. The
        // lower half mirrors the upper one, the middle line left out.
        let mut j: usize = (n - 1) as usize;
        while j > 0
            invariant
                1 <= n <= 0x800_0000,
                j < n,
                half.len() == n,
                whole == mirrored(half),
                whole.len() == 2 * n - 1,
                rangoli_lines@.len() == 2 * n - 1 - j,
                texts(rangoli_lines@) == whole.take(2 * n - 1 - j),
            decreases j,
        {
            j -= 1;
            let ghost held = rangoli_lines@;
            let copy = rangoli_lines[j].clone();
            rangoli_lines.push(copy);
            proof {
                assert(texts(held)[j as int] == whole.take(2 * n - 2 - j)[j as int]);
                assert(whole[2 * n - 2 - j] == half[j as int]);
                assert forall|k: int| 0 <= k < rangoli_lines@.len() implies texts(
                    rangoli_lines@,
                )[k] == whole.take(2 * n - 1 - j)[k] by {
                    if k < held.len() {
                        assert(texts(held)[k] == whole.take(2 * n - 2 - j)[k]);
                        assert(rangoli_lines@[k] == held[k]);
                    } else {
                        assert(rangoli_lines@[k] == copy);
                    }
                }
                assert(texts(rangoli_lines@) =~= whole.take(2 * n - 1 - j));
            }
        }
        proof {
            assert(texts(rangoli_lines@) =~= whole);
        }
        let mut widest: usize = 0;
        let mut i: usize = 0;
        while i < rangoli_lines.len()
            invariant
                1 <= n <= 0x800_0000,
                texts(rangoli_lines@) == whole,
                whole == mirrored(half),
                whole.len() == 2 * n - 1,
                rangoli_lines@.len() == 2 * n - 1,
                half == upper_half(alphabet.letters(), alphabet.joint(), alphabet.filler(), n as int),
                i <= rangoli_lines.len(),
                widest <= 4 * (4 * n - 3),
                i == 0 ==> widest == 0,
                i > 0 ==> exists|j: int| 0 <= j < i && #[trigger] width(whole[j]) == widest,
                forall|j: int| 0 <= j < i ==> #[trigger] width(whole[j]) <= widest,
            decreases rangoli_lines.len() - i,
        {
            let w = rangoli_lines[i].as_str().len();
            proof {
                // The line at `i` is line `k` of the upper half.
                let k = if i < n { i as int } else { 2 * n - 2 - i };
                assert(half.len() == n);
                assert(whole[i as int] == half[k]);
                assert(whole[i as int] == texts(rangoli_lines@)[i as int]);
                assert(whole[i as int] == rangoli_lines@[i as int]@);
                assert(letters_in_line(n - 1, n - 2 - k) == 2 * k + 1);
                assert(half[k].len() == 4 * k + 1);
                lemma_width_bound(whole[i as int]);
                assert(width(whole[i as int]) == w);
            }
            if w > widest {
                widest = w;
            }
            i += 1;
        }
        RangoliTextPattern { rangoli_lines, max_width: widest as i32 }
    }

    /// The lines as they stand, and the width.
    pub fn get_rangoli_text(&self) -> (r: (&Vec<String>, i32))
        ensures
            texts(r.0@) == self.lines(),
            r.1 == self.widest(),
    {
        (&self.rangoli_lines, self.max_width as i32)
    }

    /// The pattern in words: its lines as a list, and its width.
    pub fn describe(&self) -> (text: String)
        ensures
            text@ == "\nRangoli Text Pattern:\n"@ + pretty_list(self.lines()) + "\nMax Width: "@
                + signed_decimal(self.widest()) + "\n"@,
    {
        let mut text = String::from_str("\nRangoli Text Pattern:\n");
        text.append(pretty_list_text(&self.rangoli_lines).as_str());
        text.append("\nMax Width: ");
        text.append(signed_decimal_text(self.max_width).as_str());
        text.append("\n");
        text
    }

    /// An iterator over the lines held, from the top.
    pub fn iter(&self) -> (r: std::slice::Iter<'_, std::string::String>)
        ensures
            texts(vstd::std_specs::slice::into_iter_elts(r)) == self.lines(),
    {
        self.rangoli_lines.iter()
    }

    /// Takes the last line out of the pattern and hands it over; `None` once
    /// no line is left.
    pub fn next(&mut self) -> (r: Option<String>)
        ensures
            final(self).widest() == old(self).widest(),
            match r {
                Some(line) => {
                    &&& old(self).lines().len() > 0
                    &&& line@ == old(self).lines().last()
                    &&& final(self).lines() == old(self).lines().drop_last()
                },
                None => old(self).lines().len() == 0 && final(self).lines() == old(self).lines(),
            },
    {
        let r = self.rangoli_lines.pop();
        proof {
            if old(self).rangoli_lines@.len() > 0 {
                assert(texts(self.rangoli_lines@) =~= texts(old(self).rangoli_lines@).drop_last());
            }
        }
        r
    }

    /// One line of the pattern over `alphabet`: the letters from place `n`
    /// down to place `m + 1` and up again to `n`.
    pub fn generate_text_line(n: i32, m: i32, alphabet: &AlphabetSet) -> (line: String)
        requires
            n < i32::MAX,
            m < i32::MAX - 1,
        ensures
            line@ == text_line(
                alphabet.letters(),
                alphabet.joint(),
                alphabet.filler(),
                n as int,
                m as int,
            ),
    {
        let ghost whole = text_line(
            alphabet.letters(),
            alphabet.joint(),
            alphabet.filler(),
            n as int,
            m as int,
        );
        let mut line = String::new();
        if n > m {
            // For every line there is a left hand and a right hand run of
            // letters, with the letter at place `m + 1` between the two.
            let mut x = n;
            while x > m
                invariant
                    m <= x <= n,
                    m < n < i32::MAX,
                    whole == text_line(
                        alphabet.letters(),
                        alphabet.joint(),
                        alphabet.filler(),
                        n as int,
                        m as int,
                    ),
                    line@ == whole.take(if x == n { 0 } else { 2 * (n - x) - 1 }),
                decreases x - m,
            {
                if x < n {
                    line.push(alphabet.get_delimiter());
                }
                line.push(Self::get_token(x, alphabet));
                x -= 1;
                proof {
                    assert(line@ =~= whole.take(2 * (n - x) - 1));
                }
            }
            let mut x = m + 2;
            while x <= n
                invariant
                    m + 2 <= x <= n + 1,
                    m < n < i32::MAX,
                    whole == text_line(
                        alphabet.letters(),
                        alphabet.joint(),
                        alphabet.filler(),
                        n as int,
                        m as int,
                    ),
                    line@ == whole.take(2 * (n - m) - 1 + 2 * (x - m - 2)),
                decreases n + 1 - x,
            {
                line.push(alphabet.get_delimiter());
                line.push(Self::get_token(x, alphabet));
                x += 1;
                proof {
                    assert(line@ =~= whole.take(2 * (n - m) - 1 + 2 * (x - m - 2)));
                }
            }
        }
        proof {
            assert(line@ =~= whole);
        }
        line
    }

    /// The letter for place `x`, or the filler.
    fn get_token(x: i32, alphabet: &AlphabetSet) -> (c: char)
        ensures
            c == token(alphabet.letters(), alphabet.filler(), x as int),
    {
        if x >= 0 && (x as usize) < alphabet.get_alphabet().len() {
            alphabet.get_alphabet()[x as usize]
        } else {
            alphabet.get_false_token()
        }
    }
}

} // verus!
