//! A character cursor over a source string.  The basic procedure:
//!
//! * Use `next` and `peek` to query the input in the usual way.
//! * Detect the beginning of a token and get its position from `mark`.
//! * Skip just past the end of the token using `next`, `skip`, etc.
//! * Use `token` to retrieve the text from the mark to the current position.
//!
//! The cursor also implements backslash substitution, the character-level
//! escape rules of the command language.

use vstd::prelude::*;

use crate::util::digit_val;
use crate::util::hex_digit;
use crate::util::is_hex_digit;
use crate::util::is_octal_digit;
use crate::util::octal_digit;
use crate::util::str_chars;
use crate::util::chars_to_string;

verus! {

/// The cursor.  It owns the characters of the input and a position, which
/// counts characters (not bytes) from the start of the input.
#[derive(Clone, Debug)]
pub struct Tokenizer {
    // The characters of the string being parsed.
    chars: Vec<char>,

    // The position of the next character.
    index: usize,
}

impl Tokenizer {
    /// The input as a sequence of characters.
    pub closed spec fn text(&self) -> Seq<char> {
        self.chars@
    }

    /// The current position.
    pub closed spec fn pos(&self) -> int {
        self.index as int
    }

    /// The position never runs past the end of the input.
    pub open spec fn wf(&self) -> bool {
        0 <= self.pos() <= self.text().len() <= usize::MAX
    }

    /// Creates a new tokenizer for the given input.
    pub fn new(input: &str) -> (t: Self)
        ensures
            t.text() == input@,
            t.pos() == 0,
            t.wf(),
    {
        Self { chars: str_chars(input), index: 0 }
    }

    /// Returns the entire input.
    pub fn input(&self) -> (r: String)
        ensures
            r@ == self.text(),
    {
        chars_to_string(self.chars.as_slice())
    }

    /// Returns the remainder of the input starting at the current position.
    pub fn as_str(&self) -> (r: String)
        requires
            self.wf(),
        ensures
            r@ == self.text().subrange(self.pos(), self.text().len() as int),
    {
        self.tail(self.index)
    }

    /// Returns the current position as a mark, for later use.
    pub fn mark(&self) -> (r: usize)
        ensures
            r == self.pos(),
    {
        self.index
    }

    /// Returns the remainder of the input starting at the given mark.
    pub fn tail(&self, mark: usize) -> (r: String)
        requires
            mark <= self.text().len(),
        ensures
            r@ == self.text().subrange(mark as int, self.text().len() as int),
    {
        let n: usize = self.chars.len();
        let mut out: Vec<char> = Vec::new();
        let mut i: usize = mark;
        while i < n
            invariant
                n == self.text().len(),
                mark <= i <= n,
                out@ == self.text().subrange(mark as int, i as int),
            decreases n - i,
        {
            out.push(self.chars[i]);
            i = i + 1;
            proof {
                assert(out@ =~= self.text().subrange(mark as int, i as int));
            }
        }
        chars_to_string(out.as_slice())
    }

    /// Returns the next character and advances the position.
    pub fn next(&mut self) -> (r: Option<char>)
        requires
            old(self).wf(),
        ensures
            final(self).wf(),
            final(self).text() == old(self).text(),
            old(self).pos() < old(self).text().len() ==> r == Some(
                old(self).text()[old(self).pos()],
            ) && final(self).pos() == old(self).pos() + 1,
            old(self).pos() == old(self).text().len() ==> r is None && final(self).pos() == old(
                self,
            ).pos(),
    {
        if self.index < self.chars.len() {
            let c = self.chars[self.index];
            self.index = self.index + 1;
            Some(c)
        } else {
            None
        }
    }

    /// Returns the next character without advancing the position.
    pub fn peek(&self) -> (r: Option<char>)
        requires
            self.wf(),
        ensures
            self.pos() < self.text().len() ==> r == Some(self.text()[self.pos()]),
            self.pos() == self.text().len() ==> r is None,
    {
        if self.index < self.chars.len() {
            Some(self.chars[self.index])
        } else {
            None
        }
    }

    /// Get the text between the mark and the current position.  Returns ""
    /// if mark equals the position.
    pub fn token(&self, mark: usize) -> (r: String)
        requires
            self.wf(),
            mark <= self.pos(),
        ensures
            r@ == self.text().subrange(mark as int, self.pos()),
    {
        self.token2(mark, self.index)
    }

    /// Get the text between the given mark and the given end position.
    pub fn token2(&self, mark: usize, index: usize) -> (r: String)
        requires
            mark <= index <= self.text().len(),
        ensures
            r@ == self.text().subrange(mark as int, index as int),
    {
        let mut out: Vec<char> = Vec::new();
        let mut i: usize = mark;
        while i < index
            invariant
                mark <= i <= index <= self.text().len(),
                out@ == self.text().subrange(mark as int, i as int),
            decreases index - i,
        {
            out.push(self.chars[i]);
            i = i + 1;
            proof {
                assert(out@ =~= self.text().subrange(mark as int, i as int));
            }
        }
        chars_to_string(out.as_slice())
    }

    /// Resets the position to the given mark.
    pub fn reset_to(&mut self, mark: usize)
        requires
            old(self).wf(),
            mark <= old(self).text().len(),
        ensures
            final(self).wf(),
            final(self).text() == old(self).text(),
            final(self).pos() == mark,
    {
        self.index = mark;
    }

    /// Is the next character the given character?  Does not advance.
    pub fn is(&self, ch: char) -> (r: bool)
        requires
            self.wf(),
        ensures
            r == (self.pos() < self.text().len() && self.text()[self.pos()] == ch),
    {
        if self.index < self.chars.len() {
            self.chars[self.index] == ch
        } else {
            false
        }
    }

    /// Is the predicate true for the next character?  Does not advance.
    pub fn has<P: Fn(char) -> bool>(&self, predicate: P) -> (r: bool)
        requires
            self.wf(),
            forall|c: char| #[trigger] call_requires(predicate, (c,)),
        ensures
            self.pos() < self.text().len() ==> call_ensures(
                predicate,
                (self.text()[self.pos()],),
                r,
            ),
            self.pos() == self.text().len() ==> r == false,
    {
        if self.index < self.chars.len() {
            predicate(self.chars[self.index])
        } else {
            false
        }
    }

    /// The number of characters in the input.
    pub fn text_len(&self) -> (r: usize)
        ensures
            r == self.text().len(),
    {
        self.chars.len()
    }

    /// The character at the given position.
    pub fn char_at(&self, i: usize) -> (r: char)
        requires
            i < self.text().len(),
        ensures
            r == self.text()[i as int],
    {
        self.chars[i]
    }

    /// Is there anything left in the input?
    pub fn at_end(&self) -> (r: bool)
        requires
            self.wf(),
        ensures
            r == (self.pos() == self.text().len()),
    {
        self.index == self.chars.len()
    }

    /// Skip over the next character.  This is equivalent to `next`, but
    /// communicates better.
    pub fn skip(&mut self)
        requires
            old(self).wf(),
        ensures
            final(self).wf(),
            final(self).text() == old(self).text(),
            old(self).pos() < old(self).text().len() ==> final(self).pos() == old(self).pos() + 1,
            old(self).pos() == old(self).text().len() ==> final(self).pos() == old(self).pos(),
    {
        let _ = self.next();
    }

    /// Skip over the given character.  The character must in fact be next.
    pub fn skip_char(&mut self, ch: char)
        requires
            old(self).wf(),
            old(self).pos() < old(self).text().len(),
            old(self).text()[old(self).pos()] == ch,
        ensures
            final(self).wf(),
            final(self).text() == old(self).text(),
            final(self).pos() == old(self).pos() + 1,
    {
        let _ = self.next();
    }

    /// Skips the given number of characters.  It is not an error if fewer
    /// are left in the input.
    pub fn skip_over(&mut self, num_chars: usize)
        requires
            old(self).wf(),
        ensures
            final(self).wf(),
            final(self).text() == old(self).text(),
            final(self).pos() == if old(self).pos() + num_chars <= old(self).text().len() {
                old(self).pos() + num_chars
            } else {
                old(self).text().len() as int
            },
    {
        let mut i: usize = 0;
        while i < num_chars
            invariant
                self.wf(),
                self.text() == old(self).text(),
                i <= num_chars,
                self.pos() == if old(self).pos() + i <= self.text().len() {
                    old(self).pos() + i
                } else {
                    self.text().len() as int
                },
            decreases num_chars - i,
        {
            let _ = self.next();
            i = i + 1;
        }
    }

    /// Skips over characters while the predicate is true.
    pub fn skip_while<P: Fn(char) -> bool>(&mut self, predicate: P)
        requires
            old(self).wf(),
            forall|c: char| #[trigger] call_requires(predicate, (c,)),
        ensures
            final(self).wf(),
            final(self).text() == old(self).text(),
            old(self).pos() <= final(self).pos(),
            forall|j: int|
                old(self).pos() <= j < final(self).pos() ==> #[trigger] call_ensures(
                    predicate,
                    (final(self).text()[j],),
                    true,
                ),
            final(self).pos() < final(self).text().len() ==> call_ensures(
                predicate,
                (final(self).text()[final(self).pos()],),
                false,
            ),
    {
        loop
            invariant
                self.wf(),
                forall|c: char| #[trigger] call_requires(predicate, (c,)),
                self.text() == old(self).text(),
                old(self).pos() <= self.pos(),
                forall|j: int|
                    old(self).pos() <= j < self.pos() ==> #[trigger] call_ensures(
                        predicate,
                        (self.text()[j],),
                        true,
                    ),
            ensures
                self.wf(),
                self.text() == old(self).text(),
                old(self).pos() <= self.pos(),
                forall|j: int|
                    old(self).pos() <= j < self.pos() ==> #[trigger] call_ensures(
                        predicate,
                        (self.text()[j],),
                        true,
                    ),
                self.pos() < self.text().len() ==> call_ensures(
                    predicate,
                    (self.text()[self.pos()],),
                    false,
                ),
            decreases self.text().len() - self.pos(),
        {
            if self.index == self.chars.len() {
                break;
            }
            let c = self.chars[self.index];
            if predicate(c) {
                let _ = self.next();
            } else {
                break;
            }
        }
    }
}

/// The length of the run of octal (`hex == false`) or hexadecimal
/// (`hex == true`) digits starting at position `j`, capped at `max`.
pub open spec fn digit_run(s: Seq<char>, j: int, max: nat, hex: bool) -> int
    decreases max,
{
    if max == 0 || j >= s.len() || !(if hex {
        hex_digit(s[j])
    } else {
        octal_digit(s[j])
    }) {
        0
    } else {
        1 + digit_run(s, j + 1, (max - 1) as nat, hex)
    }
}

/// The numeric value of the `k` digits starting at position `j`, read in
/// the given radix, most significant digit first.
pub open spec fn digits_val(s: Seq<char>, j: int, k: int, radix: int) -> int
    decreases k,
{
    if k <= 0 {
        0
    } else {
        digits_val(s, j, k - 1, radix) * radix + digit_val(s[j + k - 1])
    }
}

/// A Unicode scalar value: a codepoint that is not a surrogate.
pub open spec fn valid_scalar(v: int) -> bool {
    0 <= v < 0xD800 || 0xE000 <= v <= 0x10FFFF
}

/// The single-character escapes.
pub open spec fn simple_escape(c: char) -> Option<char> {
    if c == 'a' {
        Some('\x07')
    } else if c == 'b' {
        Some('\x08')
    } else if c == 'f' {
        Some('\x0c')
    } else if c == 'n' {
        Some('\n')
    } else if c == 'r' {
        Some('\r')
    } else if c == 't' {
        Some('\t')
    } else if c == 'v' {
        Some('\x0b')
    } else {
        None
    }
}

/// The result of backslash substitution at position `i` (the backslash):
/// the substituted character, and the position of what follows the escape.
pub open spec fn bs_result(s: Seq<char>, i: int) -> (char, int) {
    let j = i + 1;
    if j >= s.len() {
        ('\\', j)
    } else {
        let c = s[j];
        if c == '\n' {
            (' ', j + 1)
        } else if simple_escape(c) is Some {
            (simple_escape(c)->0, j + 1)
        } else if octal_digit(c) {
            let k = digit_run(s, j, 3, false);
            let v = digits_val(s, j, k, 8) % 256;
            ((v as u32) as char, j + k)
        } else if c == 'x' || c == 'u' || c == 'U' {
            let max: nat = if c == 'x' {
                2
            } else if c == 'u' {
                4
            } else {
                8
            };
            let k = digit_run(s, j + 1, max, true);
            if k == 0 {
                (c, j + 1)
            } else {
                let v = digits_val(s, j + 1, k, 16);
                if valid_scalar(v) {
                    ((v as u32) as char, j + 1 + k)
                } else {
                    (c, j + 1)
                }
            }
        } else {
            (c, j + 1)
        }
    }
}

/// A maximal digit run has the length the loop stopped at: every consumed
/// character is a digit, and the stop was forced by the cap, the end of the
/// input, or a non-digit.
proof fn lemma_digit_run(s: Seq<char>, j: int, max: nat, hex: bool, m: int)
    requires
        0 <= m <= max,
        j + m <= s.len(),
        forall|t: int|
            0 <= t < m ==> (if hex {
                hex_digit(#[trigger] s[j + t])
            } else {
                octal_digit(s[j + t])
            }),
        m < max ==> (j + m >= s.len() || !(if hex {
            hex_digit(s[j + m])
        } else {
            octal_digit(s[j + m])
        })),
    ensures
        digit_run(s, j, max, hex) == m,
    decreases m, max,
{
    if m == 0 {
        if max != 0 && j < s.len() {
            assert(!(if hex {
                hex_digit(s[j])
            } else {
                octal_digit(s[j])
            }));
        }
    } else {
        assert(if hex {
            hex_digit(s[j + 0])
        } else {
            octal_digit(s[j + 0])
        });
        assert forall|t: int| 0 <= t < m - 1 implies (if hex {
            hex_digit(#[trigger] s[j + 1 + t])
        } else {
            octal_digit(s[j + 1 + t])
        }) by {
            assert(if hex {
                hex_digit(s[j + (t + 1)])
            } else {
                octal_digit(s[j + (t + 1)])
            });
            assert(s[j + 1 + t] == s[j + (t + 1)]);
        }
        lemma_digit_run(s, j + 1, (max - 1) as nat, hex, m - 1);
    }
}

/// Digit values are bounded by the radix raised to the number of digits.
proof fn lemma_digits_val_bound(s: Seq<char>, j: int, k: int, radix: int)
    requires
        radix == 8 || radix == 16,
        forall|t: int| 0 <= t < k ==> digit_val(#[trigger] s[j + t]) < radix,
    ensures
        0 <= digits_val(s, j, k, radix),
        k >= 0 ==> digits_val(s, j, k, radix) < vstd::arithmetic::power::pow(radix, k as nat),
    decreases k,
{
    reveal_with_fuel(vstd::arithmetic::power::pow, 2);
    vstd::arithmetic::power::lemma_pow_positive(radix, if k >= 0 {
        k as nat
    } else {
        0
    });
    if k <= 0 {
    } else {
        lemma_digits_val_bound(s, j, k - 1, radix);
        assert(digit_val(s[j + (k - 1)]) < radix);
        assert(s[j + k - 1] == s[j + (k - 1)]);
        assert(digits_val(s, j, k - 1, radix) <= vstd::arithmetic::power::pow(
            radix,
            (k - 1) as nat,
        ) - 1);
        assert(vstd::arithmetic::power::pow(radix, k as nat) == radix
            * vstd::arithmetic::power::pow(radix, (k - 1) as nat));
        assert(digits_val(s, j, k - 1, radix) * radix <= (vstd::arithmetic::power::pow(
            radix,
            (k - 1) as nat,
        ) - 1) * radix) by {
            vstd::arithmetic::mul::lemma_mul_inequality(
                digits_val(s, j, k - 1, radix),
                vstd::arithmetic::power::pow(radix, (k - 1) as nat) - 1,
                radix,
            );
        }
        assert((vstd::arithmetic::power::pow(radix, (k - 1) as nat) - 1) * radix
            == vstd::arithmetic::power::pow(radix, (k - 1) as nat) * radix - radix) by {
            vstd::arithmetic::mul::lemma_mul_is_distributive_sub_other_way(
                radix,
                vstd::arithmetic::power::pow(radix, (k - 1) as nat),
                1,
            );
        }
    }
}

impl Tokenizer {
    /// Parses a backslash escape and returns its value.  If the escape is
    /// valid, the value is the substituted character; if not, it is the
    /// single character following the backslash.  Either way the position
    /// ends up just past the escape.  If nothing follows the backslash,
    /// returns the backslash itself.
    pub fn backslash_subst(&mut self) -> (r: char)
        requires
            old(self).wf(),
            old(self).pos() < old(self).text().len(),
            old(self).text()[old(self).pos()] == '\\',
        ensures
            final(self).wf(),
            final(self).text() == old(self).text(),
            r == bs_result(old(self).text(), old(self).pos()).0,
            final(self).pos() == bs_result(old(self).text(), old(self).pos()).1,
            final(self).pos() > old(self).pos(),
    {
        let ghost s = old(self).text();
        let ghost i = old(self).pos();

        // Skip the backslash.
        self.skip_char('\\');

        match self.next() {
            None => '\\',
            Some(c) => {
                if c == '\n' {
                    // A backslash-newline continuation substitutes one space.
                    ' '
                } else if c == 'a' {
                    '\x07'
                } else if c == 'b' {
                    '\x08'
                } else if c == 'f' {
                    '\x0c'
                } else if c == 'n' {
                    '\n'
                } else if c == 'r' {
                    '\r'
                } else if c == 't' {
                    '\t'
                } else if c == 'v' {
                    '\x0b'
                } else if is_octal_digit(c) {
                    self.octal_tail(c, Ghost(s), Ghost(i))
                } else if c == 'x' || c == 'u' || c == 'U' {
                    self.hex_tail(c, Ghost(s), Ghost(i))
                } else {
                    c
                }
            },
        }
    }

    /// Consumes the remaining digits of an octal escape; `c` is the first
    /// digit, already consumed.
    fn octal_tail(&mut self, c: char, Ghost(s): Ghost<Seq<char>>, Ghost(i): Ghost<int>) -> (r: char)
        requires
            old(self).wf(),
            old(self).text() == s,
            0 <= i,
            old(self).pos() == i + 2,
            i + 2 <= s.len(),
            s[i] == '\\',
            s[i + 1] == c,
            octal_digit(c),
        ensures
            final(self).wf(),
            final(self).text() == s,
            r == bs_result(s, i).0,
            final(self).pos() == bs_result(s, i).1,
            final(self).pos() > i + 1,
    {
        let ghost j = i + 1;
        let mut val: u32 = crate::util::digit_value(c);
        let mut m: usize = 1;
        proof {
            assert(digits_val(s, j, 0, 8) == 0);
            assert(digits_val(s, j, 1, 8) == digit_val(s[j]));
        }
        loop
            invariant
                self.wf(),
                self.text() == s,
                1 <= m <= 3,
                self.pos() == j + m,
                j + m <= s.len(),
                forall|t: int| 0 <= t < m ==> octal_digit(#[trigger] s[j + t]),
                val == digits_val(s, j, m as int, 8),
                val < 512,
            ensures
                self.wf(),
                self.text() == s,
                1 <= m <= 3,
                self.pos() == j + m,
                forall|t: int| 0 <= t < m ==> octal_digit(#[trigger] s[j + t]),
                val == digits_val(s, j, m as int, 8),
                val < 512,
                m < 3 ==> (j + m >= s.len() || !octal_digit(s[j + m])),
            decreases 3 - m,
        {
            if m >= 3 {
                break;
            }
            match self.peek() {
                None => {
                    break;
                },
                Some(d) => {
                    if is_octal_digit(d) {
                        proof {
                            assert(forall|t: int| 0 <= t < m ==> digit_val(#[trigger] s[j + t]) < 8);
                            lemma_digits_val_bound(s, j, m as int, 8);
                            vstd::arithmetic::power::lemma_pow_increases(8, m as nat, 2);
                            reveal_with_fuel(vstd::arithmetic::power::pow, 3);
                            assert(vstd::arithmetic::power::pow(8, 2) == 64);
                        }
                        val = val * 8 + crate::util::digit_value(d);
                        self.skip();
                        m = m + 1;
                    } else {
                        break;
                    }
                },
            }
        }
        proof {
            lemma_digit_run(s, j, 3, false, m as int);
        }
        let byte: u8 = (val % 256) as u8;
        proof {
            vstd::utf8::char_u32_cast((byte as char), byte as u32);
        }
        byte as char
    }

    /// Consumes the digits of a `\x`, `\u`, or `\U` escape; `c` is the
    /// introducing letter, already consumed.
    fn hex_tail(&mut self, c: char, Ghost(s): Ghost<Seq<char>>, Ghost(i): Ghost<int>) -> (r: char)
        requires
            old(self).wf(),
            old(self).text() == s,
            0 <= i,
            old(self).pos() == i + 2,
            i + 2 <= s.len(),
            s[i] == '\\',
            s[i + 1] == c,
            c == 'x' || c == 'u' || c == 'U',
        ensures
            final(self).wf(),
            final(self).text() == s,
            r == bs_result(s, i).0,
            final(self).pos() == bs_result(s, i).1,
            final(self).pos() > i + 1,
    {
        let ghost j = i + 1;
        let max: usize = if c == 'x' {
            2
        } else if c == 'u' {
            4
        } else {
            8
        };
        let start = self.mark();
        let mut val: u32 = 0;
        let mut m: usize = 0;
        proof {
            assert(digits_val(s, j + 1, 0, 16) == 0);
        }
        loop
            invariant
                self.wf(),
                self.text() == s,
                0 <= m <= max,
                max == (if c == 'x' {
                    2int
                } else if c == 'u' {
                    4int
                } else {
                    8int
                }),
                start == j + 1,
                j + 1 + m == self.pos() <= s.len(),
                forall|t: int| 0 <= t < m ==> hex_digit(#[trigger] s[j + 1 + t]),
                val == digits_val(s, j + 1, m as int, 16),
                val <= 0xFFFFFFFF,
            ensures
                self.wf(),
                self.text() == s,
                0 <= m <= max,
                j + 1 + m == self.pos() <= s.len(),
                forall|t: int| 0 <= t < m ==> hex_digit(#[trigger] s[j + 1 + t]),
                val == digits_val(s, j + 1, m as int, 16),
                m < max ==> (j + 1 + m >= s.len() || !hex_digit(s[j + 1 + m])),
            decreases max - m,
        {
            if m >= max {
                break;
            }
            match self.peek() {
                None => {
                    break;
                },
                Some(d) => {
                    if is_hex_digit(d) {
                        proof {
                            assert(forall|t: int|
                                0 <= t < m ==> digit_val(#[trigger] s[j + 1 + t]) < 16);
                            lemma_digits_val_bound(s, j + 1, m as int, 16);
                            vstd::arithmetic::power::lemma_pow_increases(16, m as nat, 7);
                            reveal_with_fuel(vstd::arithmetic::power::pow, 8);
                            assert(vstd::arithmetic::power::pow(16, 7) == 0x10000000);
                        }
                        val = val * 16 + crate::util::digit_value(d);
                        self.skip();
                        m = m + 1;
                    } else {
                        break;
                    }
                },
            }
        }
        proof {
            lemma_digit_run(s, j + 1, (if c == 'x' {
                2nat
            } else if c == 'u' {
                4nat
            } else {
                8nat
            }), true, m as int);
        }
        if m == 0 {
            return c;
        }
        match crate::util::char_from_u32(val) {
            Some(ch) => {
                proof {
                    vstd::utf8::char_u32_cast(ch, val);
                }
                ch
            },
            None => {
                self.reset_to(start);
                c
            },
        }
    }
}

} // verus!
