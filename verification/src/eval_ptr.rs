//! The parsing cursor: a `Tokenizer` plus the context the script parser
//! needs — whether the input is terminated by a close bracket (when parsing
//! a `[...]` command substitution), and the whitespace and comment rules of
//! the command language.

use vstd::prelude::*;

use crate::tokenizer::Tokenizer;
use crate::tokenizer::bs_result;
use crate::util::block_white;
use crate::util::is_block_white;
use crate::util::is_line_white;
use crate::util::is_varname_char;
use crate::util::line_white;
use crate::util::varname_char;

verus! {

/// Whether position `i` ends the input: past the last character, or at the
/// `]` that closes a bracketed script.
pub open spec fn sp_end(s: Seq<char>, bt: bool, i: int) -> bool {
    i >= s.len() || (bt && s[i] == ']')
}

/// Whether position `i` ends a command: the end of the input, a newline,
/// or a semicolon.
pub open spec fn sp_eoc(s: Seq<char>, bt: bool, i: int) -> bool {
    sp_end(s, bt, i) || s[i] == '\n' || s[i] == ';'
}

/// The position just past a comment whose body starts at `i` (after the
/// `#`): everything through the end of the line is consumed, a backslash
/// carrying the following character along.
pub open spec fn comment_end(s: Seq<char>, bt: bool, i: int) -> int
    decreases s.len() - i,
{
    if sp_end(s, bt, i) {
        i
    } else if s[i] == '\n' {
        i + 1
    } else if s[i] == '\\' {
        if i + 1 >= s.len() {
            i + 1
        } else {
            comment_end(s, bt, i + 2)
        }
    } else {
        comment_end(s, bt, i + 1)
    }
}

/// The first position at or after `i` that does not hold horizontal
/// whitespace.
pub open spec fn line_white_end(s: Seq<char>, i: int) -> int
    decreases s.len() - i,
{
    if i >= s.len() {
        i
    } else if line_white(s[i]) {
        line_white_end(s, i + 1)
    } else {
        i
    }
}

/// The first position at or after `i` that does not hold block whitespace.
pub open spec fn block_white_end(s: Seq<char>, i: int) -> int
    decreases s.len() - i,
{
    if i >= s.len() {
        i
    } else if block_white(s[i]) {
        block_white_end(s, i + 1)
    } else {
        i
    }
}

proof fn lemma_line_white_end(s: Seq<char>, i: int, e: int)
    requires
        i <= e <= s.len(),
        forall|j: int| i <= j < e ==> line_white(#[trigger] s[j]),
        e < s.len() ==> !line_white(s[e]),
    ensures
        line_white_end(s, i) == e,
    decreases e - i,
{
    if i < e {
        lemma_line_white_end(s, i + 1, e);
    }
}

proof fn lemma_block_white_end(s: Seq<char>, i: int, e: int)
    requires
        i <= e <= s.len(),
        forall|j: int| i <= j < e ==> block_white(#[trigger] s[j]),
        e < s.len() ==> !block_white(s[e]),
    ensures
        block_white_end(s, i) == e,
    decreases e - i,
{
    if i < e {
        lemma_block_white_end(s, i + 1, e);
    }
}

/// The parsing cursor.
#[derive(Debug)]
pub struct EvalPtr {
    // The character cursor over the input.
    tok: Tokenizer,

    // Whether the input ends at a close bracket.
    bracket_term: bool,
}

impl EvalPtr {
    /// The input as a sequence of characters.
    pub closed spec fn s(&self) -> Seq<char> {
        self.tok.text()
    }

    /// The current position.
    pub closed spec fn pos(&self) -> int {
        self.tok.pos()
    }

    /// Whether the input ends at a close bracket.
    pub closed spec fn bt(&self) -> bool {
        self.bracket_term
    }

    /// The position stays within the input.
    pub open spec fn wf(&self) -> bool {
        0 <= self.pos() <= self.s().len() <= usize::MAX
    }

    /// Creates a cursor over the given input, not bracket-terminated.
    pub fn new(input: &str) -> (r: Self)
        ensures
            r.s() == input@,
            r.pos() == 0,
            r.bt() == false,
            r.wf(),
    {
        Self { tok: Tokenizer::new(input), bracket_term: false }
    }

    /// The underlying character cursor.
    pub fn tok(&self) -> (r: &Tokenizer)
        ensures
            r.text() == self.s(),
            r.pos() == self.pos(),
            r.wf() == self.wf(),
    {
        &self.tok
    }

    /// Whether the parser is parsing a bracketed script.
    pub fn is_bracket_term(&self) -> (r: bool)
        ensures
            r == self.bt(),
    {
        self.bracket_term
    }

    /// Sets whether the parser is parsing a bracketed script.
    pub fn set_bracket_term(&mut self, flag: bool)
        ensures
            final(self).s() == old(self).s(),
            final(self).pos() == old(self).pos(),
            final(self).bt() == flag,
            final(self).wf() == old(self).wf(),
    {
        self.bracket_term = flag;
    }

    /// Whether the input is at its end: past the last character, or at the
    /// close bracket of a bracketed script.
    pub fn at_end(&self) -> (r: bool)
        requires
            self.wf(),
        ensures
            r == sp_end(self.s(), self.bt(), self.pos()),
    {
        self.tok.at_end() || (self.bracket_term && self.tok.is(']'))
    }

    /// Whether the script being parsed is at its end.
    pub fn at_end_of_script(&self) -> (r: bool)
        requires
            self.wf(),
        ensures
            r == sp_end(self.s(), self.bt(), self.pos()),
    {
        self.at_end()
    }

    /// Whether the command being parsed is at its end.
    pub fn at_end_of_command(&self) -> (r: bool)
        requires
            self.wf(),
        ensures
            r == sp_eoc(self.s(), self.bt(), self.pos()),
    {
        self.tok.is('\n') || self.tok.is(';') || self.at_end()
    }

    /// Whether the next character is the given one.
    pub fn next_is(&self, ch: char) -> (r: bool)
        requires
            self.wf(),
        ensures
            r == (self.pos() < self.s().len() && self.s()[self.pos()] == ch),
    {
        self.tok.is(ch)
    }

    /// Whether the next character is horizontal whitespace.
    pub fn next_is_line_white(&self) -> (r: bool)
        requires
            self.wf(),
        ensures
            r == (self.pos() < self.s().len() && line_white(self.s()[self.pos()])),
    {
        match self.tok.peek() {
            Some(c) => is_line_white(c),
            None => false,
        }
    }

    /// Whether the next character is block whitespace.
    pub fn next_is_block_white(&self) -> (r: bool)
        requires
            self.wf(),
        ensures
            r == (self.pos() < self.s().len() && block_white(self.s()[self.pos()])),
    {
        match self.tok.peek() {
            Some(c) => is_block_white(c),
            None => false,
        }
    }

    /// Whether the next character can appear in an undelimited variable
    /// name.
    pub fn next_is_varname_char(&self) -> (r: bool)
        requires
            self.wf(),
        ensures
            r == (self.pos() < self.s().len() && varname_char(self.s()[self.pos()])),
    {
        match self.tok.peek() {
            Some(c) => is_varname_char(c),
            None => false,
        }
    }

    /// Skips block whitespace.
    pub fn skip_block_white(&mut self)
        requires
            old(self).wf(),
        ensures
            final(self).wf(),
            final(self).s() == old(self).s(),
            final(self).bt() == old(self).bt(),
            old(self).pos() <= final(self).pos() <= final(self).s().len(),
            forall|j: int|
                old(self).pos() <= j < final(self).pos() ==> block_white(
                    #[trigger] final(self).s()[j],
                ),
            final(self).pos() < final(self).s().len() ==> !block_white(
                final(self).s()[final(self).pos()],
            ),
            final(self).pos() == block_white_end(old(self).s(), old(self).pos()),
    {
        let ghost entry = self.pos();
        loop
            invariant
                self.wf(),
                self.s() == old(self).s(),
                self.bt() == old(self).bt(),
                old(self).pos() <= self.pos() <= self.s().len(),
                forall|j: int|
                    old(self).pos() <= j < self.pos() ==> block_white(#[trigger] self.s()[j]),
            ensures
                self.wf(),
                self.s() == old(self).s(),
                self.bt() == old(self).bt(),
                old(self).pos() <= self.pos() <= self.s().len(),
                forall|j: int|
                    old(self).pos() <= j < self.pos() ==> block_white(#[trigger] self.s()[j]),
                self.pos() < self.s().len() ==> !block_white(self.s()[self.pos()]),
            decreases self.s().len() - self.pos(),
        {
            match self.tok.peek() {
                None => {
                    break;
                },
                Some(c) => {
                    if is_block_white(c) {
                        self.tok.skip();
                    } else {
                        break;
                    }
                },
            }
        }
        proof {
            lemma_block_white_end(self.s(), entry, self.pos());
        }
    }

    /// Skips horizontal whitespace.
    pub fn skip_line_white(&mut self)
        requires
            old(self).wf(),
        ensures
            final(self).wf(),
            final(self).s() == old(self).s(),
            final(self).bt() == old(self).bt(),
            old(self).pos() <= final(self).pos() <= final(self).s().len(),
            forall|j: int|
                old(self).pos() <= j < final(self).pos() ==> line_white(
                    #[trigger] final(self).s()[j],
                ),
            final(self).pos() < final(self).s().len() ==> !line_white(
                final(self).s()[final(self).pos()],
            ),
            final(self).pos() == line_white_end(old(self).s(), old(self).pos()),
    {
        let ghost entry = self.pos();
        loop
            invariant
                self.wf(),
                self.s() == old(self).s(),
                self.bt() == old(self).bt(),
                old(self).pos() <= self.pos() <= self.s().len(),
                forall|j: int|
                    old(self).pos() <= j < self.pos() ==> line_white(#[trigger] self.s()[j]),
            ensures
                self.wf(),
                self.s() == old(self).s(),
                self.bt() == old(self).bt(),
                old(self).pos() <= self.pos() <= self.s().len(),
                forall|j: int|
                    old(self).pos() <= j < self.pos() ==> line_white(#[trigger] self.s()[j]),
                self.pos() < self.s().len() ==> !line_white(self.s()[self.pos()]),
            decreases self.s().len() - self.pos(),
        {
            match self.tok.peek() {
                None => {
                    break;
                },
                Some(c) => {
                    if is_line_white(c) {
                        self.tok.skip();
                    } else {
                        break;
                    }
                },
            }
        }
        proof {
            lemma_line_white_end(self.s(), entry, self.pos());
        }
    }

    /// If the cursor stands at a comment, skips it through the end of the
    /// line and returns true; otherwise returns false and moves nothing.
        pub fn skip_comment(&mut self) -> (r: bool)
        requires
            old(self).wf(),
        ensures
            final(self).wf(),
            final(self).s() == old(self).s(),
            final(self).bt() == old(self).bt(),
            r == (old(self).pos() < old(self).s().len() && old(self).s()[old(self).pos()] == '#'),
            !r ==> final(self).pos() == old(self).pos(),
            r ==> final(self).pos() == comment_end(
                old(self).s(),
                old(self).bt(),
                old(self).pos() + 1,
            ),
            r ==> final(self).pos() > old(self).pos(),
    {
        if !self.next_is('#') {
            return false;
        }
        self.tok.skip();
        let ghost s = self.s();
        let ghost bt = self.bt();
        let ghost start = self.pos();
        loop
            invariant_except_break
                comment_end(s, bt, start) == comment_end(s, bt, self.pos()),
            invariant
                s == old(self).s(),
                bt == old(self).bt(),
                start == old(self).pos() + 1,
                self.wf(),
                self.s() == s,
                self.bt() == bt,
                start <= self.pos() <= s.len(),
            ensures
                self.wf(),
                self.s() == s,
                self.bt() == bt,
                start <= self.pos(),
                self.pos() == comment_end(s, bt, start),
            decreases self.s().len() - self.pos(),
        {
            if self.at_end() {
                break;
            }
            let c = self.tok.next();
            match c {
                Some(ch) => {
                    if ch == '\\' {
                        self.tok.skip();
                    } else if ch == '\n' {
                        break;
                    }
                },
                None => {
                    break;
                },
            }
        }
        true
    }

    /// Returns the current position as a mark.
    pub fn mark(&self) -> (r: usize)
        ensures
            r == self.pos(),
    {
        self.tok.mark()
    }

    /// The text between the mark and the current position.
    pub fn token(&self, mark: usize) -> (r: String)
        requires
            self.wf(),
            mark <= self.pos(),
        ensures
            r@ == self.s().subrange(mark as int, self.pos()),
    {
        self.tok.token(mark)
    }

    /// Skips one character.
    pub fn skip(&mut self)
        requires
            old(self).wf(),
        ensures
            final(self).wf(),
            final(self).s() == old(self).s(),
            final(self).bt() == old(self).bt(),
            old(self).pos() < old(self).s().len() ==> final(self).pos() == old(self).pos() + 1,
            old(self).pos() == old(self).s().len() ==> final(self).pos() == old(self).pos(),
    {
        self.tok.skip();
    }

    /// Skips the given character, which must be next.
    pub fn skip_char(&mut self, ch: char)
        requires
            old(self).wf(),
            old(self).pos() < old(self).s().len(),
            old(self).s()[old(self).pos()] == ch,
        ensures
            final(self).wf(),
            final(self).s() == old(self).s(),
            final(self).bt() == old(self).bt(),
            final(self).pos() == old(self).pos() + 1,
    {
        self.tok.skip_char(ch);
    }

    /// Returns the next character, advancing past it.
    pub fn next(&mut self) -> (r: Option<char>)
        requires
            old(self).wf(),
        ensures
            final(self).wf(),
            final(self).s() == old(self).s(),
            final(self).bt() == old(self).bt(),
            old(self).pos() < old(self).s().len() ==> r == Some(
                old(self).s()[old(self).pos()],
            ) && final(self).pos() == old(self).pos() + 1,
            old(self).pos() == old(self).s().len() ==> r is None && final(self).pos() == old(
                self,
            ).pos(),
    {
        self.tok.next()
    }

    /// Skips characters while the predicate holds.
    pub fn skip_while<P: Fn(char) -> bool>(&mut self, predicate: P)
        requires
            old(self).wf(),
            forall|c: char| #[trigger] call_requires(predicate, (c,)),
        ensures
            final(self).wf(),
            final(self).s() == old(self).s(),
            final(self).bt() == old(self).bt(),
            old(self).pos() <= final(self).pos() <= final(self).s().len(),
            forall|j: int|
                old(self).pos() <= j < final(self).pos() ==> #[trigger] call_ensures(
                    predicate,
                    (final(self).s()[j],),
                    true,
                ),
            final(self).pos() < final(self).s().len() ==> call_ensures(
                predicate,
                (final(self).s()[final(self).pos()],),
                false,
            ),
    {
        self.tok.skip_while(predicate);
    }

    /// Substitutes a backslash escape, which must be next.
    pub fn backslash_subst(&mut self) -> (r: char)
        requires
            old(self).wf(),
            old(self).pos() < old(self).s().len(),
            old(self).s()[old(self).pos()] == '\\',
        ensures
            final(self).wf(),
            final(self).s() == old(self).s(),
            final(self).bt() == old(self).bt(),
            r == bs_result(old(self).s(), old(self).pos()).0,
            final(self).pos() == bs_result(old(self).s(), old(self).pos()).1,
            final(self).pos() > old(self).pos(),
    {
        self.tok.backslash_subst()
    }
}

} // verus!
