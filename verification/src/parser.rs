//! The script parser.  It compiles source text into the internal form:
//!
//! * A `Script` is a list of commands, each a `WordVec`.
//! * A `WordVec` is a list of `Word`s: the command name and its arguments.
//! * A `Word` is an entity the evaluator can turn into a single `Value`.
//!
//! Words come in three surface forms: braced (`{...}`, a literal), quoted
//! (`"..."`, with backslash, variable, and command substitution), and bare
//! (the same substitutions, ending at whitespace or a command terminator).
//! A `[...]` opens a nested script; `$name`, `${name}`, and `$name(index)`
//! are variable references; `{*}word` marks a word for expansion.

use vstd::prelude::*;

use crate::eval_ptr::EvalPtr;
use crate::eval_ptr::block_white_end;
use crate::eval_ptr::comment_end;
use crate::eval_ptr::line_white_end;
use crate::eval_ptr::sp_end;
use crate::eval_ptr::sp_eoc;
use crate::tokenizer::bs_result;
use crate::types::Exception;
use crate::types::VarName;
use crate::types::is_plain_error;
use crate::util::line_white;
use crate::util::block_white;
use crate::util::varname_char;
use crate::util::is_varname_char;
use crate::value::Value;

verus! {

/// A compiled script: a list of commands to execute in order.
#[derive(Debug, PartialEq)]
pub struct Script {
    // A script is a list of one or more commands to execute.
    commands: Vec<WordVec>,
}

impl Script {
    /// The commands.
    pub closed spec fn cmds(&self) -> Seq<WordVec> {
        self.commands@
    }

    /// Creates a new script object, to which commands are added during
    /// parsing.
    pub fn new() -> (r: Self)
        ensures
            r.cmds() == Seq::<WordVec>::empty(),
    {
        Self { commands: Vec::new() }
    }

    /// Returns the list of commands for evaluation.
    pub fn commands(&self) -> (r: &Vec<WordVec>)
        ensures
            r@ == self.cmds(),
    {
        &self.commands
    }
}

/// A single command: a list of `Word`s for evaluation.
#[derive(Debug, PartialEq)]
pub struct WordVec {
    words: Vec<Word>,
}

impl WordVec {
    /// The words.
    pub closed spec fn ws(&self) -> Seq<Word> {
        self.words@
    }

    /// Creates a new command, to which words are added during parsing.
    pub fn new() -> (r: Self)
        ensures
            r.ws() == Seq::<Word>::empty(),
    {
        Self { words: Vec::new() }
    }

    /// Returns the list of words for evaluation.
    pub fn words(&self) -> (r: &Vec<Word>)
        ensures
            r@ == self.ws(),
    {
        &self.words
    }
}

/// A single word of a command.  Evaluating a `Word` produces a `Value`.
#[derive(Debug, PartialEq)]
pub enum Word {
    /// A literal value, e.g. the braced word `{a b c}`.
    Value(Value),
    /// A scalar variable reference, e.g. `$name`.
    VarRef(String),
    /// An array element reference, e.g. `$a(1)`; the index is a `Word`
    /// since it can contain substitutions.
    ArrayRef(String, Box<Word>),
    /// A nested script, e.g. `[foo 1 2 3]`.
    Script(Script),
    /// A list of words whose values are concatenated into one value,
    /// e.g. `foo.$x`.
    Tokens(Vec<Word>),
    /// A word preceded by the expansion operator `{*}`.
    Expand(Box<Word>),
    /// A string literal; appears only inside a `Tokens` list.
    String(String),
}

/// The token accumulator used when parsing a bare or quoted word: it
/// gathers the word's parts, merging adjacent string literals.
pub struct Tokens {
    // The list of words.
    list: Vec<Word>,

    // Whether a string literal is being accumulated.
    got_string: bool,

    // The accumulated string literal, or empty.
    string: String,
}

impl Tokens {
    /// The words gathered so far.
    pub closed spec fn list_view(&self) -> Seq<Word> {
        self.list@
    }

    /// Whether a string literal is being accumulated.
    pub closed spec fn got(&self) -> bool {
        self.got_string
    }

    /// The accumulated string literal.
    pub closed spec fn acc(&self) -> Seq<char> {
        self.string@
    }

    /// A fresh accumulator is empty.
    pub open spec fn pristine(&self) -> bool {
        self.list_view().len() == 0 && !self.got() && self.acc().len() == 0
    }

    /// The accumulated literal is empty unless one is being gathered.
    pub open spec fn wf_acc(&self) -> bool {
        !self.got() ==> self.acc().len() == 0
    }

    /// Creates an empty accumulator.
    pub fn new() -> (r: Self)
        ensures
            r.pristine(),
    {
        Self { list: Vec::new(), got_string: false, string: String::new() }
    }

    /// Pushes a whole word.  An accumulated string literal is flushed as a
    /// `Word` before it.
    pub fn push(&mut self, word: Word)
        requires
            old(self).wf_acc(),
        ensures
            !final(self).got(),
            final(self).acc().len() == 0,
            !old(self).got() ==> final(self).list_view() == old(self).list_view().push(word),
            old(self).got() ==> final(self).list_view().len() == old(self).list_view().len() + 2
                && final(self).list_view().subrange(0, old(self).list_view().len() as int) == old(self).list_view() && (final(self).list_view()[old(self).list_view().len() as int] matches
            Word::String(st) && st@ == old(self).acc()) && final(self).list_view().last() == word,
    {
        if self.got_string {
            let mut taken: String = String::new();
            core::mem::swap(&mut taken, &mut self.string);
            self.list.push(Word::String(taken));
            self.got_string = false;
        }
        self.list.push(word);
        proof {
            if old(self).got() {
                assert(self.list_view().subrange(0, old(self).list_view().len() as int) =~= old(self).list_view());
            }
        }
    }

    /// Pushes a literal string, merging it with any literal being
    /// accumulated.
    pub fn push_str(&mut self, str: &str)
        ensures
            final(self).list_view() == old(self).list_view(),
            final(self).got(),
            final(self).acc() == old(self).acc() + str@,
    {
        self.string.append(str);
        self.got_string = true;
    }

    /// Pushes a single character, merging it with any literal being
    /// accumulated.
    pub fn push_char(&mut self, ch: char)
        ensures
            final(self).list_view() == old(self).list_view(),
            final(self).got(),
            final(self).acc() == old(self).acc().push(ch),
    {
        crate::util::string_push(&mut self.string, ch);
        self.got_string = true;
    }

    /// Takes the gathered tokens as a single word: a literal `Value` when
    /// the word was one literal, the single word when there was only one,
    /// and a `Tokens` word otherwise.
    pub fn take(self) -> (r: Word)
        ensures
            (!self.got() && self.list_view().len() == 0) ==> (r matches Word::Value(v) && v@
                == Seq::<char>::empty()),
            (self.got() && self.list_view().len() == 0) ==> (r matches Word::Value(v) && v@
                == self.acc()),
            (!self.got() && self.list_view().len() == 1) ==> r == self.list_view()[0],
            (!self.got() && self.list_view().len() >= 2) ==> (r matches Word::Tokens(ws) && ws@
                == self.list_view()),
            (self.got() && self.list_view().len() >= 1) ==> (r matches Word::Tokens(ws) && ws@.len()
                == self.list_view().len() + 1 && ws@.subrange(0, self.list_view().len() as int)
                == self.list_view() && (ws@.last() matches Word::String(st) && st@ == self.acc())),
    {
        let Tokens { mut list, got_string, string } = self;
        if got_string {
            if list.len() == 0 {
                return Word::Value(Value::from_string(string));
            } else {
                list.push(Word::String(string));
            }
        }

        if list.len() == 0 {
            Word::Value(Value::empty())
        } else if list.len() == 1 {
            match list.pop() {
                Some(w) => w,
                None => Word::Value(Value::empty()),
            }
        } else {
            proof {
                if self.got() {
                    assert(list@.subrange(0, self.list_view().len() as int) =~= self.list_view());
                }
            }
            Word::Tokens(list)
        }
    }
}

/// Scanning a braced word from position `i` (just inside the open brace)
/// with `count` open braces: the word's text and the position after the
/// matching close brace, or `None` when the close brace is missing.
/// Braces nest; a backslash carries the next character through literally,
/// except that a backslash-newline becomes a space.
pub open spec fn braced_scan(s: Seq<char>, bt: bool, i: int, count: int) -> Option<(Seq<char>, int)>
    decreases s.len() - i,
{
    if sp_end(s, bt, i) {
        None
    } else if s[i] == '{' {
        scan_cons(seq!['{'], braced_scan(s, bt, i + 1, count + 1))
    } else if s[i] == '}' {
        if count == 1 {
            Some((Seq::empty(), i + 1))
        } else {
            scan_cons(seq!['}'], braced_scan(s, bt, i + 1, count - 1))
        }
    } else if s[i] == '\\' {
        if i + 1 >= s.len() {
            None
        } else if s[i + 1] == '\n' {
            scan_cons(seq![' '], braced_scan(s, bt, i + 2, count))
        } else {
            scan_cons(seq!['\\', s[i + 1]], braced_scan(s, bt, i + 2, count))
        }
    } else {
        scan_cons(seq![s[i]], braced_scan(s, bt, i + 1, count))
    }
}

/// Prefixes the scanned text, when the scan succeeds.
pub open spec fn scan_cons(pre: Seq<char>, o: Option<(Seq<char>, int)>) -> Option<(Seq<char>, int)> {
    match o {
        None => None,
        Some((c, j)) => Some((pre + c, j)),
    }
}

/// The count of unescaped open braces minus unescaped close braces in the
/// region `[i, j)`; a backslash carries the following character, which
/// therefore counts for nothing.
pub open spec fn net_braces(s: Seq<char>, i: int, j: int) -> int
    decreases j - i,
{
    if i >= j {
        0
    } else if s[i] == '{' {
        net_braces(s, i + 1, j) + 1
    } else if s[i] == '}' {
        net_braces(s, i + 1, j) - 1
    } else if s[i] == '\\' {
        if i + 1 >= j {
            0
        } else {
            net_braces(s, i + 2, j)
        }
    } else {
        net_braces(s, i + 1, j)
    }
}

/// Brace balance: when the scan of a braced word accepts, the consumed
/// region closes exactly the braces that were open — every unescaped open
/// brace inside has found its matching close brace.  With the scan's
/// exactness this also says when a braced word is rejected: exactly when
/// no matching close brace is there to be found.
pub proof fn lemma_braced_scan_balance(
    s: Seq<char>,
    bt: bool,
    i: int,
    count: int,
    c: Seq<char>,
    j: int,
)
    requires
        braced_scan(s, bt, i, count) == Some((c, j)),
    ensures
        i < j <= s.len(),
        net_braces(s, i, j) == -count,
    decreases s.len() - i,
{
    if sp_end(s, bt, i) {
    } else if s[i] == '{' {
        let inner = braced_scan(s, bt, i + 1, count + 1);
        let (c2, j2) = inner->0;
        lemma_braced_scan_balance(s, bt, i + 1, count + 1, c2, j2);
    } else if s[i] == '}' {
        if count == 1 {
            assert(net_braces(s, i + 1, i + 1) == 0);
        } else {
            let inner = braced_scan(s, bt, i + 1, count - 1);
            let (c2, j2) = inner->0;
            lemma_braced_scan_balance(s, bt, i + 1, count - 1, c2, j2);
        }
    } else if s[i] == '\\' {
        if i + 1 >= s.len() {
        } else {
            let inner = braced_scan(s, bt, i + 2, count);
            let (c2, j2) = inner->0;
            lemma_braced_scan_balance(s, bt, i + 2, count, c2, j2);
        }
    } else {
        let inner = braced_scan(s, bt, i + 1, count);
        let (c2, j2) = inner->0;
        lemma_braced_scan_balance(s, bt, i + 1, count, c2, j2);
    }
}

/// Scanning a quoted word from position `i` (just inside the open quote):
/// `Close` carries the literal text and the position after the close quote;
/// `Special` means a substitution (`[`, `$`, or `\`) comes first, and
/// `Missing` that the input ends before the close quote.
pub enum QuoteScan {
    Missing,
    Special,
    Close(Seq<char>, int),
}

pub open spec fn quote_scan(s: Seq<char>, bt: bool, i: int) -> QuoteScan
    decreases s.len() - i,
{
    if sp_end(s, bt, i) {
        QuoteScan::Missing
    } else if s[i] == '"' {
        QuoteScan::Close(Seq::empty(), i + 1)
    } else if s[i] == '[' || s[i] == '$' || s[i] == '\\' {
        QuoteScan::Special
    } else {
        match quote_scan(s, bt, i + 1) {
            QuoteScan::Close(c, j) => QuoteScan::Close(seq![s[i]] + c, j),
            o => o,
        }
    }
}

/// Scanning a bare word from position `i`: `Lit` carries the literal text
/// and the position of the terminator; `Special` means a substitution
/// comes first.  The word ends at a command terminator or horizontal
/// whitespace — or at `)` when an array index is being parsed.
pub enum BareScan {
    Special,
    Lit(Seq<char>, int),
}

pub open spec fn bare_scan(s: Seq<char>, bt: bool, i: int, index_flag: bool) -> BareScan
    decreases s.len() - i,
{
    if sp_eoc(s, bt, i) || line_white(s[i]) || (index_flag && s[i] == ')') {
        BareScan::Lit(Seq::empty(), i)
    } else if s[i] == '[' || s[i] == '$' || s[i] == '\\' {
        BareScan::Special
    } else {
        match bare_scan(s, bt, i + 1, index_flag) {
            BareScan::Lit(c, j) => BareScan::Lit(seq![s[i]] + c, j),
            o => o,
        }
    }
}

/// A position clamped into `[lo, hi]`.  The scan functions below only
/// ever move forward through the input, and the clamp keeps that on their
/// face, so that their recursion is well-founded; the parser's progress
/// contracts show the clamp never changes a reachable position.
pub open spec fn clamp_pos(j: int, lo: int, hi: int) -> int {
    if j < lo {
        lo
    } else if j > hi {
        hi
    } else {
        j
    }
}

/// The position of the next command: whitespace and comments at a command
/// boundary are skipped.
pub open spec fn ws_comments_end(s: Seq<char>, bt: bool, i: int) -> int
    decreases s.len() - i,
{
    let a = clamp_pos(block_white_end(s, i), i, s.len() as int);
    if !sp_end(s, bt, a) && s[a] == '#' {
        ws_comments_end(s, bt, clamp_pos(comment_end(s, bt, a + 1), a + 1, s.len() as int))
    } else {
        a
    }
}

/// Where a bracketed script ends: the position after the matching `]`, or
/// the missing-close-bracket error.  `i` is the position of the `[`; the
/// nested script is bracket-terminated whatever the outer mode was.
pub open spec fn bracket_end(s: Seq<char>, i: int) -> Result<int, Seq<char>>
    decreases s.len() - i, 2int,
{
    if i >= s.len() {
        Err("missing close-bracket"@)
    } else {
        match script_end(s, true, i + 1) {
            Ok(j) => if j < s.len() && s[j] == ']' {
                Ok(j + 1)
            } else {
                Err("missing close-bracket"@)
            },
            Err(m) => Err(m),
        }
    }
}

/// Where a variable name ends, the `$` already consumed at `i - 1`: a
/// braced name, a scalar name, or a name with an index word.
pub open spec fn varname_end(s: Seq<char>, bt: bool, i: int) -> Result<int, Seq<char>>
    decreases s.len() - i, 1int,
{
    if i >= s.len() {
        Err("missing close-brace for variable name"@)
    } else if s[i] == '{' {
        let e = find_char(s, i + 1, '}');
        if e >= s.len() {
            Err("missing close-brace for variable name"@)
        } else {
            Ok(e + 1)
        }
    } else {
        let e = clamp_pos(varname_run_end(s, i), i, s.len() as int);
        if e >= s.len() || s[e] != '(' {
            Ok(e)
        } else {
            match frags_end(s, bt, e + 1, false, true) {
                Ok(j) => if j < s.len() && s[j] == ')' {
                    Ok(j + 1)
                } else {
                    Err("missing )"@)
                },
                Err(m) => Err(m),
            }
        }
    }
}

/// Where the fragments of a quoted (`quoted`) or bare word end.  For a
/// quoted word the result is the position after the close quote; for a
/// bare word it is the terminator's position.  Substitutions are scanned
/// through: a nested script to its close bracket, a variable reference to
/// its end, a backslash escape to what follows it.
pub open spec fn frags_end(
    s: Seq<char>,
    bt: bool,
    i: int,
    quoted: bool,
    index_flag: bool,
) -> Result<int, Seq<char>>
    decreases s.len() - i, 3int,
{
    if quoted && sp_end(s, bt, i) {
        Err(missing_quote_msg())
    } else if quoted && s[i] == '"' {
        Ok(i + 1)
    } else if !quoted && (sp_eoc(s, bt, i) || line_white(s[i]) || (index_flag && s[i] == ')')) {
        Ok(i)
    } else if s[i] == '[' {
        match bracket_end(s, i) {
            Ok(j) => frags_end(s, bt, clamp_pos(j, i + 1, s.len() as int), quoted, index_flag),
            Err(m) => Err(m),
        }
    } else if s[i] == '$' {
        if i + 1 < s.len() && (varname_char(s[i + 1]) || s[i + 1] == '{') {
            match varname_end(s, bt, i + 1) {
                Ok(j) => frags_end(s, bt, clamp_pos(j, i + 1, s.len() as int), quoted, index_flag),
                Err(m) => Err(m),
            }
        } else {
            frags_end(s, bt, i + 1, quoted, index_flag)
        }
    } else if s[i] == '\\' {
        frags_end(s, bt, clamp_pos(bs_result(s, i).1, i + 1, s.len() as int), quoted, index_flag)
    } else {
        frags_end(s, bt, i + 1, quoted, index_flag)
    }
}

/// Where the next word ends, or which parse error it raises: the braced,
/// quoted, bare, and `{*}` forms, as `parse_next_word` dispatches them.
pub open spec fn word_end(s: Seq<char>, bt: bool, i: int) -> Result<int, Seq<char>>
    decreases s.len() - i, 5int,
{
    if expand_op(s, i) {
        if sp_end(s, bt, i + 3) || block_white(s[i + 3]) {
            Ok(i + 3)
        } else {
            word_end(s, bt, i + 3)
        }
    } else if i < s.len() && s[i] == '{' {
        match braced_scan(s, bt, i + 1, 1) {
            None => Err("missing close-brace"@),
            Some((c, j)) => if sp_eoc(s, bt, j) || line_white(s[j]) {
                Ok(j)
            } else {
                Err("extra characters after close-brace"@)
            },
        }
    } else if i < s.len() && s[i] == '"' {
        match frags_end(s, bt, i + 1, true, false) {
            Ok(j) => if sp_eoc(s, bt, j) || line_white(s[j]) {
                Ok(j)
            } else {
                Err("extra characters after close-quote"@)
            },
            Err(m) => Err(m),
        }
    } else {
        frags_end(s, bt, i, false, false)
    }
}

/// Where a command's words end: words separated by horizontal whitespace,
/// up to a command terminator.
pub open spec fn words_end(s: Seq<char>, bt: bool, i: int) -> Result<int, Seq<char>>
    decreases s.len() - i, 6int,
{
    if sp_eoc(s, bt, i) {
        Ok(i)
    } else {
        match word_end(s, bt, i) {
            Ok(j) => words_end(
                s,
                bt,
                clamp_pos(
                    line_white_end(s, clamp_pos(j, i + 1, s.len() as int)),
                    i + 1,
                    s.len() as int,
                ),
            ),
            Err(m) => Err(m),
        }
    }
}

/// Where one command ends: leading whitespace and comments, the words,
/// and a trailing semicolon if one is there.
pub open spec fn command_end(s: Seq<char>, bt: bool, i: int) -> Result<int, Seq<char>>
    decreases s.len() - i, 7int,
{
    if sp_end(s, bt, i) {
        Ok(i)
    } else {
        let a = clamp_pos(ws_comments_end(s, bt, i), i, s.len() as int);
        match words_end(s, bt, a) {
            Ok(j) => if j < s.len() && s[j] == ';' {
                Ok(j + 1)
            } else {
                Ok(j)
            },
            Err(m) => Err(m),
        }
    }
}

/// Where a script ends: its commands in order, to the end of the input or
/// the closing bracket.  `Ok` carries the stopping position; `Err` the
/// message of the first parse error.  This scan settles, for every input,
/// whether the parser succeeds and which error it raises when it does not.
pub open spec fn script_end(s: Seq<char>, bt: bool, i: int) -> Result<int, Seq<char>>
    decreases s.len() - i, 8int,
{
    if sp_end(s, bt, i) {
        Ok(i)
    } else {
        match command_end(s, bt, i) {
            Ok(j) => script_end(s, bt, clamp_pos(j, i + 1, s.len() as int)),
            Err(m) => Err(m),
        }
    }
}

/// One fragment of a bare or quoted word: a maximal run of literal text,
/// or the word of one substitution.
pub enum FragView {
    Lit(Seq<char>),
    Sub(Word),
}

/// The fragment a token-list word stands for: a flushed string literal is
/// literal text, anything else is a substitution's word.
pub open spec fn frag_of(w: Word) -> FragView {
    match w {
        Word::String(st) => FragView::Lit(st@),
        _ => FragView::Sub(w),
    }
}

pub open spec fn frags_of(ws: Seq<Word>) -> Seq<FragView> {
    ws.map_values(|w: Word| frag_of(w))
}

/// How a finished literal run and the fragments that follow join: a
/// leading literal of the remainder continues the open run.
pub open spec fn seam(done: Seq<FragView>, lit: Seq<char>, rest: Seq<FragView>) -> Seq<FragView> {
    if lit.len() == 0 {
        done + rest
    } else if rest.len() > 0 && rest[0] is Lit {
        done + seq![FragView::Lit(lit + rest[0]->Lit_0)] + rest.drop_first()
    } else {
        done + seq![FragView::Lit(lit)] + rest
    }
}

/// The region `[i, j)` of a quoted (`quoted`) or bare word decomposes into
/// exactly these fragments: literal runs are maximal and never empty, a
/// `[...]` contributes a nested-script word, a `$name` contributes a
/// variable reference of the right shape, and a backslash escape or plain
/// dollar sign contributes its substituted character to the literal run.
pub open spec fn frags_rel(
    s: Seq<char>,
    bt: bool,
    i: int,
    quoted: bool,
    index_flag: bool,
    frags: Seq<FragView>,
    j: int,
) -> bool
    decreases s.len() - i, 0int,
{
    if quoted && sp_end(s, bt, i) {
        false
    } else if quoted && s[i] == '"' {
        frags.len() == 0 && j == i + 1
    } else if !quoted && (sp_eoc(s, bt, i) || line_white(s[i]) || (index_flag && s[i] == ')')) {
        frags.len() == 0 && j == i
    } else if s[i] == '[' {
        frags.len() > 0 && (frags[0] matches FragView::Sub(w) && w matches Word::Script(_)) && (
        bracket_end(s, i) matches Ok(k) && frags_rel(
            s,
            bt,
            clamp_pos(k, i + 1, s.len() as int),
            quoted,
            index_flag,
            frags.drop_first(),
            j,
        ))
    } else if s[i] == '$' {
        if i + 1 < s.len() && (varname_char(s[i + 1]) || s[i + 1] == '{') {
            frags.len() > 0 && (frags[0] matches FragView::Sub(w) && varname_word_shape(
                s,
                bt,
                i + 1,
                w,
            ) && (w is VarRef || w is ArrayRef)) && (varname_end(s, bt, i + 1) matches Ok(k)
                && frags_rel(
                s,
                bt,
                clamp_pos(k, i + 1, s.len() as int),
                quoted,
                index_flag,
                frags.drop_first(),
                j,
            ))
        } else {
            frags_lit_step(s, bt, i + 1, quoted, index_flag, frags, j, '$')
        }
    } else if s[i] == '\\' {
        frags_lit_step(
            s,
            bt,
            clamp_pos(bs_result(s, i).1, i + 1, s.len() as int),
            quoted,
            index_flag,
            frags,
            j,
            bs_result(s, i).0,
        )
    } else {
        frags_lit_step(s, bt, i + 1, quoted, index_flag, frags, j, s[i])
    }
}

/// One literal character joins the open literal run: the head fragment is
/// a literal starting with it, and when the character closes the run, no
/// literal fragment follows directly.
pub open spec fn frags_lit_step(
    s: Seq<char>,
    bt: bool,
    p: int,
    quoted: bool,
    index_flag: bool,
    frags: Seq<FragView>,
    j: int,
    c: char,
) -> bool
    decreases s.len() - p, 1int,
{
    frags.len() > 0 && (frags[0] matches FragView::Lit(t) && t.len() > 0 && t[0] == c && (if t.len()
        == 1 {
        (frags.drop_first().len() > 0 ==> !(frags.drop_first()[0] is Lit)) && frags_rel(
            s,
            bt,
            p,
            quoted,
            index_flag,
            frags.drop_first(),
            j,
        )
    } else {
        frags_rel(
            s,
            bt,
            p,
            quoted,
            index_flag,
            seq![FragView::Lit(t.drop_first())] + frags.drop_first(),
            j,
        )
    }))
}

/// The single word a fragment list collapses to: the empty value for no
/// fragments, the lone fragment's value or word for one, and a compound
/// word holding them all otherwise.
pub open spec fn frag_word_ok(frags: Seq<FragView>, w: Word) -> bool {
    if frags.len() == 0 {
        w matches Word::Value(v) && v@ == Seq::<char>::empty()
    } else if frags.len() == 1 {
        match frags[0] {
            FragView::Lit(t) => w matches Word::Value(v) && v@ == t,
            FragView::Sub(x) => w == x,
        }
    } else {
        w matches Word::Tokens(ws) && ws@.len() == frags.len() && (forall|k: int|
            0 <= k < frags.len() ==> frag_matches(frags[k], #[trigger] ws@[k]))
    }
}

pub open spec fn frag_matches(f: FragView, w: Word) -> bool {
    match f {
        FragView::Lit(t) => w matches Word::String(st) && st@ == t,
        FragView::Sub(x) => w == x,
    }
}

/// Completing a partially-read word: any fragment decomposition of the
/// rest extends, through the open literal run, to a decomposition of the
/// whole word.
spec fn frags_completion(
    s: Seq<char>,
    bt: bool,
    quoted: bool,
    index_flag: bool,
    i0: int,
    cur: int,
    done: Seq<FragView>,
    lit: Seq<char>,
) -> bool {
    forall|rest: Seq<FragView>, j: int|
        #[trigger] frags_rel(s, bt, cur, quoted, index_flag, rest, j) ==> frags_rel(
            s,
            bt,
            i0,
            quoted,
            index_flag,
            seam(done, lit, rest),
            j,
        )
}

/// One literal character extends the open run: reading it moves the
/// completion invariant from `cur` to `p`.
proof fn lemma_completion_lit_step(
    s: Seq<char>,
    bt: bool,
    quoted: bool,
    index_flag: bool,
    i0: int,
    cur: int,
    p: int,
    done: Seq<FragView>,
    lit: Seq<char>,
    c: char,
)
    requires
        frags_completion(s, bt, quoted, index_flag, i0, cur, done, lit),
        forall|fr: Seq<FragView>, jj: int|
            #[trigger] frags_rel(s, bt, cur, quoted, index_flag, fr, jj) <==> frags_lit_step(
                s,
                bt,
                p,
                quoted,
                index_flag,
                fr,
                jj,
                c,
            ),
    ensures
        frags_completion(s, bt, quoted, index_flag, i0, p, done, lit.push(c)),
{
    assert forall|rest: Seq<FragView>, j: int|
        #[trigger] frags_rel(s, bt, p, quoted, index_flag, rest, j) implies frags_rel(
        s,
        bt,
        i0,
        quoted,
        index_flag,
        seam(done, lit.push(c), rest),
        j,
    ) by {
        reveal_with_fuel(frags_rel, 3);
        reveal_with_fuel(frags_lit_step, 3);
        if rest.len() > 0 && rest[0] is Lit {
            let t = rest[0]->Lit_0;
            assert(t.len() > 0);
            let rest0 = seq![FragView::Lit(seq![c] + t)] + rest.drop_first();
            assert((seq![c] + t).drop_first() =~= t);
            assert(seq![FragView::Lit((seq![c] + t).drop_first())] + rest0.drop_first() =~= rest);
            assert(frags_lit_step(s, bt, p, quoted, index_flag, rest0, j, c));
            assert(frags_rel(s, bt, cur, quoted, index_flag, rest0, j));
            assert(frags_rel(s, bt, i0, quoted, index_flag, seam(done, lit, rest0), j));
            assert(lit.push(c) + t =~= lit + (seq![c] + t));
            if lit.len() == 0 {
                assert(seam(done, lit, rest0) =~= done + rest0);
                assert(seam(done, lit.push(c), rest) =~= done + seq![
                    FragView::Lit(lit.push(c) + t),
                ] + rest.drop_first());
                assert(done + rest0 =~= done + seq![FragView::Lit(lit.push(c) + t)]
                    + rest.drop_first());
            } else {
                assert(seam(done, lit, rest0) =~= done + seq![FragView::Lit(lit + (seq![c] + t))]
                    + rest0.drop_first());
                assert(seam(done, lit.push(c), rest) =~= done + seq![
                    FragView::Lit(lit.push(c) + t),
                ] + rest.drop_first());
                assert(rest0.drop_first() =~= rest.drop_first());
            }
            assert(seam(done, lit.push(c), rest) =~= seam(done, lit, rest0));
        } else {
            let rest0 = seq![FragView::Lit(seq![c])] + rest;
            assert(rest0.drop_first() =~= rest);
            assert(frags_lit_step(s, bt, p, quoted, index_flag, rest0, j, c));
            assert(frags_rel(s, bt, cur, quoted, index_flag, rest0, j));
            assert(frags_rel(s, bt, i0, quoted, index_flag, seam(done, lit, rest0), j));
            assert(lit.push(c) =~= lit + seq![c]);
            if lit.len() == 0 {
                assert(seam(done, lit, rest0) =~= done + rest0);
                assert(seam(done, lit.push(c), rest) =~= done + seq![FragView::Lit(lit.push(c))]
                    + rest);
                assert(seq![FragView::Lit(lit.push(c))] =~= seq![FragView::Lit(seq![c])]);
            } else {
                assert(seam(done, lit, rest0) =~= done + seq![FragView::Lit(lit + seq![c])]
                    + rest0.drop_first());
                assert(seam(done, lit.push(c), rest) =~= done + seq![FragView::Lit(lit.push(c))]
                    + rest);
            }
            assert(seam(done, lit.push(c), rest) =~= seam(done, lit, rest0));
        }
    }
}

/// One substitution word closes the open literal run and joins the done
/// fragments: reading it moves the completion invariant from `cur` to `p`
/// with an empty run.
proof fn lemma_completion_sub_step(
    s: Seq<char>,
    bt: bool,
    quoted: bool,
    index_flag: bool,
    i0: int,
    cur: int,
    p: int,
    done: Seq<FragView>,
    lit: Seq<char>,
    done2: Seq<FragView>,
    w: Word,
)
    requires
        frags_completion(s, bt, quoted, index_flag, i0, cur, done, lit),
        forall|fr: Seq<FragView>, jj: int|
            (fr.len() > 0 && fr[0] == FragView::Sub(w) && #[trigger] frags_rel(
                s,
                bt,
                p,
                quoted,
                index_flag,
                fr.drop_first(),
                jj,
            )) ==> frags_rel(s, bt, cur, quoted, index_flag, fr, jj),
        done2 == done + (if lit.len() == 0 {
            Seq::<FragView>::empty()
        } else {
            seq![FragView::Lit(lit)]
        }) + seq![FragView::Sub(w)],
    ensures
        frags_completion(s, bt, quoted, index_flag, i0, p, done2, Seq::<char>::empty()),
{
    assert forall|rest: Seq<FragView>, j: int|
        #[trigger] frags_rel(s, bt, p, quoted, index_flag, rest, j) implies frags_rel(
        s,
        bt,
        i0,
        quoted,
        index_flag,
        seam(done2, Seq::<char>::empty(), rest),
        j,
    ) by {
        let rest0 = seq![FragView::Sub(w)] + rest;
        assert(rest0.drop_first() =~= rest);
        assert(frags_rel(s, bt, cur, quoted, index_flag, rest0, j));
        assert(frags_rel(s, bt, i0, quoted, index_flag, seam(done, lit, rest0), j));
        assert(seam(done, lit, rest0) =~= done2 + rest);
        assert(seam(done2, Seq::<char>::empty(), rest) =~= done2 + rest);
    }
}

/// The word the accumulator yields collapses the gathered fragments: the
/// token list and the open literal run, joined, are exactly the fragment
/// decomposition the word answers for.
proof fn lemma_take_frag_word(
    tl_f: Seq<Word>,
    tg_f: bool,
    ta_f: Seq<char>,
    w: Word,
    total: Seq<FragView>,
)
    requires
        total == seam(frags_of(tl_f), ta_f, Seq::<FragView>::empty()),
        tg_f ==> ta_f.len() > 0,
        !tg_f ==> ta_f.len() == 0,
        tl_f.len() > 0 ==> !(tl_f.last() is String),
        (!tg_f && tl_f.len() == 0) ==> (w matches Word::Value(v) && v@ == Seq::<char>::empty()),
        (tg_f && tl_f.len() == 0) ==> (w matches Word::Value(v) && v@ == ta_f),
        (!tg_f && tl_f.len() == 1) ==> w == tl_f[0],
        (!tg_f && tl_f.len() >= 2) ==> (w matches Word::Tokens(ws) && ws@ == tl_f),
        (tg_f && tl_f.len() >= 1) ==> (w matches Word::Tokens(ws) && ws@.len() == tl_f.len() + 1
            && ws@.subrange(0, tl_f.len() as int) == tl_f && (ws@.last() matches Word::String(st)
            && st@ == ta_f)),
    ensures
        frag_word_ok(total, w),
{
    let done_f = frags_of(tl_f);
    if ta_f.len() == 0 {
        assert(total =~= done_f);
    } else {
        assert(total =~= done_f + seq![FragView::Lit(ta_f)]);
    }
    if !tg_f && tl_f.len() == 0 {
        assert(frag_word_ok(total, w));
    } else if tg_f && tl_f.len() == 0 {
        assert(frag_word_ok(total, w));
    } else if !tg_f && tl_f.len() == 1 {
        assert(total =~= seq![frag_of(tl_f[0])]);
        assert(!(tl_f[0] is String));
        assert(frag_word_ok(total, w));
    } else if !tg_f {
        let ws = w->Tokens_0;
        assert(ws@ == tl_f);
        assert forall|k: int| 0 <= k < total.len() implies frag_matches(
            total[k],
            #[trigger] ws@[k],
        ) by {
            assert(total[k] == frag_of(tl_f[k]));
        }
        assert(frag_word_ok(total, w));
    } else {
        let ws = w->Tokens_0;
        assert(ws@.len() == tl_f.len() + 1);
        assert forall|k: int| 0 <= k < total.len() implies frag_matches(
            total[k],
            #[trigger] ws@[k],
        ) by {
            if k < tl_f.len() {
                assert(ws@[k] == ws@.subrange(0, tl_f.len() as int)[k]);
                assert(total[k] == frag_of(tl_f[k]));
            } else {
                assert(ws@[k] == ws@.last());
            }
        }
        assert(frag_word_ok(total, w));
    }
}

/// A nested-script substitution read at `cur` moves the completion
/// invariant to the position after its close bracket.
proof fn lemma_step_bracket(
    s: Seq<char>,
    bt: bool,
    quoted: bool,
    index_flag: bool,
    base: int,
    cur: int,
    p: int,
    done: Seq<FragView>,
    lit: Seq<char>,
    done2: Seq<FragView>,
    w: Word,
)
    requires
        frags_completion(s, bt, quoted, index_flag, base, cur, done, lit),
        0 <= cur < s.len(),
        s[cur] == '[',
        quoted ==> !sp_end(s, bt, cur),
        !quoted ==> !(sp_eoc(s, bt, cur) || line_white(s[cur]) || (index_flag && s[cur] == ')')),
        w matches Word::Script(_),
        bracket_end(s, cur) matches Ok(k) && p == clamp_pos(k, cur + 1, s.len() as int),
        done2 == done + (if lit.len() == 0 {
            Seq::<FragView>::empty()
        } else {
            seq![FragView::Lit(lit)]
        }) + seq![FragView::Sub(w)],
    ensures
        frags_completion(s, bt, quoted, index_flag, base, p, done2, Seq::<char>::empty()),
{
    assert forall|fr: Seq<FragView>, jj: int|
        (fr.len() > 0 && fr[0] == FragView::Sub(w) && #[trigger] frags_rel(
            s,
            bt,
            p,
            quoted,
            index_flag,
            fr.drop_first(),
            jj,
        )) implies frags_rel(s, bt, cur, quoted, index_flag, fr, jj) by {}
    lemma_completion_sub_step(s, bt, quoted, index_flag, base, cur, p, done, lit, done2, w);
}

/// A variable substitution read at `cur` (the `$` position) moves the
/// completion invariant to the position after the reference.
#[verifier::rlimit(100)]
proof fn lemma_step_dollar(
    s: Seq<char>,
    bt: bool,
    quoted: bool,
    index_flag: bool,
    base: int,
    cur: int,
    p: int,
    done: Seq<FragView>,
    lit: Seq<char>,
    done2: Seq<FragView>,
    w: Word,
)
    requires
        frags_completion(s, bt, quoted, index_flag, base, cur, done, lit),
        0 <= cur < s.len(),
        s[cur] == '$',
        cur + 1 < s.len() && (varname_char(s[cur + 1]) || s[cur + 1] == '{'),
        quoted ==> !sp_end(s, bt, cur),
        !quoted ==> !(sp_eoc(s, bt, cur) || line_white(s[cur]) || (index_flag && s[cur] == ')')),
        varname_word_shape(s, bt, cur + 1, w),
        w is VarRef || w is ArrayRef,
        varname_end(s, bt, cur + 1) matches Ok(k) && p == clamp_pos(k, cur + 1, s.len() as int),
        done2 == done + (if lit.len() == 0 {
            Seq::<FragView>::empty()
        } else {
            seq![FragView::Lit(lit)]
        }) + seq![FragView::Sub(w)],
    ensures
        frags_completion(s, bt, quoted, index_flag, base, p, done2, Seq::<char>::empty()),
{
    assert forall|fr: Seq<FragView>, jj: int|
        (fr.len() > 0 && fr[0] == FragView::Sub(w) && #[trigger] frags_rel(
            s,
            bt,
            p,
            quoted,
            index_flag,
            fr.drop_first(),
            jj,
        )) implies frags_rel(s, bt, cur, quoted, index_flag, fr, jj) by {}
    lemma_completion_sub_step(s, bt, quoted, index_flag, base, cur, p, done, lit, done2, w);
}

/// A literal character read at `cur` — a plain character, a backslash
/// escape, or a dollar sign that starts no variable name — extends the
/// open run.
proof fn lemma_step_lit(
    s: Seq<char>,
    bt: bool,
    quoted: bool,
    index_flag: bool,
    base: int,
    cur: int,
    p: int,
    done: Seq<FragView>,
    lit: Seq<char>,
    c: char,
)
    requires
        frags_completion(s, bt, quoted, index_flag, base, cur, done, lit),
        0 <= cur < s.len(),
        quoted ==> !sp_end(s, bt, cur) && s[cur] != '"',
        !quoted ==> !(sp_eoc(s, bt, cur) || line_white(s[cur]) || (index_flag && s[cur] == ')')),
        s[cur] != '[',
        (s[cur] == '$' && !(cur + 1 < s.len() && (varname_char(s[cur + 1]) || s[cur + 1] == '{'))
            && p == cur + 1 && c == '$') || (s[cur] == '\\' && p == clamp_pos(
            bs_result(s, cur).1,
            cur + 1,
            s.len() as int,
        ) && c == bs_result(s, cur).0) || (s[cur] != '$' && s[cur] != '\\' && p == cur + 1 && c
            == s[cur]),
    ensures
        frags_completion(s, bt, quoted, index_flag, base, p, done, lit.push(c)),
{
    assert forall|fr: Seq<FragView>, jj: int|
        #[trigger] frags_rel(s, bt, cur, quoted, index_flag, fr, jj) <==> frags_lit_step(
            s,
            bt,
            p,
            quoted,
            index_flag,
            fr,
            jj,
            c,
        ) by {}
    lemma_completion_lit_step(s, bt, quoted, index_flag, base, cur, p, done, lit, c);
}

/// At the close quote, the gathered fragments decompose the whole quoted
/// word, and the word the accumulator yields answers for them.
proof fn lemma_close_witness(
    s: Seq<char>,
    bt: bool,
    base: int,
    cur: int,
    tl_f: Seq<Word>,
    tg_f: bool,
    ta_f: Seq<char>,
    w: Word,
)
    requires
        frags_completion(s, bt, true, false, base, cur, frags_of(tl_f), ta_f),
        0 <= cur < s.len(),
        s[cur] == '"',
        !sp_end(s, bt, cur),
        tg_f ==> ta_f.len() > 0,
        !tg_f ==> ta_f.len() == 0,
        tl_f.len() > 0 ==> !(tl_f.last() is String),
        (!tg_f && tl_f.len() == 0) ==> (w matches Word::Value(v) && v@ == Seq::<char>::empty()),
        (tg_f && tl_f.len() == 0) ==> (w matches Word::Value(v) && v@ == ta_f),
        (!tg_f && tl_f.len() == 1) ==> w == tl_f[0],
        (!tg_f && tl_f.len() >= 2) ==> (w matches Word::Tokens(ws) && ws@ == tl_f),
        (tg_f && tl_f.len() >= 1) ==> (w matches Word::Tokens(ws) && ws@.len() == tl_f.len() + 1
            && ws@.subrange(0, tl_f.len() as int) == tl_f && (ws@.last() matches Word::String(st)
            && st@ == ta_f)),
    ensures
        exists|frags: Seq<FragView>|
            #[trigger] frags_rel(s, bt, base, true, false, frags, cur + 1) && frag_word_ok(
                frags,
                w,
            ),
{
    assert(frags_rel(s, bt, cur, true, false, Seq::<FragView>::empty(), cur + 1));
    let total = seam(frags_of(tl_f), ta_f, Seq::<FragView>::empty());
    assert(frags_rel(s, bt, base, true, false, total, cur + 1));
    lemma_take_frag_word(tl_f, tg_f, ta_f, w, total);
}

/// The fragments of a token list extended by an optional flushed literal
/// and one substitution word.
proof fn lemma_frags_of_flush_push(tl2: Seq<Word>, tl0: Seq<Word>, lit0: Seq<char>, w: Word)
    requires
        !(w is String),
        lit0.len() == 0 ==> tl2 == tl0.push(w),
        lit0.len() > 0 ==> tl2.len() == tl0.len() + 2 && tl2.subrange(0, tl0.len() as int) == tl0
            && (tl2[tl0.len() as int] matches Word::String(st) && st@ == lit0) && tl2.last() == w,
    ensures
        frags_of(tl2) == frags_of(tl0) + (if lit0.len() == 0 {
            Seq::<FragView>::empty()
        } else {
            seq![FragView::Lit(lit0)]
        }) + seq![FragView::Sub(w)],
{
    if lit0.len() == 0 {
        assert(frags_of(tl2) =~= frags_of(tl0) + Seq::<FragView>::empty() + seq![
            FragView::Sub(w),
        ]);
    } else {
        assert forall|k: int| 0 <= k < tl0.len() implies #[trigger] tl2[k] == tl0[k] by {
            assert(tl2[k] == tl2.subrange(0, tl0.len() as int)[k]);
        }
        assert(frags_of(tl2) =~= frags_of(tl0) + seq![FragView::Lit(lit0)] + seq![
            FragView::Sub(w),
        ]);
    }
}

/// The region `[i, j)` parses to exactly this word: the `{*}` operator
/// and its inner word, a braced literal, or a quoted or bare word that
/// collapses a fragment decomposition of the region.
#[verifier::opaque]
pub open spec fn word_rel(s: Seq<char>, bt: bool, i: int, w: Word, j: int) -> bool
    decreases s.len() - i, 0int,
{
    if expand_op(s, i) {
        if sp_end(s, bt, i + 3) || block_white(s[i + 3]) {
            w matches Word::Value(v) && v@ == "*"@ && j == i + 3
        } else {
            w matches Word::Expand(bx) && word_rel(s, bt, i + 3, *bx, j)
        }
    } else if i < s.len() && s[i] == '{' {
        braced_scan(s, bt, i + 1, 1) matches Some((c, jj)) && (w matches Word::Value(v) && v@ == c)
            && j == jj
    } else if i < s.len() && s[i] == '"' {
        exists|frags: Seq<FragView>|
            #[trigger] frags_rel(s, bt, i + 1, true, false, frags, j) && frag_word_ok(frags, w)
    } else {
        exists|frags: Seq<FragView>|
            #[trigger] frags_rel(s, bt, i, false, false, frags, j) && frag_word_ok(frags, w)
    }
}

/// The region `[i, j)` parses to exactly these words, in source order,
/// separated by horizontal whitespace and ending at a command terminator.
#[verifier::opaque]
pub open spec fn words_rel(s: Seq<char>, bt: bool, i: int, ws: Seq<Word>, j: int) -> bool
    decreases s.len() - i, 1int,
{
    if sp_eoc(s, bt, i) {
        ws.len() == 0 && j == i
    } else {
        match word_end(s, bt, i) {
            Ok(m) => ws.len() > 0 && word_rel(s, bt, i, ws[0], m) && words_rel(
                s,
                bt,
                clamp_pos(
                    line_white_end(s, clamp_pos(m, i + 1, s.len() as int)),
                    i + 1,
                    s.len() as int,
                ),
                ws.drop_first(),
                j,
            ),
            Err(m) => false,
        }
    }
}

/// The region `[i, j)` parses to exactly one command with these words:
/// leading whitespace and comments contribute nothing, and a trailing
/// semicolon is consumed.  An empty command (a comment, a blank line, or
/// the end of the script) has no words.
#[verifier::opaque]
pub open spec fn command_rel(s: Seq<char>, bt: bool, i: int, ws: Seq<Word>, j: int) -> bool
    decreases s.len() - i, 2int,
{
    if sp_end(s, bt, i) {
        ws.len() == 0 && j == i
    } else {
        let a = clamp_pos(ws_comments_end(s, bt, i), i, s.len() as int);
        match words_end(s, bt, a) {
            Ok(p2) => words_rel(s, bt, a, ws, p2) && j == (if p2 < s.len() && s[p2] == ';' {
                p2 + 1
            } else {
                p2
            }),
            Err(m) => false,
        }
    }
}

/// The region `[i, j)` parses to exactly these commands, in source order.
/// Together with `script_end`, this settles the parse: whether it
/// succeeds, with which error it fails, and the commands and words that
/// come back.  A script nested inside a word's fragments is held to its
/// region here; its own commands are related where it is parsed, by
/// `parse_brackets`' contract.
#[verifier::opaque]
pub open spec fn script_rel(s: Seq<char>, bt: bool, i: int, cmds: Seq<WordVec>, j: int) -> bool
    decreases s.len() - i, 3int,
{
    if sp_end(s, bt, i) {
        cmds.len() == 0 && j == i
    } else {
        match command_end(s, bt, i) {
            Ok(m) => cmds.len() > 0 && command_rel(s, bt, i, cmds[0].ws(), m) && script_rel(
                s,
                bt,
                clamp_pos(m, i + 1, s.len() as int),
                cmds.drop_first(),
                j,
            ),
            Err(m) => false,
        }
    }
}

/// Completing a partially-read command: any word decomposition of the
/// rest extends to one of the whole command.
spec fn words_completion(s: Seq<char>, bt: bool, base: int, cur: int, done_ws: Seq<Word>) -> bool {
    forall|rest: Seq<Word>, j: int|
        #[trigger] words_rel(s, bt, cur, rest, j) ==> words_rel(s, bt, base, done_ws + rest, j)
}

/// One parsed word, with the whitespace after it, extends the completion
/// invariant.
proof fn lemma_words_step(
    s: Seq<char>,
    bt: bool,
    base: int,
    cur: int,
    p: int,
    done_ws: Seq<Word>,
    w: Word,
)
    requires
        words_completion(s, bt, base, cur, done_ws),
        !sp_eoc(s, bt, cur),
        word_end(s, bt, cur) matches Ok(m) && word_rel(s, bt, cur, w, m) && p == clamp_pos(
            line_white_end(s, clamp_pos(m, cur + 1, s.len() as int)),
            cur + 1,
            s.len() as int,
        ),
    ensures
        words_completion(s, bt, base, p, done_ws.push(w)),
{
    assert forall|rest: Seq<Word>, j: int|
        #[trigger] words_rel(s, bt, p, rest, j) implies words_rel(
        s,
        bt,
        base,
        done_ws.push(w) + rest,
        j,
    ) by {
        reveal(words_rel);
        let rest0 = seq![w] + rest;
        assert(rest0.drop_first() =~= rest);
        assert(words_rel(s, bt, cur, rest0, j));
        assert(words_rel(s, bt, base, done_ws + rest0, j));
        assert(done_ws + rest0 =~= done_ws.push(w) + rest);
    }
}

/// Completing a partially-read script: any command decomposition of the
/// rest extends to one of the whole script.
spec fn script_completion(
    s: Seq<char>,
    bt: bool,
    base: int,
    cur: int,
    done_cmds: Seq<WordVec>,
) -> bool {
    forall|rest: Seq<WordVec>, j: int|
        #[trigger] script_rel(s, bt, cur, rest, j) ==> script_rel(
            s,
            bt,
            base,
            done_cmds + rest,
            j,
        )
}

/// One parsed command extends the completion invariant.
proof fn lemma_script_step(
    s: Seq<char>,
    bt: bool,
    base: int,
    cur: int,
    p: int,
    done_cmds: Seq<WordVec>,
    cmd: WordVec,
)
    requires
        script_completion(s, bt, base, cur, done_cmds),
        !sp_end(s, bt, cur),
        command_end(s, bt, cur) matches Ok(m) && command_rel(s, bt, cur, cmd.ws(), m) && p
            == clamp_pos(m, cur + 1, s.len() as int),
    ensures
        script_completion(s, bt, base, p, done_cmds.push(cmd)),
{
    assert forall|rest: Seq<WordVec>, j: int|
        #[trigger] script_rel(s, bt, p, rest, j) implies script_rel(
        s,
        bt,
        base,
        done_cmds.push(cmd) + rest,
        j,
    ) by {
        reveal(script_rel);
        reveal(command_rel);
        let rest0 = seq![cmd] + rest;
        assert(rest0.drop_first() =~= rest);
        assert(rest0[0] == cmd);
        assert(script_rel(s, bt, cur, rest0, j));
        assert(script_rel(s, bt, base, done_cmds + rest0, j));
        assert(done_cmds + rest0 =~= done_cmds.push(cmd) + rest);
    }
}

proof fn lemma_script_completion_init(s: Seq<char>, bt: bool, base: int)
    ensures
        script_completion(s, bt, base, base, Seq::<WordVec>::empty()),
{
    assert forall|rest: Seq<WordVec>, jj: int|
        #[trigger] script_rel(s, bt, base, rest, jj) implies script_rel(
        s,
        bt,
        base,
        Seq::<WordVec>::empty() + rest,
        jj,
    ) by {
        assert(Seq::<WordVec>::empty() + rest =~= rest);
    }
}

proof fn lemma_script_rel_close(s: Seq<char>, bt: bool, base: int, p: int, cmds: Seq<WordVec>)
    requires
        script_completion(s, bt, base, p, cmds),
        sp_end(s, bt, p),
    ensures
        script_rel(s, bt, base, cmds, p),
{
    assert(script_rel(s, bt, p, Seq::<WordVec>::empty(), p)) by {
        reveal(script_rel);
    }
    assert(script_rel(s, bt, base, cmds + Seq::<WordVec>::empty(), p));
    assert(cmds + Seq::<WordVec>::empty() =~= cmds);
}

/// Parses a script given as a string slice.
pub fn parse(input: &str) -> (r: Result<Script, Exception>)
    ensures
        input@.len() == 0 ==> (r matches Ok(sc) && sc.cmds().len() == 0),
        script_end(input@, false, 0) is Ok ==> r is Ok,
        script_end(input@, false, 0) matches Err(m) ==> (r matches Err(e) && is_plain_error(
            e,
            m,
        )),
        r matches Ok(sc) ==> script_rel(input@, false, 0, sc.cmds(), input@.len() as int),
{
    let mut ctx = EvalPtr::new(input);
    parse_script(&mut ctx)
}

/// Parses a script represented by an `EvalPtr`.  Stops at the end of the
/// input — or at the closing bracket, when parsing a bracketed script.
#[verifier::rlimit(100)]
pub fn parse_script(ctx: &mut EvalPtr) -> (r: Result<Script, Exception>)
    requires
        old(ctx).wf(),
    ensures
        final(ctx).wf(),
        final(ctx).s() == old(ctx).s(),
        final(ctx).bt() == old(ctx).bt(),
        old(ctx).pos() <= final(ctx).pos() <= final(ctx).s().len(),
        r is Ok ==> sp_end(final(ctx).s(), final(ctx).bt(), final(ctx).pos()),
        old(ctx).pos() == old(ctx).s().len() ==> (r matches Ok(sc) && sc.cmds().len() == 0),
        script_end(old(ctx).s(), old(ctx).bt(), old(ctx).pos()) matches Ok(j2) ==> r is Ok
            && final(ctx).pos() == j2,
        script_end(old(ctx).s(), old(ctx).bt(), old(ctx).pos()) matches Err(m) ==> (r matches Err(e) && is_plain_error(e, m)),
        r matches Ok(sc) ==> script_rel(
            old(ctx).s(),
            old(ctx).bt(),
            old(ctx).pos(),
            sc.cmds(),
            final(ctx).pos(),
        ),
    decreases old(ctx).s().len() - old(ctx).pos(), 6int,
{
    let ghost s0 = old(ctx).s();
    let ghost bt0 = old(ctx).bt();
    let ghost i0 = old(ctx).pos();
    let mut script = Script::new();
    proof {
        lemma_script_completion_init(s0, bt0, i0);
        assert(script.cmds() =~= Seq::<WordVec>::empty());
    }

    loop
        invariant
            s0 == old(ctx).s(),
            bt0 == old(ctx).bt(),
            i0 == old(ctx).pos(),
            ctx.wf(),
            ctx.s() == old(ctx).s(),
            ctx.bt() == old(ctx).bt(),
            old(ctx).pos() <= ctx.pos() <= ctx.s().len(),
            old(ctx).pos() == old(ctx).s().len() ==> script.cmds().len() == 0,
            script_end(s0, bt0, i0) == script_end(s0, bt0, ctx.pos()),
            script_completion(s0, bt0, i0, ctx.pos(), script.cmds()),
        ensures
            ctx.wf(),
            ctx.s() == old(ctx).s(),
            ctx.bt() == old(ctx).bt(),
            old(ctx).pos() <= ctx.pos() <= ctx.s().len(),
            sp_end(ctx.s(), ctx.bt(), ctx.pos()),
            old(ctx).pos() == old(ctx).s().len() ==> script.cmds().len() == 0,
            script_end(s0, bt0, i0) == script_end(s0, bt0, ctx.pos()),
            script_completion(s0, bt0, i0, ctx.pos(), script.cmds()),
        decreases ctx.s().len() - ctx.pos(),
    {
        if ctx.at_end_of_script() {
            break;
        }
        let ghost cur = ctx.pos();
        let ghost cmds0 = script.cmds();
        match parse_command(ctx) {
            Ok(cmd) => {
                proof {
                    assert(!(command_end(s0, bt0, cur) is Err));
                    assert(clamp_pos(command_end(s0, bt0, cur)->Ok_0, cur + 1, s0.len() as int)
                        == ctx.pos());
                    assert(script_end(s0, bt0, cur) == script_end(s0, bt0, ctx.pos()));
                }
                let ghost cmd0 = cmd;
                script.commands.push(cmd);
                proof {
                    assert(script.cmds() == cmds0.push(cmd0));
                    lemma_script_step(s0, bt0, i0, cur, ctx.pos(), cmds0, cmd0);
                }
            },
            Err(e) => {
                proof {
                    assert(command_end(s0, bt0, cur) is Err);
                    assert(script_end(s0, bt0, cur) == Err::<int, Seq<char>>(
                        command_end(s0, bt0, cur)->Err_0,
                    ));
                }
                return Err(e);
            },
        }
    }
    proof {
        assert(script_end(s0, bt0, ctx.pos()) == Ok::<int, Seq<char>>(ctx.pos()));
        lemma_script_rel_close(s0, bt0, i0, ctx.pos(), script.cmds());
    }

    Ok(script)
}

/// Parses a single command: any leading whitespace and comments, then
/// words up to the end of the command, consuming a trailing semicolon.
#[verifier::rlimit(50)]
pub fn parse_command(ctx: &mut EvalPtr) -> (r: Result<WordVec, Exception>)
    requires
        old(ctx).wf(),
    ensures
        final(ctx).wf(),
        final(ctx).s() == old(ctx).s(),
        final(ctx).bt() == old(ctx).bt(),
        old(ctx).pos() <= final(ctx).pos() <= final(ctx).s().len(),
        r is Ok && !sp_end(old(ctx).s(), old(ctx).bt(), old(ctx).pos()) ==> final(ctx).pos() > old(ctx).pos(),
        command_end(old(ctx).s(), old(ctx).bt(), old(ctx).pos()) matches Ok(j2) ==> r is Ok
            && final(ctx).pos() == j2,
        command_end(old(ctx).s(), old(ctx).bt(), old(ctx).pos()) matches Err(m) ==> (r matches Err(e) && is_plain_error(e, m)),
        r matches Ok(cmd) ==> command_rel(
            old(ctx).s(),
            old(ctx).bt(),
            old(ctx).pos(),
            cmd.ws(),
            final(ctx).pos(),
        ),
    decreases old(ctx).s().len() - old(ctx).pos(), 5int,
{
    let ghost s0 = old(ctx).s();
    let ghost bt0 = old(ctx).bt();
    let ghost i0 = old(ctx).pos();
    let mut cmd: WordVec = WordVec::new();

    // Skip whitespace and comments up to the next command.
    loop
        invariant_except_break
            ws_comments_end(s0, bt0, i0) == ws_comments_end(s0, bt0, ctx.pos()),
        invariant
            s0 == old(ctx).s(),
            bt0 == old(ctx).bt(),
            i0 == old(ctx).pos(),
            ctx.wf(),
            ctx.s() == old(ctx).s(),
            ctx.bt() == old(ctx).bt(),
            old(ctx).pos() <= ctx.pos() <= ctx.s().len(),
        ensures
            ctx.wf(),
            ctx.s() == old(ctx).s(),
            ctx.bt() == old(ctx).bt(),
            old(ctx).pos() <= ctx.pos() <= ctx.s().len(),
            !sp_end(ctx.s(), ctx.bt(), ctx.pos()) ==> !block_white(ctx.s()[ctx.pos()]),
            ctx.pos() == ws_comments_end(s0, bt0, i0),
        decreases ctx.s().len() - ctx.pos(),
    {
        let ghost cur = ctx.pos();
        if ctx.at_end_of_script() {
            proof {
                assert(block_white_end(s0, cur) == cur);
                assert(ws_comments_end(s0, bt0, cur) == cur);
            }
            break;
        }
        ctx.skip_block_white();

        // Either a comment follows, or the next command starts here.
        let ghost white = ctx.pos();
        if !ctx.skip_comment() {
            proof {
                assert(ws_comments_end(s0, bt0, cur) == white);
            }
            break;
        }
        proof {
            assert(ws_comments_end(s0, bt0, cur) == ws_comments_end(s0, bt0, ctx.pos()));
        }
    }

    let ghost p1 = ctx.pos();
    proof {
        assert(!sp_end(old(ctx).s(), old(ctx).bt(), p1) ==> !block_white(old(ctx).s()[p1]));
        assert forall|rest: Seq<Word>, jj: int|
            #[trigger] words_rel(s0, bt0, p1, rest, jj) implies words_rel(
            s0,
            bt0,
            p1,
            cmd.ws() + rest,
            jj,
        ) by {
            assert(cmd.ws() + rest =~= rest);
        }
    }

    // Read words to the end of the command.
    loop
        invariant
            s0 == old(ctx).s(),
            bt0 == old(ctx).bt(),
            i0 == old(ctx).pos(),
            p1 == old(ctx).pos() || p1 > old(ctx).pos(),
            ctx.wf(),
            ctx.s() == old(ctx).s(),
            ctx.bt() == old(ctx).bt(),
            p1 <= ctx.pos() <= ctx.s().len(),
            ctx.pos() == p1 || ctx.pos() > old(ctx).pos(),
            !sp_end(old(ctx).s(), old(ctx).bt(), p1) ==> !block_white(old(ctx).s()[p1]),
            !sp_eoc(ctx.s(), ctx.bt(), ctx.pos()) ==> !line_white(ctx.s()[ctx.pos()]),
            p1 == ws_comments_end(s0, bt0, i0),
            words_end(s0, bt0, p1) == words_end(s0, bt0, ctx.pos()),
            words_completion(s0, bt0, p1, ctx.pos(), cmd.ws()),
        ensures
            ctx.wf(),
            ctx.s() == old(ctx).s(),
            ctx.bt() == old(ctx).bt(),
            p1 <= ctx.pos() <= ctx.s().len(),
            ctx.pos() == p1 || ctx.pos() > old(ctx).pos(),
            sp_eoc(ctx.s(), ctx.bt(), ctx.pos()),
            words_end(s0, bt0, p1) == words_end(s0, bt0, ctx.pos()),
            words_completion(s0, bt0, p1, ctx.pos(), cmd.ws()),
        decreases ctx.s().len() - ctx.pos(),
    {
        if ctx.at_end_of_command() {
            break;
        }
        let ghost cur = ctx.pos();
        let ghost ws0 = cmd.ws();
        match parse_next_word(ctx) {
            Ok(word) => {
                let ghost w0 = word;
                cmd.words.push(word);
                proof {
                    assert(cmd.ws() == ws0.push(w0));
                }
            },
            Err(e) => {
                proof {
                    assert(word_end(s0, bt0, cur) is Err);
                    assert(words_end(s0, bt0, cur) == Err::<int, Seq<char>>(
                        word_end(s0, bt0, cur)->Err_0,
                    ));
                    if !sp_end(s0, bt0, i0) {
                        assert(clamp_pos(ws_comments_end(s0, bt0, i0), i0, s0.len() as int) == p1);
                        assert(command_end(s0, bt0, i0) == Err::<int, Seq<char>>(
                            word_end(s0, bt0, cur)->Err_0,
                        ));
                    }
                }
                return Err(e);
            },
        }
        proof {
            assert(!(word_end(s0, bt0, cur) is Err));
            assert(clamp_pos(word_end(s0, bt0, cur)->Ok_0, cur + 1, s0.len() as int) == word_end(
                s0,
                bt0,
                cur,
            )->Ok_0);
        }
        ctx.skip_line_white();
        proof {
            assert(clamp_pos(
                line_white_end(s0, word_end(s0, bt0, cur)->Ok_0),
                cur + 1,
                s0.len() as int,
            ) == ctx.pos());
            assert(words_end(s0, bt0, cur) == words_end(s0, bt0, ctx.pos()));
            lemma_words_step(s0, bt0, p1, cur, ctx.pos(), ws0, cmd.ws().last());
        }
    }

    let ghost p2 = ctx.pos();
    proof {
        assert(sp_eoc(old(ctx).s(), old(ctx).bt(), p2));
        assert(words_end(s0, bt0, p2) == Ok::<int, Seq<char>>(p2));
    }

    // A trailing semicolon belongs to this command.
    let semi = ctx.next_is(';');
    if semi {
        ctx.skip();
    }
    proof {
        if !sp_end(old(ctx).s(), old(ctx).bt(), old(ctx).pos()) && p2 == old(ctx).pos() {
            assert(old(ctx).s()[p2] == ';');
            assert(semi);
        }
        assert(words_rel(s0, bt0, p2, Seq::<Word>::empty(), p2)) by {
            reveal(words_rel);
        }
        assert(words_rel(s0, bt0, p1, cmd.ws() + Seq::<Word>::empty(), p2));
        assert(cmd.ws() + Seq::<Word>::empty() =~= cmd.ws());
        if sp_end(s0, bt0, i0) {
            assert(block_white_end(s0, i0) == i0);
            assert(ws_comments_end(s0, bt0, i0) == i0);
            assert(p1 == i0);
            assert(words_end(s0, bt0, p1) == Ok::<int, Seq<char>>(p1));
            assert(p2 == p1);
            assert(!semi);
            assert(words_rel(s0, bt0, p1, cmd.ws(), p2));
            assert(cmd.ws().len() == 0 && ctx.pos() == i0) by {
                reveal(words_rel);
            }
            assert(command_rel(s0, bt0, i0, cmd.ws(), ctx.pos())) by {
                reveal(command_rel);
            }
        } else {
            assert(clamp_pos(ws_comments_end(s0, bt0, i0), i0, s0.len() as int) == p1);
            if semi {
                assert(command_end(s0, bt0, i0) == Ok::<int, Seq<char>>(p2 + 1));
            } else {
                assert(command_end(s0, bt0, i0) == Ok::<int, Seq<char>>(p2));
            }
            assert(command_rel(s0, bt0, i0, cmd.ws(), ctx.pos())) by {
                reveal(command_rel);
            }
        }
    }

    Ok(cmd)
}

/// Parses the next word: a braced word, a quoted word, a bare word, or an
/// expansion `{*}word`.
pub fn parse_next_word(ctx: &mut EvalPtr) -> (r: Result<Word, Exception>)
    requires
        old(ctx).wf(),
    ensures
        final(ctx).wf(),
        final(ctx).s() == old(ctx).s(),
        final(ctx).bt() == old(ctx).bt(),
        old(ctx).pos() <= final(ctx).pos() <= final(ctx).s().len(),
        !sp_eoc(old(ctx).s(), old(ctx).bt(), old(ctx).pos()) && !line_white(
            old(ctx).s()[old(ctx).pos()],
        ) ==> final(ctx).pos() > old(ctx).pos(),
        expand_op(old(ctx).s(), old(ctx).pos()) && (sp_end(
            old(ctx).s(),
            old(ctx).bt(),
            old(ctx).pos() + 3,
        ) || block_white(old(ctx).s()[old(ctx).pos() + 3])) ==> (r matches Ok(w) && w matches
        Word::Value(v) && v@ == "*"@ && final(ctx).pos() == old(ctx).pos() + 3),
        expand_op(old(ctx).s(), old(ctx).pos()) && !(sp_end(
            old(ctx).s(),
            old(ctx).bt(),
            old(ctx).pos() + 3,
        ) || block_white(old(ctx).s()[old(ctx).pos() + 3])) ==> (r matches Ok(w) ==> w matches
        Word::Expand(_)),
        old(ctx).pos() < old(ctx).s().len() && old(ctx).s()[old(ctx).pos()] == '{' && !expand_op(
            old(ctx).s(),
            old(ctx).pos(),
        ) ==> (braced_scan(old(ctx).s(), old(ctx).bt(), old(ctx).pos() + 1, 1) matches Some(
            (content, j),
        ) ==> ((sp_eoc(old(ctx).s(), old(ctx).bt(), j) || line_white(old(ctx).s()[j])) ==> (
        r matches Ok(w) && w matches Word::Value(v) && v@ == content && final(ctx).pos() == j))),
        old(ctx).pos() < old(ctx).s().len() && old(ctx).s()[old(ctx).pos()] == '"' ==> (quote_scan(
            old(ctx).s(),
            old(ctx).bt(),
            old(ctx).pos() + 1,
        ) matches QuoteScan::Close(content, j) ==> ((sp_eoc(old(ctx).s(), old(ctx).bt(), j)
            || line_white(old(ctx).s()[j])) ==> (r matches Ok(w) && w matches Word::Value(v) && v@
            == content && final(ctx).pos() == j))),
        old(ctx).pos() < old(ctx).s().len() && old(ctx).s()[old(ctx).pos()] != '{'
            && old(ctx).s()[old(ctx).pos()] != '"' ==> (bare_scan(
            old(ctx).s(),
            old(ctx).bt(),
            old(ctx).pos(),
            false,
        ) matches BareScan::Lit(content, j) ==> (r matches Ok(w) && w matches Word::Value(v) && v@
            == content && final(ctx).pos() == j)),
        word_end(old(ctx).s(), old(ctx).bt(), old(ctx).pos()) matches Ok(j2) ==> r is Ok && final(ctx).pos() == j2,
        word_end(old(ctx).s(), old(ctx).bt(), old(ctx).pos()) matches Err(m) ==> (r matches Err(e)
            && is_plain_error(e, m)),
        r matches Ok(w) ==> word_rel(old(ctx).s(), old(ctx).bt(), old(ctx).pos(), w, final(ctx).pos()),
        expand_op(old(ctx).s(), old(ctx).pos()) && !(sp_end(
            old(ctx).s(),
            old(ctx).bt(),
            old(ctx).pos() + 3,
        ) || block_white(old(ctx).s()[old(ctx).pos() + 3])) && old(ctx).s()[old(ctx).pos() + 3]
            != '{' && old(ctx).s()[old(ctx).pos() + 3] != '"' ==> (bare_scan(
            old(ctx).s(),
            old(ctx).bt(),
            old(ctx).pos() + 3,
            false,
        ) matches BareScan::Lit(content, j) ==> (r matches Ok(w) && w matches Word::Expand(bx) && (
        *bx matches Word::Value(v) && v@ == content) && final(ctx).pos() == j)),
        expand_op(old(ctx).s(), old(ctx).pos()) && !(sp_end(
            old(ctx).s(),
            old(ctx).bt(),
            old(ctx).pos() + 3,
        ) || block_white(old(ctx).s()[old(ctx).pos() + 3])) && old(ctx).s()[old(ctx).pos() + 3]
            == '{' && !expand_op(old(ctx).s(), old(ctx).pos() + 3) ==> (braced_scan(
            old(ctx).s(),
            old(ctx).bt(),
            old(ctx).pos() + 4,
            1,
        ) matches Some((content, j)) ==> ((sp_eoc(old(ctx).s(), old(ctx).bt(), j) || line_white(
            old(ctx).s()[j],
        )) ==> (r matches Ok(w) && w matches Word::Expand(bx) && (*bx matches Word::Value(v) && v@
            == content) && final(ctx).pos() == j))),
    decreases old(ctx).s().len() - old(ctx).pos(), 4int,
{
    let ghost s = old(ctx).s();
    let ghost bt = old(ctx).bt();
    let ghost i0 = old(ctx).pos();
    if ctx.next_is('{') {
        // Look for the expansion operator.
        if starts_with_expand(ctx) {
            ctx.skip();
            ctx.skip();
            ctx.skip();

            // `{*}` at the end of the word is just a literal asterisk;
            // otherwise the next word is marked for expansion.
            if ctx.at_end() || ctx.next_is_block_white() {
                let w = Word::Value(Value::from("*"));
                proof {
                    assert(word_end(s, bt, i0) == Ok::<int, Seq<char>>(i0 + 3));
                    assert(word_rel(s, bt, i0, w, ctx.pos())) by {
                        reveal(word_rel);
                    }
                }
                return Ok(w);
            } else {
                match parse_next_word(ctx) {
                    Ok(w) => {
                        let wrapped = Word::Expand(Box::new(w));
                        proof {
                            assert(word_end(s, bt, i0) == word_end(s, bt, i0 + 3));
                            assert(word_rel(s, bt, i0, wrapped, ctx.pos())) by {
                                reveal(word_rel);
                            }
                        }
                        return Ok(wrapped);
                    },
                    Err(e) => {
                        proof {
                            assert(word_end(s, bt, i0) == word_end(s, bt, i0 + 3));
                        }
                        return Err(e);
                    },
                }
            }
        }

        // An ordinary braced word.
        let r = parse_braced_word(ctx);
        proof {
            assert(!expand_op(s, i0));
            if r is Ok {
                assert(word_rel(s, bt, i0, r->Ok_0, ctx.pos())) by {
                    reveal(word_rel);
                }
            }
            match braced_scan(s, bt, i0 + 1, 1) {
                None => {
                    assert(word_end(s, bt, i0) == Err::<int, Seq<char>>("missing close-brace"@));
                },
                Some((c, j)) => {
                    if sp_eoc(s, bt, j) || line_white(s[j]) {
                        assert(word_end(s, bt, i0) == Ok::<int, Seq<char>>(j));
                    } else {
                        assert(word_end(s, bt, i0) == Err::<int, Seq<char>>(
                            "extra characters after close-brace"@,
                        ));
                    }
                },
            }
        }
        r
    } else if ctx.next_is('"') {
        let r = parse_quoted_word(ctx);
        proof {
            assert(!expand_op(s, i0));
            if r is Ok {
                assert(word_rel(s, bt, i0, r->Ok_0, ctx.pos())) by {
                    reveal(word_rel);
                }
            }
            match frags_end(s, bt, i0 + 1, true, false) {
                Ok(j) => {
                    if sp_eoc(s, bt, j) || line_white(s[j]) {
                        assert(word_end(s, bt, i0) == Ok::<int, Seq<char>>(j));
                    } else {
                        assert(word_end(s, bt, i0) == Err::<int, Seq<char>>(
                            "extra characters after close-quote"@,
                        ));
                    }
                },
                Err(m) => {
                    assert(word_end(s, bt, i0) == Err::<int, Seq<char>>(m));
                },
            }
        }
        r
    } else {
        let r = parse_bare_word(ctx, false);
        proof {
            assert(!expand_op(s, i0));
            assert(word_end(s, bt, i0) == frags_end(s, bt, i0, false, false));
            if r is Ok {
                assert(word_rel(s, bt, i0, r->Ok_0, ctx.pos())) by {
                    reveal(word_rel);
                }
            }
        }
        r
    }
}

/// Whether the expansion operator `{*}` stands at position `i`.
pub open spec fn expand_op(s: Seq<char>, i: int) -> bool {
    i + 3 <= s.len() && s[i] == '{' && s[i + 1] == '*' && s[i + 2] == '}'
}

/// Whether the cursor stands at the expansion operator `{*}`.
fn starts_with_expand(ctx: &EvalPtr) -> (r: bool)
    requires
        ctx.wf(),
    ensures
        r == expand_op(ctx.s(), ctx.pos()),
{
    let t = ctx.tok();
    let m = t.mark();
    let n = t.text_len();
    if n - m < 3 {
        return false;
    }
    t.char_at(m) == '{' && t.char_at(m + 1) == '*' && t.char_at(m + 2) == '}'
}

/// Parses a braced word.  Braces nest; the content is taken literally,
/// except that a backslash-newline becomes a space.  It is an error if the
/// close brace is missing, or if anything but whitespace follows it.
#[verifier::rlimit(30)]
pub fn parse_braced_word(ctx: &mut EvalPtr) -> (r: Result<Word, Exception>)
    requires
        old(ctx).wf(),
        old(ctx).pos() < old(ctx).s().len(),
        old(ctx).s()[old(ctx).pos()] == '{',
    ensures
        final(ctx).wf(),
        final(ctx).s() == old(ctx).s(),
        final(ctx).bt() == old(ctx).bt(),
        old(ctx).pos() < final(ctx).pos() <= final(ctx).s().len(),
        braced_scan(old(ctx).s(), old(ctx).bt(), old(ctx).pos() + 1, 1) matches Some((content, j))
            ==> (((sp_eoc(old(ctx).s(), old(ctx).bt(), j) || line_white(old(ctx).s()[j])) ==> (
        r matches Ok(w) && w matches Word::Value(v) && v@ == content && final(ctx).pos() == j)) && (
        !(sp_eoc(old(ctx).s(), old(ctx).bt(), j) || line_white(old(ctx).s()[j])) ==> (
        r matches Err(e) && is_plain_error(e, "extra characters after close-brace"@)))),
        braced_scan(old(ctx).s(), old(ctx).bt(), old(ctx).pos() + 1, 1) is None ==> (r matches Err(e) && is_plain_error(e, "missing close-brace"@)),
    decreases old(ctx).s().len() - old(ctx).pos(), 3int,
{
    let ghost s = old(ctx).s();
    let ghost bt = old(ctx).bt();
    let ghost i0 = old(ctx).pos();

    // Skip the open brace and count it; unescaped braces must balance.
    ctx.skip_char('{');
    let mut count: usize = 1;

    let mut text: String = String::new();
    let mut start: usize = ctx.mark();

    loop
        invariant
            s == old(ctx).s(),
            bt == old(ctx).bt(),
            i0 == old(ctx).pos(),
            i0 + 1 <= s.len(),
            ctx.wf(),
            ctx.s() == s,
            ctx.bt() == bt,
            1 <= count,
            i0 + 1 <= start <= ctx.pos() <= s.len(),
            count <= ctx.pos(),
            braced_scan(s, bt, i0 + 1, 1) == scan_cons(
                text@ + s.subrange(start as int, ctx.pos()),
                braced_scan(s, bt, ctx.pos(), count as int),
            ),
        ensures
            ctx.wf(),
            ctx.s() == s,
            ctx.bt() == bt,
            i0 + 1 <= start <= ctx.pos() <= s.len(),
            sp_end(s, bt, ctx.pos()),
            braced_scan(s, bt, i0 + 1, 1) is None,
        decreases s.len() - ctx.pos(),
    {
        if ctx.at_end() {
            break;
        }
        let ghost cur = ctx.pos();
        if ctx.next_is('{') {
            count = count + 1;
            ctx.skip();
            proof {
                assert(text@ + s.subrange(start as int, cur + 1) =~= (text@ + s.subrange(
                    start as int,
                    cur,
                )) + seq!['{']);
                lemma_scan_cons_assoc(
                    text@ + s.subrange(start as int, cur),
                    seq!['{'],
                    braced_scan(s, bt, cur + 1, count as int),
                );
            }
        } else if ctx.next_is('}') {
            count = count - 1;

            if count > 0 {
                ctx.skip();
                proof {
                    assert(text@ + s.subrange(start as int, cur + 1) =~= (text@ + s.subrange(
                        start as int,
                        cur,
                    )) + seq!['}']);
                    lemma_scan_cons_assoc(
                        text@ + s.subrange(start as int, cur),
                        seq!['}'],
                        braced_scan(s, bt, cur + 1, (count as int)),
                    );
                }
            } else {
                // The matching close brace.  The word must be followed by
                // whitespace or the end of the command.
                let tok = ctx.token(start);
                text.append(tok.as_str());
                let result_val = Value::from_string(text);
                ctx.skip();
                proof {
                    assert(braced_scan(s, bt, cur, 1) == Some((Seq::<char>::empty(), cur + 1)));
                    assert((text@ + s.subrange(start as int, cur)) + Seq::<char>::empty() =~= text@
                        + s.subrange(start as int, cur));
                }
                if ctx.at_end_of_command() || ctx.next_is_line_white() {
                    return Ok(Word::Value(result_val));
                } else {
                    return Err(extra_after_brace_error());
                }
            }
        } else if ctx.next_is('\\') {
            let ghost base = text@ + s.subrange(start as int, cur);
            let tok = ctx.token(start);
            text.append(tok.as_str());
            ctx.skip();

            // If no character follows, the close brace is missing; the
            // loop ends at the top.
            match ctx.next() {
                Some(ch) => {
                    if ch == '\n' {
                        crate::util::string_push(&mut text, ' ');
                        proof {
                            assert(braced_scan(s, bt, cur, count as int) == scan_cons(
                                seq![' '],
                                braced_scan(s, bt, cur + 2, count as int),
                            ));
                            lemma_scan_cons_assoc(
                                base,
                                seq![' '],
                                braced_scan(s, bt, cur + 2, count as int),
                            );
                            assert(text@ =~= base + seq![' ']);
                            assert(text@ + s.subrange(cur + 2, cur + 2) =~= text@);
                        }
                    } else {
                        crate::util::string_push(&mut text, '\\');
                        crate::util::string_push(&mut text, ch);
                        proof {
                            assert(braced_scan(s, bt, cur, count as int) == scan_cons(
                                seq!['\\', ch],
                                braced_scan(s, bt, cur + 2, count as int),
                            ));
                            lemma_scan_cons_assoc(
                                base,
                                seq!['\\', ch],
                                braced_scan(s, bt, cur + 2, count as int),
                            );
                            assert(text@ =~= base + seq!['\\', ch]);
                            assert(text@ + s.subrange(cur + 2, cur + 2) =~= text@);
                        }
                    }
                },
                None => {
                    proof {
                        assert(braced_scan(s, bt, cur, count as int) is None);
                        assert(text@ =~= base);
                        assert(text@ + s.subrange(cur + 1, cur + 1) =~= text@);
                    }
                },
            }
            start = ctx.mark();
        } else {
            ctx.skip();
            proof {
                assert(text@ + s.subrange(start as int, cur + 1) =~= (text@ + s.subrange(
                    start as int,
                    cur,
                )) + seq![s[cur]]);
                lemma_scan_cons_assoc(
                    text@ + s.subrange(start as int, cur),
                    seq![s[cur]],
                    braced_scan(s, bt, cur + 1, count as int),
                );
            }
        }
    }

    Err(missing_brace_error())
}

/// Concatenation distributes over the scan prefix.
proof fn lemma_scan_cons_assoc(a: Seq<char>, b: Seq<char>, o: Option<(Seq<char>, int)>)
    ensures
        scan_cons(a + b, o) == scan_cons(a, scan_cons(b, o)),
{
    match o {
        None => (),
        Some((c, j)) => {
            assert((a + b) + c =~= a + (b + c));
        },
    }
}

fn missing_brace_error() -> (e: Exception)
    ensures
        is_plain_error(e, "missing close-brace"@),
{
    Exception::molt_err(Value::from("missing close-brace"))
}

fn extra_after_brace_error() -> (e: Exception)
    ensures
        is_plain_error(e, "extra characters after close-brace"@),
{
    Exception::molt_err(Value::from("extra characters after close-brace"))
}

/// Parses a quoted word, honoring backslash, variable, and command
/// substitution.  It is an error if the close quote is missing, or if
/// anything but whitespace follows it.
#[verifier::rlimit(100)]
pub fn parse_quoted_word(ctx: &mut EvalPtr) -> (r: Result<Word, Exception>)
    requires
        old(ctx).wf(),
        old(ctx).pos() < old(ctx).s().len(),
        old(ctx).s()[old(ctx).pos()] == '"',
    ensures
        final(ctx).wf(),
        final(ctx).s() == old(ctx).s(),
        final(ctx).bt() == old(ctx).bt(),
        old(ctx).pos() < final(ctx).pos() <= final(ctx).s().len(),
        quote_scan(old(ctx).s(), old(ctx).bt(), old(ctx).pos() + 1) matches QuoteScan::Close(
            content,
            j,
        ) ==> (((sp_eoc(old(ctx).s(), old(ctx).bt(), j) || line_white(old(ctx).s()[j])) ==> (
        r matches Ok(w) && w matches Word::Value(v) && v@ == content && final(ctx).pos() == j)) && (
        !(sp_eoc(old(ctx).s(), old(ctx).bt(), j) || line_white(old(ctx).s()[j])) ==> (
        r matches Err(e) && is_plain_error(e, "extra characters after close-quote"@)))),
        quote_scan(old(ctx).s(), old(ctx).bt(), old(ctx).pos() + 1) is Missing ==> (r matches Err(e)
            && is_plain_error(e, missing_quote_msg())),
        frags_end(old(ctx).s(), old(ctx).bt(), old(ctx).pos() + 1, true, false) matches Ok(j2)
            ==> (((sp_eoc(old(ctx).s(), old(ctx).bt(), j2) || line_white(old(ctx).s()[j2])) ==> (
        r is Ok && final(ctx).pos() == j2)) && (!(sp_eoc(old(ctx).s(), old(ctx).bt(), j2)
            || line_white(old(ctx).s()[j2])) ==> (r matches Err(e) && is_plain_error(
            e,
            "extra characters after close-quote"@,
        )))),
        frags_end(old(ctx).s(), old(ctx).bt(), old(ctx).pos() + 1, true, false) matches Err(m)
            ==> (r matches Err(e) && is_plain_error(e, m)),
        r matches Ok(w) ==> exists|frags: Seq<FragView>|
            #[trigger] frags_rel(
                old(ctx).s(),
                old(ctx).bt(),
                old(ctx).pos() + 1,
                true,
                false,
                frags,
                final(ctx).pos(),
            ) && frag_word_ok(frags, w),
    decreases old(ctx).s().len() - old(ctx).pos(), 3int,
{
    let ghost s = old(ctx).s();
    let ghost bt = old(ctx).bt();
    let ghost i0 = old(ctx).pos();

    // Consume the opening quote.
    ctx.skip();

    let mut tokens = Tokens::new();
    let mut start: usize = ctx.mark();
    proof {
        assert(frags_of(tokens.list_view()) =~= Seq::<FragView>::empty());
        assert(tokens.acc() + s.subrange(i0 + 1, i0 + 1) =~= Seq::<char>::empty());
        assert forall|rest: Seq<FragView>, jj: int|
            #[trigger] frags_rel(s, bt, i0 + 1, true, false, rest, jj) implies frags_rel(
            s,
            bt,
            i0 + 1,
            true,
            false,
            seam(
                frags_of(tokens.list_view()),
                tokens.acc() + s.subrange(i0 + 1, i0 + 1),
                rest,
            ),
            jj,
        ) by {
            assert(seam(
                frags_of(tokens.list_view()),
                tokens.acc() + s.subrange(i0 + 1, i0 + 1),
                rest,
            ) =~= rest);
        }
    }

    loop
        invariant
            s == old(ctx).s(),
            bt == old(ctx).bt(),
            i0 == old(ctx).pos(),
            i0 + 1 <= s.len(),
            ctx.wf(),
            ctx.s() == s,
            ctx.bt() == bt,
            i0 + 1 <= start <= ctx.pos() <= s.len(),
            tokens.wf_acc(),
            tokens.got() ==> tokens.acc().len() > 0,
            tokens.list_view().len() > 0 ==> !(tokens.list_view().last() is String),
            frags_completion(
                s,
                bt,
                true,
                false,
                i0 + 1,
                ctx.pos(),
                frags_of(tokens.list_view()),
                tokens.acc() + s.subrange(start as int, ctx.pos()),
            ),
            frags_end(s, bt, i0 + 1, true, false) == frags_end(s, bt, ctx.pos(), true, false),
            quote_scan(s, bt, i0 + 1) is Close || quote_scan(s, bt, i0 + 1) is Missing
                ==> tokens.pristine() && start == i0 + 1 && (match quote_scan(s, bt, ctx.pos()) {
                QuoteScan::Missing => quote_scan(s, bt, i0 + 1) is Missing,
                QuoteScan::Close(c2, j2) => (quote_scan(s, bt, i0 + 1) matches QuoteScan::Close(
                    c,
                    j,
                ) && j == j2 && c == s.subrange(i0 + 1, ctx.pos()) + c2),
                QuoteScan::Special => quote_scan(s, bt, i0 + 1) is Special,
            }),
        ensures
            ctx.wf(),
            ctx.s() == s,
            ctx.bt() == bt,
            i0 + 1 <= start <= ctx.pos() <= s.len(),
            sp_end(s, bt, ctx.pos()),
            frags_end(s, bt, i0 + 1, true, false) == frags_end(s, bt, ctx.pos(), true, false),
            quote_scan(s, bt, i0 + 1) is Close ==> false,
            quote_scan(s, bt, i0 + 1) is Missing || quote_scan(s, bt, i0 + 1) is Special,
        decreases s.len() - ctx.pos(),
    {
        if ctx.at_end() {
            break;
        }
        let ghost cur = ctx.pos();
        let ghost tl0 = tokens.list_view();
        let ghost ta0 = tokens.acc();
        let ghost st0 = start as int;
        let ghost lit0 = ta0 + s.subrange(st0, cur);
        if ctx.next_is('[') {
            if start != ctx.mark() {
                let tok = ctx.token(start);
                tokens.push_str(tok.as_str());
            }
            proof {
                assert(tokens.acc() =~= lit0);
                assert(tokens.got() <==> lit0.len() > 0);
            }
            match parse_brackets(ctx) {
                Ok(script) => {
                    proof {
                        assert(!(bracket_end(s, cur) is Err));
                        assert(clamp_pos(bracket_end(s, cur)->Ok_0, cur + 1, s.len() as int)
                            == ctx.pos());
                        assert(frags_end(s, bt, cur, true, false) == frags_end(
                            s,
                            bt,
                            ctx.pos(),
                            true,
                            false,
                        ));
                    }
                    let word = Word::Script(script);
                    let ghost p = ctx.pos();
                    let ghost w0 = word;
                    tokens.push(word);
                    proof {
                        lemma_frags_of_flush_push(tokens.list_view(), tl0, lit0, w0);
                        let done2 = frags_of(tokens.list_view());
                        lemma_step_bracket(
                            s,
                            bt,
                            true,
                            false,
                            i0 + 1,
                            cur,
                            p,
                            frags_of(tl0),
                            lit0,
                            done2,
                            w0,
                        );
                        assert(tokens.acc() + s.subrange(p, p) =~= Seq::<char>::empty());
                    }
                },
                Err(e) => {
                    proof {
                        assert(bracket_end(s, cur) is Err);
                        assert(frags_end(s, bt, cur, true, false) == Err::<int, Seq<char>>(
                            bracket_end(s, cur)->Err_0,
                        ));
                    }
                    return Err(e);
                },
            }
            start = ctx.mark();
        } else if ctx.next_is('$') {
            if start != ctx.mark() {
                let tok = ctx.token(start);
                tokens.push_str(tok.as_str());
            }
            proof {
                assert(tokens.acc() =~= lit0);
                assert(tokens.got() <==> lit0.len() > 0);
            }
            match parse_dollar(ctx, &mut tokens) {
                Ok(()) => {
                    proof {
                        if cur + 1 < s.len() && (varname_char(s[cur + 1]) || s[cur + 1] == '{') {
                            assert(!(varname_end(s, bt, cur + 1) is Err));
                            assert(clamp_pos(
                                varname_end(s, bt, cur + 1)->Ok_0,
                                cur + 1,
                                s.len() as int,
                            ) == ctx.pos());
                            let p = ctx.pos();
                            let w0 = tokens.list_view().last();
                            lemma_frags_of_flush_push(tokens.list_view(), tl0, lit0, w0);
                            let done2 = frags_of(tokens.list_view());
                            lemma_step_dollar(
                                s,
                                bt,
                                true,
                                false,
                                i0 + 1,
                                cur,
                                p,
                                frags_of(tl0),
                                lit0,
                                done2,
                                w0,
                            );
                            assert(tokens.acc() + s.subrange(p, p) =~= Seq::<char>::empty());
                        } else {
                            lemma_step_lit(
                                s,
                                bt,
                                true,
                                false,
                                i0 + 1,
                                cur,
                                cur + 1,
                                frags_of(tl0),
                                lit0,
                                '$',
                            );
                            assert(tokens.acc() + s.subrange(ctx.pos(), ctx.pos())
                                =~= lit0.push('$'));
                        }
                        assert(frags_end(s, bt, cur, true, false) == frags_end(
                            s,
                            bt,
                            ctx.pos(),
                            true,
                            false,
                        ));
                    }
                },
                Err(e) => {
                    proof {
                        assert(cur + 1 < s.len() && (varname_char(s[cur + 1]) || s[cur + 1]
                            == '{'));
                        assert(varname_end(s, bt, cur + 1) is Err);
                        assert(frags_end(s, bt, cur, true, false) == Err::<int, Seq<char>>(
                            varname_end(s, bt, cur + 1)->Err_0,
                        ));
                    }
                    return Err(e);
                },
            }
            start = ctx.mark();
        } else if ctx.next_is('\\') {
            if start != ctx.mark() {
                let tok = ctx.token(start);
                tokens.push_str(tok.as_str());
            }
            proof {
                assert(tokens.acc() =~= lit0);
            }
            let ch = ctx.backslash_subst();
            proof {
                assert(clamp_pos(bs_result(s, cur).1, cur + 1, s.len() as int) == ctx.pos());
                assert(frags_end(s, bt, cur, true, false) == frags_end(
                    s,
                    bt,
                    ctx.pos(),
                    true,
                    false,
                ));
            }
            tokens.push_char(ch);
            proof {
                lemma_step_lit(
                    s,
                    bt,
                    true,
                    false,
                    i0 + 1,
                    cur,
                    ctx.pos(),
                    frags_of(tl0),
                    lit0,
                    bs_result(s, cur).0,
                );
                assert(tokens.acc() + s.subrange(ctx.pos(), ctx.pos()) =~= lit0.push(ch));
            }
            start = ctx.mark();
        } else if ctx.next_is('"') {
            if start != ctx.mark() {
                let tok = ctx.token(start);
                tokens.push_str(tok.as_str());
            }
            proof {
                assert(tokens.acc() =~= lit0);
            }
            ctx.skip_char('"');
            proof {
                assert(frags_end(s, bt, cur, true, false) == Ok::<int, Seq<char>>(cur + 1));
            }
            if !ctx.at_end_of_command() && !ctx.next_is_line_white() {
                return Err(extra_after_quote_error());
            } else {
                let ghost tl_f = tokens.list_view();
                let ghost tg_f = tokens.got();
                let ghost ta_f = tokens.acc();
                let w = tokens.take();
                proof {
                    if quote_scan(s, bt, i0 + 1) is Close {
                        assert(quote_scan(s, bt, cur) matches QuoteScan::Close(c2, j2) && c2
                            == Seq::<char>::empty() && j2 == cur + 1);
                        assert(s.subrange(i0 + 1, cur) + Seq::<char>::empty() =~= s.subrange(
                            i0 + 1,
                            cur,
                        ));
                    }
                    lemma_close_witness(s, bt, i0 + 1, cur, tl_f, tg_f, ta_f, w);
                }
                return Ok(w);
            }
        } else {
            ctx.skip();
            proof {
                assert(frags_end(s, bt, cur, true, false) == frags_end(
                    s,
                    bt,
                    ctx.pos(),
                    true,
                    false,
                ));
                lemma_step_lit(
                    s,
                    bt,
                    true,
                    false,
                    i0 + 1,
                    cur,
                    cur + 1,
                    frags_of(tl0),
                    lit0,
                    s[cur],
                );
                assert(tokens.acc() + s.subrange(st0, cur + 1) =~= lit0.push(s[cur]));
                if quote_scan(s, bt, i0 + 1) is Close || quote_scan(s, bt, i0 + 1) is Missing {
                    match quote_scan(s, bt, cur + 1) {
                        QuoteScan::Close(c2, j2) => {
                            assert(s.subrange(i0 + 1, cur) + (seq![s[cur]] + c2) =~= s.subrange(
                                i0 + 1,
                                cur + 1,
                            ) + c2);
                        },
                        _ => (),
                    }
                }
            }
        }
    }
    proof {
        assert(frags_end(s, bt, ctx.pos(), true, false) == Err::<int, Seq<char>>(
            missing_quote_msg(),
        ));
    }

    Err(missing_quote_error())
}

/// The message of the missing-close-quote error: `missing "`.
pub open spec fn missing_quote_msg() -> Seq<char> {
    "missing \""@
}

fn missing_quote_error() -> (e: Exception)
    ensures
        is_plain_error(e, missing_quote_msg()),
{
    Exception::molt_err(Value::from("missing \""))
}

fn extra_after_quote_error() -> (e: Exception)
    ensures
        is_plain_error(e, "extra characters after close-quote"@),
{
    Exception::molt_err(Value::from("extra characters after close-quote"))
}

/// Parses a bare word, honoring backslash, variable, and command
/// substitution.  With `index_flag`, the word is an array index and also
/// ends at a close parenthesis.
#[verifier::rlimit(100)]
pub fn parse_bare_word(ctx: &mut EvalPtr, index_flag: bool) -> (r: Result<Word, Exception>)
    requires
        old(ctx).wf(),
    ensures
        final(ctx).wf(),
        final(ctx).s() == old(ctx).s(),
        final(ctx).bt() == old(ctx).bt(),
        old(ctx).pos() <= final(ctx).pos() <= final(ctx).s().len(),
        bare_scan(old(ctx).s(), old(ctx).bt(), old(ctx).pos(), index_flag) matches BareScan::Lit(
            content,
            j,
        ) ==> (r matches Ok(w) && w matches Word::Value(v) && v@ == content && final(ctx).pos()
            == j),
        !(sp_eoc(old(ctx).s(), old(ctx).bt(), old(ctx).pos()) || line_white(
            old(ctx).s()[old(ctx).pos()],
        ) || (index_flag && old(ctx).s()[old(ctx).pos()] == ')')) ==> final(ctx).pos() > old(ctx).pos(),
        frags_end(old(ctx).s(), old(ctx).bt(), old(ctx).pos(), false, index_flag) matches Ok(j2)
            ==> r is Ok && final(ctx).pos() == j2,
        frags_end(old(ctx).s(), old(ctx).bt(), old(ctx).pos(), false, index_flag) matches Err(m)
            ==> (r matches Err(e) && is_plain_error(e, m)),
        r matches Ok(w) ==> exists|frags: Seq<FragView>|
            #[trigger] frags_rel(
                old(ctx).s(),
                old(ctx).bt(),
                old(ctx).pos(),
                false,
                index_flag,
                frags,
                final(ctx).pos(),
            ) && frag_word_ok(frags, w),
    decreases old(ctx).s().len() - old(ctx).pos(), 3int,
{
    let ghost s = old(ctx).s();
    let ghost bt = old(ctx).bt();
    let ghost i0 = old(ctx).pos();

    let mut tokens = Tokens::new();
    let mut start: usize = ctx.mark();
    proof {
        assert(frags_of(tokens.list_view()) =~= Seq::<FragView>::empty());
        assert(tokens.acc() + s.subrange(i0, i0) =~= Seq::<char>::empty());
        assert forall|rest: Seq<FragView>, jj: int|
            #[trigger] frags_rel(s, bt, i0, false, index_flag, rest, jj) implies frags_rel(
            s,
            bt,
            i0,
            false,
            index_flag,
            seam(
                frags_of(tokens.list_view()),
                tokens.acc() + s.subrange(i0, i0),
                rest,
            ),
            jj,
        ) by {
            assert(seam(
                frags_of(tokens.list_view()),
                tokens.acc() + s.subrange(i0, i0),
                rest,
            ) =~= rest);
        }
    }

    loop
        invariant
            s == old(ctx).s(),
            bt == old(ctx).bt(),
            i0 == old(ctx).pos(),
            ctx.wf(),
            ctx.s() == s,
            ctx.bt() == bt,
            i0 <= start <= ctx.pos() <= s.len(),
            tokens.wf_acc(),
            tokens.got() ==> tokens.acc().len() > 0,
            tokens.list_view().len() > 0 ==> !(tokens.list_view().last() is String),
            frags_completion(
                s,
                bt,
                false,
                index_flag,
                i0,
                ctx.pos(),
                frags_of(tokens.list_view()),
                tokens.acc() + s.subrange(start as int, ctx.pos()),
            ),
            frags_end(s, bt, i0, false, index_flag) == frags_end(
                s,
                bt,
                ctx.pos(),
                false,
                index_flag,
            ),
            bare_scan(s, bt, i0, index_flag) is Lit ==> tokens.pristine() && start == i0 && (
            match bare_scan(s, bt, ctx.pos(), index_flag) {
                BareScan::Lit(c2, j2) => (bare_scan(s, bt, i0, index_flag) matches BareScan::Lit(
                    c,
                    j,
                ) && j == j2 && c == s.subrange(i0, ctx.pos()) + c2),
                BareScan::Special => bare_scan(s, bt, i0, index_flag) is Special,
            }),
        ensures
            ctx.wf(),
            ctx.s() == s,
            ctx.bt() == bt,
            i0 <= start <= ctx.pos() <= s.len(),
            sp_eoc(s, bt, ctx.pos()) || line_white(s[ctx.pos()]) || (index_flag && s[ctx.pos()]
                == ')'),
            tokens.wf_acc(),
            tokens.got() ==> tokens.acc().len() > 0,
            tokens.list_view().len() > 0 ==> !(tokens.list_view().last() is String),
            frags_completion(
                s,
                bt,
                false,
                index_flag,
                i0,
                ctx.pos(),
                frags_of(tokens.list_view()),
                tokens.acc() + s.subrange(start as int, ctx.pos()),
            ),
            frags_end(s, bt, i0, false, index_flag) == frags_end(
                s,
                bt,
                ctx.pos(),
                false,
                index_flag,
            ),
            bare_scan(s, bt, i0, index_flag) matches BareScan::Lit(c, j) ==> j == ctx.pos() && c
                == s.subrange(i0, ctx.pos()) && tokens.pristine() && start == i0,
        decreases s.len() - ctx.pos(),
    {
        if ctx.at_end_of_command() {
            break;
        }
        if ctx.next_is_line_white() {
            break;
        }
        let ghost cur = ctx.pos();
        let ghost tl0 = tokens.list_view();
        let ghost ta0 = tokens.acc();
        let ghost st0 = start as int;
        let ghost lit0 = ta0 + s.subrange(st0, cur);
        if index_flag && ctx.next_is(')') {
            // Parsing an array index, and this is its end.
            break;
        } else if ctx.next_is('[') {
            if start != ctx.mark() {
                let tok = ctx.token(start);
                tokens.push_str(tok.as_str());
            }
            proof {
                assert(tokens.acc() =~= lit0);
                assert(tokens.got() <==> lit0.len() > 0);
            }
            match parse_brackets(ctx) {
                Ok(script) => {
                    proof {
                        assert(!(bracket_end(s, cur) is Err));
                        assert(clamp_pos(bracket_end(s, cur)->Ok_0, cur + 1, s.len() as int)
                            == ctx.pos());
                        assert(frags_end(s, bt, cur, false, index_flag) == frags_end(
                            s,
                            bt,
                            ctx.pos(),
                            false,
                            index_flag,
                        ));
                    }
                    let word = Word::Script(script);
                    let ghost p = ctx.pos();
                    let ghost w0 = word;
                    tokens.push(word);
                    proof {
                        lemma_frags_of_flush_push(tokens.list_view(), tl0, lit0, w0);
                        let done2 = frags_of(tokens.list_view());
                        lemma_step_bracket(
                            s,
                            bt,
                            false,
                            index_flag,
                            i0,
                            cur,
                            p,
                            frags_of(tl0),
                            lit0,
                            done2,
                            w0,
                        );
                        assert(tokens.acc() + s.subrange(p, p) =~= Seq::<char>::empty());
                    }
                },
                Err(e) => {
                    proof {
                        assert(bracket_end(s, cur) is Err);
                        assert(frags_end(s, bt, cur, false, index_flag) == Err::<int, Seq<char>>(
                            bracket_end(s, cur)->Err_0,
                        ));
                    }
                    return Err(e);
                },
            }
            start = ctx.mark();
        } else if ctx.next_is('$') {
            if start != ctx.mark() {
                let tok = ctx.token(start);
                tokens.push_str(tok.as_str());
            }
            proof {
                assert(tokens.acc() =~= lit0);
                assert(tokens.got() <==> lit0.len() > 0);
            }
            let ghost tg1 = tokens.got();
            let ghost ta1 = tokens.acc();
            match parse_dollar(ctx, &mut tokens) {
                Ok(()) => {
                    proof {
                        if cur + 1 < s.len() && (varname_char(s[cur + 1]) || s[cur + 1] == '{') {
                            assert(!(varname_end(s, bt, cur + 1) is Err));
                            assert(clamp_pos(
                                varname_end(s, bt, cur + 1)->Ok_0,
                                cur + 1,
                                s.len() as int,
                            ) == ctx.pos());
                            let p = ctx.pos();
                            let w0 = tokens.list_view().last();
                            lemma_frags_of_flush_push(tokens.list_view(), tl0, lit0, w0);
                            let done2 = frags_of(tokens.list_view());
                            lemma_step_dollar(
                                s,
                                bt,
                                false,
                                index_flag,
                                i0,
                                cur,
                                p,
                                frags_of(tl0),
                                lit0,
                                done2,
                                w0,
                            );
                            assert(tokens.acc() + s.subrange(p, p) =~= Seq::<char>::empty());
                        } else {
                            lemma_step_lit(
                                s,
                                bt,
                                false,
                                index_flag,
                                i0,
                                cur,
                                cur + 1,
                                frags_of(tl0),
                                lit0,
                                '$',
                            );
                            assert(tokens.acc() + s.subrange(ctx.pos(), ctx.pos())
                                =~= lit0.push('$'));
                        }
                        assert(frags_end(s, bt, cur, false, index_flag) == frags_end(
                            s,
                            bt,
                            ctx.pos(),
                            false,
                            index_flag,
                        ));
                    }
                },
                Err(e) => {
                    proof {
                        assert(cur + 1 < s.len() && (varname_char(s[cur + 1]) || s[cur + 1]
                            == '{'));
                        assert(varname_end(s, bt, cur + 1) is Err);
                        assert(frags_end(s, bt, cur, false, index_flag) == Err::<int, Seq<char>>(
                            varname_end(s, bt, cur + 1)->Err_0,
                        ));
                    }
                    return Err(e);
                },
            }
            start = ctx.mark();
        } else if ctx.next_is('\\') {
            if start != ctx.mark() {
                let tok = ctx.token(start);
                tokens.push_str(tok.as_str());
            }
            proof {
                assert(tokens.acc() =~= lit0);
            }
            let ch = ctx.backslash_subst();
            proof {
                assert(clamp_pos(bs_result(s, cur).1, cur + 1, s.len() as int) == ctx.pos());
                assert(frags_end(s, bt, cur, false, index_flag) == frags_end(
                    s,
                    bt,
                    ctx.pos(),
                    false,
                    index_flag,
                ));
            }
            tokens.push_char(ch);
            proof {
                lemma_step_lit(
                    s,
                    bt,
                    false,
                    index_flag,
                    i0,
                    cur,
                    ctx.pos(),
                    frags_of(tl0),
                    lit0,
                    bs_result(s, cur).0,
                );
                assert(tokens.acc() + s.subrange(ctx.pos(), ctx.pos()) =~= lit0.push(ch));
            }
            start = ctx.mark();
        } else {
            ctx.skip();
            proof {
                assert(frags_end(s, bt, cur, false, index_flag) == frags_end(
                    s,
                    bt,
                    ctx.pos(),
                    false,
                    index_flag,
                ));
                lemma_step_lit(
                    s,
                    bt,
                    false,
                    index_flag,
                    i0,
                    cur,
                    cur + 1,
                    frags_of(tl0),
                    lit0,
                    s[cur],
                );
                assert(tokens.acc() + s.subrange(st0, cur + 1) =~= lit0.push(s[cur]));
                if bare_scan(s, bt, i0, index_flag) is Lit {
                    match bare_scan(s, bt, cur + 1, index_flag) {
                        BareScan::Lit(c2, j2) => {
                            assert(s.subrange(i0, cur) + (seq![s[cur]] + c2) =~= s.subrange(
                                i0,
                                cur + 1,
                            ) + c2);
                        },
                        _ => (),
                    }
                }
            }
        }
    }

    let ghost endp = ctx.pos();
    let ghost lit_exit = tokens.acc() + s.subrange(start as int, endp);
    if start != ctx.mark() {
        let tok = ctx.token(start);
        tokens.push_str(tok.as_str());
    }
    proof {
        assert(tokens.acc() =~= lit_exit);
    }

    let ghost tl_f = tokens.list_view();
    let ghost tg_f = tokens.got();
    let ghost ta_f = tokens.acc();
    let w = tokens.take();
    proof {
        assert(frags_end(s, bt, endp, false, index_flag) == Ok::<int, Seq<char>>(endp));
        if bare_scan(s, bt, i0, index_flag) is Lit {
            assert(s.subrange(i0, endp) + Seq::<char>::empty() =~= s.subrange(i0, endp));
        }

        // The whole word decomposes into the gathered fragments.
        assert(frags_rel(s, bt, endp, false, index_flag, Seq::<FragView>::empty(), endp));
        let total = seam(frags_of(tl_f), ta_f, Seq::<FragView>::empty());
        assert(frags_rel(s, bt, i0, false, index_flag, total, endp));
        lemma_take_frag_word(tl_f, tg_f, ta_f, w, total);
    }
    Ok(w)
}

/// Parses a bracketed script: the nested script runs to the matching close
/// bracket, which must be present.
#[verifier::rlimit(60)]
pub fn parse_brackets(ctx: &mut EvalPtr) -> (r: Result<Script, Exception>)
    requires
        old(ctx).wf(),
        old(ctx).pos() < old(ctx).s().len(),
        old(ctx).s()[old(ctx).pos()] == '[',
    ensures
        final(ctx).wf(),
        final(ctx).s() == old(ctx).s(),
        final(ctx).bt() == old(ctx).bt(),
        old(ctx).pos() < final(ctx).pos() <= final(ctx).s().len(),
        r is Ok ==> final(ctx).pos() >= old(ctx).pos() + 2 && old(ctx).s()[final(ctx).pos() - 1]
            == ']',
        bracket_end(old(ctx).s(), old(ctx).pos()) matches Ok(j2) ==> r is Ok && final(ctx).pos()
            == j2,
        bracket_end(old(ctx).s(), old(ctx).pos()) matches Err(m) ==> (r matches Err(e)
            && is_plain_error(e, m)),
        r matches Ok(sc) ==> script_rel(
            old(ctx).s(),
            true,
            old(ctx).pos() + 1,
            sc.cmds(),
            final(ctx).pos() - 1,
        ),
    decreases old(ctx).s().len() - old(ctx).pos(), 2int,
{
    let ghost s = old(ctx).s();
    let ghost i0 = old(ctx).pos();

    // Skip the open bracket.
    ctx.skip_char('[');

    // Parse the script up to the matching close bracket.
    let old_flag = ctx.is_bracket_term();
    ctx.set_bracket_term(true);
    let result = parse_script(ctx);
    ctx.set_bracket_term(old_flag);

    // The close bracket must be present.
    match result {
        Ok(script) => {
            proof {
                assert(!(script_end(s, true, i0 + 1) is Err));
                assert(ctx.pos() == script_end(s, true, i0 + 1)->Ok_0);
            }
            if ctx.next_is(']') {
                ctx.skip();
                proof {
                    assert(bracket_end(s, i0) == Ok::<int, Seq<char>>(ctx.pos()));
                }
                Ok(script)
            } else {
                proof {
                    assert(bracket_end(s, i0) == Err::<int, Seq<char>>("missing close-bracket"@));
                }
                Err(missing_bracket_error())
            }
        },
        Err(e) => {
            proof {
                assert(script_end(s, true, i0 + 1) is Err);
                assert(bracket_end(s, i0) == Err::<int, Seq<char>>(
                    script_end(s, true, i0 + 1)->Err_0,
                ));
            }
            Err(e)
        },
    }
}

fn missing_bracket_error() -> (e: Exception)
    ensures
        is_plain_error(e, "missing close-bracket"@),
{
    Exception::molt_err(Value::from("missing close-bracket"))
}

/// Parses a `$` in the input and pushes the result: a variable reference,
/// or, when no variable name follows, the literal dollar sign.
pub fn parse_dollar(ctx: &mut EvalPtr, tokens: &mut Tokens) -> (r: Result<(), Exception>)
    requires
        old(ctx).wf(),
        old(ctx).pos() < old(ctx).s().len(),
        old(ctx).s()[old(ctx).pos()] == '$',
        old(tokens).wf_acc(),
    ensures
        final(tokens).wf_acc(),
        final(ctx).wf(),
        final(ctx).s() == old(ctx).s(),
        final(ctx).bt() == old(ctx).bt(),
        old(ctx).pos() < final(ctx).pos() <= final(ctx).s().len(),
        !(old(ctx).pos() + 1 < old(ctx).s().len() && (varname_char(
            old(ctx).s()[old(ctx).pos() + 1],
        ) || old(ctx).s()[old(ctx).pos() + 1] == '{')) ==> r is Ok && final(ctx).pos() == old(ctx).pos() + 1 && final(tokens).list_view() == old(tokens).list_view() && final(tokens).acc()
            == old(tokens).acc().push('$') && final(tokens).got(),
        old(ctx).pos() + 1 < old(ctx).s().len() && (varname_char(old(ctx).s()[old(ctx).pos() + 1])
            || old(ctx).s()[old(ctx).pos() + 1] == '{') ==> ((varname_end(
            old(ctx).s(),
            old(ctx).bt(),
            old(ctx).pos() + 1,
        ) matches Ok(j2) ==> r is Ok && final(ctx).pos() == j2) && (varname_end(
            old(ctx).s(),
            old(ctx).bt(),
            old(ctx).pos() + 1,
        ) matches Err(m) ==> (r matches Err(e) && is_plain_error(e, m)))),
        old(ctx).pos() + 1 < old(ctx).s().len() && (varname_char(old(ctx).s()[old(ctx).pos() + 1])
            || old(ctx).s()[old(ctx).pos() + 1] == '{') && r is Ok ==> !final(tokens).got()
            && final(tokens).acc().len() == 0 && final(tokens).list_view().len() >= 1
            && varname_word_shape(
            old(ctx).s(),
            old(ctx).bt(),
            old(ctx).pos() + 1,
            final(tokens).list_view().last(),
        ) && varname_index_frags(
            old(ctx).s(),
            old(ctx).bt(),
            old(ctx).pos() + 1,
            final(tokens).list_view().last(),
        ) && (final(tokens).list_view().last() is VarRef || final(tokens).list_view().last()
            is ArrayRef) && (!old(tokens).got() ==> final(tokens).list_view() == old(tokens).list_view().push(final(tokens).list_view().last())) && (old(tokens).got() ==> final(tokens).list_view().len() == old(tokens).list_view().len() + 2 && final(tokens).list_view().subrange(0, old(tokens).list_view().len() as int) == old(tokens).list_view()
            && (final(tokens).list_view()[old(tokens).list_view().len() as int] matches
        Word::String(st) && st@ == old(tokens).acc())),
    decreases old(ctx).s().len() - old(ctx).pos(), 2int,
{
    // Skip the dollar sign.
    ctx.skip_char('$');

    // Unless a variable name follows, this is a plain dollar sign.
    if !ctx.next_is_varname_char() && !ctx.next_is('{') {
        tokens.push_char('$');
        Ok(())
    } else {
        match parse_varname(ctx) {
            Ok(w) => {
                tokens.push(w);
                Ok(())
            },
            Err(e) => Err(e),
        }
    }
}

/// The shape of the word a variable reference parses to, at position `i`
/// (the `$` already consumed): a braced name splits like a literal variable
/// name; a plain name takes the maximal run of name characters, and an
/// index in parentheses makes it an array element reference whose index
/// word, when it holds no substitution, is the literal index text.
pub open spec fn varname_word_shape(s: Seq<char>, bt: bool, i: int, w: Word) -> bool {
    if i < s.len() && s[i] == '{' {
        let e = find_char(s, i + 1, '}');
        e < s.len() ==> (match varname_split(s.subrange(i + 1, e)) {
            Some((nm, ix)) => (w matches Word::ArrayRef(name, bx) && name@ == nm && (*bx matches
            Word::String(st) && st@ == ix)),
            None => (w matches Word::VarRef(name) && name@ == s.subrange(i + 1, e)),
        })
    } else {
        let e = varname_run_end(s, i);
        if e >= s.len() || s[e] != '(' {
            w matches Word::VarRef(name) && name@ == s.subrange(i, e)
        } else {
            match bare_scan(s, bt, e + 1, true) {
                BareScan::Lit(c, j) => ((j < s.len() && s[j] == ')') ==> (w matches Word::ArrayRef(
                    name,
                    bx,
                ) && name@ == s.subrange(i, e) && (*bx matches Word::Value(v) && v@ == c))),
                BareScan::Special => (w matches Word::ArrayRef(name, bx) && name@ == s.subrange(
                    i,
                    e,
                )),
            }
        }
    }
}

/// When a variable reference's index holds substitutions, the index word
/// of the returned array element reference collapses a fragment
/// decomposition of the index region (for a literal index the shape above
/// already pins the word exactly).
pub open spec fn varname_index_frags(s: Seq<char>, bt: bool, i: int, w: Word) -> bool {
    if i < s.len() && s[i] != '{' {
        let e = varname_run_end(s, i);
        if e < s.len() && s[e] == '(' {
            w matches Word::ArrayRef(name, bx) && (frags_end(s, bt, e + 1, false, true) matches Ok(
                jx,
            ) ==> exists|frags: Seq<FragView>|
                #[trigger] frags_rel(s, bt, e + 1, false, true, frags, jx) && frag_word_ok(
                    frags,
                    *bx,
                ))
        } else {
            true
        }
    } else {
        true
    }
}

/// Parses a variable name, the `$` already consumed: `name`, `${name}`, or
/// `name(index)`, where the braced form takes the name literally (with an
/// optional trailing `(index)` inside the braces) and the plain form reads
/// name characters and then an optional index word.
#[verifier::rlimit(60)]
pub fn parse_varname(ctx: &mut EvalPtr) -> (r: Result<Word, Exception>)
    requires
        old(ctx).wf(),
        old(ctx).pos() < old(ctx).s().len(),
        varname_char(old(ctx).s()[old(ctx).pos()]) || old(ctx).s()[old(ctx).pos()] == '{',
    ensures
        final(ctx).wf(),
        final(ctx).s() == old(ctx).s(),
        final(ctx).bt() == old(ctx).bt(),
        old(ctx).pos() < final(ctx).pos() <= final(ctx).s().len(),
        r matches Ok(w) ==> varname_word_shape(old(ctx).s(), old(ctx).bt(), old(ctx).pos(), w)
            && (w is VarRef || w is ArrayRef) && varname_index_frags(
            old(ctx).s(),
            old(ctx).bt(),
            old(ctx).pos(),
            w,
        ),
        varname_end(old(ctx).s(), old(ctx).bt(), old(ctx).pos()) matches Ok(j2) ==> r is Ok
            && final(ctx).pos() == j2,
        varname_end(old(ctx).s(), old(ctx).bt(), old(ctx).pos()) matches Err(m) ==> (r matches Err(e) && is_plain_error(e, m)),
    decreases old(ctx).s().len() - old(ctx).pos(), 1int,
{
    let ghost s = old(ctx).s();
    let ghost bt = old(ctx).bt();
    let ghost i0 = old(ctx).pos();
    if ctx.next_is('{') {
        // A braced variable name.
        ctx.skip_char('{');
        let start = ctx.mark();
        let not_brace = |ch: char| -> (b: bool)
            ensures
                b == (ch != '}'),
            { ch != '}' };
        ctx.skip_while(not_brace);
        proof {
            assert forall|j: int| i0 + 1 <= j < ctx.pos() implies #[trigger] s[j] != '}' by {
                assert(call_ensures(not_brace, (s[j],), true));
            }
            if ctx.pos() < s.len() {
                assert(call_ensures(not_brace, (s[ctx.pos()],), false));
                assert(s[ctx.pos()] == '}');
            }
            lemma_find_char(s, i0 + 1, ctx.pos(), '}');
        }

        if ctx.tok().at_end() {
            proof {
                assert(ctx.pos() == s.len());
                assert(varname_end(s, bt, i0) == Err::<int, Seq<char>>(
                    "missing close-brace for variable name"@,
                ));
            }
            return Err(missing_varname_brace_error());
        }
        proof {
            assert(varname_end(s, bt, i0) == Ok::<int, Seq<char>>(
                find_char(s, i0 + 1, '}') + 1,
            ));
        }

        let name_lit = ctx.token(start);
        let var_name = parse_varname_literal(name_lit.as_str());
        ctx.skip_char('}');
        match var_name.index() {
            Some(index) => Ok(
                Word::ArrayRef(
                    String::from_str(var_name.name()),
                    Box::new(Word::String(String::from_str(index))),
                ),
            ),
            None => Ok(Word::VarRef(String::from_str(var_name.name()))),
        }
    } else {
        let start = ctx.mark();
        let is_vnc = |ch: char| -> (b: bool)
            ensures
                b == varname_char(ch),
            { is_varname_char(ch) };
        ctx.skip_while(is_vnc);
        proof {
            assert forall|j: int| i0 <= j < ctx.pos() implies varname_char(#[trigger] s[j]) by {
                assert(call_ensures(is_vnc, (s[j],), true));
            }
            if ctx.pos() < s.len() {
                assert(call_ensures(is_vnc, (s[ctx.pos()],), false));
                assert(!varname_char(s[ctx.pos()]));
            }
            lemma_varname_run(s, i0, ctx.pos());
        }
        let name = ctx.token(start);
        let ghost e = ctx.pos();
        proof {
            assert(clamp_pos(varname_run_end(s, i0), i0, s.len() as int) == e);
        }

        if !ctx.next_is('(') {
            // A scalar reference.
            proof {
                assert(varname_end(s, bt, i0) == Ok::<int, Seq<char>>(e));
            }
            Ok(Word::VarRef(name))
        } else {
            // An array reference; the index is a word of its own.
            ctx.skip();
            let index = match parse_bare_word(ctx, true) {
                Ok(w) => w,
                Err(err) => {
                    proof {
                        assert(frags_end(s, bt, e + 1, false, true) is Err);
                        assert(varname_end(s, bt, i0) == Err::<int, Seq<char>>(
                            frags_end(s, bt, e + 1, false, true)->Err_0,
                        ));
                    }
                    return Err(err);
                },
            };
            proof {
                assert(!(frags_end(s, bt, e + 1, false, true) is Err));
                assert(ctx.pos() == frags_end(s, bt, e + 1, false, true)->Ok_0);
            }
            let ghost jx = frags_end(s, bt, e + 1, false, true)->Ok_0;
            let ghost fr_idx = choose|frags: Seq<FragView>|
                #[trigger] frags_rel(s, bt, e + 1, false, true, frags, jx) && frag_word_ok(
                    frags,
                    index,
                );
            proof {
                assert(frags_rel(s, bt, e + 1, false, true, fr_idx, jx) && frag_word_ok(
                    fr_idx,
                    index,
                ));
            }
            if !ctx.next_is(')') {
                proof {
                    assert(varname_end(s, bt, i0) == Err::<int, Seq<char>>("missing )"@));
                }
                return Err(missing_paren_error());
            }
            ctx.skip_char(')');
            proof {
                assert(varname_end(s, bt, i0) == Ok::<int, Seq<char>>(ctx.pos()));
            }
            Ok(Word::ArrayRef(name, Box::new(index)))
        }
    }
}

/// The index of the first occurrence of the character at or after `i`, or
/// the length of the input when there is none.
pub open spec fn find_char(s: Seq<char>, i: int, c: char) -> int
    decreases s.len() - i,
{
    if i >= s.len() {
        i
    } else if s[i] == c {
        i
    } else {
        find_char(s, i + 1, c)
    }
}

/// The end of the run of variable-name characters starting at `i`.
pub open spec fn varname_run_end(s: Seq<char>, i: int) -> int
    decreases s.len() - i,
{
    if i >= s.len() {
        i
    } else if varname_char(s[i]) {
        varname_run_end(s, i + 1)
    } else {
        i
    }
}

proof fn lemma_find_char(s: Seq<char>, i: int, e: int, c: char)
    requires
        i <= e <= s.len(),
        forall|j: int| i <= j < e ==> #[trigger] s[j] != c,
        e < s.len() ==> s[e] == c,
    ensures
        find_char(s, i, c) == e,
    decreases e - i,
{
    if i < e {
        lemma_find_char(s, i + 1, e, c);
    }
}

proof fn lemma_varname_run(s: Seq<char>, i: int, e: int)
    requires
        i <= e <= s.len(),
        forall|j: int| i <= j < e ==> varname_char(#[trigger] s[j]),
        e < s.len() ==> !varname_char(s[e]),
    ensures
        varname_run_end(s, i) == e,
    decreases e - i,
{
    if i < e {
        lemma_varname_run(s, i + 1, e);
    }
}

fn missing_varname_brace_error() -> (e: Exception)
    ensures
        is_plain_error(e, "missing close-brace for variable name"@),
{
    Exception::molt_err(Value::from("missing close-brace for variable name"))
}

fn missing_paren_error() -> (e: Exception)
    ensures
        is_plain_error(e, "missing )"@),
{
    Exception::molt_err(Value::from("missing )"))
}

/// Splitting a literal variable name: a string with an opening parenthesis
/// and a final closing parenthesis splits into the name and the index; any
/// other string is a scalar name.
pub open spec fn varname_split(s: Seq<char>) -> Option<(Seq<char>, Seq<char>)> {
    if (exists|k: int| 0 <= k < s.len() && s[k] == '(') {
        let o = first_open_paren(s, 0);
        if o == s.len() - 1 {
            None
        } else if s[s.len() - 1] == ')' {
            Some((s.subrange(0, o), s.subrange(o + 1, s.len() - 1)))
        } else {
            None
        }
    } else {
        None
    }
}

/// The index of the first `(` at or after `i`.
pub open spec fn first_open_paren(s: Seq<char>, i: int) -> int
    decreases s.len() - i,
{
    if i >= s.len() {
        i
    } else if s[i] == '(' {
        i
    } else {
        first_open_paren(s, i + 1)
    }
}

/// Parses a literal variable name: a string that is known to be a complete
/// variable name.  If it contains an opening parenthesis and ends with a
/// closing parenthesis, it is an array element reference; otherwise it is
/// a scalar name.
pub fn parse_varname_literal(literal: &str) -> (r: VarName)
    ensures
        varname_split(literal@) matches Some((name, index)) ==> r.name_view() == name
            && r.index_view() == Some(index),
        varname_split(literal@) is None ==> r.name_view() == literal@ && r.index_view() is None,
{
    let chars: Vec<char> = crate::util::str_chars(literal);
    let n: usize = chars.len();

    // Find the first open parenthesis, if any.
    let mut o: usize = 0;
    while o < n
        invariant
            n == chars@.len(),
            chars@ == literal@,
            o <= n,
            forall|k: int| 0 <= k < o ==> chars@[k] != '(',
            first_open_paren(literal@, 0) == first_open_paren(literal@, o as int),
        ensures
            o <= n,
            forall|k: int| 0 <= k < o ==> chars@[k] != '(',
            first_open_paren(literal@, 0) == first_open_paren(literal@, o as int),
            o == n || chars@[o as int] == '(',
        decreases n - o,
    {
        if chars[o] == '(' {
            break;
        }
        o = o + 1;
    }

    if o == n {
        // No parenthesis: a scalar.
        proof {
            assert(forall|k: int| 0 <= k < literal@.len() ==> literal@[k] != '(');
            assert(varname_split(literal@) is None);
        }
        return VarName::scalar(String::from_str(literal));
    }
    proof {
        assert(literal@[o as int] == '(');
        assert(first_open_paren(literal@, o as int) == o);
    }

    if o + 1 == n {
        // The parenthesis is the last character: a scalar.
        proof {
            assert(varname_split(literal@) is None);
        }
        return VarName::scalar(String::from_str(literal));
    }

    if chars[n - 1] == ')' {
        let name_chars = slice_part(&chars, 0, o);
        let name = crate::util::chars_to_string(name_chars.as_slice());
        let index_chars = slice_part(&chars, o + 1, n - 1);
        let index = crate::util::chars_to_string(index_chars.as_slice());
        proof {
            assert(varname_split(literal@) matches Some((nm, ix)) && nm == literal@.subrange(
                0,
                o as int,
            ) && ix == literal@.subrange(o + 1, n - 1));
        }
        VarName::array(name, index)
    } else {
        proof {
            assert(literal@[n - 1] != ')');
            assert(varname_split(literal@) is None);
        }
        VarName::scalar(String::from_str(literal))
    }
}

/// Copies the half-open range `[from, to)` of a character vector.
fn slice_part(chars: &Vec<char>, from: usize, to: usize) -> (r: Vec<char>)
    requires
        from <= to <= chars@.len(),
    ensures
        r@ == chars@.subrange(from as int, to as int),
{
    let mut out: Vec<char> = Vec::new();
    let mut i: usize = from;
    while i < to
        invariant
            from <= i <= to <= chars@.len(),
            out@ == chars@.subrange(from as int, i as int),
        decreases to - i,
    {
        out.push(chars[i]);
        i = i + 1;
        proof {
            assert(out@ =~= chars@.subrange(from as int, i as int));
        }
    }
    out
}

} // verus!

verus! {

/// The standard arity-error message: the command's name and the usage
/// string it expects.
pub open spec fn wrong_args_msg(cmd: Seq<char>, usage: Seq<char>) -> Seq<char> {
    "wrong # args: should be \""@ + cmd + " "@ + usage + "\""@
}

impl Script {
    /// A readable rendering of the parsed script, for the parse command.
    pub fn text(&self) -> String
        decreases self,
    {
        let mut out: String = String::from_str("Script[");
        let n: usize = self.commands.len();
        let mut i: usize = 0;
        while i < n
            invariant
                n == self.commands@.len(),
                i <= n,
            decreases n - i,
        {
            if i > 0 {
                out.append("; ");
            }
            proof {
                assert(decreases_to!(*self => self.commands));
                assert(decreases_to!(self.commands => self.commands@));
                assert(decreases_to!(self.commands@ => self.commands@[i as int]));
                assert(decreases_to!(*self => self.commands@[i as int]));
            }
            let cmd_text = self.commands[i].text();
            out.append(cmd_text.as_str());
            i = i + 1;
        }
        crate::util::string_push(&mut out, ']');
        out
    }
}

impl WordVec {
    /// A readable rendering of the command's words.
    pub fn text(&self) -> String
        decreases self,
    {
        let mut out: String = String::new();
        let n: usize = self.words.len();
        let mut i: usize = 0;
        while i < n
            invariant
                n == self.words@.len(),
                i <= n,
            decreases n - i,
        {
            if i > 0 {
                crate::util::string_push(&mut out, ' ');
            }
            proof {
                assert(decreases_to!(*self => self.words));
                assert(decreases_to!(self.words => self.words@));
                assert(decreases_to!(self.words@ => self.words@[i as int]));
                assert(decreases_to!(*self => self.words@[i as int]));
            }
            let word_text = self.words[i].text();
            out.append(word_text.as_str());
            i = i + 1;
        }
        out
    }
}

impl Word {
    /// A readable rendering of the word: its kind, and its parts.
    pub fn text(&self) -> String
        decreases self,
    {
        match self {
            Word::Value(v) => {
                let mut out: String = String::from_str("Value(");
                out.append(v.as_str());
                crate::util::string_push(&mut out, ')');
                out
            },
            Word::VarRef(name) => {
                let mut out: String = String::from_str("VarRef(");
                out.append(name.as_str());
                crate::util::string_push(&mut out, ')');
                out
            },
            Word::ArrayRef(name, index) => {
                let mut out: String = String::from_str("ArrayRef(");
                out.append(name.as_str());
                out.append(", ");
                proof {
                    assert(decreases_to!(*self => self->ArrayRef_1));
                }
                let index_text = index.text();
                out.append(index_text.as_str());
                crate::util::string_push(&mut out, ')');
                out
            },
            Word::Script(script) => {
                let mut out: String = String::from_str("Script(");
                proof {
                    assert(decreases_to!(*self => self->Script_0));
                }
                let script_text = script.text();
                out.append(script_text.as_str());
                crate::util::string_push(&mut out, ')');
                out
            },
            Word::Tokens(words) => {
                let mut out: String = String::from_str("Tokens[");
                let n: usize = words.len();
                let mut i: usize = 0;
                while i < n
                    invariant
                        n == words@.len(),
                        i <= n,
                        *self == Word::Tokens(*words),
                    decreases n - i,
                {
                    if i > 0 {
                        crate::util::string_push(&mut out, ' ');
                    }
                    proof {
                        assert(decreases_to!(*self => self->Tokens_0));
                        assert(decreases_to!(self->Tokens_0 => self->Tokens_0@));
                        assert(decreases_to!(self->Tokens_0@ => self->Tokens_0@[i as int]));
                        assert(decreases_to!(*self => self->Tokens_0@[i as int]));
                        assert(words@[i as int] == self->Tokens_0@[i as int]);
                    }
                    let word_text = words[i].text();
                    out.append(word_text.as_str());
                    i = i + 1;
                }
                crate::util::string_push(&mut out, ']');
                out
            },
            Word::Expand(inner) => {
                let mut out: String = String::from_str("Expand(");
                proof {
                    assert(decreases_to!(*self => self->Expand_0));
                }
                let inner_text = inner.text();
                out.append(inner_text.as_str());
                crate::util::string_push(&mut out, ')');
                out
            },
            Word::String(st) => {
                let mut out: String = String::from_str("String(");
                out.append(st.as_str());
                crate::util::string_push(&mut out, ')');
                out
            },
        }
    }
}

/// # parse *script*
///
/// A command for parsing an arbitrary script and returning the parsed
/// form as readable text; a debugging aid.
pub fn cmd_parse(argv: &[Value]) -> (r: crate::types::MoltOptResult)
    requires
        argv@.len() >= 1,
    ensures
        argv@.len() != 2 ==> (r matches Err(e) && is_plain_error(
            e,
            wrong_args_msg(argv@[0]@, "script"@),
        )),
        argv@.len() == 2 && script_end(argv@[1]@, false, 0) is Ok ==> (r matches Ok(v)
            && v is Some),
        argv@.len() == 2 ==> (script_end(argv@[1]@, false, 0) matches Err(m) ==> (r matches Err(e)
            && is_plain_error(e, m))),
{
    if argv.len() != 2 {
        let mut msg: String = String::from_str("wrong # args: should be \"");
        msg.append(argv[0].as_str());
        msg.append(" script\"");
        proof {
            reveal_strlit("wrong # args: should be \"");
            reveal_strlit(" script\"");
            reveal_strlit(" ");
            reveal_strlit("script");
            reveal_strlit("\"");
            assert(msg@ =~= wrong_args_msg(argv@[0]@, "script"@));
        }
        return Err(Exception::molt_err(Value::from_string(msg)));
    }

    match parse(argv[1].as_str()) {
        Ok(script) => Ok(Some(Value::from_string(script.text()))),
        Err(e) => Err(e),
    }
}

} // verus!
