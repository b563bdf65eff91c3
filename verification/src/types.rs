//! The types of the completion-code protocol: `ResultCode`, `Exception`,
//! and `ErrorData`, together with the `Subcommand` ensemble table and the
//! `VarName` split of a variable reference.
//!
//! Evaluating a script either produces a `Value` or returns early; the early
//! returns — errors, explicit returns, breaks, and continues — travel as an
//! `Exception` carrying a `ResultCode`, an optional result `Value`, the
//! `return -level` count, the `return -code` to adopt when the level runs
//! out, and, for errors, an `ErrorData` with the error code and stack trace.

use vstd::prelude::*;

use crate::value::Value;
use crate::value::int_decimal;
use crate::value::parse_int_spec;
use crate::value::format_int;

verus! {

/// The standard integer type for interpreter values.
pub type MoltInt = i64;

/// The standard list type: a list is a vector of values.
pub type MoltList = Vec<Value>;

/// The standard result type: a value, or an early return.
pub type MoltResult = Result<Value, Exception>;

/// The result type for commands that may decline to produce a value.
pub type MoltOptResult = Result<Option<Value>, Exception>;

/// The kinds of early return a script can take.
#[derive(Debug, Clone, Copy, PartialEq, Eq, Structural)]
pub enum ResultCode {
    /// Adopt an `Ok(value)` higher up the stack.
    Okay,
    /// An error; the exception's value is the message.
    Error,
    /// An explicit return from a procedure.
    Return,
    /// A `break` out of the enclosing loop.
    Break,
    /// A `continue` with the enclosing loop's next iteration.
    Continue,
    /// An application-defined result code.
    Other(MoltInt),
}

/// The integer form of a result code, as the `catch` command reports it.
pub open spec fn code_int(code: ResultCode) -> int {
    match code {
        ResultCode::Okay => 0,
        ResultCode::Error => 1,
        ResultCode::Return => 2,
        ResultCode::Break => 3,
        ResultCode::Continue => 4,
        ResultCode::Other(num) => num as int,
    }
}

/// The string form of a result code, as the `return -code` option takes it.
pub open spec fn code_string(code: ResultCode) -> Seq<char> {
    match code {
        ResultCode::Okay => "ok"@,
        ResultCode::Error => "error"@,
        ResultCode::Return => "return"@,
        ResultCode::Break => "break"@,
        ResultCode::Continue => "continue"@,
        ResultCode::Other(num) => int_decimal(num as int),
    }
}

/// The result code a string denotes: one of the five names, or any string
/// that reads as an integer, with the first five integers mapping to the
/// named codes.
pub open spec fn code_of_string(s: Seq<char>) -> Option<ResultCode> {
    if s == "ok"@ {
        Some(ResultCode::Okay)
    } else if s == "error"@ {
        Some(ResultCode::Error)
    } else if s == "return"@ {
        Some(ResultCode::Return)
    } else if s == "break"@ {
        Some(ResultCode::Break)
    } else if s == "continue"@ {
        Some(ResultCode::Continue)
    } else if parse_int_spec(s) matches Some(n) && i64::MIN <= n <= i64::MAX {
        Some(code_of_int(parse_int_spec(s)->0))
    } else {
        None
    }
}

/// The result code an integer denotes.
pub open spec fn code_of_int(n: int) -> ResultCode {
    if n == 0 {
        ResultCode::Okay
    } else if n == 1 {
        ResultCode::Error
    } else if n == 2 {
        ResultCode::Return
    } else if n == 3 {
        ResultCode::Break
    } else if n == 4 {
        ResultCode::Continue
    } else {
        ResultCode::Other(n as MoltInt)
    }
}

/// The error message for a string that denotes no result code.
pub open spec fn invalid_code_msg(s: Seq<char>) -> Seq<char> {
    "invalid result code: \""@ + s + "\""@
}

impl ResultCode {
    /// Retrieves a result code from a value: one of the symbolic names, or
    /// an integer.
    pub fn from_value(value: &Value) -> (r: Result<Self, Exception>)
        ensures
            r is Ok <==> code_of_string(value@) is Some,
            r matches Ok(c) ==> code_of_string(value@) == Some(c),
            r matches Err(e) ==> is_plain_error(e, invalid_code_msg(value@)),
    {
        let s: &str = value.as_str();
        if crate::util::str_eq(s, "ok") {
            Ok(ResultCode::Okay)
        } else if crate::util::str_eq(s, "error") {
            Ok(ResultCode::Error)
        } else if crate::util::str_eq(s, "return") {
            Ok(ResultCode::Return)
        } else if crate::util::str_eq(s, "break") {
            Ok(ResultCode::Break)
        } else if crate::util::str_eq(s, "continue") {
            Ok(ResultCode::Continue)
        } else {
            match Value::get_int(s) {
                Ok(num) => Ok(
                    if num == 0 {
                        ResultCode::Okay
                    } else if num == 1 {
                        ResultCode::Error
                    } else if num == 2 {
                        ResultCode::Return
                    } else if num == 3 {
                        ResultCode::Break
                    } else if num == 4 {
                        ResultCode::Continue
                    } else {
                        ResultCode::Other(num)
                    },
                ),
                Err(_) => {
                    let mut msg: String = String::from_str("invalid result code: \"");
                    msg.append(s);
                    crate::util::string_push(&mut msg, '"');
                    proof {
                        reveal_strlit("invalid result code: \"");
                        reveal_strlit("\"");
                        assert(msg@ =~= invalid_code_msg(value@));
                    }
                    Err(Exception::molt_err(Value::from_string(msg)))
                },
            }
        }
    }

    /// Returns the result code as an integer, as `catch` reports it.
    pub fn as_int(&self) -> (r: MoltInt)
        ensures
            r == code_int(*self),
    {
        match self {
            ResultCode::Okay => 0,
            ResultCode::Error => 1,
            ResultCode::Return => 2,
            ResultCode::Break => 3,
            ResultCode::Continue => 4,
            ResultCode::Other(num) => *num,
        }
    }
}

impl Value {
    /// Creates a value holding the string form of a result code.
    pub fn from_other(code: ResultCode) -> (v: Value)
        ensures
            v@ == code_string(code),
    {
        match code {
            ResultCode::Okay => Value::from("ok"),
            ResultCode::Error => Value::from("error"),
            ResultCode::Return => Value::from("return"),
            ResultCode::Break => Value::from("break"),
            ResultCode::Continue => Value::from("continue"),
            ResultCode::Other(num) => Value::from_string(format_int(num)),
        }
    }
}

/// The error code and stack trace carried by an error exception.
#[derive(Debug, Clone, PartialEq)]
pub struct ErrorData {
    // The error code; defaults to "NONE".
    error_code: Value,

    // The stack trace, one line per entry.
    stack_trace: Vec<String>,

    // Whether the error was just raised, its trace still a single message.
    is_new: bool,
}

impl ErrorData {
    /// The error code's string form.
    pub closed spec fn code_view(&self) -> Seq<char> {
        self.error_code@
    }

    /// The stack trace lines.
    pub closed spec fn trace(&self) -> Seq<Seq<char>> {
        self.stack_trace.deep_view()
    }

    /// Whether the error is newly raised.
    pub closed spec fn new_flag(&self) -> bool {
        self.is_new
    }

    /// Creates error data for a fresh error: the trace is the error message
    /// alone, and the data is marked new.
    pub fn new(error_code: Value, error_msg: &str) -> (d: Self)
        ensures
            d.code_view() == error_code@,
            d.trace() == seq![error_msg@],
            d.new_flag(),
    {
        let mut trace: Vec<String> = Vec::new();
        trace.push(String::from_str(error_msg));
        let d = Self { error_code, stack_trace: trace, is_new: true };
        proof {
            assert(d.trace() =~= seq![error_msg@]);
        }
        d
    }

    /// Creates error data for a rethrown error: the trace starts from the
    /// given partial stack trace, and the data is not marked new.
    pub fn rethrow(error_code: Value, error_info: &str) -> (d: Self)
        ensures
            d.code_view() == error_code@,
            d.trace() == seq![error_info@],
            !d.new_flag(),
    {
        let mut trace: Vec<String> = Vec::new();
        trace.push(String::from_str(error_info));
        let d = Self { error_code, stack_trace: trace, is_new: false };
        proof {
            assert(d.trace() =~= seq![error_info@]);
        }
        d
    }

    /// Returns the error code.
    pub fn error_code(&self) -> (r: Value)
        ensures
            r@ == self.code_view(),
    {
        self.error_code.clone()
    }

    /// Whether this has just been created, or the stack trace has been
    /// extended.
    pub fn is_new(&self) -> (r: bool)
        ensures
            r == self.new_flag(),
    {
        self.is_new
    }

    /// Returns the stack trace as one value, the lines joined by newlines.
    pub fn error_info(&self) -> (r: Value)
        ensures
            r@ == join_lines(self.trace()),
    {
        let n: usize = self.stack_trace.len();
        let mut out: String = String::new();
        let mut i: usize = 0;
        while i < n
            invariant
                n == self.trace().len(),
                i <= n,
                out@ == join_lines(self.trace().take(i as int)),
            decreases n - i,
        {
            if i > 0 {
                crate::util::string_push(&mut out, '\n');
            }
            out.append(self.stack_trace[i].as_str());
            i = i + 1;
            proof {
                lemma_join_lines_step(self.trace(), i as int);
                assert(self.trace().take(i as int).drop_last() =~= self.trace().take(i - 1));
                assert(out@ =~= join_lines(self.trace().take(i as int)));
            }
        }
        proof {
            assert(self.trace().take(n as int) =~= self.trace());
        }
        Value::from_string(out)
    }

    /// Adds to the stack trace, which, having been extended, is no longer
    /// new.
    pub fn add_info(&mut self, info: &str)
        ensures
            final(self).code_view() == old(self).code_view(),
            final(self).trace() == old(self).trace().push(info@),
            !final(self).new_flag(),
    {
        self.stack_trace.push(String::from_str(info));
        self.is_new = false;
        proof {
            assert(self.trace() =~= old(self).trace().push(info@));
        }
    }
}

/// The stack trace lines joined by newlines.
pub open spec fn join_lines(lines: Seq<Seq<char>>) -> Seq<char>
    decreases lines.len(),
{
    if lines.len() == 0 {
        Seq::empty()
    } else if lines.len() == 1 {
        lines[0]
    } else {
        join_lines(lines.drop_last()) + seq!['\n'] + lines.last()
    }
}

proof fn lemma_join_lines_step(lines: Seq<Seq<char>>, i: int)
    requires
        1 <= i <= lines.len(),
    ensures
        i == 1 ==> join_lines(lines.take(i)) == lines[0],
        i > 1 ==> join_lines(lines.take(i)) == join_lines(lines.take(i - 1)) + seq!['\n']
            + lines[i - 1],
{
    if i == 1 {
        assert(lines.take(1).len() == 1);
        assert(lines.take(1)[0] == lines[0]);
    } else {
        assert(lines.take(i).drop_last() =~= lines.take(i - 1));
        assert(lines.take(i).last() == lines[i - 1]);
    }
}

/// A plain error exception: code `Error`, the message as its value, level
/// zero, and fresh error data with code "NONE" and the message as the whole
/// trace.
pub open spec fn is_plain_error(e: Exception, msg: Seq<char>) -> bool {
    &&& e.code_view() == ResultCode::Error
    &&& e.value_view() == Some(msg)
    &&& e.level_view() == 0
    &&& e.next_code_view() == ResultCode::Error
    &&& e.error_data_view() matches Some(d) && d.code_view() == "NONE"@ && d.trace() == seq![msg]
        && d.new_flag()
}

/// An exceptional result: how and why a script returned early.
#[derive(Debug, Clone, PartialEq)]
pub struct Exception {
    // The kind of exception.
    code: ResultCode,

    // The result value.
    value: Option<Value>,

    // The `return -level` value.  Non-zero only for `Return`.
    level: usize,

    // The `return -code` value: what the code becomes when the level runs
    // out.  Equal to `code` except while `code` is `Return`.
    next_code: ResultCode,

    // The error data, present exactly on errors.
    error_data: Option<ErrorData>,
}

impl Exception {
    /// The kind of exception.
    pub closed spec fn code_view(&self) -> ResultCode {
        self.code
    }

    /// The carried value, if any.
    pub closed spec fn value_view(&self) -> Option<Seq<char>> {
        self.value.deep_view()
    }

    /// The carried value's string form; empty when there is none.
    pub open spec fn value_chars(&self) -> Seq<char> {
        match self.value_view() {
            Some(s) => s,
            None => Seq::empty(),
        }
    }

    /// The `return -level` value.
    pub closed spec fn level_view(&self) -> int {
        self.level as int
    }

    /// The `return -code` value.
    pub closed spec fn next_code_view(&self) -> ResultCode {
        self.next_code
    }

    /// The error data, if any.
    pub closed spec fn error_data_view(&self) -> Option<ErrorData> {
        match self.error_data {
            Some(ref d) => Some(*d),
            None => None,
        }
    }

    /// Returns true if the exception is an error exception.
    pub fn is_error(&self) -> (r: bool)
        ensures
            r == (self.code_view() == ResultCode::Error),
    {
        match self.code {
            ResultCode::Error => true,
            _ => false,
        }
    }

    /// Returns the exception's error code.  Only error exceptions carry one.
    pub fn error_code(&self) -> (r: Value)
        requires
            self.error_data_view() is Some,
        ensures
            r@ == self.error_data_view()->0.code_view(),
    {
        match &self.error_data {
            Some(d) => d.error_code(),
            None => Value::empty(),
        }
    }

    /// Returns the exception's error info, the human-readable stack trace.
    /// Only error exceptions carry one.
    pub fn error_info(&self) -> (r: Value)
        requires
            self.error_data_view() is Some,
        ensures
            r@ == join_lines(self.error_data_view()->0.trace()),
    {
        match &self.error_data {
            Some(d) => d.error_info(),
            None => Value::empty(),
        }
    }

    /// Gets the exception's error data, present exactly when the code is
    /// `Error`.
    pub fn error_data(&self) -> (r: Option<&ErrorData>)
        ensures
            r is Some <==> self.error_data_view() is Some,
            r matches Some(d) ==> *d == self.error_data_view()->0,
    {
        match &self.error_data {
            Some(d) => Some(d),
            None => None,
        }
    }

    /// Gets the exception's result code.
    pub fn code(&self) -> (r: ResultCode)
        ensures
            r == self.code_view(),
    {
        self.code
    }

    /// Gets the exception's value: the explicit return value or the error
    /// message, or the empty value if none was carried.
    pub fn value(&self) -> (r: Value)
        ensures
            r@ == self.value_chars(),
    {
        match &self.value {
            Some(v) => v.clone(),
            None => Value::empty(),
        }
    }

    /// Gets the exception's level, set by `return -level`.
    pub fn level(&self) -> (r: usize)
        ensures
            r == self.level_view(),
    {
        self.level
    }

    /// Gets the exception's next code, set by `return -code`.
    pub fn next_code(&self) -> (r: ResultCode)
        ensures
            r == self.next_code_view(),
    {
        self.next_code
    }

    /// Adds a line to the exception's error info.  Only error exceptions
    /// carry error info.
    pub fn add_error_info(&mut self, line: &str)
        requires
            old(self).error_data_view() is Some,
        ensures
            final(self).code_view() == old(self).code_view(),
            final(self).value_view() == old(self).value_view(),
            final(self).level_view() == old(self).level_view(),
            final(self).next_code_view() == old(self).next_code_view(),
            final(self).error_data_view() matches Some(d) && d.code_view() == old(
                self,
            ).error_data_view()->0.code_view() && d.trace() == old(
                self,
            ).error_data_view()->0.trace().push(line@) && !d.new_flag(),
    {
        match &mut self.error_data {
            Some(d) => d.add_info(line),
            None => (),
        }
    }

    /// Creates an `Error` exception with the given error message and the
    /// default error code "NONE".
    pub fn molt_err(msg: Value) -> (e: Self)
        ensures
            is_plain_error(e, msg@),
    {
        let data = ErrorData::new(Value::from("NONE"), msg.as_str());
        Self {
            code: ResultCode::Error,
            value: Some(msg),
            level: 0,
            next_code: ResultCode::Error,
            error_data: Some(data),
        }
    }

    /// Creates an `Error` exception with the given error code and message.
    pub fn molt_err2(error_code: Value, msg: Value) -> (e: Self)
        ensures
            e.code_view() == ResultCode::Error,
            e.value_view() == Some(msg@),
            e.level_view() == 0,
            e.next_code_view() == ResultCode::Error,
            e.error_data_view() matches Some(d) && d.code_view() == error_code@ && d.trace()
                == seq![msg@] && d.new_flag(),
    {
        let data = ErrorData::new(error_code, msg.as_str());
        Self {
            code: ResultCode::Error,
            value: Some(msg),
            level: 0,
            next_code: ResultCode::Error,
            error_data: Some(data),
        }
    }

    /// Creates a `Return` exception with the given return value: one level,
    /// adopting `Okay` at the caller.
    pub fn molt_return(value: Value) -> (e: Self)
        ensures
            e.code_view() == ResultCode::Return,
            e.value_view() == Some(value@),
            e.level_view() == 1,
            e.next_code_view() == ResultCode::Okay,
            e.error_data_view() is None,
    {
        Self::molt_return_ext(Some(value), 1, ResultCode::Okay)
    }

    /// Creates an extended `Return` exception with the given return value,
    /// `-level`, and `-code`.  A level of zero with code `Okay` is an
    /// ordinary result, not an exception, and is not accepted here.
    pub fn molt_return_ext(value: Option<Value>, level: usize, next_code: ResultCode) -> (e: Self)
        requires
            level > 0 || next_code != ResultCode::Okay,
        ensures
            e.code_view() == (if level > 0 {
                ResultCode::Return
            } else {
                next_code
            }),
            e.value_view() == value.deep_view(),
            e.level_view() == level,
            e.next_code_view() == next_code,
            e.error_data_view() is None,
    {
        Self {
            code: if level > 0 {
                ResultCode::Return
            } else {
                next_code
            },
            value,
            level,
            next_code,
            error_data: None,
        }
    }

    /// Creates an exception that produces an `Error` with the given data,
    /// either immediately or some levels up the call chain; used to rethrow
    /// an existing error.
    pub fn molt_return_err(
        msg: Option<Value>,
        level: usize,
        error_code: Option<Value>,
        error_info: Option<Value>,
    ) -> (e: Self)
        ensures
            e.code_view() == (if level == 0 {
                ResultCode::Error
            } else {
                ResultCode::Return
            }),
            e.value_view() == msg.deep_view(),
            e.level_view() == level,
            e.next_code_view() == ResultCode::Error,
            e.error_data_view() matches Some(d) && d.code_view() == (match error_code {
                Some(c) => c@,
                None => "NONE"@,
            }) && d.trace() == seq![
                match error_info {
                    Some(v) => v@,
                    None => Seq::<char>::empty(),
                },
            ] && !d.new_flag(),
    {
        let error_code = match error_code {
            Some(c) => c,
            None => Value::from("NONE"),
        };
        let error_info = match error_info {
            Some(v) => v,
            None => Value::empty(),
        };
        let data = ErrorData::rethrow(error_code, error_info.as_str());
        Self {
            code: if level == 0 {
                ResultCode::Error
            } else {
                ResultCode::Return
            },
            value: msg,
            level,
            next_code: ResultCode::Error,
            error_data: Some(data),
        }
    }

    /// Creates a `Break` exception.
    pub fn molt_break() -> (e: Self)
        ensures
            e.code_view() == ResultCode::Break,
            e.value_view() is None,
            e.level_view() == 0,
            e.next_code_view() == ResultCode::Break,
            e.error_data_view() is None,
    {
        Self {
            code: ResultCode::Break,
            value: None,
            level: 0,
            next_code: ResultCode::Break,
            error_data: None,
        }
    }

    /// Creates a `Continue` exception.
    pub fn molt_continue() -> (e: Self)
        ensures
            e.code_view() == ResultCode::Continue,
            e.value_view() is None,
            e.level_view() == 0,
            e.next_code_view() == ResultCode::Continue,
            e.error_data_view() is None,
    {
        Self {
            code: ResultCode::Continue,
            value: None,
            level: 0,
            next_code: ResultCode::Continue,
            error_data: None,
        }
    }

    /// For a `Return` exception: decrements the level, and when it reaches
    /// zero, the exception adopts its next code.
    pub fn decrement_level(&mut self)
        requires
            old(self).code_view() == ResultCode::Return,
            old(self).level_view() > 0,
        ensures
            final(self).level_view() == old(self).level_view() - 1,
            final(self).code_view() == decremented_code(
                old(self).level_view(),
                old(self).next_code_view(),
            ),
            final(self).value_view() == old(self).value_view(),
            final(self).next_code_view() == old(self).next_code_view(),
            final(self).error_data_view() == old(self).error_data_view(),
    {
        self.level = self.level - 1;
        if self.level == 0 {
            self.code = self.next_code;
        }
    }

    /// Whether the exception is an error whose stack trace has not yet been
    /// extended by any frame.
    pub fn is_new_error(&self) -> (r: bool)
        ensures
            r == (self.error_data_view() matches Some(d) && d.new_flag()),
    {
        match &self.error_data {
            Some(d) => d.is_new(),
            None => false,
        }
    }
}

/// The level-decrement protocol, at the specification level: what one frame
/// boundary does to a `Return` exception's code and level.
pub open spec fn decremented_code(level: int, next_code: ResultCode) -> ResultCode {
    if level == 1 {
        next_code
    } else {
        ResultCode::Return
    }
}

/// The `return -level` protocol: an exception made with level two and a
/// next code crosses one frame boundary still as a `Return`, and adopts the
/// next code at the second; the carried value never changes on the way.
/// With the default next code `Okay`, `return -level 2` thus yields the
/// value as an ordinary result two frames up.
pub proof fn lemma_return_level_protocol(next_code: ResultCode)
    ensures
        decremented_code(2, next_code) == ResultCode::Return,
        decremented_code(1, next_code) == next_code,
{
}

/// The control-flow codes, as `catch` reports them: an error is 1, a return
/// is 2, a break is 3, and a continue is 4.
pub proof fn lemma_control_flow_codes()
    ensures
        code_int(ResultCode::Okay) == 0,
        code_int(ResultCode::Error) == 1,
        code_int(ResultCode::Return) == 2,
        code_int(ResultCode::Break) == 3,
        code_int(ResultCode::Continue) == 4,
{
}

/// Canonical round trip for result codes: the string form of a result
/// code reads back as that code.  The application-defined codes zero
/// through four are left out: their string forms are the digits that
/// denote the five named codes, and read back as those.
pub proof fn lemma_code_round_trip(code: ResultCode)
    requires
        code matches ResultCode::Other(n) ==> !(0 <= n <= 4),
    ensures
        code_of_string(code_string(code)) == Some(code),
{
    reveal_strlit("ok");
    reveal_strlit("error");
    reveal_strlit("return");
    reveal_strlit("break");
    reveal_strlit("continue");
    match code {
        ResultCode::Okay => {
        },
        ResultCode::Error => {
        },
        ResultCode::Return => {
        },
        ResultCode::Break => {
        },
        ResultCode::Continue => {
        },
        ResultCode::Other(num) => {
            let s = int_decimal(num as int);
            crate::value::lemma_int_decimal_shape(num as int);
            assert(s[0] == '-' || crate::util::decimal_digit(s[0]));
            assert(s != "ok"@ && s != "error"@ && s != "return"@ && s != "break"@ && s
                != "continue"@) by {
                assert('o' as u32 == 111 && 'e' as u32 == 101 && 'r' as u32 == 114 && 'b' as u32
                    == 98 && 'c' as u32 == 99 && '-' as u32 == 45);
                if s == "ok"@ {
                    assert(s[0] == 'o');
                }
                if s == "error"@ {
                    assert(s[0] == 'e');
                }
                if s == "return"@ {
                    assert(s[0] == 'r');
                }
                if s == "break"@ {
                    assert(s[0] == 'b');
                }
                if s == "continue"@ {
                    assert(s[0] == 'c');
                }
            }
            crate::value::lemma_int_round_trip(num as int);
        },
    }
}

/// One entry of an ensemble command's subcommand table: the subcommand's
/// name, and the callable that implements it.
pub struct Subcommand<F>(pub &'static str, pub F);

/// The names of an ensemble's subcommands.
pub open spec fn sub_names<F>(ensemble: Seq<Subcommand<F>>) -> Seq<Seq<char>> {
    ensemble.map_values(|sc: Subcommand<F>| sc.0@)
}

/// The names joined by ", ".
pub open spec fn comma_join(names: Seq<Seq<char>>) -> Seq<char>
    decreases names.len(),
{
    if names.len() == 0 {
        Seq::empty()
    } else if names.len() == 1 {
        names[0]
    } else {
        comma_join(names.drop_last()) + ", "@ + names.last()
    }
}

/// The message for an unknown subcommand: it names the choices, the middle
/// ones joined by commas, the last introduced by "or".
pub open spec fn unknown_subcommand_msg(names: Seq<Seq<char>>, sub: Seq<char>) -> Seq<char> {
    let head = "unknown or ambiguous subcommand \""@ + sub + "\": must be "@ + names[0];
    if names.len() == 1 {
        head
    } else {
        head + ", "@ + (if names.len() > 2 {
            comma_join(names.subrange(1, names.len() - 1))
        } else {
            Seq::empty()
        }) + ", or "@ + names.last()
    }
}

impl<F> Subcommand<F> {
    /// Looks up a subcommand of an ensemble command by name, returning the
    /// usual error if it cannot be found.  Lookup is by the exact name: no
    /// prefix matching.
    pub fn find<'a>(ensemble: &'a [Subcommand<F>], sub_name: &str) -> (r: Result<
        &'a Subcommand<F>,
        Exception,
    >)
        requires
            ensemble@.len() > 0,
        ensures
            r is Ok <==> (exists|i: int|
                0 <= i < ensemble@.len() && sub_names(ensemble@)[i] == sub_name@),
            r matches Ok(sc) ==> exists|i: int|
                0 <= i < ensemble@.len() && sub_names(ensemble@)[i] == sub_name@ && sc
                    == &ensemble@[i] && (forall|k: int|
                    0 <= k < i ==> sub_names(ensemble@)[k] != sub_name@),
            r matches Err(e) ==> is_plain_error(
                e,
                unknown_subcommand_msg(sub_names(ensemble@), sub_name@),
            ),
    {
        let n: usize = ensemble.len();
        let mut i: usize = 0;
        while i < n
            invariant
                n == ensemble@.len(),
                i <= n,
                forall|j: int| 0 <= j < i ==> sub_names(ensemble@)[j] != sub_name@,
            decreases n - i,
        {
            if crate::util::str_eq(ensemble[i].0, sub_name) {
                proof {
                    assert(sub_names(ensemble@)[i as int] == ensemble@[i as int].0@);
                }
                return Ok(&ensemble[i]);
            }
            i = i + 1;
        }

        let mut msg: String = String::from_str("unknown or ambiguous subcommand \"");
        msg.append(sub_name);
        msg.append("\": must be ");
        msg.append(ensemble[0].0);
        proof {
            reveal_strlit("unknown or ambiguous subcommand \"");
            reveal_strlit("\": must be ");
        }
        let last: usize = n - 1;

        if n > 1 {
            msg.append(", ");
            proof {
                reveal_strlit(", ");
            }
        }
        if n > 2 {
            let ghost mid = sub_names(ensemble@).subrange(1, n - 1);
            let mut k: usize = 1;
            while k < last
                invariant
                    1 <= k <= last,
                    last == n - 1,
                    n == ensemble@.len(),
                    n > 2,
                    mid == sub_names(ensemble@).subrange(1, n - 1),
                    msg@ == "unknown or ambiguous subcommand \""@ + sub_name@ + "\": must be "@
                        + sub_names(ensemble@)[0] + ", "@ + comma_join(mid.take(k - 1)),
                decreases last - k,
            {
                if k > 1 {
                    msg.append(", ");
                    proof {
                        reveal_strlit(", ");
                    }
                }
                msg.append(ensemble[k].0);
                k = k + 1;
                proof {
                    lemma_comma_join_step(mid, k - 1);
                    assert(mid.take(k - 1).drop_last() =~= mid.take(k - 2));
                    assert(mid[k - 2] == sub_names(ensemble@)[k - 1]);
                    assert(msg@ =~= "unknown or ambiguous subcommand \""@ + sub_name@
                        + "\": must be "@ + sub_names(ensemble@)[0] + ", "@ + comma_join(
                        mid.take(k - 1),
                    ));
                }
            }
            proof {
                assert(mid.take(last - 1) =~= mid);
            }
        }
        if n > 1 {
            msg.append(", or ");
            msg.append(ensemble[last].0);
            proof {
                reveal_strlit(", or ");
            }
        }
        proof {
            assert(msg@ =~= unknown_subcommand_msg(sub_names(ensemble@), sub_name@));
        }
        Err(Exception::molt_err(Value::from_string(msg)))
    }
}

proof fn lemma_comma_join_step(names: Seq<Seq<char>>, i: int)
    requires
        1 <= i <= names.len(),
    ensures
        i == 1 ==> comma_join(names.take(i)) == names[0],
        i > 1 ==> comma_join(names.take(i)) == comma_join(names.take(i - 1)) + ", "@ + names[i
            - 1],
{
    if i == 1 {
        assert(names.take(1).len() == 1);
        assert(names.take(1)[0] == names[0]);
    } else {
        assert(names.take(i).drop_last() =~= names.take(i - 1));
        assert(names.take(i).last() == names[i - 1]);
    }
}

/// A variable reference, split: a string of the form `name(index)` names an
/// array element; any other string names a scalar.
#[derive(Debug, PartialEq, Eq)]
pub struct VarName {
    name: String,
    index: Option<String>,
}

impl VarName {
    /// The variable name proper.
    pub closed spec fn name_view(&self) -> Seq<char> {
        self.name@
    }

    /// The array index, if the reference names an array element.
    pub closed spec fn index_view(&self) -> Option<Seq<char>> {
        self.index.deep_view()
    }

    /// Creates a scalar variable reference.
    pub fn scalar(name: String) -> (v: Self)
        ensures
            v.name_view() == name@,
            v.index_view() is None,
    {
        Self { name, index: None }
    }

    /// Creates an array element reference from the name and index.
    pub fn array(name: String, index: String) -> (v: Self)
        ensures
            v.name_view() == name@,
            v.index_view() == Some(index@),
    {
        Self { name, index: Some(index) }
    }

    /// Returns the parsed variable name.
    pub fn name(&self) -> (r: &str)
        ensures
            r@ == self.name_view(),
    {
        self.name.as_str()
    }

    /// Returns the parsed array index, if any.
    pub fn index(&self) -> (r: Option<&str>)
        ensures
            r is Some <==> self.index_view() is Some,
            r matches Some(s) ==> self.index_view() == Some(s@),
    {
        match &self.index {
            Some(s) => Some(s.as_str()),
            None => None,
        }
    }
}

} // verus!
