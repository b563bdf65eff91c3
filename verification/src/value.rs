//! The `Value` datum: the single kind of data the command language deals in.
//!
//! A `Value` is semantically an immutable string; its string form is its
//! identity, and two `Value`s are equal exactly when their string forms are
//! equal.  The module also provides the integer and boolean readings of a
//! string form, with their exact grammar, and the canonical decimal
//! formatting of integers.

use vstd::prelude::*;

use crate::tokenizer::digits_val;
use crate::types::Exception;
use crate::types::MoltInt;
use crate::types::is_plain_error;
use crate::util::decimal_digit;
use crate::util::digit_val;
use crate::util::hex_digit;
use crate::util::is_hex_digit;
use crate::util::string_push;
use crate::util::str_chars;

verus! {

/// A datum: an immutable string form.
#[derive(Debug)]
pub struct Value {
    string: String,
}

impl View for Value {
    type V = Seq<char>;

    closed spec fn view(&self) -> Seq<char> {
        self.string@
    }
}

impl DeepView for Value {
    type V = Seq<char>;

    open spec fn deep_view(&self) -> Seq<char> {
        self.view()
    }
}

impl Clone for Value {
    fn clone(&self) -> (r: Self)
        ensures
            r@ == self@,
    {
        Value { string: self.string.clone() }
    }
}

/// Two `Value`s are equal exactly when their string forms are equal.
impl PartialEq for Value {
    fn eq(&self, other: &Value) -> (r: bool) {
        self.string == other.string
    }
}

impl vstd::std_specs::cmp::PartialEqSpecImpl for Value {
    open spec fn obeys_eq_spec() -> bool {
        true
    }

    open spec fn eq_spec(&self, other: &Value) -> bool {
        self@ == other@
    }
}

impl Value {
    /// Creates a value from a string slice.
    pub fn from(s: &str) -> (v: Value)
        ensures
            v@ == s@,
    {
        Value { string: String::from_str(s) }
    }

    /// Creates a value from an owned string.
    pub fn from_string(s: String) -> (v: Value)
        ensures
            v@ == s@,
    {
        Value { string: s }
    }

    /// The empty value.
    pub fn empty() -> (v: Value)
        ensures
            v@ == Seq::<char>::empty(),
    {
        Value { string: String::new() }
    }

    /// Creates a value holding the canonical decimal form of an integer.
    pub fn from_int(n: MoltInt) -> (v: Value)
        ensures
            v@ == int_decimal(n as int),
    {
        Value { string: format_int(n) }
    }

    /// Creates a value holding the canonical form of a boolean: "1" or "0".
    pub fn from_bool(b: bool) -> (v: Value)
        ensures
            v@ == bool_canonical(b),
    {
        if b {
            Value::from("1")
        } else {
            Value::from("0")
        }
    }

    /// Borrows the string form.
    pub fn as_str(&self) -> (r: &str)
        ensures
            r@ == self@,
    {
        self.string.as_str()
    }

    /// Reads the value as an integer, if its string form is one.
    pub fn as_int(&self) -> (r: Result<MoltInt, Exception>)
        ensures
            r is Ok <==> (parse_int_spec(self@) matches Some(n) && i64::MIN <= n <= i64::MAX),
            r matches Ok(v) ==> parse_int_spec(self@) == Some(v as int),
            r matches Err(e) ==> is_plain_error(e, expected_int_msg(self@)),
    {
        Value::get_int(self.as_str())
    }

    /// Reads the value as a boolean, if its string form is one.
    pub fn as_bool(&self) -> (r: Result<bool, Exception>)
        ensures
            r is Ok <==> parse_bool_spec(self@) is Some,
            r matches Ok(b) ==> parse_bool_spec(self@) == Some(b),
            r matches Err(e) ==> is_plain_error(e, expected_bool_msg(self@)),
    {
        Value::get_bool(self.as_str())
    }
}

/// Value equality is string equality: the `==` of two values holds
/// exactly when their string forms are equal.
pub proof fn lemma_value_eq_is_string_eq(a: &Value, b: &Value)
    ensures
        vstd::std_specs::cmp::PartialEqSpec::eq_spec(a, b) <==> a@ == b@,
{
}

/// The canonical string form of a boolean.
pub open spec fn bool_canonical(b: bool) -> Seq<char> {
    if b {
        "1"@
    } else {
        "0"@
    }
}

/// The decimal digits of a natural number, most significant first.
pub open spec fn dec_digits(n: nat) -> Seq<char>
    decreases n,
{
    if n < 10 {
        seq![((48 + n) as u32) as char]
    } else {
        dec_digits(n / 10).push(((48 + n % 10) as u32) as char)
    }
}

/// The canonical decimal form of an integer: a minus sign for negative
/// numbers, then the digits with no leading zero.
pub open spec fn int_decimal(n: int) -> Seq<char> {
    if n < 0 {
        seq!['-'] + dec_digits((-n) as nat)
    } else {
        dec_digits(n as nat)
    }
}

/// Where the digits start and whether the number is negated: an optional
/// leading `-` or `+` sign.
pub open spec fn int_sign(s: Seq<char>) -> (bool, int) {
    if s.len() > 0 && s[0] == '-' {
        (true, 1)
    } else if s.len() > 0 && s[0] == '+' {
        (false, 1)
    } else {
        (false, 0)
    }
}

/// The radix chosen by an optional `0x`/`0X`, `0o`, or `0b` prefix at
/// position `i`, and the position of the first digit.
pub open spec fn int_radix(s: Seq<char>, i: int) -> (int, int) {
    if i + 2 <= s.len() && s[i] == '0' && (s[i + 1] == 'x' || s[i + 1] == 'X') {
        (16, i + 2)
    } else if i + 2 <= s.len() && s[i] == '0' && s[i + 1] == 'o' {
        (8, i + 2)
    } else if i + 2 <= s.len() && s[i] == '0' && s[i + 1] == 'b' {
        (2, i + 2)
    } else {
        (10, i)
    }
}

/// A digit of the given radix.
pub open spec fn radix_digit(radix: int, c: char) -> bool {
    hex_digit(c) && digit_val(c) < radix
}

/// The integer reading of a string: an optional sign, an optional radix
/// prefix, then one or more digits of that radix.  `None` when the string
/// is not of that shape.
pub open spec fn parse_int_spec(s: Seq<char>) -> Option<int> {
    let (neg, i) = int_sign(s);
    let (radix, p) = int_radix(s, i);
    if p < s.len() && (forall|t: int| p <= t < s.len() ==> radix_digit(radix, #[trigger] s[t])) {
        let v = digits_val(s, p, s.len() - p, radix);
        Some(
            if neg {
                -v
            } else {
                v
            },
        )
    } else {
        None
    }
}

/// The error message for a string that does not read as an integer.
pub open spec fn expected_int_msg(s: Seq<char>) -> Seq<char> {
    "expected integer but got \""@ + s + "\""@
}

/// The error message for a string that does not read as a boolean.
pub open spec fn expected_bool_msg(s: Seq<char>) -> Seq<char> {
    "expected boolean but got \""@ + s + "\""@
}

/// ASCII lowercase folding of one character.
pub open spec fn ascii_lower(c: char) -> char {
    if 65 <= c as u32 && c as u32 <= 90 {
        ((c as u32 + 32) as u32) as char
    } else {
        c
    }
}

/// ASCII lowercase folding of a string.
pub open spec fn lower_seq(s: Seq<char>) -> Seq<char> {
    s.map_values(|c: char| ascii_lower(c))
}

/// The boolean reading of a string: `1`, `true`, `yes`, `on` are true and
/// `0`, `false`, `no`, `off` are false, case-insensitively.
pub open spec fn parse_bool_spec(s: Seq<char>) -> Option<bool> {
    let l = lower_seq(s);
    if l == "1"@ || l == "true"@ || l == "yes"@ || l == "on"@ {
        Some(true)
    } else if l == "0"@ || l == "false"@ || l == "no"@ || l == "off"@ {
        Some(false)
    } else {
        None
    }
}

/// Formats an integer in its canonical decimal form.
pub fn format_int(n: MoltInt) -> (r: String)
    ensures
        r@ == int_decimal(n as int),
{
    let neg: bool = n < 0;
    // The magnitude, carried unsigned so that i64::MIN needs no special case.
    let mag0: u64 = if n < 0 {
        (!(n as u64)).wrapping_add(1)
    } else {
        n as u64
    };
    proof {
        assert(n < 0 ==> mag0 == -(n as int)) by (bit_vector)
            requires
                mag0 == (if n < 0 {
                    (!(n as u64)).wrapping_add(1)
                } else {
                    n as u64
                }),
        ;
    }
    let ghost total: nat = mag0 as nat;
    let mut mag: u64 = mag0;
    let mut digits: Vec<char> = Vec::new();
    loop
        invariant_except_break
            (digits@.len() == 0 && mag == total) || (mag > 0 && dec_digits(mag as nat)
                + digits@.reverse() == dec_digits(total)),
        invariant
            total == mag0 as nat,
        ensures
            mag == 0,
            digits@.len() > 0,
            digits@.reverse() == dec_digits(total),
        decreases mag,
    {
        let ghost pre = digits@;
        let ghost pm = mag as nat;
        let d: u64 = mag % 10;
        digits.push(digit_char_of(d as u32));
        mag = mag / 10;
        proof {
            assert(digits@.reverse() =~= seq![((48 + pm % 10) as u32) as char] + pre.reverse());
            if pm < 10 {
                assert(pm % 10 == pm);
                assert(dec_digits(pm) =~= seq![((48 + pm % 10) as u32) as char]);
            } else {
                assert(dec_digits(pm) == dec_digits(pm / 10).push(((48 + pm % 10) as u32) as char));
            }
            assert(dec_digits(pm) + pre.reverse() =~= dec_digits(total));
            if pm >= 10 {
                assert(dec_digits(pm / 10) + digits@.reverse() =~= dec_digits(total));
            } else {
                assert(digits@.reverse() =~= dec_digits(total));
            }
        }
        if mag == 0 {
            break;
        }
    }
    let mut out: String = String::new();
    if neg {
        string_push(&mut out, '-');
    }
    let ghost prefix = out@;
    let ghost len = digits@.len() as int;
    let mut i: usize = digits.len();
    while i > 0
        invariant
            i <= len == digits@.len(),
            digits@.reverse() == dec_digits(total),
            out@ == prefix + dec_digits(total).subrange(0, len - i),
        decreases i,
    {
        i = i - 1;
        string_push(&mut out, digits[i]);
        proof {
            assert(dec_digits(total)[len - 1 - i] == digits@.reverse()[len - 1 - i]);
            assert(digits@.reverse()[len - 1 - i] == digits@[i as int]);
            assert(out@ =~= prefix + dec_digits(total).subrange(0, len - i));
        }
    }
    proof {
        assert(dec_digits(total).subrange(0, len) =~= dec_digits(total));
        if n < 0 {
            assert(out@ =~= int_decimal(n as int));
        } else {
            assert(out@ =~= int_decimal(n as int));
        }
    }
    out
}

/// The digit character for a value below ten.
fn digit_char_of(d: u32) -> (c: char)
    requires
        d < 10,
    ensures
        c as u32 == 48 + d,
{
    let c = crate::util::char_from_u32(48 + d);
    match c {
        Some(ch) => ch,
        None => ' ',
    }
}

/// Builds the error exception for a string that does not read as an
/// integer.
fn int_error(arg: &str) -> (e: Exception)
    ensures
        is_plain_error(e, expected_int_msg(arg@)),
{
    let mut msg: String = String::from_str("expected integer but got \"");
    msg.append(arg);
    string_push(&mut msg, '"');
    proof {
        reveal_strlit("expected integer but got \"");
        reveal_strlit("\"");
        assert(msg@ =~= expected_int_msg(arg@));
    }
    Exception::molt_err(Value::from_string(msg))
}

/// Builds the error exception for a string that does not read as a
/// boolean.
fn bool_error(arg: &str) -> (e: Exception)
    ensures
        is_plain_error(e, expected_bool_msg(arg@)),
{
    let mut msg: String = String::from_str("expected boolean but got \"");
    msg.append(arg);
    string_push(&mut msg, '"');
    proof {
        reveal_strlit("expected boolean but got \"");
        reveal_strlit("\"");
        assert(msg@ =~= expected_bool_msg(arg@));
    }
    Exception::molt_err(Value::from_string(msg))
}

/// Digit values never run below zero.
proof fn lemma_digits_val_nonneg(s: Seq<char>, j: int, k: int, radix: int)
    requires
        radix >= 1,
    ensures
        digits_val(s, j, k, radix) >= 0,
    decreases k,
{
    if k > 0 {
        lemma_digits_val_nonneg(s, j, k - 1, radix);
        vstd::arithmetic::mul::lemma_mul_inequality(0, digits_val(s, j, k - 1, radix), radix);
    }
}

/// Reading more digits never shrinks the value.
proof fn lemma_digits_val_grow(s: Seq<char>, j: int, k1: int, k2: int, radix: int)
    requires
        radix >= 1,
        0 <= k1 <= k2,
    ensures
        digits_val(s, j, k1, radix) <= digits_val(s, j, k2, radix),
    decreases k2 - k1,
{
    if k1 < k2 {
        lemma_digits_val_grow(s, j, k1, k2 - 1, radix);
        lemma_digits_val_nonneg(s, j, k2 - 1, radix);
        let v = digits_val(s, j, k2 - 1, radix);
        vstd::arithmetic::mul::lemma_mul_inequality(1, radix, v);
        assert(v * 1 == v) by {
            vstd::arithmetic::mul::lemma_mul_basics(v);
        }
        assert(v * radix == radix * v) by {
            vstd::arithmetic::mul::lemma_mul_is_commutative(v, radix);
        }
        assert(digits_val(s, j, k2, radix) == v * radix + digit_val(s[j + k2 - 1]));
    }
}

impl Value {
    /// Reads a string as an integer: an optional sign, an optional
    /// `0x`/`0X`, `0o`, or `0b` radix prefix, then digits of that radix.
    /// The value must fit the integer type.
    #[verifier::rlimit(30)]
    pub fn get_int(arg: &str) -> (r: Result<MoltInt, Exception>)
        ensures
            r is Ok <==> (parse_int_spec(arg@) matches Some(n) && i64::MIN <= n <= i64::MAX),
            r matches Ok(v) ==> parse_int_spec(arg@) == Some(v as int),
            r matches Err(e) ==> is_plain_error(e, expected_int_msg(arg@)),
    {
        let ghost s = arg@;
        let chars: Vec<char> = str_chars(arg);
        let n: usize = chars.len();

        // The sign.
        let mut i: usize = 0;
        let mut neg: bool = false;
        if n > 0 && chars[0] == '-' {
            neg = true;
            i = 1;
        } else if n > 0 && chars[0] == '+' {
            i = 1;
        }
        proof {
            assert(int_sign(s) == (neg, i as int));
        }

        // The radix prefix.
        let mut radix: u64 = 10;
        if i + 2 <= n && chars[i] == '0' && (chars[i + 1] == 'x' || chars[i + 1] == 'X') {
            radix = 16;
            i = i + 2;
        } else if i + 2 <= n && chars[i] == '0' && chars[i + 1] == 'o' {
            radix = 8;
            i = i + 2;
        } else if i + 2 <= n && chars[i] == '0' && chars[i + 1] == 'b' {
            radix = 2;
            i = i + 2;
        }
        proof {
            assert(int_radix(s, int_sign(s).1) == (radix as int, i as int));
        }
        let ghost p = i as int;

        if i == n {
            // No digits at all.
            return Err(int_error(arg));
        }

        // The digits.
        let mut mag: u64 = 0;
        let mut too_big: bool = false;
        while i < n
            invariant
                s == arg@,
                chars@ == s,
                n == s.len(),
                p <= i <= n,
                p < n,
                2 <= radix <= 16,
                neg == int_sign(s).0,
                (radix as int, p) == int_radix(s, int_sign(s).1),
                forall|t: int| p <= t < i ==> radix_digit(radix as int, #[trigger] s[t]),
                !too_big ==> mag == digits_val(s, p, i - p, radix as int),
                too_big ==> digits_val(s, p, i - p, radix as int) > u64::MAX,
            decreases n - i,
        {
            let c = chars[i];
            if !is_hex_digit(c) {
                proof {
                    assert(!radix_digit(radix as int, s[i as int]));
                    assert(parse_int_spec(s) is None);
                }
                return Err(int_error(arg));
            }
            let d: u32 = crate::util::digit_value(c);
            if (d as u64) >= radix {
                proof {
                    assert(!radix_digit(radix as int, s[i as int]));
                    assert(parse_int_spec(s) is None);
                }
                return Err(int_error(arg));
            }
            let ghost oldmag = digits_val(s, p, i - p, radix as int);
            proof {
                assert(digits_val(s, p, i + 1 - p, radix as int) == oldmag * (radix as int)
                    + digit_val(s[i as int]));
            }
            if !too_big {
                if mag <= (u64::MAX - d as u64) / radix {
                    proof {
                        let q = (u64::MAX - d) / (radix as int);
                        vstd::arithmetic::div_mod::lemma_fundamental_div_mod(
                            u64::MAX - d,
                            radix as int,
                        );
                        vstd::arithmetic::div_mod::lemma_mod_bound(u64::MAX - d, radix as int);
                        vstd::arithmetic::mul::lemma_mul_inequality(
                            mag as int,
                            q,
                            radix as int,
                        );
                        vstd::arithmetic::mul::lemma_mul_is_commutative(mag as int, radix as int);
                        vstd::arithmetic::mul::lemma_mul_is_commutative(q, radix as int);
                    }
                    mag = mag * radix + d as u64;
                } else {
                    proof {
                        let q = (u64::MAX - d) / (radix as int);
                        vstd::arithmetic::div_mod::lemma_fundamental_div_mod(
                            u64::MAX - d,
                            radix as int,
                        );
                        vstd::arithmetic::div_mod::lemma_mod_bound(u64::MAX - d, radix as int);
                        assert(q * (radix as int) >= u64::MAX - d - (radix - 1));
                        assert(mag as int >= q + 1);
                        vstd::arithmetic::mul::lemma_mul_inequality(
                            q + 1,
                            mag as int,
                            radix as int,
                        );
                        vstd::arithmetic::mul::lemma_mul_is_distributive_add_other_way(
                            radix as int,
                            q,
                            1,
                        );
                        assert((mag as int) * (radix as int) >= q * (radix as int) + radix);
                        assert((mag as int) * (radix as int) + d > u64::MAX);
                        assert(oldmag * (radix as int) + digit_val(s[i as int]) > u64::MAX);
                    }
                    too_big = true;
                }
            } else {
                proof {
                    lemma_digits_val_grow(s, p, i - p, i + 1 - p, radix as int);
                }
            }
            i = i + 1;
        }

        if too_big {
            proof {
                lemma_digits_val_nonneg(s, p, n - p, radix as int);
            }
            return Err(int_error(arg));
        }

        // The magnitude is exact; apply the sign and the range check.
        if neg {
            if mag <= 0x8000000000000000u64 {
                let v: MoltInt = if mag == 0x8000000000000000u64 {
                    i64::MIN
                } else {
                    -(mag as i64)
                };
                Ok(v)
            } else {
                Err(int_error(arg))
            }
        } else {
            if mag <= 0x7FFFFFFFFFFFFFFFu64 {
                Ok(mag as i64)
            } else {
                Err(int_error(arg))
            }
        }
    }

    /// Reads a string as a boolean: `1`, `true`, `yes`, `on`, `0`, `false`,
    /// `no`, or `off`, case-insensitively.
    pub fn get_bool(arg: &str) -> (r: Result<bool, Exception>)
        ensures
            r is Ok <==> parse_bool_spec(arg@) is Some,
            r matches Ok(b) ==> parse_bool_spec(arg@) == Some(b),
            r matches Err(e) ==> is_plain_error(e, expected_bool_msg(arg@)),
    {
        let chars: Vec<char> = str_chars(arg);
        let n: usize = chars.len();
        let mut lower: Vec<char> = Vec::new();
        let mut i: usize = 0;
        while i < n
            invariant
                n == chars@.len(),
                chars@ == arg@,
                i <= n,
                lower@.len() == i,
                forall|j: int| 0 <= j < i ==> lower@[j] == ascii_lower(#[trigger] chars@[j]),
            decreases n - i,
        {
            let c = chars[i];
            let u: u32 = c as u32;
            if 65 <= u && u <= 90 {
                match crate::util::char_from_u32(u + 32) {
                    Some(lc) => {
                        proof {
                            vstd::utf8::char_u32_cast(lc, (u + 32) as u32);
                        }
                        lower.push(lc);
                    },
                    None => lower.push(c),
                }
            } else {
                lower.push(c);
            }
            i = i + 1;
        }
        proof {
            assert(lower@ =~= lower_seq(arg@));
        }
        let ls: &[char] = lower.as_slice();
        if crate::util::chars_eq_str(ls, "1") || crate::util::chars_eq_str(ls, "true")
            || crate::util::chars_eq_str(ls, "yes") || crate::util::chars_eq_str(ls, "on") {
            Ok(true)
        } else if crate::util::chars_eq_str(ls, "0") || crate::util::chars_eq_str(ls, "false")
            || crate::util::chars_eq_str(ls, "no") || crate::util::chars_eq_str(ls, "off") {
            Ok(false)
        } else {
            Err(bool_error(arg))
        }
    }
}

/// The value of digits depends only on the digits themselves.
proof fn lemma_digits_val_subrange(s: Seq<char>, j: int, k: int, radix: int)
    requires
        0 <= j,
        0 <= k,
        j + k <= s.len(),
    ensures
        digits_val(s, j, k, radix) == digits_val(s.subrange(j, j + k), 0, k, radix),
    decreases k,
{
    if k > 0 {
        let sub = s.subrange(j, j + k);
        lemma_digits_val_subrange(s, j, k - 1, radix);
        lemma_digits_val_subrange(sub, 0, k - 1, radix);
        assert(sub.subrange(0, k - 1) =~= s.subrange(j, j + k - 1));
        assert(sub[k - 1] == s[j + k - 1]);
    }
}

/// The decimal digits of a natural number are decimal digits, at least one
/// of them, and they read back as the number.
proof fn lemma_dec_digits(m: nat)
    ensures
        dec_digits(m).len() >= 1,
        forall|t: int| 0 <= t < dec_digits(m).len() ==> decimal_digit(#[trigger] dec_digits(m)[t]),
        digits_val(dec_digits(m), 0, dec_digits(m).len() as int, 10) == m,
    decreases m,
{
    let ds = dec_digits(m);
    if m < 10 {
        assert(ds =~= seq![((48 + m) as u32) as char]);
        vstd::utf8::char_u32_cast(((48 + m) as u32) as char, (48 + m) as u32);
        assert(ds[0] as u32 == 48 + m);
        assert(digits_val(ds, 0, 0, 10) == 0);
        assert(digits_val(ds, 0, 1, 10) == digit_val(ds[0]));
    } else {
        lemma_dec_digits(m / 10);
        let head = dec_digits(m / 10);
        let digit = ((48 + m % 10) as u32) as char;
        vstd::utf8::char_u32_cast(digit, (48 + m % 10) as u32);
        assert(ds == head.push(digit));
        assert(forall|t: int| 0 <= t < head.len() ==> ds[t] == #[trigger] head[t]);
        assert(ds[ds.len() - 1] == digit);
        lemma_digits_val_subrange(ds, 0, ds.len() - 1, 10);
        assert(ds.subrange(0, ds.len() - 1) =~= head);
        lemma_digits_val_subrange(head, 0, head.len() as int, 10);
        assert(head.subrange(0, head.len() as int) =~= head);
        assert(digits_val(ds, 0, ds.len() as int, 10) == digits_val(ds, 0, ds.len() - 1, 10) * 10
            + digit_val(digit));
        assert(digit_val(digit) == m % 10);
        vstd::arithmetic::div_mod::lemma_fundamental_div_mod(m as int, 10);
    }
}

/// The shape of a canonical decimal form: at least one character, a
/// leading minus sign exactly for negative numbers, and digits elsewhere.
pub proof fn lemma_int_decimal_shape(n: int)
    ensures
        int_decimal(n).len() >= 1,
        n < 0 ==> int_decimal(n)[0] == '-',
        n >= 0 ==> decimal_digit(int_decimal(n)[0]),
{
    if n >= 0 {
        lemma_dec_digits(n as nat);
        if (n as nat) < 10 {
            vstd::utf8::char_u32_cast(((48 + n as nat) as u32) as char, (48 + n as nat) as u32);
        }
        assert(decimal_digit(int_decimal(n)[0]));
    } else {
        lemma_dec_digits((-n) as nat);
        assert(int_decimal(n)[0] == '-');
    }
}

/// Canonical round trip for integers: the canonical decimal form of any
/// integer in range reads back as that integer.
pub proof fn lemma_int_round_trip(n: int)
    requires
        i64::MIN <= n <= i64::MAX,
    ensures
        parse_int_spec(int_decimal(n)) == Some(n),
{
    let s = int_decimal(n);
    if n >= 0 {
        let m = n as nat;
        lemma_dec_digits(m);
        assert(s == dec_digits(m));
        assert(decimal_digit(s[0]));
        assert(s[0] != '-' && s[0] != '+') by {
            assert(48 <= s[0] as u32 <= 57);
            assert('-' as u32 == 45 && '+' as u32 == 43);
        }
        assert(int_sign(s) == (false, 0int));
        if 2 <= s.len() {
            assert(decimal_digit(s[1]));
            assert(s[1] != 'x' && s[1] != 'X' && s[1] != 'o' && s[1] != 'b') by {
                assert(48 <= s[1] as u32 <= 57);
                assert('x' as u32 == 120 && 'X' as u32 == 88 && 'o' as u32 == 111 && 'b' as u32
                    == 98);
            }
        }
        assert(int_radix(s, 0) == (10int, 0int));
        assert(forall|t: int| 0 <= t < s.len() ==> radix_digit(10, #[trigger] s[t]));
        lemma_digits_val_subrange(s, 0, s.len() as int, 10);
        assert(s.subrange(0, s.len() as int) =~= s);
        assert(digits_val(s, 0, s.len() as int, 10) == m);
    } else {
        let m = (-n) as nat;
        lemma_dec_digits(m);
        let ds = dec_digits(m);
        assert(s == seq!['-'] + ds);
        assert(s[0] == '-');
        assert(int_sign(s) == (true, 1int));
        assert(decimal_digit(s[1])) by {
            assert(s[1] == ds[0]);
        }
        assert(s[1] != 'x' && s[1] != 'X' && s[1] != 'o' && s[1] != 'b') by {
            assert(48 <= s[1] as u32 <= 57);
            assert('x' as u32 == 120 && 'X' as u32 == 88 && 'o' as u32 == 111 && 'b' as u32 == 98);
        }
        assert(s[1] != '0' || s.len() < 3 || true);
        assert(int_radix(s, 1) == (10int, 1int)) by {
            if 3 <= s.len() {
                assert(s[2] == ds[1]);
                assert(decimal_digit(s[2]));
                assert(s[2] != 'x' && s[2] != 'X' && s[2] != 'o' && s[2] != 'b') by {
                    assert(48 <= s[2] as u32 <= 57);
                    assert('x' as u32 == 120 && 'X' as u32 == 88 && 'o' as u32 == 111 && 'b' as u32
                        == 98);
                }
            }
        }
        assert(forall|t: int| 1 <= t < s.len() ==> radix_digit(10, #[trigger] s[t])) by {
            assert(forall|t: int| 1 <= t < s.len() ==> s[t] == #[trigger] ds[t - 1]);
        }
        lemma_digits_val_subrange(s, 1, s.len() - 1, 10);
        assert(s.subrange(1, s.len() as int) =~= ds);
        lemma_digits_val_subrange(ds, 0, ds.len() as int, 10);
        assert(ds.subrange(0, ds.len() as int) =~= ds);
        assert(digits_val(s, 1, s.len() - 1, 10) == m);
    }
}

/// Canonical round trip for booleans: the canonical form of a boolean
/// reads back as that boolean.
pub proof fn lemma_bool_round_trip(b: bool)
    ensures
        parse_bool_spec(bool_canonical(b)) == Some(b),
{
    reveal_strlit("1");
    reveal_strlit("0");
    reveal_strlit("true");
    reveal_strlit("yes");
    reveal_strlit("on");
    if b {
        assert(lower_seq("1"@) =~= "1"@);
    } else {
        assert(lower_seq("0"@) =~= "0"@);
        assert(lower_seq("0"@) != "1"@) by {
            assert("0"@[0] == '0');
            assert("1"@[0] == '1');
        }
        assert(lower_seq("0"@) != "true"@ && lower_seq("0"@) != "yes"@ && lower_seq("0"@)
            != "on"@);
    }
}

} // verus!
