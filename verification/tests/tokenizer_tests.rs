use molt_core::tokenizer::Tokenizer;
use molt_core::util::is_alphabetic;

#[test]
fn test_basics() {
    // Create the cursor
    let ptr = Tokenizer::new("abc");

    // Initial state
    assert_eq!(ptr.input(), "abc");
    assert_eq!(ptr.as_str(), "abc");
    assert_eq!(ptr.peek(), Some('a'));
}

#[test]
fn test_next() {
    let mut ptr = Tokenizer::new("abc");

    assert_eq!(ptr.next(), Some('a'));
    assert_eq!(ptr.as_str(), "bc");

    assert_eq!(ptr.next(), Some('b'));
    assert_eq!(ptr.as_str(), "c");

    assert_eq!(ptr.next(), Some('c'));
    assert_eq!(ptr.as_str(), "");

    assert_eq!(ptr.next(), None);
}

#[test]
fn test_token() {
    let mut ptr = Tokenizer::new("abcdef");

    ptr.next();
    ptr.next();
    assert_eq!(ptr.as_str(), "cdef");

    let start = ptr.mark();
    ptr.next();
    ptr.next();

    assert_eq!(ptr.token(start), "cd");
    assert_eq!(ptr.as_str(), "ef");

    let ptr = Tokenizer::new("abc");
    let start = ptr.mark();
    assert_eq!(ptr.token(start), "");
}

#[test]
fn test_peek() {
    let mut ptr = Tokenizer::new("abcdef");

    assert_eq!(ptr.peek(), Some('a'));
    assert_eq!(ptr.as_str(), "abcdef");

    ptr.next();
    ptr.next();

    assert_eq!(ptr.peek(), Some('c'));
    assert_eq!(ptr.as_str(), "cdef");
}

#[test]
fn test_reset_to() {
    let mut ptr = Tokenizer::new("abcdef");

    ptr.next();
    ptr.next();
    ptr.reset_to(0);

    assert_eq!(ptr.as_str(), "abcdef");
    assert_eq!(ptr.peek(), Some('a'));

    ptr.next();
    ptr.next();
    let start = ptr.mark();
    ptr.next();
    ptr.next();
    ptr.reset_to(start);

    assert_eq!(ptr.as_str(), "cdef");
    assert_eq!(ptr.peek(), Some('c'));
}

#[test]
fn test_is() {
    let mut ptr = Tokenizer::new("a");
    assert!(ptr.is('a'));
    assert!(!ptr.is('b'));
    ptr.next();
    assert!(!ptr.is('a'));
}

#[test]
fn test_has() {
    let mut ptr = Tokenizer::new("a1");
    assert!(ptr.has(is_alphabetic));
    ptr.skip();
    assert!(!ptr.has(is_alphabetic));
    ptr.skip();
    assert!(!ptr.has(is_alphabetic));
}

#[test]
fn test_skip() {
    let mut ptr = Tokenizer::new("abc");

    assert_eq!(ptr.peek(), Some('a'));
    assert_eq!(ptr.as_str(), "abc");

    ptr.skip();
    assert_eq!(ptr.peek(), Some('b'));
    assert_eq!(ptr.as_str(), "bc");

    ptr.skip();
    assert_eq!(ptr.peek(), Some('c'));
    assert_eq!(ptr.as_str(), "c");

    ptr.skip();
    assert_eq!(ptr.peek(), None);
    assert_eq!(ptr.as_str(), "");
}

#[test]
fn test_skip_over() {
    let mut ptr = Tokenizer::new("abc");
    ptr.skip_over(2);
    assert_eq!(ptr.peek(), Some('c'));
    assert_eq!(ptr.as_str(), "c");

    let mut ptr = Tokenizer::new("abc");
    ptr.skip_over(3);
    assert_eq!(ptr.peek(), None);
    assert_eq!(ptr.as_str(), "");

    let mut ptr = Tokenizer::new("abc");
    ptr.skip_over(6);
    assert_eq!(ptr.peek(), None);
    assert_eq!(ptr.as_str(), "");
}

#[test]
fn test_skip_while() {
    let mut ptr = Tokenizer::new("aaabc");
    ptr.skip_while(|ch| ch == 'a');
    assert_eq!(ptr.peek(), Some('b'));
    assert_eq!(ptr.as_str(), "bc");

    let mut ptr = Tokenizer::new("aaa");
    ptr.skip_while(|ch| ch == 'a');
    assert_eq!(ptr.peek(), None);
    assert_eq!(ptr.as_str(), "");
}

#[test]
fn test_backslash_subst_single() {
    // Single Character Escapes
    assert_eq!(bsubst("\\a-"), ('\x07', Some('-')));
    assert_eq!(bsubst("\\b-"), ('\x08', Some('-')));
    assert_eq!(bsubst("\\f-"), ('\x0c', Some('-')));
    assert_eq!(bsubst("\\n-"), ('\n', Some('-')));
    assert_eq!(bsubst("\\r-"), ('\r', Some('-')));
    assert_eq!(bsubst("\\t-"), ('\t', Some('-')));
    assert_eq!(bsubst("\\v-"), ('\x0b', Some('-')));
}

#[test]
fn test_backslash_subst_octal() {
    // Octals
    assert_eq!(bsubst("\\1-"), ('\x01', Some('-')));
    assert_eq!(bsubst("\\17-"), ('\x0f', Some('-')));
    assert_eq!(bsubst("\\177-"), ('\x7f', Some('-')));
    assert_eq!(bsubst("\\1772-"), ('\x7f', Some('2')));
    assert_eq!(bsubst("\\18-"), ('\x01', Some('8')));
    assert_eq!(bsubst("\\8-"), ('8', Some('-')));
}

#[test]
fn test_backslash_subst_hex2() {
    // \xhh: One or two hex digits.
    assert_eq!(bsubst("\\x-"), ('x', Some('-')));
    assert_eq!(bsubst("\\x1-"), ('\x01', Some('-')));
    assert_eq!(bsubst("\\x7f-"), ('\x7f', Some('-')));
}

#[test]
fn test_backslash_subst_hex4() {
    // \uhhhh: 1-4 hex digits.
    assert_eq!(bsubst("\\u-"), ('u', Some('-')));
    assert_eq!(bsubst("\\u7-"), ('\x07', Some('-')));
    assert_eq!(bsubst("\\u77-"), ('w', Some('-')));
    assert_eq!(bsubst("\\u077-"), ('w', Some('-')));
    assert_eq!(bsubst("\\u0077-"), ('w', Some('-')));
    assert_eq!(bsubst("\\u00077-"), ('\x07', Some('7')));
}

#[test]
fn test_backslash_subst_hex8() {
    // \Uhhhhhhhh: 1-8 hex digits.
    assert_eq!(bsubst("\\U-"), ('U', Some('-')));
    assert_eq!(bsubst("\\U7-"), ('\x07', Some('-')));
    assert_eq!(bsubst("\\U77-"), ('w', Some('-')));
    assert_eq!(bsubst("\\U077-"), ('w', Some('-')));
    assert_eq!(bsubst("\\U0077-"), ('w', Some('-')));
    assert_eq!(bsubst("\\U00077-"), ('w', Some('-')));
    assert_eq!(bsubst("\\U000077-"), ('w', Some('-')));
    assert_eq!(bsubst("\\U0000077-"), ('w', Some('-')));
    assert_eq!(bsubst("\\U00000077-"), ('w', Some('-')));
    assert_eq!(bsubst("\\U000000077-"), ('\x07', Some('7')));
}

#[test]
fn test_backslash_subst_other() {
    // Arbitrary Character
    assert_eq!(bsubst("\\*-"), ('*', Some('-')));

    // backslash only
    assert_eq!(bsubst("\\"), ('\\', None));
}

fn bsubst(input: &str) -> (char, Option<char>) {
    let mut ctx = Tokenizer::new(input);
    (ctx.backslash_subst(), ctx.as_str().chars().next())
}

#[test]
fn test_token2_and_tail() {
    let mut ptr = Tokenizer::new("abcdef");
    ptr.skip_over(2);
    assert_eq!(ptr.token2(1, 4), "bcd");
    assert_eq!(ptr.tail(3), "def");
    assert_eq!(ptr.input(), "abcdef");
}

#[test]
fn test_backslash_subst_newline() {
    // A backslash-newline continuation substitutes a single space.
    assert_eq!(bsubst("\\\n-"), (' ', Some('-')));
    assert_eq!(bsubst("\\\n"), (' ', None));
}
