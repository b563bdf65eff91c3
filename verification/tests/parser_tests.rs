use molt_core::eval_ptr::EvalPtr;
use molt_core::parser::Script;
use molt_core::parser::Tokens;
use molt_core::parser::Word;
use molt_core::parser::parse;
use molt_core::parser::parse_bare_word;
use molt_core::parser::parse_braced_word;
use molt_core::parser::parse_brackets;
use molt_core::parser::parse_dollar;
use molt_core::parser::parse_next_word;
use molt_core::parser::parse_quoted_word;
use molt_core::parser::parse_varname_literal;
use molt_core::types::Exception;
use molt_core::types::VarName;
use molt_core::value::Value;

fn molt_err(msg: &str) -> Exception {
    Exception::molt_err(Value::from(msg))
}

#[test]
fn test_tokens() {
    // No tokens pushed; get empty string.
    let tokens = Tokens::new();
    assert_eq!(tokens.take(), Word::Value(Value::empty()));

    // Push normal Word only; get it back.
    let mut tokens = Tokens::new();
    tokens.push(Word::Value(Value::from("abc")));
    assert_eq!(tokens.take(), Word::Value(Value::from("abc")));

    // Push a single str.  Get Value.
    let mut tokens = Tokens::new();
    tokens.push_str("xyz");
    assert_eq!(tokens.take(), Word::Value(Value::from("xyz")));

    // Push two strs.  Get one value.
    let mut tokens = Tokens::new();
    tokens.push_str("abc");
    tokens.push_str("def");
    assert_eq!(tokens.take(), Word::Value(Value::from("abcdef")));

    // Push strs and chars.  Get one value.
    let mut tokens = Tokens::new();
    tokens.push_str("abc");
    tokens.push_char('/');
    tokens.push_str("def");
    assert_eq!(tokens.take(), Word::Value(Value::from("abc/def")));

    // Push multiple normal words
    let mut tokens = Tokens::new();
    tokens.push(Word::VarRef("a".into()));
    tokens.push(Word::String("xyz".into()));
    assert_eq!(
        tokens.take(),
        Word::Tokens(vec![Word::VarRef("a".into()), Word::String("xyz".into())])
    );

    // Push a string, a word, and another string
    let mut tokens = Tokens::new();
    tokens.push_str("a");
    tokens.push_str("b");
    tokens.push(Word::VarRef("xyz".into()));
    tokens.push_str("c");
    tokens.push_str("d");
    assert_eq!(
        tokens.take(),
        Word::Tokens(vec![
            Word::String("ab".into()),
            Word::VarRef("xyz".into()),
            Word::String("cd".into())
        ])
    );
}

#[test]
fn test_parse() {
    assert!(parse("").unwrap().commands().is_empty());

    let script = parse("a").unwrap();
    let cmds = script.commands();
    assert_eq!(cmds.len(), 1);
    assert_eq!(*cmds[0].words(), vec![Word::Value(Value::from("a"))]);

    let script = parse("a\nb").unwrap();
    let cmds = script.commands();
    assert_eq!(cmds.len(), 2);
    assert_eq!(*cmds[0].words(), vec![Word::Value(Value::from("a"))]);
    assert_eq!(*cmds[1].words(), vec![Word::Value(Value::from("b"))]);

    let script = parse("a;b").unwrap();
    let cmds = script.commands();
    assert_eq!(cmds.len(), 2);
    assert_eq!(*cmds[0].words(), vec![Word::Value(Value::from("a"))]);
    assert_eq!(*cmds[1].words(), vec![Word::Value(Value::from("b"))]);

    let script = parse(" a ; b ").unwrap();
    let cmds = script.commands();
    assert_eq!(cmds.len(), 2);
    assert_eq!(*cmds[0].words(), vec![Word::Value(Value::from("a"))]);
    assert_eq!(*cmds[1].words(), vec![Word::Value(Value::from("b"))]);

    assert_eq!(parse("a {"), Err(molt_err("missing close-brace")));
}

#[test]
fn test_parse_next_word() {
    // NOTE: The point of this test is to make sure that parse_next_word is
    // calling the right functions to complete the job, not to verify what
    // those functions are doing; they have their own tests.

    // Normal Braced Word
    assert_eq!(
        pword("{abc}"),
        Ok((Word::Value(Value::from("abc")), "".to_string()))
    );

    // {*} at end of input
    assert_eq!(
        pword("{*}"),
        Ok((Word::Value(Value::from("*")), "".to_string()))
    );

    // {*} followed by white-space
    assert_eq!(
        pword("{*} "),
        Ok((Word::Value(Value::from("*")), " ".to_string()))
    );

    // {*} followed by word
    assert_eq!(
        pword("{*}abc "),
        Ok((
            Word::Expand(Box::new(Word::Value(Value::from("abc")))),
            " ".to_string()
        ))
    );

    // Quoted Word
    assert_eq!(
        pword("\"abc\""),
        Ok((Word::Value(Value::from("abc")), "".to_string()))
    );

    // Bare word
    assert_eq!(
        pword("abc"),
        Ok((Word::Value(Value::from("abc")), "".to_string()))
    );
}

fn pword(input: &str) -> Result<(Word, String), Exception> {
    let mut ctx = EvalPtr::new(input);
    let word = parse_next_word(&mut ctx)?;
    Ok((word, ctx.tok().as_str()))
}

#[test]
fn test_parse_braced_word() {
    // Simple string
    assert_eq!(
        pbrace("{abc}"),
        Ok((Word::Value(Value::from("abc")), "".to_string()))
    );

    // Simple string with following space
    assert_eq!(
        pbrace("{abc} "),
        Ok((Word::Value(Value::from("abc")), " ".to_string()))
    );

    // String with white space
    assert_eq!(
        pbrace("{a b c} "),
        Ok((Word::Value(Value::from("a b c")), " ".to_string()))
    );

    // String with $ and []space
    assert_eq!(
        pbrace("{a $b [c]} "),
        Ok((Word::Value(Value::from("a $b [c]")), " ".to_string()))
    );

    // String with balanced braces
    assert_eq!(
        pbrace("{a{b}c} "),
        Ok((Word::Value(Value::from("a{b}c")), " ".to_string()))
    );

    // String with escaped braces
    assert_eq!(
        pbrace("{a\\{bc} "),
        Ok((Word::Value(Value::from("a\\{bc")), " ".to_string()))
    );

    assert_eq!(
        pbrace("{ab\\}c} "),
        Ok((Word::Value(Value::from("ab\\}c")), " ".to_string()))
    );

    // String with escaped newline (a real newline with a \ in front)
    assert_eq!(
        pbrace("{ab\\\nc} "),
        Ok((Word::Value(Value::from("ab c")), " ".to_string()))
    );

    // Strings with missing close-brace
    assert_eq!(pbrace("{abc"), Err(molt_err("missing close-brace")));

    assert_eq!(pbrace("{a{b}c"), Err(molt_err("missing close-brace")));
}

fn pbrace(input: &str) -> Result<(Word, String), Exception> {
    let mut ctx = EvalPtr::new(input);
    let word = parse_braced_word(&mut ctx)?;
    Ok((word, ctx.tok().as_str()))
}

#[test]
fn test_parse_quoted_word() {
    // Simple string
    assert_eq!(
        pqw("\"abc\""),
        Ok((Word::Value(Value::from("abc")), "".to_string()))
    );

    // Simple string with text following
    assert_eq!(
        pqw("\"abc\" "),
        Ok((Word::Value(Value::from("abc")), " ".to_string()))
    );

    // Backslash substitution at beginning, middle, and end
    assert_eq!(
        pqw("\"\\x77-\" "),
        Ok((Word::Value(Value::from("w-")), " ".to_string()))
    );

    assert_eq!(
        pqw("\"-\\x77-\" "),
        Ok((Word::Value(Value::from("-w-")), " ".to_string()))
    );

    assert_eq!(
        pqw("\"-\\x77\" "),
        Ok((Word::Value(Value::from("-w")), " ".to_string()))
    );

    // Variable reference
    assert_eq!(
        pqw("\"a$x.b\" "),
        Ok((
            Word::Tokens(vec![
                Word::String("a".into()),
                Word::VarRef("x".into()),
                Word::String(".b".into()),
            ]),
            " ".to_string()
        ))
    );

    assert_eq!(
        pqw("\"a${x}b\" "),
        Ok((
            Word::Tokens(vec![
                Word::String("a".into()),
                Word::VarRef("x".into()),
                Word::String("b".into()),
            ]),
            " ".to_string()
        ))
    );

    // Not actually a variable reference
    assert_eq!(
        pqw("\"a$.b\" "),
        Ok((Word::Value(Value::from("a$.b")), " ".to_string()))
    );

    // Brackets
    assert_eq!(
        pqw("\"a[list b]c\" "),
        Ok((
            Word::Tokens(vec![
                Word::String("a".into()),
                Word::Script(pbrack("[list b]").unwrap()),
                Word::String("c".into()),
            ]),
            " ".to_string()
        ))
    );

    // Missing close quote
    assert_eq!(pqw("\"abc"), Err(molt_err("missing \"")));

    // Extra characters after close-quote
    assert_eq!(
        pqw("\"abc\"x "),
        Err(molt_err("extra characters after close-quote"))
    );
}

fn pqw(input: &str) -> Result<(Word, String), Exception> {
    let mut ctx = EvalPtr::new(input);
    let word = parse_quoted_word(&mut ctx)?;
    Ok((word, ctx.tok().as_str()))
}

#[test]
fn test_parse_bare_word() {
    // Simple string
    assert_eq!(
        pbare("abc", false),
        Ok((Word::Value(Value::from("abc")), "".to_string()))
    );

    // Simple string with text following
    assert_eq!(
        pbare("abc ", false),
        Ok((Word::Value(Value::from("abc")), " ".to_string()))
    );

    // Backslash substitution at beginning, middle, and end
    assert_eq!(
        pbare("\\x77- ", false),
        Ok((Word::Value(Value::from("w-")), " ".to_string()))
    );

    assert_eq!(
        pbare("-\\x77- ", false),
        Ok((Word::Value(Value::from("-w-")), " ".to_string()))
    );

    assert_eq!(
        pbare("-\\x77 ", false),
        Ok((Word::Value(Value::from("-w")), " ".to_string()))
    );

    // Variable reference
    assert_eq!(
        pbare("a$x.b ", false),
        Ok((
            Word::Tokens(vec![
                Word::String("a".into()),
                Word::VarRef("x".into()),
                Word::String(".b".into()),
            ]),
            " ".to_string()
        ))
    );

    assert_eq!(
        pbare("a${x}b ", false),
        Ok((
            Word::Tokens(vec![
                Word::String("a".into()),
                Word::VarRef("x".into()),
                Word::String("b".into()),
            ]),
            " ".to_string()
        ))
    );

    // Not actually a variable reference
    assert_eq!(
        pbare("a$.b ", false),
        Ok((Word::Value(Value::from("a$.b")), " ".to_string()))
    );

    // Brackets
    assert_eq!(
        pbare("a[list b]c ", false),
        Ok((
            Word::Tokens(vec![
                Word::String("a".into()),
                Word::Script(pbrack("[list b]").unwrap()),
                Word::String("c".into()),
            ]),
            " ".to_string()
        ))
    );

    // Array index
    assert_eq!(
        // Parse up to but not including the ")".
        pbare("a)b", true),
        Ok((Word::Value(Value::from("a")), ")b".to_string()))
    );
}

fn pbare(input: &str, index_flag: bool) -> Result<(Word, String), Exception> {
    let mut ctx = EvalPtr::new(input);
    let word = parse_bare_word(&mut ctx, index_flag)?;
    Ok((word, ctx.tok().as_str()))
}

#[test]
fn test_parse_brackets() {
    let script = pbrack("[set a 5]").unwrap();
    let cmds = script.commands();
    assert_eq!(cmds.len(), 1);
    let cmd = &cmds[0];
    assert_eq!(
        *cmd.words(),
        vec![
            Word::Value(Value::from("set")),
            Word::Value(Value::from("a")),
            Word::Value(Value::from("5")),
        ]
    );

    assert_eq!(pbrack("[incomplete"), Err(molt_err("missing close-bracket")));
}

fn pbrack(input: &str) -> Result<Script, Exception> {
    let mut ctx = EvalPtr::new(input);
    parse_brackets(&mut ctx)
}

#[test]
fn test_parse_dollar() {
    // Normal var names
    assert_eq!(pvar("$a"), Ok((Word::VarRef("a".into()), "".to_string())));
    assert_eq!(pvar("$abc"), Ok((Word::VarRef("abc".into()), "".to_string())));
    assert_eq!(pvar("$abc."), Ok((Word::VarRef("abc".into()), ".".to_string())));
    assert_eq!(pvar("$a.bc"), Ok((Word::VarRef("a".into()), ".bc".to_string())));
    assert_eq!(
        pvar("$a1_.bc"),
        Ok((Word::VarRef("a1_".into()), ".bc".to_string()))
    );

    // Array names
    assert_eq!(
        pvar("$a(1)"),
        Ok((
            Word::ArrayRef("a".into(), Box::new(Word::Value(Value::from("1")))),
            "".to_string()
        ))
    );

    // Braced var names
    assert_eq!(pvar("${a}b"), Ok((Word::VarRef("a".into()), "b".to_string())));
    assert_eq!(
        pvar("${ab"),
        Err(molt_err("missing close-brace for variable name"))
    );

    // Braced var names with arrays
    assert_eq!(
        pvar("${a(1)}"),
        Ok((
            Word::ArrayRef("a".into(), Box::new(Word::String("1".into()))),
            "".to_string()
        ))
    );

    // Just a bare "$"
    assert_eq!(pvar("$"), Ok((Word::Value(Value::from("$")), "".to_string())));
    assert_eq!(pvar("$."), Ok((Word::Value(Value::from("$")), ".".to_string())));
}

fn pvar(input: &str) -> Result<(Word, String), Exception> {
    let mut ctx = EvalPtr::new(input);
    let mut tokens = Tokens::new();
    parse_dollar(&mut ctx, &mut tokens)?;
    Ok((tokens.take(), ctx.tok().as_str()))
}

#[test]
fn test_parse_varname_literal() {
    // Scalars
    assert_eq!(parse_varname_literal(""), scalar(""));
    assert_eq!(parse_varname_literal("a"), scalar("a"));
    assert_eq!(parse_varname_literal("a(b"), scalar("a(b"));
    assert_eq!(parse_varname_literal("("), scalar("("));
    assert_eq!(parse_varname_literal(")"), scalar(")"));
    assert_eq!(parse_varname_literal("a(b)c"), scalar("a(b)c"));
    assert_eq!(parse_varname_literal("(b)c"), scalar("(b)c"));

    // Arrays
    assert_eq!(parse_varname_literal("a(b)"), array("a", "b"));
    assert_eq!(parse_varname_literal("a({)"), array("a", "{"));
    assert_eq!(parse_varname_literal("()"), array("", ""));
    assert_eq!(parse_varname_literal("(b)"), array("", "b"));
    assert_eq!(parse_varname_literal("a()"), array("a", ""));
    assert_eq!(parse_varname_literal("%(()"), array("%", "("));
    assert_eq!(parse_varname_literal("%())"), array("%", ")"));
}

fn scalar(name: &str) -> VarName {
    VarName::scalar(name.into())
}

fn array(name: &str, index: &str) -> VarName {
    VarName::array(name.into(), index.into())
}
