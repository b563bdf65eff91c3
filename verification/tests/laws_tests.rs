use molt_core::harness::Context;
use molt_core::harness::strip_quotes;
use molt_core::parser::Word;
use molt_core::parser::cmd_parse;
use molt_core::parser::parse;
use molt_core::types::Exception;
use molt_core::types::ResultCode;
use molt_core::types::Subcommand;
use molt_core::value::Value;
use molt_core::value::format_int;

#[test]
fn test_int_round_trip() {
    // Canonical string round-trip for the integer view.
    for n in [0i64, 1, -1, 7, 48, 255, 1000000, i64::MAX, i64::MIN] {
        let v = Value::from_int(n);
        assert_eq!(v.as_int(), Ok(n));
    }
    assert_eq!(format_int(-12345), "-12345");
    assert_eq!(format_int(i64::MIN), "-9223372036854775808");
}

#[test]
fn test_int_grammar() {
    assert_eq!(Value::get_int("48"), Ok(48));
    assert_eq!(Value::get_int("+48"), Ok(48));
    assert_eq!(Value::get_int("-48"), Ok(-48));
    assert_eq!(Value::get_int("0x30"), Ok(48));
    assert_eq!(Value::get_int("0X30"), Ok(48));
    assert_eq!(Value::get_int("-0x30"), Ok(-48));
    assert_eq!(Value::get_int("0o60"), Ok(48));
    assert_eq!(Value::get_int("0b110000"), Ok(48));
    assert_eq!(Value::get_int("9223372036854775807"), Ok(i64::MAX));
    assert_eq!(Value::get_int("-9223372036854775808"), Ok(i64::MIN));

    // Not integers: the error carries the exact message.
    let e = Value::get_int("abc").unwrap_err();
    assert!(e.is_error());
    assert_eq!(e.value(), Value::from("expected integer but got \"abc\""));

    assert!(Value::get_int("").is_err());
    assert!(Value::get_int("+").is_err());
    assert!(Value::get_int("0x").is_err());
    assert!(Value::get_int("12a").is_err());
    assert!(Value::get_int("0b102").is_err());
    assert!(Value::get_int("0o68").is_err());
    // One past the ends of the integer range.
    assert!(Value::get_int("9223372036854775808").is_err());
    assert!(Value::get_int("-9223372036854775809").is_err());
    // Far past the end of the range.
    assert!(Value::get_int("340282366920938463463374607431768211456").is_err());
}

#[test]
fn test_bool_round_trip() {
    // Canonical string round-trip for the boolean view.
    assert_eq!(Value::from_bool(true).as_bool(), Ok(true));
    assert_eq!(Value::from_bool(false).as_bool(), Ok(false));
}

#[test]
fn test_bool_grammar() {
    for s in ["1", "true", "yes", "on", "TRUE", "Yes", "ON"] {
        assert_eq!(Value::get_bool(s), Ok(true));
    }
    for s in ["0", "false", "no", "off", "FALSE", "No", "OFF"] {
        assert_eq!(Value::get_bool(s), Ok(false));
    }
    let e = Value::get_bool("maybe").unwrap_err();
    assert_eq!(e.value(), Value::from("expected boolean but got \"maybe\""));
}

#[test]
fn test_result_code_round_trip() {
    // Canonical string round-trip for the result-code view.
    for code in [
        ResultCode::Okay,
        ResultCode::Error,
        ResultCode::Return,
        ResultCode::Break,
        ResultCode::Continue,
        ResultCode::Other(5),
        ResultCode::Other(-7),
    ] {
        assert_eq!(ResultCode::from_value(&Value::from_other(code)), Ok(code));
    }
    // The numeric forms of the five named codes read back as those codes,
    // so Other(3) does not round-trip.
    assert_eq!(
        ResultCode::from_value(&Value::from_other(ResultCode::Other(3))),
        Ok(ResultCode::Break)
    );
}

#[test]
fn test_value_equality_is_string_equality() {
    // Two values are equal exactly when their string forms are equal.
    assert_eq!(Value::from("abc"), Value::from("abc"));
    assert_eq!(Value::from_int(48), Value::from("48"));
    assert!(Value::from("abc") != Value::from("abd"));
    assert!(Value::from("") != Value::from(" "));
}

#[test]
fn test_parse_determinism() {
    // Re-parsing a source yields a structurally identical script.
    let src = "set a 5; list {*}$x [foo $a(1)] \"b $c d\"\n# comment\nfoo {bar baz}";
    let first = parse(src).unwrap();
    let second = parse(src).unwrap();
    assert_eq!(first, second);
}

#[test]
fn test_brace_balance() {
    // Balanced unescaped braces parse; unbalanced ones are rejected.
    assert!(parse("cmd {a {b {c} d} e}").is_ok());
    assert!(parse("cmd {a {b} c}").is_ok());
    assert_eq!(
        parse("cmd {a {b c}"),
        Err(Exception::molt_err(Value::from("missing close-brace")))
    );
    assert_eq!(
        parse("cmd {a \\} b"),
        Err(Exception::molt_err(Value::from("missing close-brace")))
    );
    assert_eq!(
        parse("cmd {a}b"),
        Err(Exception::molt_err(Value::from(
            "extra characters after close-brace"
        )))
    );
}

#[test]
fn test_control_flow_codes() {
    // The integer forms that `catch` reports: break is 3, continue is 4,
    // return is 2, error is 1.
    assert_eq!(Exception::molt_break().code().as_int(), 3);
    assert_eq!(Exception::molt_continue().code().as_int(), 4);
    let ret = Exception::molt_return(Value::from("x"));
    assert_eq!(ret.code().as_int(), 2);
    assert_eq!(ret.value(), Value::from("x"));
    let err = Exception::molt_err(Value::from("m"));
    assert_eq!(err.code().as_int(), 1);
    assert_eq!(err.value(), Value::from("m"));
}

#[test]
fn test_return_level_protocol() {
    // A `return -level 2` crosses one frame boundary still as a Return,
    // and becomes an ordinary result at the second.
    let mut e = Exception::molt_return_ext(Some(Value::from("x")), 2, ResultCode::Okay);
    assert_eq!(e.code(), ResultCode::Return);
    assert_eq!(e.level(), 2);

    e.decrement_level();
    assert_eq!(e.code(), ResultCode::Return);
    assert_eq!(e.level(), 1);
    assert_eq!(e.value(), Value::from("x"));

    e.decrement_level();
    assert_eq!(e.code(), ResultCode::Okay);
    assert_eq!(e.level(), 0);
    assert_eq!(e.value(), Value::from("x"));
}

#[test]
fn test_return_level_protocol_error() {
    // `return -code error -level 2` becomes an error two levels up.
    let mut e = Exception::molt_return_ext(Some(Value::from("m")), 2, ResultCode::Error);
    e.decrement_level();
    assert_eq!(e.code(), ResultCode::Return);
    e.decrement_level();
    assert_eq!(e.code(), ResultCode::Error);
}

#[test]
fn test_subcommand_find() {
    fn nop() {}
    let table: Vec<Subcommand<fn()>> = vec![
        Subcommand("alpha", nop),
        Subcommand("beta", nop),
        Subcommand("gamma", nop),
    ];

    let found = Subcommand::find(&table, "beta").unwrap();
    assert_eq!(found.0, "beta");

    let e = match Subcommand::find(&table, "delta") {
        Err(e) => e,
        Ok(_) => panic!("expected an error"),
    };
    assert!(e.is_error());
    assert_eq!(
        e.value(),
        Value::from("unknown or ambiguous subcommand \"delta\": must be alpha, beta, or gamma")
    );

    let single: Vec<Subcommand<fn()>> = vec![Subcommand("only", nop)];
    let e = match Subcommand::find(&single, "x") {
        Err(e) => e,
        Ok(_) => panic!("expected an error"),
    };
    assert_eq!(
        e.value(),
        Value::from("unknown or ambiguous subcommand \"x\": must be only")
    );
}

#[test]
fn test_expansion_words() {
    // `{*}` splices; a plain `{*}` followed by whitespace is a literal.
    let script = parse("list {*}$x d").unwrap();
    let cmds = script.commands();
    assert_eq!(cmds.len(), 1);
    let words = cmds[0].words();
    assert_eq!(words.len(), 3);
    assert_eq!(words[0], Word::Value(Value::from("list")));
    assert_eq!(
        words[1],
        Word::Expand(Box::new(Word::VarRef("x".into())))
    );
    assert_eq!(words[2], Word::Value(Value::from("d")));

    let script = parse("list {*} d").unwrap();
    let cmds = script.commands();
    assert_eq!(cmds[0].words()[1], Word::Value(Value::from("*")));
}

#[test]
fn test_comments_are_skipped() {
    let script = parse("# a comment\nfoo\n  # another; with ; semicolons\nbar").unwrap();
    let cmds = script.commands();
    let texts: Vec<&Word> = cmds.iter().flat_map(|c| c.words().iter()).collect();
    assert_eq!(texts.len(), 2);
    assert_eq!(*texts[0], Word::Value(Value::from("foo")));
    assert_eq!(*texts[1], Word::Value(Value::from("bar")));
}

#[test]
fn test_missing_paren_in_array_index() {
    // `$a(1` never finds the close parenthesis.
    let e = parse("set x $a(1").unwrap_err();
    assert_eq!(e.value(), Value::from("missing )"));
}

#[test]
fn test_harness_context() {
    let mut ctx = Context::new();
    assert_eq!(ctx.baseline(), 1);

    ctx.record("a".to_string(), "first".to_string(), 500);
    ctx.record("b".to_string(), "second".to_string(), 700);

    // The first recorded time is the baseline.
    assert_eq!(ctx.baseline(), 500);
    let ms = ctx.measurements();
    assert_eq!(ms.len(), 2);
    assert_eq!(ms[0].name, "a");
    assert_eq!(ms[0].nanos, 500);
    assert_eq!(ms[1].description, "second");
    assert_eq!(ms[1].nanos, 700);
}

#[test]
fn test_strip_quotes() {
    assert_eq!(strip_quotes("say \"hi\""), "say 'hi'");
    assert_eq!(strip_quotes("plain"), "plain");
    assert_eq!(strip_quotes(""), "");
}

#[test]
fn test_varname_unicode_characters() {
    // Variable names take Unicode letters and digits, plus underscores.
    let script = parse("set x $métro.b").unwrap();
    let words = script.commands()[0].words();
    assert_eq!(
        words[2],
        Word::Tokens(vec![
            Word::VarRef("métro".into()),
            Word::String(".b".into()),
        ])
    );
}

#[test]
fn test_cmd_parse() {
    let argv = vec![Value::from("parse"), Value::from("set a 5")];
    let out = cmd_parse(&argv).unwrap().unwrap();
    assert_eq!(out.as_str(), "Script[Value(set) Value(a) Value(5)]");

    let argv = vec![Value::from("parse")];
    let e = cmd_parse(&argv).unwrap_err();
    assert_eq!(
        e.value(),
        Value::from("wrong # args: should be \"parse script\"")
    );

    let argv = vec![Value::from("parse"), Value::from("a {")];
    let e = cmd_parse(&argv).unwrap_err();
    assert_eq!(e.value(), Value::from("missing close-brace"));
}

#[test]
fn test_empty_words() {
    // The empty braced and quoted words are the empty value.
    let script = parse("cmd {} \"\"").unwrap();
    let words = script.commands()[0].words();
    assert_eq!(words[1], Word::Value(Value::from("")));
    assert_eq!(words[2], Word::Value(Value::from("")));
}

#[test]
fn test_comment_backslash_continuation() {
    // A backslash carries the newline along, so the comment goes on.
    let script = parse("# one \\\ntwo\nfoo").unwrap();
    let cmds = script.commands();
    let words: Vec<&Word> = cmds.iter().flat_map(|c| c.words().iter()).collect();
    assert_eq!(words.len(), 1);
    assert_eq!(*words[0], Word::Value(Value::from("foo")));
}

#[test]
fn test_int_zero_forms() {
    assert_eq!(Value::get_int("0"), Ok(0));
    assert_eq!(Value::get_int("-0"), Ok(0));
    assert_eq!(Value::get_int("0x0"), Ok(0));
    assert_eq!(Value::get_int("007"), Ok(7));
    assert_eq!(format_int(0), "0");
}

#[test]
fn test_nested_brackets() {
    let script = parse("a [b [c d]] e").unwrap();
    let words = script.commands()[0].words();
    assert_eq!(words.len(), 3);
    assert!(matches!(words[1], Word::Script(_)));
}

#[test]
fn test_backslash_newline_in_words() {
    // Backslash-newline becomes one space in quoted and bare words too.
    let script = parse("cmd \"a\\\nb\"").unwrap();
    assert_eq!(script.commands()[0].words()[1], Word::Value(Value::from("a b")));

    // In a bare word the substituted space is part of the word: the word
    // ends only at literal whitespace or a terminator.
    let script = parse("cmd a\\\nb").unwrap();
    assert_eq!(script.commands()[0].words().len(), 2);
    assert_eq!(script.commands()[0].words()[1], Word::Value(Value::from("a b")));
}

#[test]
fn test_subcommand_find_first_match() {
    // With duplicated names the first entry wins.
    fn one() -> i32 {
        1
    }
    fn two() -> i32 {
        2
    }
    let table: Vec<Subcommand<fn() -> i32>> = vec![Subcommand("dup", one), Subcommand("dup", two)];
    let found = Subcommand::find(&table, "dup").unwrap();
    assert_eq!((found.1)(), 1);
}
