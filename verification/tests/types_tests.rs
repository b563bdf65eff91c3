use molt_core::types::ErrorData;
use molt_core::types::Exception;
use molt_core::types::ResultCode;
use molt_core::value::Value;

#[test]
fn test_result_code_as_string() {
    // Tests the string form of ResultCode
    assert_eq!(Value::from_other(ResultCode::Okay).as_str(), "ok");
    assert_eq!(Value::from_other(ResultCode::Error).as_str(), "error");
    assert_eq!(Value::from_other(ResultCode::Return).as_str(), "return");
    assert_eq!(Value::from_other(ResultCode::Break).as_str(), "break");
    assert_eq!(Value::from_other(ResultCode::Continue).as_str(), "continue");
    assert_eq!(Value::from_other(ResultCode::Other(5)).as_str(), "5");
}

#[test]
fn test_result_code_from_value() {
    // Tests from_value
    assert_eq!(
        ResultCode::from_value(&Value::from("ok")),
        Ok(ResultCode::Okay)
    );
    assert_eq!(
        ResultCode::from_value(&Value::from("error")),
        Ok(ResultCode::Error)
    );
    assert_eq!(
        ResultCode::from_value(&Value::from("return")),
        Ok(ResultCode::Return)
    );
    assert_eq!(
        ResultCode::from_value(&Value::from("break")),
        Ok(ResultCode::Break)
    );
    assert_eq!(
        ResultCode::from_value(&Value::from("continue")),
        Ok(ResultCode::Continue)
    );
    assert_eq!(
        ResultCode::from_value(&Value::from("5")),
        Ok(ResultCode::Other(5))
    );
    assert!(ResultCode::from_value(&Value::from("nonesuch")).is_err());
}

#[test]
fn test_result_code_as_int() {
    assert_eq!(ResultCode::Okay.as_int(), 0);
    assert_eq!(ResultCode::Error.as_int(), 1);
    assert_eq!(ResultCode::Return.as_int(), 2);
    assert_eq!(ResultCode::Break.as_int(), 3);
    assert_eq!(ResultCode::Continue.as_int(), 4);
    assert_eq!(ResultCode::Other(5).as_int(), 5);
}

#[test]
fn test_error_data_new() {
    let data = ErrorData::new(Value::from("CODE"), "error message");

    assert_eq!(data.error_code(), Value::from("CODE"));
    assert_eq!(data.error_info(), Value::from("error message"));
    assert!(data.is_new());
}

#[test]
fn test_error_data_rethrow() {
    let data = ErrorData::rethrow(Value::from("CODE"), "stack trace");

    assert_eq!(data.error_code(), Value::from("CODE"));
    assert_eq!(data.error_info(), Value::from("stack trace"));
    assert!(!data.is_new());
}

#[test]
fn test_error_data_add_info() {
    let mut data = ErrorData::new(Value::from("CODE"), "error message");

    assert_eq!(data.error_info(), Value::from("error message"));
    assert!(data.is_new());

    data.add_info("next line");
    assert_eq!(data.error_info(), Value::from("error message\nnext line"));
    assert!(!data.is_new());
}

#[test]
fn test_exception_molt_err() {
    let mut exception = Exception::molt_err(Value::from("error message"));

    assert_eq!(exception.code(), ResultCode::Error);
    assert_eq!(exception.value(), Value::from("error message"));
    assert!(exception.is_error());
    assert!(exception.error_data().is_some());

    if let Some(data) = exception.error_data() {
        assert_eq!(data.error_code(), Value::from("NONE"));
        assert_eq!(data.error_info(), Value::from("error message"));
    }

    exception.add_error_info("from unit test");

    if let Some(data) = exception.error_data() {
        assert_eq!(
            data.error_info(),
            Value::from("error message\nfrom unit test")
        );
    }
}

#[test]
fn test_exception_molt_err2() {
    let exception = Exception::molt_err2(Value::from("CODE"), Value::from("error message"));

    assert_eq!(exception.code(), ResultCode::Error);
    assert_eq!(exception.value(), Value::from("error message"));
    assert!(exception.is_error());
    assert!(exception.error_data().is_some());

    if let Some(data) = exception.error_data() {
        assert_eq!(data.error_code(), Value::from("CODE"));
        assert_eq!(data.error_info(), Value::from("error message"));
    }
}

#[test]
fn test_exception_molt_return_err_level0() {
    let exception = Exception::molt_return_err(
        Some(Value::from("error message")),
        0,
        Some(Value::from("MYERR")),
        Some(Value::from("stack trace")),
    );

    assert_eq!(exception.code(), ResultCode::Error);
    assert_eq!(exception.next_code(), ResultCode::Error);
    assert_eq!(exception.level(), 0);
    assert_eq!(exception.value(), Value::from("error message"));
    assert!(exception.is_error());
    assert!(exception.error_data().is_some());

    if let Some(data) = exception.error_data() {
        assert_eq!(data.error_code(), Value::from("MYERR"));
        assert_eq!(data.error_info(), Value::from("stack trace"));
    }
}

#[test]
fn test_exception_molt_return_err_level2() {
    let exception = Exception::molt_return_err(
        Some(Value::from("error message")),
        2,
        Some(Value::from("MYERR")),
        Some(Value::from("stack trace")),
    );

    assert_eq!(exception.code(), ResultCode::Return);
    assert_eq!(exception.next_code(), ResultCode::Error);
    assert_eq!(exception.level(), 2);
    assert_eq!(exception.value(), Value::from("error message"));
    assert!(!exception.is_error());
    assert!(exception.error_data().is_some());

    if let Some(data) = exception.error_data() {
        assert_eq!(data.error_code(), Value::from("MYERR"));
        assert_eq!(data.error_info(), Value::from("stack trace"));
    }
}

#[test]
fn test_exception_molt_return() {
    let exception = Exception::molt_return(Value::from("result"));

    assert_eq!(exception.code(), ResultCode::Return);
    assert_eq!(exception.value(), Value::from("result"));
    assert_eq!(exception.level(), 1);
    assert_eq!(exception.next_code(), ResultCode::Okay);
    assert!(!exception.is_error());
    assert!(exception.error_data().is_none());
}

#[test]
fn test_exception_molt_return_ext() {
    let exception =
        Exception::molt_return_ext(Some(Value::from("result")), 2, ResultCode::Break);

    assert_eq!(exception.code(), ResultCode::Return);
    assert_eq!(exception.value(), Value::from("result"));
    assert_eq!(exception.level(), 2);
    assert_eq!(exception.next_code(), ResultCode::Break);
    assert!(!exception.is_error());
    assert!(exception.error_data().is_none());
}

#[test]
fn test_exception_molt_break() {
    let exception = Exception::molt_break();

    assert_eq!(exception.code(), ResultCode::Break);
    assert_eq!(exception.value(), Value::from(""));
    assert!(!exception.is_error());
    assert!(exception.error_data().is_none());
}

#[test]
fn test_exception_molt_continue() {
    let exception = Exception::molt_continue();

    assert_eq!(exception.code(), ResultCode::Continue);
    assert_eq!(exception.value(), Value::from(""));
    assert!(!exception.is_error());
    assert!(exception.error_data().is_none());
}
