use microci::dynconf::grammar::{LFsPathType, ParseErr};
use microci::dynconf::parser::{
    boolean, efs_path, efunction_call, epath, inner_expression, lexpression, lformat_string, lvalue, number,
    path_segment, string, LExpression, LFormatString, LFormatStringFragment, LFsPathSegment,
    LPathSegment, LValue, PathScope,
};

#[test]
fn test_number_ok() {
    assert_eq!(number("123"), Ok(("", LValue::Integer(123))));
    assert_eq!(number("-123"), Ok(("", LValue::Integer(-123))));
    assert_eq!(number("0"), Ok(("", LValue::Integer(0))));
    assert_eq!(number("- 2"), Ok(("", LValue::Integer(-2))));
}

#[test]
fn test_number_err() {
    assert!(matches!(number("a"), Err(ParseErr::Error)));
    assert!(matches!(number("-b"), Err(ParseErr::Error)));
    assert!(matches!(number(""), Err(ParseErr::Error)));
}

#[test]
fn test_string() {
    assert_eq!(string(r#""12?$3""#), Ok(("", LValue::String("\"12?$3\""))));
    assert_eq!(
        string(r#""1\\2\n3""#),
        Ok(("", LValue::String("\"1\\\\2\\n3\"")))
    );
    assert_eq!(
        string(r#"'1\\2\n\p3'"#),
        Ok(("", LValue::QuoteString("1\\\\2\\n\\p3")))
    );
}

#[test]
fn test_number_failure() {
    assert!(matches!(string(r#""123"#), Err(ParseErr::Failure)));
    assert!(matches!(string(r#""12\p3""#), Err(ParseErr::Failure)));
    assert!(matches!(string(r#"'12\g3""#), Err(ParseErr::Failure)));
    assert!(matches!(string(r#""12\g3'"#), Err(ParseErr::Failure)));
    assert!(matches!(string(r#"'12\g3"#), Err(ParseErr::Failure)));
}

#[test]
fn test_boolean() {
    assert_eq!(boolean("true"), Ok(("", LValue::Boolean(true))));
    assert_eq!(boolean("false"), Ok(("", LValue::Boolean(false))));
}

#[test]
fn test_boolean_error() {
    assert!(matches!(boolean("tru"), Err(ParseErr::Error)));
    assert!(matches!(boolean("fase"), Err(ParseErr::Error)));
}

#[test]
fn test_value() {
    assert_eq!(lvalue("true"), Ok(("", LValue::Boolean(true))));
    assert_eq!(lvalue(r#""123""#), Ok(("", LValue::String("\"123\""))));
    assert_eq!(lvalue(r#"'123'"#), Ok(("", LValue::QuoteString("123"))));
    assert_eq!(lvalue("-123"), Ok(("", LValue::Integer(-123))));
    assert_eq!(lvalue("0"), Ok(("", LValue::Integer(0))));
}

#[test]
fn test_path_segment() {
    assert_eq!(
        path_segment("aboba"),
        Ok(("", LPathSegment::String("aboba")))
    );
    assert_eq!(
        path_segment("${1}"),
        Ok((
            "",
            LPathSegment::Expression(LExpression::Value(LValue::Integer(1)))
        ))
    );
}

#[test]
fn test_path() {
    assert_eq!(
        epath("aboba.foo.bar"),
        Ok((
            "",
            LExpression::Path(
                vec![
                    LPathSegment::String("aboba"),
                    LPathSegment::String("foo"),
                    LPathSegment::String("bar")
                ],
                Box::new(PathScope::Global)
            )
        ))
    );
    assert_eq!(
        epath("aboba.${\"123\"}.${0}"),
        Ok((
            "",
            LExpression::Path(
                vec![
                    LPathSegment::String("aboba"),
                    LPathSegment::Expression(LExpression::Value(LValue::String("\"123\""))),
                    LPathSegment::Expression(LExpression::Value(LValue::Integer(0))),
                ],
                Box::new(PathScope::Global)
            )
        ))
    );
}

#[test]
fn test_fs_path() {
    assert_eq!(
        efs_path("./a/b/c"),
        Ok((
            "",
            LExpression::FsPath(
                vec![
                    LFsPathSegment::String("a"),
                    LFsPathSegment::String("b"),
                    LFsPathSegment::String("c"),
                ],
                LFsPathType::Relative
            )
        ))
    );
    assert_eq!(
        efs_path("./a"),
        Ok((
            "",
            LExpression::FsPath(vec![LFsPathSegment::String("a"),], LFsPathType::Relative)
        ))
    );
    assert_eq!(
        efs_path("/b"),
        Ok((
            "",
            LExpression::FsPath(vec![LFsPathSegment::String("b"),], LFsPathType::Absolute)
        ))
    );
    assert_eq!(
        efs_path("~/.config"),
        Ok((
            "",
            LExpression::FsPath(vec![LFsPathSegment::String(".config"),], LFsPathType::FromHome)
        ))
    );
    assert_eq!(
        efs_path("/${root}/a"),
        Ok((
            "",
            LExpression::FsPath(
                vec![
                    LFsPathSegment::Expression(LExpression::Path(
                        vec![LPathSegment::String("root")],
                        Box::new(PathScope::Global)
                    )),
                    LFsPathSegment::String("a"),
                ],
                LFsPathType::Absolute
            )
        ))
    );
}

#[test]
fn test_function_call() {
    assert_eq!(
        efunction_call("concat(${\"a\"}, b)"),
        Ok((
            "",
            LExpression::FunctionCall(
                "concat",
                vec![
                    LExpression::Value(LValue::String("\"a\"")),
                    LExpression::Path(
                        vec![LPathSegment::String("b")],
                        Box::new(PathScope::Global)
                    ),
                ],
            )
        ))
    );
    assert_eq!(
        efunction_call("fail()"),
        Ok(("", LExpression::FunctionCall("fail", vec![],)))
    );
}

#[test]
fn test_format_string() {
    assert_eq!(
        lformat_string("test-${name}"),
        Ok((
            "",
            LFormatString(vec![
                LFormatStringFragment::Raw("test-"),
                LFormatStringFragment::Expression(LExpression::Path(
                    vec![LPathSegment::String("name")],
                    Box::new(PathScope::Global)
                ))
            ]),
        ))
    );
    assert_eq!(
        lformat_string("string$with$dollars))"),
        Ok((
            "",
            LFormatString(vec![
                LFormatStringFragment::Raw("string"),
                LFormatStringFragment::Raw("$"),
                LFormatStringFragment::Raw("with"),
                LFormatStringFragment::Raw("$"),
                LFormatStringFragment::Raw("dollars))"),
            ]),
        ))
    );
    assert_eq!(
        lformat_string("escaped-$${expr}-more-$$$${expr}"),
        Ok((
            "",
            LFormatString(vec![
                LFormatStringFragment::Raw("escaped-"),
                LFormatStringFragment::Raw("${"),
                LFormatStringFragment::Raw("expr}-more-"),
                LFormatStringFragment::Raw("$"),
                LFormatStringFragment::Raw("$"),
                LFormatStringFragment::Raw("${"),
                LFormatStringFragment::Raw("expr}"),
            ]),
        ))
    );
}

#[test]
fn test_expression() {
    assert_eq!(
        lexpression("${aboba}"),
        Ok((
            "",
            LExpression::Path(
                vec![LPathSegment::String("aboba")],
                Box::new(PathScope::Global)
            )
        ))
    );
    assert_eq!(
        lexpression("${true}"),
        Ok(("", LExpression::Value(LValue::Boolean(true))))
    );
    assert_eq!(
        lexpression("${- 2}"),
        Ok(("", LExpression::Value(LValue::Integer(-2))))
    );
    assert_eq!(
        lexpression("${${0}}"),
        Ok(("", LExpression::Value(LValue::Integer(0))))
    );
    assert_eq!(
        lexpression("${a1-23.${0}}"),
        Ok((
            "",
            LExpression::Path(
                vec![
                    LPathSegment::String("a1-23"),
                    LPathSegment::Expression(LExpression::Value(LValue::Integer(0)))
                ],
                Box::new(PathScope::Global)
            )
        ))
    );
    assert_eq!(
        lexpression("${./a}"),
        Ok((
            "",
            LExpression::FsPath(vec![LFsPathSegment::String("a"),], LFsPathType::Relative)
        ))
    );
    assert_eq!(
        lexpression("${/${a}}"),
        Ok((
            "",
            LExpression::FsPath(
                vec![LFsPathSegment::Expression(LExpression::Path(
                    vec![LPathSegment::String("a")],
                    Box::new(PathScope::Global)
                )),],
                LFsPathType::Absolute
            )
        ))
    );
    assert_eq!(
        lexpression("${if(true, ${a}, ${b})}"),
        Ok((
            "",
            LExpression::FunctionCall(
                "if",
                vec![
                    LExpression::Value(LValue::Boolean(true)),
                    LExpression::Path(
                        vec![LPathSegment::String("a")],
                        Box::new(PathScope::Global)
                    ),
                    LExpression::Path(
                        vec![LPathSegment::String("b")],
                        Box::new(PathScope::Global)
                    ),
                ],
            )
        ))
    );
}

#[test]
fn inner_expression_forms() {
    assert_eq!(inner_expression("true}"), Ok(("}", LExpression::Value(LValue::Boolean(true)))));
    assert!(matches!(inner_expression("f(1)"), Ok(("", LExpression::FunctionCall("f", _)))));
    assert!(matches!(inner_expression("a.b rest"), Ok((" rest", LExpression::Path(_, _)))));
    assert!(matches!(inner_expression("./x"), Ok(("", LExpression::FsPath(_, LFsPathType::Relative)))));
    assert!(matches!(inner_expression("${1}"), Ok(("", LExpression::Value(LValue::Integer(1))))));
    assert!(matches!(inner_expression("}"), Err(ParseErr::Error)));
}
