use etree::xpath::{
    condition, conditions_or, decimal, index, name, operator, separator, string, xpath,
    Predictor, QueryError, XPathSegment,
};
use etree::predicate::escape_info;

#[test]
fn test_decimal() {
    assert_eq!(decimal("1234a"), Ok(("a", "1234")));
}

#[test]
fn test_name() {
    assert_eq!(name("h:a12 u"), Ok((" u", "h:a12")));
    assert_eq!(name("_a12[u"), Ok(("[u", "_a12")));
    assert!(name("1a12 u").is_err());
}

#[test]
fn test_separator() {
    assert_eq!(separator("/a"), Ok(("a", "/")));
    assert_eq!(separator("//a"), Ok(("a", "//")));
    assert_eq!(separator("///a"), Ok(("/a", "//")));
}

#[test]
fn test_operator() {
    assert_eq!(operator(">=a"), Ok(("a", ">=")));
    assert_eq!(operator("<=a"), Ok(("a", "<=")));
    assert_eq!(operator(">a"), Ok(("a", ">")));
    assert_eq!(operator("<a"), Ok(("a", "<")));
    assert_eq!(operator("!=a"), Ok(("a", "!=")));
    assert_eq!(operator("=a"), Ok(("a", "==")));
}

#[test]
fn test_string() {
    assert_eq!(string("'ab''"), Ok(("'", "'ab'")));
    assert_eq!(string(r"'ab\'''"), Ok(("'", r"'ab\''")));
}

#[test]
fn test_index() {
    assert_eq!(index("2a"), Ok(("a", Predictor::IndexDecimal("2".to_string()))));
    assert_eq!(
        index("last()a"),
        Ok(("a", Predictor::IndexExpr("last()".to_string(), "".to_string())))
    );
    assert_eq!(
        index("last()- 2a"),
        Ok(("a", Predictor::IndexExpr("last()".to_string(), "2".to_string())))
    );
}

#[test]
fn test_condition() {
    assert_eq!(
        condition("child_node"),
        Ok(("", Predictor::Condition("child_node".to_string(), None, None)))
    );
    assert_eq!(
        condition("child_node= 'aa'"),
        Ok((
            "",
            Predictor::Condition(
                "child_node".to_string(),
                Some("==".to_string()),
                Some("'aa'".to_string())
            )
        ))
    );
    assert_eq!(
        condition("@*a"),
        Ok(("a", Predictor::Condition("@*".to_string(), None, None)))
    );
    assert_eq!(
        condition("@attr"),
        Ok(("", Predictor::Condition("@attr".to_string(), None, None)))
    );
    assert_eq!(
        condition("@attr  = 'aa'"),
        Ok((
            "",
            Predictor::Condition(
                "@attr".to_string(),
                Some("==".to_string()),
                Some("'aa'".to_string())
            )
        ))
    );
    assert_eq!(
        condition("text()!= 'aa'"),
        Ok((
            "",
            Predictor::Condition(
                "text()".to_string(),
                Some("!=".to_string()),
                Some("'aa'".to_string())
            )
        ))
    );
    assert_eq!(
        condition("position()>= 7a"),
        Ok((
            "a",
            Predictor::Condition(
                "position()".to_string(),
                Some(">=".to_string()),
                Some("7".to_string())
            )
        ))
    );
    assert_eq!(
        condition("(position()>= 7 )a"),
        Ok((
            "a",
            Predictor::Condition(
                "position()".to_string(),
                Some(">=".to_string()),
                Some("7".to_string())
            )
        ))
    );
}

#[test]
fn test_conditions_or() {
    assert_eq!(
        conditions_or("@attr  = 'aa'"),
        Ok((
            "",
            Predictor::Condition(
                "@attr".to_string(),
                Some("==".to_string()),
                Some("'aa'".to_string())
            )
        ))
    );
    assert_eq!(
        conditions_or("text()!= 'aa'"),
        Ok((
            "",
            Predictor::Condition(
                "text()".to_string(),
                Some("!=".to_string()),
                Some("'aa'".to_string())
            )
        ))
    );
    assert_eq!(
        conditions_or("child_node and @attr)"),
        Ok((
            ")",
            Predictor::And(
                Box::new(Predictor::Condition("child_node".to_string(), None, None)),
                Box::new(Predictor::Condition("@attr".to_string(), None, None)),
            )
        ))
    );
    assert_eq!(
        conditions_or("text()='aa' or child_node and @attr)"),
        Ok((
            ")",
            Predictor::Or(
                Box::new(Predictor::Condition(
                    "text()".to_string(),
                    Some("==".to_string()),
                    Some("'aa'".to_string())
                )),
                Box::new(Predictor::And(
                    Box::new(Predictor::Condition("child_node".to_string(), None, None)),
                    Box::new(Predictor::Condition("@attr".to_string(), None, None)),
                )),
            )
        ))
    );
}

#[test]
fn test_xpath() {
    assert_eq!(
        xpath("@id"),
        Ok((
            "",
            vec![XPathSegment {
                separator: "".to_string(),
                node: "*".to_string(),
                condition: Predictor::Condition("@id".to_string(), None, None)
            },]
        ))
    );
    assert_eq!(
        xpath("//NODE[@oid and @attrcatref='abc']"),
        Ok((
            "",
            vec![XPathSegment {
                separator: "//".to_string(),
                node: "NODE".to_string(),
                condition: Predictor::And(
                    Box::new(Predictor::Condition("@oid".to_string(), None, None)),
                    Box::new(Predictor::Condition(
                        "@attrcatref".to_string(),
                        Some("==".to_string()),
                        Some("'abc'".to_string())
                    )),
                )
            },]
        ))
    );
    assert_eq!(
        xpath(".//NAME/TUV"),
        Ok((
            "",
            vec![
                XPathSegment {
                    separator: "".to_string(),
                    node: ".".to_string(),
                    condition: Predictor::Nothing
                },
                XPathSegment {
                    separator: "//".to_string(),
                    node: "NAME".to_string(),
                    condition: Predictor::Nothing
                },
                XPathSegment {
                    separator: "/".to_string(),
                    node: "TUV".to_string(),
                    condition: Predictor::Nothing
                },
            ]
        ))
    );
}

#[test]
fn test_predictor_expr() {
    let (remaining, segs) = xpath(".//NAME[text()='aa' and (@id='bb' or @gid)]").unwrap();
    assert_eq!(remaining, "");
    assert_eq!(segs.len(), 2);
    assert_eq!(
        segs[1].condition.collect(),
        (
            Vec::new(),
            vec!["gid".to_string(), "id".to_string()],
            vec!["text()".to_string(),],
        )
    );
    let mut info = Vec::new();
    info.push(("text()".to_string(), "aaa".to_string()));
    info.push(("@id".to_string(), "123".to_string()));
    assert_eq!(
        segs[1].condition.expr(&info),
        "('aaa' == 'aa') && (('123' == 'bb') || (false))"
    )
}

#[test]
fn test_escape_info() {
    assert_eq!(escape_info("ab'c"), Ok(("", "ab\\'c".to_string())));
    assert_eq!(escape_info("ab\\c"), Ok(("", "ab\\\\c".to_string())));
}

#[test]
fn name_takes_hyphen_and_dot_after_the_first_character() {
    assert_eq!(name("child-tag.x='1'"), Ok(("='1'", "child-tag.x")));
    assert_eq!(name("-a"), Err(QueryError::Syntax));
}

#[test]
fn position_compares_with_last() {
    assert_eq!(
        condition("position()=last()]"),
        Ok((
            "]",
            Predictor::Condition(
                "position()".to_string(),
                Some("==".to_string()),
                Some("last()".to_string())
            )
        ))
    );
    assert_eq!(
        condition("position() < last()-1]"),
        Ok((
            "]",
            Predictor::Condition(
                "position()".to_string(),
                Some("<".to_string()),
                Some("last() - 1".to_string())
            )
        ))
    );
}
