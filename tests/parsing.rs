use run_or_raise::conditions::{Condition, Match, Operator, Property};
use run_or_raise::parsing::{
    condition, escape, match_, no_escapes, parse, property, quoted_string, ParseError, Production,
};

fn is_equal(c: &Condition, prop: Property, text: &str) -> bool {
    matches!(c, Condition::Pure(Match { prop: p, op: Operator::Equal(s) }) if *p == prop && s == text)
}

#[test]
fn test_property() {
    let result = property("class");
    assert_eq!(result.unwrap(), ("".to_string(), Property::Class));
    let result = property("name");
    assert_eq!(result.unwrap(), ("".to_string(), Property::Name));
    let result = property("role");
    assert_eq!(result.unwrap(), ("".to_string(), Property::Role));
}

#[test]
fn test_escape() {
    let result = escape(r#"\""#);
    assert_eq!(result.unwrap(), ("".to_string(), r#"""#.to_string()));
    let result = escape(r#"\\"#);
    assert_eq!(result.unwrap(), ("".to_string(), r#"\"#.to_string()));
}

#[test]
fn test_no_escapes() {
    let result = no_escapes(r#"Hello \"#);
    assert_eq!(result.unwrap(), (r#"\"#.to_string(), "Hello ".to_string()));
    let result = no_escapes(r#"Hello ""#);
    assert_eq!(result.unwrap(), (r#"""#.to_string(), "Hello ".to_string()));
}

#[test]
fn test_quoted_string() {
    let result = quoted_string("\"Hello World\"");
    assert_eq!(result.unwrap(), ("".to_string(), "Hello World".to_string()));
    let result = quoted_string(r#""Hello \"World\"""#);
    assert_eq!(result.unwrap(), ("".to_string(), "Hello \"World\"".to_string()));
}

#[test]
fn test_match() {
    let (rest, value) = match_("class ~ \"Firefox\"").unwrap();
    assert_eq!(rest, "");
    assert_eq!(value.prop, Property::Class);
    if let Operator::Regex(ref p) = value.op {
        assert!(p.is_match("Firefox"));
    } else {
        panic!();
    }
}

#[test]
fn test_condition() {
    let (rest, value) = condition(r#"class = "Firefox""#).unwrap();
    assert_eq!(rest, "");
    assert!(is_equal(&value, Property::Class, "Firefox"));

    let (rest, value) = condition(r#"class = "Firefox" && name = "Emacs""#).unwrap();
    assert_eq!(rest, "");
    let (ls, rs) = match value {
        Condition::And(ls, rs) => (ls, rs),
        _ => panic!(),
    };
    assert!(is_equal(&ls, Property::Class, "Firefox"));
    assert!(is_equal(&rs, Property::Name, "Emacs"));

    let (rest, value) =
        condition(r#"class = "Firefox" && name = "Emacs" && role = "browser""#).unwrap();
    let (ls, rs) = match value {
        Condition::And(ls, rs) => (ls, rs),
        _ => panic!(),
    };
    assert_eq!(rest, "");
    let (ls_ls, ls_rs) = match *ls {
        Condition::And(ls, rs) => (ls, rs),
        _ => panic!(),
    };
    assert!(is_equal(&ls_ls, Property::Class, "Firefox"));
    assert!(is_equal(&ls_rs, Property::Name, "Emacs"));
    assert!(is_equal(&rs, Property::Role, "browser"));

    let (rest, value) =
        condition(r#"class = "Firefox" || name = "Emacs" && role = "browser""#).unwrap();
    assert_eq!(rest, "");
    let (ls, rs) = match value {
        Condition::Or(ls, rs) => (ls, rs),
        _ => panic!(),
    };
    assert!(is_equal(&ls, Property::Class, "Firefox"));
    let (rs_ls, rs_rs) = match *rs {
        Condition::And(ls, rs) => (ls, rs),
        _ => panic!(),
    };
    assert!(is_equal(&rs_ls, Property::Name, "Emacs"));
    assert!(is_equal(&rs_rs, Property::Role, "browser"));

    let (rest, value) =
        condition(r#"class = "Firefox" && name = "Emacs" || role = "browser""#).unwrap();
    assert_eq!(rest, "");
    let (ls, rs) = match value {
        Condition::Or(ls, rs) => (ls, rs),
        _ => panic!(),
    };
    let (ls_ls, ls_rs) = match *ls {
        Condition::And(ls, rs) => (ls, rs),
        _ => panic!(),
    };
    assert!(is_equal(&ls_ls, Property::Class, "Firefox"));
    assert!(is_equal(&ls_rs, Property::Name, "Emacs"));
    assert!(is_equal(&rs, Property::Role, "browser"));

    let (rest, value) = condition(r#"(class = "Firefox")"#).unwrap();
    assert_eq!(rest, "");
    assert!(is_equal(&value, Property::Class, "Firefox"));

    let (rest, value) =
        condition(r#"(class = "Firefox" || name = "Emacs") && role = "browser""#).unwrap();
    assert_eq!(rest, "");
    let (ls, rs) = match value {
        Condition::And(ls, rs) => (ls, rs),
        _ => panic!(),
    };
    let (ls_ls, ls_rs) = match *ls {
        Condition::Or(ls, rs) => (ls, rs),
        _ => panic!(),
    };
    assert!(is_equal(&ls_ls, Property::Class, "Firefox"));
    assert!(is_equal(&ls_rs, Property::Name, "Emacs"));
    assert!(is_equal(&rs, Property::Role, "browser"));
}

#[test]
fn parse_single_equal_match() {
    let c = parse("class = \"Firefox\"").unwrap();
    assert!(is_equal(&c, Property::Class, "Firefox"));
}

#[test]
fn parse_regex_match_compiles_pattern() {
    let c = parse("class ~ \"Fire.*\"").unwrap();
    match c {
        Condition::Pure(Match { prop: Property::Class, op: Operator::Regex(p) }) => {
            assert!(p.is_match("Firefox"));
            assert!(!p.is_match("Chrome"));
            assert_eq!(p.as_str(), "Fire.*");
        }
        _ => panic!(),
    }
}

#[test]
fn regex_searches_anywhere_in_the_value() {
    let c = parse("name ~ \"macs\"").unwrap();
    match c {
        Condition::Pure(Match { op: Operator::Regex(p), .. }) => {
            assert!(p.is_match("GNU Emacs"));
            assert!(!p.is_match("vim"));
        }
        _ => panic!(),
    }
}

#[test]
fn parse_stacked_negation_and_spacing() {
    let c = parse("  !! ( role=\"x\" )  ").unwrap();
    let inner = match c {
        Condition::Not(a) => match *a {
            Condition::Not(b) => b,
            _ => panic!(),
        },
        _ => panic!(),
    };
    assert!(is_equal(&inner, Property::Role, "x"));
}

#[test]
fn parse_escapes_in_strings() {
    let c = parse(r#"name = "a \"b\" \\ c""#).unwrap();
    assert!(is_equal(&c, Property::Name, r#"a "b" \ c"#));
}

#[test]
fn parse_rejects_unbalanced_parens() {
    assert_eq!(
        parse("(class = \"a\"").err(),
        Some(ParseError::Syntax { expected: Production::Grouping, position: 12 })
    );
    assert_eq!(
        parse("class = \"a\")").err(),
        Some(ParseError::Syntax { expected: Production::EndOfInput, position: 11 })
    );
}

#[test]
fn parse_rejects_unterminated_string() {
    assert_eq!(
        parse("class = \"Firefox").err(),
        Some(ParseError::Syntax { expected: Production::StringLiteral, position: 8 })
    );
}

#[test]
fn parse_rejects_invalid_escape() {
    assert_eq!(
        parse(r#"class = "a\nb""#).err(),
        Some(ParseError::Syntax { expected: Production::StringLiteral, position: 8 })
    );
}

#[test]
fn parse_rejects_unknown_property() {
    assert_eq!(
        parse("title = \"a\"").err(),
        Some(ParseError::Syntax { expected: Production::Property, position: 0 })
    );
}

#[test]
fn parse_rejects_trailing_garbage() {
    assert_eq!(
        parse("class = \"a\" role").err(),
        Some(ParseError::Syntax { expected: Production::EndOfInput, position: 12 })
    );
}

#[test]
fn parse_rejects_invalid_regex() {
    assert_eq!(parse("class ~ \"(\"").err(), Some(ParseError::InvalidPattern { position: 8 }));
}

#[test]
fn parse_rejects_dangling_connectives_and_operators() {
    assert_eq!(
        parse("class = \"a\" &&").err(),
        Some(ParseError::Syntax { expected: Production::Expression, position: 14 })
    );
    assert_eq!(
        parse("class = \"a\" | name = \"b\"").err(),
        Some(ParseError::Syntax { expected: Production::Connective, position: 12 })
    );
    assert_eq!(
        parse("class \"a\"").err(),
        Some(ParseError::Syntax { expected: Production::Comparison, position: 6 })
    );
    assert_eq!(
        parse("class = ").err(),
        Some(ParseError::Syntax { expected: Production::StringLiteral, position: 8 })
    );
    assert_eq!(
        parse("class = \"a\" # x").err(),
        Some(ParseError::Syntax { expected: Production::Token, position: 12 })
    );
    assert_eq!(parse("").err(), Some(ParseError::Syntax { expected: Production::Expression, position: 0 }));
}

#[test]
fn match_rejects_invalid_regex() {
    assert_eq!(match_("role ~ \"[\"").err(), Some(ParseError::InvalidPattern { position: 7 }));
}

#[test]
fn helpers_report_errors() {
    assert!(property("window").is_err());
    assert!(escape(r#"\n"#).is_err());
    assert!(no_escapes(r#""x"#).is_err());
    assert!(quoted_string("x").is_err());
}

#[test]
fn parenthesised_rendering_parses_back() {
    let text = r#"( class = "a\"b\\" ) && ( ! ( ( name ~ "E.*s" ) || ( role = "x" ) ) ) "#;
    let c = parse(text).unwrap();
    let (l, r) = match c {
        Condition::And(l, r) => (l, r),
        _ => panic!(),
    };
    assert!(is_equal(&l, Property::Class, r#"a"b\"#));
    let inner = match *r {
        Condition::Not(a) => a,
        _ => panic!(),
    };
    let (nl, nr) = match *inner {
        Condition::Or(a, b) => (a, b),
        _ => panic!(),
    };
    assert!(matches!(&*nl, Condition::Pure(Match { prop: Property::Name, op: Operator::Regex(p) })
        if p.as_str() == "E.*s" && p.is_match("Emacs")));
    assert!(is_equal(&nr, Property::Role, "x"));
}

#[test]
fn condition_from_str() {
    let c: Condition = "role = \"browser\"".parse().unwrap();
    assert!(is_equal(&c, Property::Role, "browser"));
    let e: Result<Condition, ParseError> = "role =".parse();
    assert_eq!(e.err(), Some(ParseError::Syntax { expected: Production::StringLiteral, position: 6 }));
}
