use cond_templates::condition::Condition;
use cond_templates::parser::{parse_line, LineParseResult};

#[test]
fn test_parser_if_single() {
    assert_eq!(
        parse_line("#if foo"),
        Ok(("", LineParseResult::If(Condition::Single("foo".to_string()))))
    );
    assert_eq!(
        parse_line("  #if   bar  "), // Whitespace
        Ok(("", LineParseResult::If(Condition::Single("bar".to_string()))))
    );
}

#[test]
fn test_parser_if_and() {
    assert_eq!(
        parse_line("#if (and foo bar baz)"),
        Ok((
            "",
            LineParseResult::If(Condition::And(vec![
                "foo".to_string(),
                "bar".to_string(),
                "baz".to_string()
            ]))
        ))
    );
    assert_eq!(
        parse_line(" #if (and  f1   f2 ) "), // Extra whitespace
        Ok((
            "",
            LineParseResult::If(Condition::And(vec!["f1".to_string(), "f2".to_string()]))
        ))
    );
}

#[test]
fn test_parser_if_or() {
    assert_eq!(
        parse_line("#if (or foo bar baz)"),
        Ok((
            "",
            LineParseResult::If(Condition::Or(vec![
                "foo".to_string(),
                "bar".to_string(),
                "baz".to_string()
            ]))
        ))
    );
    assert_eq!(
        parse_line(" #if (or  f1   f2 ) "), // Extra whitespace
        Ok((
            "",
            LineParseResult::If(Condition::Or(vec!["f1".to_string(), "f2".to_string()]))
        ))
    );
}

#[test]
fn test_parser_endif() {
    assert_eq!(parse_line("#endif"), Ok(("", LineParseResult::Endif)));
    assert_eq!(
        parse_line("  #endif   "), // Whitespace
        Ok(("", LineParseResult::Endif))
    );
    // What follows the token and the white space after it is handed back.
    assert_eq!(
        parse_line("#endif // comment"),
        Ok(("// comment", LineParseResult::Endif))
    );
}

#[test]
fn test_parser_content() {
    assert_eq!(
        parse_line("This is a content line"),
        Ok(("", LineParseResult::Content("This is a content line")))
    );
    assert_eq!(
        parse_line("  Indented content"),
        Ok(("", LineParseResult::Content("  Indented content")))
    );
    assert_eq!(
        parse_line(""), // Empty line
        Ok(("", LineParseResult::Content("")))
    );
}

#[test]
fn test_parser_invalid_if_syntax() {
    assert!(parse_line("#if(").is_err()); // Missing space
    assert!(parse_line("#if (and foo").is_err()); // Missing closing paren
    assert!(parse_line("#if (and").is_err()); // Missing flags and paren
}

#[test]
fn parser_inline_directive() {
    assert_eq!(
        parse_line("include this #if foo"),
        Ok((
            "",
            LineParseResult::Inline("include this", Condition::Single("foo".to_string()))
        ))
    );
}
