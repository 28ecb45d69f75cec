use cond_templates::condition::Condition;
use cond_templates::parser::MalformedReason::{MissingSeparator, NoMatch, TrailingCharacters};
use cond_templates::parser::{
    identifier, parse_and, parse_condition, parse_condition_str, parse_endif_directive,
    parse_if_directive, parse_line, parse_or, parse_single, LineParseResult, MalformedCondition,
    MalformedReason,
};

fn strings(items: &[&str]) -> Vec<String> {
    items.iter().map(|s| s.to_string()).collect()
}

fn malformed(text: &str, reason: MalformedReason) -> MalformedCondition {
    MalformedCondition { text: text.to_string(), reason }
}

#[test]
fn identifier_takes_the_longest_flag_name() {
    assert_eq!(identifier("foo"), Some(("", "foo")));
    assert_eq!(identifier("foo bar"), Some((" bar", "foo")));
    assert_eq!(identifier("foo)bar"), Some((")bar", "foo")));
    assert_eq!(identifier("a(b"), Some(("(b", "a")));
    assert_eq!(identifier("#if-x_1.y"), Some(("", "#if-x_1.y")));
    assert_eq!(identifier(""), None);
    assert_eq!(identifier(" foo"), None);
    assert_eq!(identifier("(foo"), None);
    assert_eq!(identifier(")"), None);
}

#[test]
fn identifier_stops_at_any_white_space() {
    assert_eq!(identifier("a\tb"), Some(("\tb", "a")));
    assert_eq!(identifier("a\u{a0}b"), Some(("\u{a0}b", "a")));
    assert_eq!(identifier("a\u{3000}b"), Some(("\u{3000}b", "a")));
    assert_eq!(identifier("a\u{2003}"), Some(("\u{2003}", "a")));
    // A zero-width space is no white space.
    assert_eq!(identifier("a\u{200b}b c"), Some((" c", "a\u{200b}b")));
    assert_eq!(identifier("äöü é"), Some((" é", "äöü")));
}

#[test]
fn single_and_list_forms_are_consumed_from_the_front() {
    assert_eq!(
        parse_single("flag rest"),
        Some((" rest", Condition::Single("flag".to_string())))
    );
    assert_eq!(parse_single("(and a)"), None);
    assert_eq!(
        parse_and("(and a b) tail"),
        Some((" tail", Condition::And(strings(&["a", "b"]))))
    );
    assert_eq!(
        parse_or("(or a)"),
        Some(("", Condition::Or(strings(&["a"]))))
    );
    assert_eq!(parse_and("(or a)"), None);
    assert_eq!(parse_or("(and a)"), None);
    assert_eq!(parse_and(" (and a)"), None);
}

#[test]
fn list_forms_need_a_separator_and_a_flag() {
    assert_eq!(parse_and("(and)"), None);
    assert_eq!(parse_and("(and )"), None);
    assert_eq!(parse_and("(and   \t )"), None);
    assert_eq!(parse_and("(anda b)"), None);
    assert_eq!(parse_and("(and a"), None);
    assert_eq!(parse_and("(and a (b))"), None);
    assert_eq!(parse_and("(and (a))"), None);
    assert_eq!(parse_or("(or)"), None);
    assert_eq!(parse_or("(orange x)"), None);
    assert_eq!(parse_or("(or"), None);
    assert_eq!(parse_or("("), None);
    assert_eq!(parse_or(""), None);
}

#[test]
fn white_space_inside_a_list_form_is_free() {
    assert_eq!(
        parse_and("(and  a   b )"),
        Some(("", Condition::And(strings(&["a", "b"]))))
    );
    assert_eq!(
        parse_or("(or\ta\u{a0}\u{2003}b\r)x"),
        Some(("x", Condition::Or(strings(&["a", "b"]))))
    );
    assert_eq!(
        parse_and("(and a a a)"),
        Some(("", Condition::And(strings(&["a", "a", "a"]))))
    );
}

#[test]
fn parse_condition_prefers_the_forms_in_order() {
    assert_eq!(
        parse_condition("(and x y)z"),
        Some(("z", Condition::And(strings(&["x", "y"]))))
    );
    assert_eq!(
        parse_condition("(or x)"),
        Some(("", Condition::Or(strings(&["x"]))))
    );
    assert_eq!(
        parse_condition("and x"),
        Some((" x", Condition::Single("and".to_string())))
    );
    assert_eq!(parse_condition("(and"), None);
    assert_eq!(parse_condition(""), None);
    assert_eq!(parse_condition(" x"), None);
}

#[test]
fn condition_text_is_trimmed_and_must_be_one_form() {
    assert_eq!(parse_condition_str("foo"), Ok(Condition::Single("foo".to_string())));
    assert_eq!(parse_condition_str("  foo \t"), Ok(Condition::Single("foo".to_string())));
    assert_eq!(
        parse_condition_str(" (and  a   b ) "),
        Ok(Condition::And(strings(&["a", "b"])))
    );
    assert_eq!(
        parse_condition_str("(or a b c)"),
        Ok(Condition::Or(strings(&["a", "b", "c"])))
    );
    assert_eq!(
        parse_condition_str("(and a)"),
        Ok(Condition::And(strings(&["a"])))
    );
}

#[test]
fn malformed_conditions_say_why() {
    assert_eq!(parse_condition_str(""), Err(malformed("", NoMatch)));
    assert_eq!(parse_condition_str("   "), Err(malformed("", NoMatch)));
    assert_eq!(parse_condition_str("()"), Err(malformed("()", NoMatch)));
    assert_eq!(parse_condition_str("(and)"), Err(malformed("(and)", NoMatch)));
    assert_eq!(parse_condition_str("(or)"), Err(malformed("(or)", NoMatch)));
    assert_eq!(parse_condition_str("(and foo"), Err(malformed("(and foo", NoMatch)));
    assert_eq!(parse_condition_str(" (xor a b) "), Err(malformed("(xor a b)", NoMatch)));
    assert_eq!(parse_condition_str(")"), Err(malformed(")", NoMatch)));
    assert_eq!(parse_condition_str("(AND a)"), Err(malformed("(AND a)", NoMatch)));
    assert_eq!(
        parse_condition_str("foo bar"),
        Err(malformed("foo bar", TrailingCharacters))
    );
    assert_eq!(
        parse_condition_str("foo)"),
        Err(malformed("foo)", TrailingCharacters))
    );
    assert_eq!(
        parse_condition_str("(and a) b"),
        Err(malformed("(and a) b", TrailingCharacters))
    );
    assert_eq!(
        parse_condition_str("(or a))"),
        Err(malformed("(or a))", TrailingCharacters))
    );
}

#[test]
fn close_marker_is_recognised_first() {
    assert_eq!(
        parse_endif_directive("#endif"),
        Some(("", LineParseResult::Endif))
    );
    assert_eq!(
        parse_endif_directive("\t #endif   trailing  words "),
        Some(("trailing  words ", LineParseResult::Endif))
    );
    assert_eq!(
        parse_endif_directive("#endifx"),
        Some(("x", LineParseResult::Endif))
    );
    assert_eq!(parse_endif_directive("x #endif"), None);
    assert_eq!(parse_endif_directive("#endi"), None);
    assert_eq!(parse_endif_directive("#if foo"), None);
    assert_eq!(parse_endif_directive(""), None);

    // A close marker wins over a directive later on the line.
    assert_eq!(
        parse_line("#endif #if foo"),
        Ok(("#if foo", LineParseResult::Endif))
    );
    // A close token after content closes nothing.
    assert_eq!(
        parse_line("text #endif"),
        Ok(("", LineParseResult::Content("text #endif")))
    );
}

#[test]
fn directive_is_block_or_inline_by_what_precedes_it() {
    assert_eq!(
        parse_if_directive("#if foo"),
        Some(Ok(LineParseResult::If(Condition::Single("foo".to_string()))))
    );
    assert_eq!(
        parse_if_directive(" \t#if (or a b)"),
        Some(Ok(LineParseResult::If(Condition::Or(strings(&["a", "b"])))))
    );
    assert_eq!(
        parse_if_directive("  keep me  \t#if   (and a b)  "),
        Some(Ok(LineParseResult::Inline(
            "  keep me",
            Condition::And(strings(&["a", "b"]))
        )))
    );
    assert_eq!(
        parse_if_directive("x#if y"),
        Some(Ok(LineParseResult::Inline("x", Condition::Single("y".to_string()))))
    );
    assert_eq!(parse_if_directive("no directive here"), None);
    assert_eq!(parse_if_directive("#i f x"), None);
    assert_eq!(parse_if_directive(""), None);
}

#[test]
fn malformed_directives_say_why() {
    assert_eq!(parse_line("#if("), Err(malformed("(", MissingSeparator)));
    assert_eq!(parse_line("#if"), Err(malformed("", MissingSeparator)));
    assert_eq!(parse_line("#iffoo"), Err(malformed("foo", MissingSeparator)));
    assert_eq!(parse_line("text #ifdef X"), Err(malformed("def X", MissingSeparator)));
    assert_eq!(parse_line("#if "), Err(malformed("", NoMatch)));
    assert_eq!(parse_line("#if (and foo"), Err(malformed("(and foo", NoMatch)));
    assert_eq!(parse_line("#if (and"), Err(malformed("(and", NoMatch)));
    assert_eq!(parse_line("#if ()"), Err(malformed("()", NoMatch)));
    assert_eq!(
        parse_line("#if foo bar"),
        Err(malformed("foo bar", TrailingCharacters))
    );
    assert_eq!(
        parse_line("a #if b #if c"),
        Err(malformed("b #if c", TrailingCharacters))
    );
    assert_eq!(
        parse_line("#if (or D A) // note"),
        Err(malformed("(or D A) // note", TrailingCharacters))
    );
}

#[test]
fn content_lines_come_back_whole() {
    for line in ["", "   ", "plain", "  # if x", "#else", "a # b ## c", "\t(and a b)"] {
        assert_eq!(parse_line(line), Ok(("", LineParseResult::Content(line))));
    }
}
