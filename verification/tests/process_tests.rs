use cond_templates::flags::FlagSet;
use cond_templates::processor::{process_content, ProcessorError};

// Builds a flag set from string slices.
fn make_hashset(items: &[&str]) -> FlagSet {
    FlagSet::from_vec(items.iter().map(|s| s.to_string()).collect())
}

// Runs process_content on the lines of `input` with a fresh set of used flags.
fn run_process_content(
    input: &str,
    active_flags: &FlagSet,
) -> (Result<Vec<String>, ProcessorError>, FlagSet) {
    let lines: Vec<String> = input.lines().map(|l| l.to_string()).collect();
    let mut used_flags = FlagSet::new();
    let result = process_content(&lines, "test.txt", active_flags, &mut used_flags);
    (result, used_flags)
}

#[test]
fn test_process_no_directives() {
    let input = "line 1\nline 2";
    let (result, used) = run_process_content(input, &make_hashset(&["any"]));
    assert_eq!(result.unwrap(), vec!["line 1", "line 2"]);
    assert!(used.is_empty());
}

#[test]
fn test_process_simple_if_true() {
    let input = "#if foo\ncontent\n#endif";
    let (result, used) = run_process_content(input, &make_hashset(&["foo"]));
    assert_eq!(result.unwrap(), vec!["content"]);
    assert_eq!(used, make_hashset(&["foo"]));
}

#[test]
fn test_process_simple_if_false() {
    let input = "#if foo\ncontent\n#endif";
    let (result, used) = run_process_content(input, &make_hashset(&["bar"]));
    assert!(result.unwrap().is_empty());
    assert_eq!(used, make_hashset(&["foo"])); // foo was still checked
}

#[test]
fn test_process_content_before_after() {
    let input = "before\n#if foo\ncontent\n#endif\nafter";
    let (result, used) = run_process_content(input, &make_hashset(&["foo"]));
    assert_eq!(result.unwrap(), vec!["before", "content", "after"]);
    assert_eq!(used, make_hashset(&["foo"]));
}

#[test]
fn test_process_content_before_after_if_false() {
    let input = "before\n#if foo\ncontent\n#endif\nafter";
    let (result, used) = run_process_content(input, &make_hashset(&["bar"]));
    assert_eq!(result.unwrap(), vec!["before", "after"]);
    assert_eq!(used, make_hashset(&["foo"]));
}

#[test]
fn test_process_nested_if_true_true() {
    let input = "#if A\nouter\n#if B\ninner\n#endif\nouter_end\n#endif";
    let (result, used) = run_process_content(input, &make_hashset(&["A", "B"]));
    assert_eq!(result.unwrap(), vec!["outer", "inner", "outer_end"]);
    assert_eq!(used, make_hashset(&["A", "B"]));
}

#[test]
fn test_process_nested_if_true_false() {
    let input = "#if A\nouter\n#if B\ninner\n#endif\nouter_end\n#endif";
    let (result, used) = run_process_content(input, &make_hashset(&["A", "C"])); // B is false
    assert_eq!(result.unwrap(), vec!["outer", "outer_end"]);
    assert_eq!(used, make_hashset(&["A", "B"])); // B was still evaluated
}

#[test]
fn test_process_nested_if_false() {
    // If outer is false, inner condition B shouldn't even be evaluated
    let input = "#if A\nouter\n#if B\ninner\n#endif\nouter_end\n#endif";
    let (result, used) = run_process_content(input, &make_hashset(&["C", "B"])); // A is false
    assert!(result.unwrap().is_empty());
    assert_eq!(used, make_hashset(&["A"])); // Only A was evaluated
}

#[test]
fn test_process_and_true() {
    let input = "#if (and foo bar)\ncontent\n#endif";
    let (result, used) = run_process_content(input, &make_hashset(&["foo", "bar", "baz"]));
    assert_eq!(result.unwrap(), vec!["content"]);
    assert_eq!(used, make_hashset(&["foo", "bar"]));
}

#[test]
fn test_process_and_false() {
    let input = "#if (and foo bar)\ncontent\n#endif";
    let (result, used) = run_process_content(input, &make_hashset(&["foo", "baz"]));
    assert!(result.unwrap().is_empty());
    assert_eq!(used, make_hashset(&["foo", "bar"]));
}

#[test]
fn test_process_or_true() {
    let input = "#if (or foo bar)\ncontent\n#endif";
    let (result, used) = run_process_content(input, &make_hashset(&["foo", "baz"]));
    assert_eq!(result.unwrap(), vec!["content"]);
    assert_eq!(used, make_hashset(&["foo", "bar"]));
}

#[test]
fn test_process_or_false() {
    let input = "#if (or foo bar)\ncontent\n#endif";
    let (result, used) = run_process_content(input, &make_hashset(&["baz", "qux"]));
    assert!(result.unwrap().is_empty());
    assert_eq!(used, make_hashset(&["foo", "bar"]));
}

#[test]
fn test_process_complex_nesting() {
    let input = r#"
Always here
#if A
A block
#if (and B C)
  B and C block
#endif
#if (or D E)
  D or E block
  #if F
    F block (inside D or E)
  #endif
#endif
Still A block
#endif
Always here too"#;
    let active = make_hashset(&["A", "B", "D", "F"]); // C=false, E=false
    let (result, used) = run_process_content(input.trim(), &active);
    assert_eq!(
        result.unwrap(),
        vec![
            "Always here",
            "A block",
            // B and C block is skipped (C=false)
            "  D or E block",              // D=true
            "    F block (inside D or E)", // F=true
            "Still A block",
            "Always here too",
        ]
    );
    // Every flag mentioned on an evaluated path
    assert_eq!(used, make_hashset(&["A", "B", "C", "D", "E", "F"]));
}

#[test]
fn test_process_mismatched_endif() {
    let input = "content\n#endif";
    let (result, _) = run_process_content(input, &make_hashset(&[]));
    assert!(matches!(
        result,
        Err(ProcessorError::MismatchedEndif { line_num: 2, .. })
    ));
}

#[test]
fn test_process_mismatched_if() {
    let input = "#if A\ncontent";
    let (result, _) = run_process_content(input, &make_hashset(&["A"]));
    assert!(matches!(result, Err(ProcessorError::MismatchedIf { .. })));
}

#[test]
fn test_process_empty_input() {
    let input = "";
    let (result, used) = run_process_content(input, &make_hashset(&["A"]));
    assert!(result.unwrap().is_empty());
    assert!(used.is_empty());
}

#[test]
fn test_process_only_directives() {
    let input = "#if A\n#if B\n#endif\n#endif";
    let (result, used) = run_process_content(input, &make_hashset(&["A", "B"]));
    assert!(result.unwrap().is_empty());
    assert_eq!(used, make_hashset(&["A", "B"]));
}

#[test]
fn test_process_invalid_condition_parse() {
    let input = "line1\n#if (and foo\nline2\n#endif"; // Malformed condition
    let (result, _used) = run_process_content(input, &make_hashset(&["foo"]));
    assert!(matches!(
        result,
        Err(ProcessorError::ConditionParse { line_num: 2, .. })
    ));
    // The error carries the offending condition text
    if let Err(ProcessorError::ConditionParse { condition, .. }) = result {
        assert!(condition.contains("(and foo"));
    }
}
