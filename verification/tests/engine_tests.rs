use cond_templates::flags::FlagSet;
use cond_templates::parser::MalformedReason;
use cond_templates::processor::{process_content, process_file, FileOutput, ProcessorError};

fn set_of(items: &[&str]) -> FlagSet {
    FlagSet::from_vec(items.iter().map(|s| s.to_string()).collect())
}

fn lines_of(input: &str) -> Vec<String> {
    input.lines().map(|l| l.to_string()).collect()
}

fn process(input: &str, flags: &[&str]) -> (Result<Vec<String>, ProcessorError>, FlagSet) {
    let mut used = FlagSet::new();
    let result = process_content(&lines_of(input), "in.txt", &set_of(flags), &mut used);
    (result, used)
}

#[test]
fn inline_directive_keeps_its_content_when_it_holds() {
    let (result, used) = process("include this #if foo", &["foo"]);
    assert_eq!(result.unwrap(), vec!["include this"]);
    assert_eq!(used, set_of(&["foo"]));

    let (result, used) = process("include this #if foo", &["bar"]);
    assert!(result.unwrap().is_empty());
    assert_eq!(used, set_of(&["foo"]));
}

#[test]
fn inline_directive_keeps_leading_white_space_only() {
    let (result, _) = process("  indented \t #if (or a b)", &["b"]);
    assert_eq!(result.unwrap(), vec!["  indented"]);
}

#[test]
fn malformed_condition_is_reported_with_its_text() {
    let (result, used) = process("#if (and foo", &["foo"]);
    assert_eq!(
        result,
        Err(ProcessorError::ConditionParse {
            condition: "(and foo".to_string(),
            line_num: 1,
            path: "in.txt".to_string(),
            reason: MalformedReason::NoMatch,
        })
    );
    assert!(used.is_empty());
}

#[test]
fn each_error_carries_line_and_path() {
    let (result, _) = process("content\n#endif", &[]);
    assert_eq!(
        result,
        Err(ProcessorError::MismatchedEndif { line_num: 2, path: "in.txt".to_string() })
    );
    let (result, _) = process("#if A\ncontent", &["A"]);
    assert_eq!(result, Err(ProcessorError::MismatchedIf { path: "in.txt".to_string() }));
    let (result, _) = process("a\nb\nc #if x y\nd", &[]);
    assert_eq!(
        result,
        Err(ProcessorError::ConditionParse {
            condition: "x y".to_string(),
            line_num: 3,
            path: "in.txt".to_string(),
            reason: MalformedReason::TrailingCharacters,
        })
    );
    let (result, _) = process("a\n\n\n#if(x)", &[]);
    assert_eq!(
        result,
        Err(ProcessorError::ConditionParse {
            condition: "(x)".to_string(),
            line_num: 4,
            path: "in.txt".to_string(),
            reason: MalformedReason::MissingSeparator,
        })
    );
}

#[test]
fn the_first_failing_line_decides() {
    // The close marker on line 1 fails before the malformed line 2 is seen.
    let (result, _) = process("#endif\n#if (", &[]);
    assert!(matches!(result, Err(ProcessorError::MismatchedEndif { line_num: 1, .. })));
    // A malformed directive fails before the missing close marker is noticed.
    let (result, _) = process("#if A\n#if (", &["A"]);
    assert!(matches!(result, Err(ProcessorError::ConditionParse { line_num: 2, .. })));
}

#[test]
fn flags_recorded_before_a_failure_stay_recorded() {
    let (result, used) = process("#if A\nx #if B\n#if (or\n#if C", &["A"]);
    assert!(matches!(result, Err(ProcessorError::ConditionParse { line_num: 3, .. })));
    assert_eq!(used.to_vec(), vec!["A".to_string(), "B".to_string()]);
}

#[test]
fn properly_nested_blocks_never_mismatch() {
    let templates = [
        "",
        "#if a\n#endif",
        "#if a\n#if b\n#endif\n#endif\n#if c\n#endif",
        "x\n#if a\ny\n#if (and b c)\nz\n  #endif trailing\n#endif\nw #if d",
        "#if a\n#if a\n#if a\n#if a\n#endif\n#endif\n#endif\n#endif",
    ];
    let flag_sets: [&[&str]; 4] = [&[], &["a"], &["a", "b", "c"], &["d", "c"]];
    for template in templates {
        for flags in flag_sets {
            let (result, _) = process(template, flags);
            assert!(result.is_ok());
        }
    }
}

#[test]
fn unbalanced_blocks_always_mismatch() {
    for flags in [&[][..], &["a"][..], &["a", "b"][..]] {
        let (result, _) = process("#if a\n#endif\n#endif\n#if b", flags);
        assert!(matches!(result, Err(ProcessorError::MismatchedEndif { line_num: 3, .. })));
        let (result, _) = process("#if a\n#if b\n#endif", flags);
        assert!(matches!(result, Err(ProcessorError::MismatchedIf { .. })));
    }
}

#[test]
fn content_in_a_false_block_is_dropped_whatever_it_says() {
    for text in ["plain", "", "   ", "(and a b)", "#else", "é ü 日本", "## # i f"] {
        let template = format!("before\n#if off\n{}\n#if on\n{}\n#endif\n{}\n#endif\nafter", text, text, text);
        let (result, used) = process(&template, &["on"]);
        assert_eq!(result.unwrap(), vec!["before", "after"]);
        assert_eq!(used, set_of(&["off"]));
    }
}

#[test]
fn inactive_regions_are_checked_but_not_evaluated() {
    // Inside the false block nothing is evaluated, recorded or kept.
    let (result, used) = process("#if off\n#if inner\nx #if inline\n#endif\n#endif", &["inner", "inline"]);
    assert!(result.unwrap().is_empty());
    assert_eq!(used, set_of(&["off"]));
    // Its directives must still be well formed, and its blocks must balance.
    let (result, _) = process("#if off\n#if (and\n#endif", &[]);
    assert!(matches!(result, Err(ProcessorError::ConditionParse { line_num: 2, .. })));
    let (result, _) = process("#if off\n#if inner\n#endif", &[]);
    assert!(matches!(result, Err(ProcessorError::MismatchedIf { .. })));
}

#[test]
fn inline_directives_never_affect_nesting() {
    let template = "a #if x\nb #if (and x y)\nplain\nc #if (or y z)\nd #if nope";
    for flags in [&[][..], &["x"][..], &["x", "y"][..], &["z"][..]] {
        let (result, used) = process(template, flags);
        assert!(result.is_ok());
        assert_eq!(used, set_of(&["x", "y", "z", "nope"]));
    }
    let (result, _) = process(template, &["x", "z"]);
    assert_eq!(result.unwrap(), vec!["a", "plain", "c"]);
    // An inline directive inside a block leaves the block as it is.
    let (result, _) = process("#if x\nkept #if x\ndropped #if y\nstill\n#endif", &["x"]);
    assert_eq!(result.unwrap(), vec!["kept", "still"]);
}

#[test]
fn used_flags_only_grow_across_files() {
    let flags = set_of(&["a"]);
    let mut used = set_of(&["earlier"]);
    let first = lines_of("#if a\nx #if b\n#endif");
    let second = lines_of("#if c\n#if d\n#endif\n#endif\n#endif");
    let third = lines_of("#if a\n#if (and b e)\n#endif\n#endif");

    assert!(process_content(&first, "1", &flags, &mut used).is_ok());
    assert_eq!(used.to_vec(), vec!["earlier", "a", "b"]);
    // A failing file keeps what was recorded, and adds what it evaluated.
    assert!(process_content(&second, "2", &flags, &mut used).is_err());
    assert_eq!(used.to_vec(), vec!["earlier", "a", "b", "c"]);
    assert!(process_content(&third, "3", &flags, &mut used).is_ok());
    assert_eq!(used.to_vec(), vec!["earlier", "a", "b", "c", "e"]);

    // Merging the sets of separate runs gives the same flags.
    let mut merged = set_of(&["earlier"]);
    for (lines, path) in [(&first, "1"), (&second, "2"), (&third, "3")] {
        let mut own = FlagSet::new();
        let _ = process_content(lines, path, &flags, &mut own);
        merged.merge(&own);
    }
    assert_eq!(merged, used);
}

#[test]
fn files_without_directives_come_back_unchanged() {
    let templates = [
        "",
        "one line",
        "a\n\n  b  \n\tc\n",
        "# not a directive\n#else\n#end if\n(and a b)\n#IF x",
    ];
    for template in templates {
        for flags in [&[][..], &["a", "x"][..]] {
            let (result, used) = process(template, flags);
            assert_eq!(result.unwrap(), lines_of(template));
            assert!(used.is_empty());
        }
    }
}

#[test]
fn nested_blocks_keep_what_every_level_enables() {
    let template = "#if A\nouter\n#if B\ninner\n#endif\nouter_end\n#endif";
    let (result, _) = process(template, &["A", "B"]);
    assert_eq!(result.unwrap(), vec!["outer", "inner", "outer_end"]);
    let (result, _) = process(template, &["B"]);
    assert!(result.unwrap().is_empty());
}

#[test]
fn a_file_of_blank_lines_is_skipped() {
    let flags = set_of(&["on"]);
    let mut used = FlagSet::new();
    let lines = lines_of("#if off\ntext\n#endif\n   \n\t\n");
    assert_eq!(process_file(&lines, "f", &flags, &mut used), Ok(FileOutput::Skipped));
    assert_eq!(used, set_of(&["off"]));

    assert_eq!(process_file(&Vec::new(), "f", &flags, &mut used), Ok(FileOutput::Skipped));

    let lines = lines_of("\n#if on\n text \n#endif\n");
    assert_eq!(
        process_file(&lines, "f", &flags, &mut used),
        Ok(FileOutput::Written(vec!["".to_string(), " text ".to_string()]))
    );

    let lines = lines_of("text\n#endif");
    assert_eq!(
        process_file(&lines, "f", &flags, &mut used),
        Err(ProcessorError::MismatchedEndif { line_num: 2, path: "f".to_string() })
    );
}
