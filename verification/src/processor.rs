//! The engine that filters the lines of one file.
//!
//! The lines are taken in order, one at a time. A stack of booleans follows
//! the open blocks: its bottom entry stands for the file itself and is always
//! `true`; each block directive pushes whether its block is active, each close
//! marker pops. A line is in an active region when the top of the stack is
//! `true`.
//!
//! One rule governs evaluation: every directive is checked against the
//! grammar wherever it stands, but its condition is evaluated, and the flags
//! it mentions are recorded as used, only in an active region. A block that
//! opens in an inactive region is inactive, and an inline directive there
//! keeps nothing.
//!
//! `run` states the engine as a transition system over the classified lines,
//! and `process_spec` states what a whole file yields. What follows from them
//! for every input is proved in the module `theorems`.

use crate::flags::{add_all, FlagSet};
use crate::parser::{
    classify, parse_line, LineParseResult, LineView, MalformedReason, MalformedView,
};
use crate::text::{all_space, is_blank};
use vstd::prelude::*;

verus! {

/// Why the processing of a file failed.
#[derive(Clone, Debug, PartialEq)]
pub enum ProcessorError {
    /// A close marker stands where no block is open.
    MismatchedEndif { line_num: usize, path: String },
    /// The file ends while a block is open.
    MismatchedIf { path: String },
    /// A directive does not carry a condition.
    ConditionParse { condition: String, line_num: usize, path: String, reason: MalformedReason },
}

/// What a `ProcessorError` stands for.
pub enum ErrorView {
    MismatchedEndif { line_num: nat, path: Seq<char> },
    MismatchedIf { path: Seq<char> },
    ConditionParse { condition: Seq<char>, line_num: nat, path: Seq<char>, reason: MalformedReason },
}

impl View for ProcessorError {
    type V = ErrorView;

    open spec fn view(&self) -> ErrorView {
        match self {
            ProcessorError::MismatchedEndif { line_num, path } => ErrorView::MismatchedEndif {
                line_num: *line_num as nat,
                path: path@,
            },
            ProcessorError::MismatchedIf { path } => ErrorView::MismatchedIf { path: path@ },
            ProcessorError::ConditionParse {
                condition,
                line_num,
                path,
                reason,
            } => ErrorView::ConditionParse {
                condition: condition@,
                line_num: *line_num as nat,
                path: path@,
                reason: *reason,
            },
        }
    }
}

/// The state of the engine between two lines.
pub struct EngineState {
    /// One entry for the file and one for each open block, innermost last.
    pub stack: Seq<bool>,
    /// The lines kept so far.
    pub output: Seq<Seq<char>>,
    /// The flags recorded as used so far, in the order of their recording.
    pub used: Seq<Seq<char>>,
}

/// Whether a stack stands for an active region.
pub open spec fn active(stack: Seq<bool>) -> bool {
    stack.len() > 0 && stack.last()
}

/// The state in which a file begins, with `used` already recorded.
pub open spec fn initial(used: Seq<Seq<char>>) -> EngineState {
    EngineState { stack: seq![true], output: Seq::empty(), used }
}

/// The state after one line, or `None` where the line is a close marker and
/// no block is open.
pub open spec fn step(st: EngineState, line: LineView, flags: Set<Seq<char>>) -> Option<
    EngineState,
> {
    match line {
        LineView::Endif => if st.stack.len() > 1 {
            Some(EngineState { stack: st.stack.drop_last(), output: st.output, used: st.used })
        } else {
            None
        },
        LineView::If(cond) => if active(st.stack) {
            Some(
                EngineState {
                    stack: st.stack.push(cond.holds(flags)),
                    output: st.output,
                    used: add_all(st.used, cond.mentioned()),
                },
            )
        } else {
            Some(EngineState { stack: st.stack.push(false), output: st.output, used: st.used })
        },
        LineView::Inline(content, cond) => if active(st.stack) {
            Some(
                EngineState {
                    stack: st.stack,
                    output: if cond.holds(flags) && content.len() > 0 {
                        st.output.push(content)
                    } else {
                        st.output
                    },
                    used: add_all(st.used, cond.mentioned()),
                },
            )
        } else {
            Some(st)
        },
        LineView::Content(text) => if active(st.stack) {
            Some(EngineState { stack: st.stack, output: st.output.push(text), used: st.used })
        } else {
            Some(st)
        },
    }
}

/// Why the engine stopped before the end of the file.
pub enum StopCause {
    MismatchedEndif,
    Malformed(MalformedView),
}

/// How far the engine got.
pub enum Progress {
    /// Every line was taken; the state after the last one.
    Running(EngineState),
    /// The line with the number `line_num`, counted from 1, stopped the
    /// engine; `used` holds the flags recorded before it.
    Stopped { line_num: nat, used: Seq<Seq<char>>, cause: StopCause },
}

/// The engine run over `lines` from the state `start`.
pub open spec fn run(lines: Seq<Seq<char>>, flags: Set<Seq<char>>, start: EngineState) -> Progress
    decreases lines.len(),
{
    if lines.len() == 0 {
        Progress::Running(start)
    } else {
        match run(lines.drop_last(), flags, start) {
            Progress::Stopped { line_num, used, cause } => Progress::Stopped {
                line_num,
                used,
                cause,
            },
            Progress::Running(st) => match classify(lines.last()) {
                Err(e) => Progress::Stopped {
                    line_num: lines.len(),
                    used: st.used,
                    cause: StopCause::Malformed(e),
                },
                Ok(line) => match step(st, line, flags) {
                    None => Progress::Stopped {
                        line_num: lines.len(),
                        used: st.used,
                        cause: StopCause::MismatchedEndif,
                    },
                    Some(next) => Progress::Running(next),
                },
            },
        }
    }
}

/// What the processing of a file yields: the lines kept, or the error, and
/// beside it the flags recorded as used, those of `used` first.
pub open spec fn process_spec(
    lines: Seq<Seq<char>>,
    path: Seq<char>,
    flags: Set<Seq<char>>,
    used: Seq<Seq<char>>,
) -> (Result<Seq<Seq<char>>, ErrorView>, Seq<Seq<char>>) {
    match run(lines, flags, initial(used)) {
        Progress::Running(st) => if st.stack.len() == 1 {
            (Ok(st.output), st.used)
        } else {
            (Err(ErrorView::MismatchedIf { path }), st.used)
        },
        Progress::Stopped { line_num, used, cause } => match cause {
            StopCause::MismatchedEndif => (
                Err(ErrorView::MismatchedEndif { line_num, path }),
                used,
            ),
            StopCause::Malformed(e) => (
                Err(
                    ErrorView::ConditionParse {
                        condition: e.text,
                        line_num,
                        path,
                        reason: e.reason,
                    },
                ),
                used,
            ),
        },
    }
}

/// The view of what `process_content` returns.
pub open spec fn outcome_view(r: Result<Vec<String>, ProcessorError>) -> Result<
    Seq<Seq<char>>,
    ErrorView,
> {
    match r {
        Ok(lines) => Ok(lines.deep_view()),
        Err(e) => Err(e@),
    }
}

/// One more line: the run over the first `k + 1` lines goes one step from the
/// run over the first `k`.
pub proof fn lemma_run_next(lines: Seq<Seq<char>>, flags: Set<Seq<char>>, start: EngineState, k: int)
    requires
        0 <= k < lines.len(),
    ensures
        run(lines.take(k + 1), flags, start) == match run(lines.take(k), flags, start) {
            Progress::Stopped { line_num, used, cause } => Progress::Stopped {
                line_num,
                used,
                cause,
            },
            Progress::Running(st) => match classify(lines[k]) {
                Err(e) => Progress::Stopped {
                    line_num: (k + 1) as nat,
                    used: st.used,
                    cause: StopCause::Malformed(e),
                },
                Ok(line) => match step(st, line, flags) {
                    None => Progress::Stopped {
                        line_num: (k + 1) as nat,
                        used: st.used,
                        cause: StopCause::MismatchedEndif,
                    },
                    Some(next) => Progress::Running(next),
                },
            },
        },
{
    assert(lines.take(k + 1).drop_last() =~= lines.take(k));
}

/// Once stopped, the engine stays stopped: more lines change nothing.
pub proof fn lemma_run_stays_stopped(
    lines: Seq<Seq<char>>,
    flags: Set<Seq<char>>,
    start: EngineState,
    k: int,
)
    requires
        0 <= k <= lines.len(),
        run(lines.take(k), flags, start) is Stopped,
    ensures
        run(lines, flags, start) == run(lines.take(k), flags, start),
    decreases lines.len() - k,
{
    if k == lines.len() {
        assert(lines.take(k) =~= lines);
    } else {
        lemma_run_next(lines, flags, start, k);
        lemma_run_stays_stopped(lines, flags, start, k + 1);
    }
}

/// Filters the lines of one file.
///
/// `path` names the file in errors. `used_flags` receives every flag that an
/// evaluated condition mentions; what it held before stays in it.
pub fn process_content(
    lines: &Vec<String>,
    path: &str,
    flags: &FlagSet,
    used_flags: &mut FlagSet,
) -> (r: Result<Vec<String>, ProcessorError>)
    ensures
        outcome_view(r) == process_spec(
            lines.deep_view(),
            path@,
            flags@,
            old(used_flags).entries(),
        ).0,
        final(used_flags).entries() == process_spec(
            lines.deep_view(),
            path@,
            flags@,
            old(used_flags).entries(),
        ).1,
        old(used_flags)@.subset_of(final(used_flags)@),
{
    let ghost all = lines.deep_view();
    let ghost start = initial(used_flags.entries());
    let mut output: Vec<String> = Vec::new();
    let mut stack: Vec<bool> = Vec::new();
    stack.push(true);
    let mut i: usize = 0;
    assert(output.deep_view() =~= Seq::<Seq<char>>::empty());
    while i < lines.len()
        invariant
            i <= lines.len(),
            all == lines.deep_view(),
            start == initial(old(used_flags).entries()),
            stack.len() >= 1,
            old(used_flags)@.subset_of(used_flags@),
            run(all.take(i as int), flags@, start) == Progress::Running(
                EngineState {
                    stack: stack@,
                    output: output.deep_view(),
                    used: used_flags.entries(),
                },
            ),
        decreases lines.len() - i,
    {
        let line = lines[i].as_str();
        let ghost before = output.deep_view();
        proof {
            lemma_run_next(all, flags@, start, i as int);
        }
        let top = stack[stack.len() - 1];
        match parse_line(line) {
            Err(e) => {
                proof {
                    lemma_run_stays_stopped(all, flags@, start, i + 1);
                }
                return Err(
                    ProcessorError::ConditionParse {
                        condition: e.text,
                        line_num: i + 1,
                        path: path.to_owned(),
                        reason: e.reason,
                    },
                );
            },
            Ok((_, parsed)) => match parsed {
                LineParseResult::If(cond) => {
                    if top {
                        let met = cond.evaluate(flags, used_flags);
                        stack.push(met);
                    } else {
                        stack.push(false);
                    }
                },
                LineParseResult::Inline(content, cond) => {
                    if top {
                        let met = cond.evaluate(flags, used_flags);
                        if met && !content.is_empty() {
                            output.push(content.to_owned());
                            assert(output.deep_view() =~= before.push(content@));
                        }
                    }
                },
                LineParseResult::Endif => {
                    if stack.len() > 1 {
                        stack.pop();
                    } else {
                        proof {
                            lemma_run_stays_stopped(all, flags@, start, i + 1);
                        }
                        return Err(
                            ProcessorError::MismatchedEndif {
                                line_num: i + 1,
                                path: path.to_owned(),
                            },
                        );
                    }
                },
                LineParseResult::Content(text) => {
                    if top {
                        output.push(text.to_owned());
                        assert(output.deep_view() =~= before.push(text@));
                    }
                },
            },
        }
        i += 1;
    }
    assert(all.take(i as int) =~= all);
    if stack.len() != 1 {
        Err(ProcessorError::MismatchedIf { path: path.to_owned() })
    } else {
        Ok(output)
    }
}

/// What is to be done with a processed file.
#[derive(Clone, Debug, PartialEq)]
pub enum FileOutput {
    /// Nothing but blank lines was kept: the file is not written.
    Skipped,
    /// The lines to write.
    Written(Vec<String>),
}

/// Whether every line of `lines` is blank.
pub open spec fn all_blank(lines: Seq<Seq<char>>) -> bool {
    forall|i: int| 0 <= i < lines.len() ==> is_blank(#[trigger] lines[i])
}

/// What is to be done with the lines that were kept of a file.
pub open spec fn output_spec(kept: Seq<Seq<char>>) -> Option<Seq<Seq<char>>> {
    if all_blank(kept) {
        None
    } else {
        Some(kept)
    }
}

/// The view of a `FileOutput`: the lines to write, if any.
pub open spec fn output_view(out: FileOutput) -> Option<Seq<Seq<char>>> {
    match out {
        FileOutput::Skipped => None,
        FileOutput::Written(lines) => Some(lines.deep_view()),
    }
}

/// Whether every line of `lines` is blank.
fn only_blank(lines: &Vec<String>) -> (r: bool)
    ensures
        r == all_blank(lines.deep_view()),
{
    let mut i: usize = 0;
    while i < lines.len()
        invariant
            i <= lines.len(),
            forall|j: int| 0 <= j < i ==> is_blank(#[trigger] lines.deep_view()[j]),
        decreases lines.len() - i,
    {
        if !all_space(lines[i].as_str()) {
            assert(!is_blank(lines.deep_view()[i as int]));
            return false;
        }
        i += 1;
    }
    true
}

/// Filters the lines of one file and decides whether the result is worth
/// writing: a file of which nothing but blank lines is kept is skipped.
pub fn process_file(
    lines: &Vec<String>,
    path: &str,
    flags: &FlagSet,
    used_flags: &mut FlagSet,
) -> (r: Result<FileOutput, ProcessorError>)
    ensures
        match process_spec(lines.deep_view(), path@, flags@, old(used_flags).entries()).0 {
            Ok(kept) => r matches Ok(out) && output_view(out) == output_spec(kept),
            Err(e) => r matches Err(err) && err@ == e,
        },
        final(used_flags).entries() == process_spec(
            lines.deep_view(),
            path@,
            flags@,
            old(used_flags).entries(),
        ).1,
        old(used_flags)@.subset_of(final(used_flags)@),
{
    match process_content(lines, path, flags, used_flags) {
        Err(e) => Err(e),
        Ok(kept) => if only_blank(&kept) {
            Ok(FileOutput::Skipped)
        } else {
            Ok(FileOutput::Written(kept))
        },
    }
}

} // verus!
