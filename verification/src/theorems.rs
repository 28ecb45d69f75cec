//! What holds of the engine for every file and every set of flags: blocks
//! that are properly nested balance, inline directives leave the nesting
//! alone, content in a block that is off never counts, the used flags only
//! grow, and a file without directives comes back as it is.

use crate::condition::ConditionView;
use crate::diagnostics::{line_flags, scan_spec};
use crate::flags::{add_all, lemma_add_all, lemma_add_all_twice};
use crate::parser::{classify, first_occurrence, is_close_line, marker, LineView};
use crate::processor::{
    active, initial, lemma_run_next, lemma_run_stays_stopped, process_spec, run, EngineState,
    ErrorView, Progress,
};
use vstd::prelude::*;

verus! {

/// How a line changes the number of open blocks: a block directive opens
/// one, a close marker closes one, and every other line leaves it as it is.
pub open spec fn nesting_change(line: Seq<char>) -> int {
    match classify(line) {
        Ok(LineView::If(_)) => 1,
        Ok(LineView::Endif) => -1,
        _ => 0,
    }
}

/// The number of blocks that `lines` open, less the number they close.
pub open spec fn depth(lines: Seq<Seq<char>>) -> int
    decreases lines.len(),
{
    if lines.len() == 0 {
        0
    } else {
        depth(lines.drop_last()) + nesting_change(lines.last())
    }
}

/// Whether no close marker of `lines` stands where no block is open.
pub open spec fn never_negative(lines: Seq<Seq<char>>) -> bool {
    forall|k: int| 0 <= k <= lines.len() ==> depth(#[trigger] lines.take(k)) >= 0
}

/// Whether the blocks of `lines` are properly nested: every close marker
/// closes an open block, and no block is open at the end.
pub open spec fn properly_nested(lines: Seq<Seq<char>>) -> bool {
    depth(lines) == 0 && never_negative(lines)
}

/// Whether no line of `lines` opens or closes a block.
pub open spec fn no_blocks(lines: Seq<Seq<char>>) -> bool {
    forall|i: int| 0 <= i < lines.len() ==> nesting_change(#[trigger] lines[i]) == 0
}

/// Whether `line` carries no directive: it is no close marker, and the
/// directive marker stands nowhere on it.
pub open spec fn is_plain(line: Seq<char>) -> bool {
    !is_close_line(line) && first_occurrence(line, marker()) is None
}

/// Whether no line of `lines` carries a directive.
pub open spec fn all_plain(lines: Seq<Seq<char>>) -> bool {
    forall|i: int| 0 <= i < lines.len() ==> is_plain(#[trigger] lines[i])
}

/// Whether every entry of `stack` from position `from` on is `false`.
pub open spec fn inactive_from(stack: Seq<bool>, from: int) -> bool {
    forall|i: int| 0 <= i && from <= i < stack.len() ==> !#[trigger] stack[i]
}

/// Whether the block that line `open_at` opens is still open when line `at`
/// is reached.
pub open spec fn open_through(lines: Seq<Seq<char>>, open_at: int, at: int) -> bool {
    forall|k: int|
        open_at < k <= at ==> depth(#[trigger] lines.take(k)) > depth(lines.take(open_at))
}

/// The flags recorded as used when the engine got as far as `p`.
pub open spec fn used_after(p: Progress) -> Seq<Seq<char>> {
    match p {
        Progress::Running(st) => st.used,
        Progress::Stopped { used, .. } => used,
    }
}

/// The condition that line `i` has the engine evaluate: that of a directive
/// that is reached in an active region.
pub open spec fn evaluated_condition(
    lines: Seq<Seq<char>>,
    flags: Set<Seq<char>>,
    start: EngineState,
    i: int,
) -> Option<ConditionView> {
    match run(lines.take(i), flags, start) {
        Progress::Running(st) => if active(st.stack) {
            match classify(lines[i]) {
                Ok(LineView::If(cond)) => Some(cond),
                Ok(LineView::Inline(_, cond)) => Some(cond),
                _ => None,
            }
        } else {
            None
        },
        Progress::Stopped { .. } => None,
    }
}

/// One more line changes the depth by what the line opens or closes.
proof fn lemma_depth_next(lines: Seq<Seq<char>>, k: int)
    requires
        0 <= k < lines.len(),
    ensures
        depth(lines.take(k + 1)) == depth(lines.take(k)) + nesting_change(lines[k]),
{
    assert(lines.take(k + 1).drop_last() =~= lines.take(k));
}

/// While the engine runs, its stack holds one entry more than there are open
/// blocks: it is never empty.
pub proof fn lemma_stack_follows_depth(
    lines: Seq<Seq<char>>,
    flags: Set<Seq<char>>,
    start: EngineState,
    k: int,
)
    requires
        start.stack.len() >= 1,
        0 <= k <= lines.len(),
    ensures
        run(lines.take(k), flags, start) matches Progress::Running(st) ==> st.stack.len()
            == start.stack.len() + depth(lines.take(k)) && st.stack.len() >= 1,
    decreases k,
{
    if k > 0 {
        lemma_stack_follows_depth(lines, flags, start, k - 1);
        lemma_run_next(lines, flags, start, k - 1);
        lemma_depth_next(lines, k - 1);
    }
}

/// With blocks that never close more than was opened, no close marker stops
/// the engine.
proof fn lemma_no_mismatched_close(
    lines: Seq<Seq<char>>,
    flags: Set<Seq<char>>,
    start: EngineState,
    k: int,
)
    requires
        start.stack.len() == 1,
        never_negative(lines),
        0 <= k <= lines.len(),
    ensures
        run(lines.take(k), flags, start) matches Progress::Stopped { cause, .. }
            ==> cause is Malformed,
    decreases k,
{
    if k > 0 {
        // A close marker at line `k` leaves a depth that is not negative, so
        // that a block was open before it.
        lemma_no_mismatched_close(lines, flags, start, k - 1);
        lemma_stack_follows_depth(lines, flags, start, k - 1);
        lemma_run_next(lines, flags, start, k - 1);
        lemma_depth_next(lines, k - 1);
    }
}

/// Stack balance: a file whose blocks are properly nested is processed
/// without a mismatched close marker and without a block left open, whatever
/// the flags.
pub proof fn lemma_nested_blocks_balance(
    lines: Seq<Seq<char>>,
    path: Seq<char>,
    flags: Set<Seq<char>>,
    used: Seq<Seq<char>>,
)
    requires
        properly_nested(lines),
    ensures
        !(process_spec(lines, path, flags, used).0 matches Err(e) && e is MismatchedEndif),
        !(process_spec(lines, path, flags, used).0 matches Err(e) && e is MismatchedIf),
{
    let n = lines.len() as int;
    assert(lines.take(n) =~= lines);
    lemma_no_mismatched_close(lines, flags, initial(used), n);
    lemma_stack_follows_depth(lines, flags, initial(used), n);
}

/// The converse for files that the engine accepts: where `process_spec`
/// yields lines, the blocks of the file are properly nested.
pub proof fn lemma_accepted_is_nested(
    lines: Seq<Seq<char>>,
    path: Seq<char>,
    flags: Set<Seq<char>>,
    used: Seq<Seq<char>>,
)
    requires
        process_spec(lines, path, flags, used).0 is Ok,
    ensures
        properly_nested(lines),
{
    let n = lines.len() as int;
    let start = initial(used);
    assert(lines.take(n) =~= lines);
    lemma_stack_follows_depth(lines, flags, start, n);
    assert forall|k: int| 0 <= k <= lines.len() implies depth(#[trigger] lines.take(k)) >= 0 by {
        if run(lines.take(k), flags, start) is Stopped {
            lemma_run_stays_stopped(lines, flags, start, k);
        }
        lemma_stack_follows_depth(lines, flags, start, k);
    }
}

/// Lines that neither open nor close a block leave the stack as it is.
proof fn lemma_no_blocks_keep_stack(
    lines: Seq<Seq<char>>,
    flags: Set<Seq<char>>,
    start: EngineState,
    k: int,
)
    requires
        no_blocks(lines),
        0 <= k <= lines.len(),
    ensures
        run(lines.take(k), flags, start) matches Progress::Running(st) ==> st.stack == start.stack,
        run(lines.take(k), flags, start) matches Progress::Stopped { cause, .. }
            ==> cause is Malformed,
    decreases k,
{
    if k > 0 {
        lemma_no_blocks_keep_stack(lines, flags, start, k - 1);
        lemma_run_next(lines, flags, start, k - 1);
    }
}

/// Inline directives never affect nesting: in a file in which no line opens
/// or closes a block, the stack holds its single entry after every line, and
/// the processing fails neither with a mismatched close marker nor with a
/// block left open.
pub proof fn lemma_inline_keeps_depth(
    lines: Seq<Seq<char>>,
    path: Seq<char>,
    flags: Set<Seq<char>>,
    used: Seq<Seq<char>>,
    k: int,
)
    requires
        no_blocks(lines),
        0 <= k <= lines.len(),
    ensures
        run(lines.take(k), flags, initial(used)) matches Progress::Running(st) ==> st.stack
            == seq![true],
        !(process_spec(lines, path, flags, used).0 matches Err(e) && e is MismatchedEndif),
        !(process_spec(lines, path, flags, used).0 matches Err(e) && e is MismatchedIf),
{
    let n = lines.len() as int;
    assert(lines.take(n) =~= lines);
    lemma_no_blocks_keep_stack(lines, flags, initial(used), k);
    lemma_no_blocks_keep_stack(lines, flags, initial(used), n);
}

/// Lines without directives in an active region are all kept.
proof fn lemma_plain_lines_are_kept(
    lines: Seq<Seq<char>>,
    flags: Set<Seq<char>>,
    start: EngineState,
    k: int,
)
    requires
        all_plain(lines),
        active(start.stack),
        0 <= k <= lines.len(),
    ensures
        run(lines.take(k), flags, start) == Progress::Running(
            EngineState {
                stack: start.stack,
                output: start.output + lines.take(k),
                used: start.used,
            },
        ),
    decreases k,
{
    if k > 0 {
        lemma_plain_lines_are_kept(lines, flags, start, k - 1);
        lemma_run_next(lines, flags, start, k - 1);
        assert((start.output + lines.take(k - 1)).push(lines[k - 1]) =~= start.output + lines.take(
            k,
        ));
    }
}

/// Round trip: a file without directives comes out as it went in, line for
/// line, and no flag is recorded.
pub proof fn lemma_plain_file_round_trip(
    lines: Seq<Seq<char>>,
    path: Seq<char>,
    flags: Set<Seq<char>>,
    used: Seq<Seq<char>>,
)
    requires
        all_plain(lines),
    ensures
        process_spec(lines, path, flags, used) == (Ok::<Seq<Seq<char>>, ErrorView>(lines), used),
{
    let n = lines.len() as int;
    assert(lines.take(n) =~= lines);
    lemma_plain_lines_are_kept(lines, flags, initial(used), n);
}

/// The recorded flags only grow, and in order: what was recorded when the
/// engine started is the beginning of what is recorded wherever it gets.
proof fn lemma_used_grows(
    lines: Seq<Seq<char>>,
    flags: Set<Seq<char>>,
    start: EngineState,
    from: int,
    to: int,
)
    requires
        0 <= from <= to <= lines.len(),
    ensures
        used_after(run(lines.take(from), flags, start)).len() <= used_after(
            run(lines.take(to), flags, start),
        ).len(),
        used_after(run(lines.take(to), flags, start)).take(
            used_after(run(lines.take(from), flags, start)).len() as int,
        ) == used_after(run(lines.take(from), flags, start)),
    decreases to - from,
{
    if from < to {
        lemma_used_grows(lines, flags, start, from, to - 1);
        lemma_run_next(lines, flags, start, to - 1);
        // The last line adds the flags of its condition, if it adds any.
        if let Progress::Running(st) = run(lines.take(to - 1), flags, start) {
            lemma_add_all(st.used, line_flags(lines[to - 1]));
        }
    }
}

/// Monotonic used flags: whatever the file and however its processing ends,
/// every flag that was recorded before is recorded after, in its old place.
/// A set of used flags that is handed from one file to the next never
/// shrinks.
pub proof fn lemma_used_flags_monotonic(
    lines: Seq<Seq<char>>,
    path: Seq<char>,
    flags: Set<Seq<char>>,
    used: Seq<Seq<char>>,
)
    ensures
        used.len() <= process_spec(lines, path, flags, used).1.len(),
        process_spec(lines, path, flags, used).1.take(used.len() as int) == used,
        used.to_set().subset_of(process_spec(lines, path, flags, used).1.to_set()),
{
    let n = lines.len() as int;
    assert(lines.take(n) =~= lines);
    lemma_used_grows(lines, flags, initial(used), 0, n);
}

/// Every flag that an evaluated condition mentions is recorded as used.
pub proof fn lemma_evaluated_flags_are_used(
    lines: Seq<Seq<char>>,
    path: Seq<char>,
    flags: Set<Seq<char>>,
    used: Seq<Seq<char>>,
    i: int,
)
    requires
        0 <= i < lines.len(),
        evaluated_condition(lines, flags, initial(used), i) is Some,
    ensures
        evaluated_condition(lines, flags, initial(used), i)->Some_0.mentioned().to_set().subset_of(
            process_spec(lines, path, flags, used).1.to_set(),
        ),
{
    let n = lines.len() as int;
    let start = initial(used);
    let cond = evaluated_condition(lines, flags, start, i)->Some_0;
    let after = process_spec(lines, path, flags, used).1;
    // The flags are recorded when line `i` is taken, and what is recorded
    // then is the beginning of what is recorded at the end.
    let st = run(lines.take(i), flags, start)->Running_0;
    let next = used_after(run(lines.take(i + 1), flags, start));
    assert(lines.take(n) =~= lines);
    lemma_run_next(lines, flags, start, i);
    lemma_add_all(st.used, cond.mentioned());
    lemma_used_grows(lines, flags, start, i + 1, n);
    assert forall|f: Seq<char>| cond.mentioned().to_set().contains(f) implies after.to_set().contains(
        f,
    ) by {
        assert(next.to_set().contains(f));
        let j = choose|j: int| 0 <= j < next.len() && next[j] == f;
        assert(after.take(next.len() as int)[j] == after[j]);
    }
}

/// Inside a block whose condition does not hold, every region is inactive
/// for as long as the block is open.
proof fn lemma_false_block_is_inactive(
    lines: Seq<Seq<char>>,
    flags: Set<Seq<char>>,
    start: EngineState,
    open_at: int,
    k: int,
)
    requires
        start.stack.len() >= 1,
        0 <= open_at < k <= lines.len(),
        classify(lines[open_at]) matches Ok(LineView::If(cond)) && !cond.holds(flags),
        open_through(lines, open_at, k),
    ensures
        run(lines.take(k), flags, start) matches Progress::Running(st) ==> !active(st.stack),
        run(lines.take(k), flags, start) matches Progress::Running(st) ==> inactive_from(
            st.stack,
            start.stack.len() + depth(lines.take(open_at)),
        ),
    decreases k,
{
    // The stack stays higher than it was before the block opened. One line
    // pushes an entry, pops one, or leaves the stack alone: what it leaves
    // above that height was `false` before, and what it pushes there is
    // `false`, be it for the condition that does not hold or for the region
    // that is inactive.
    lemma_run_next(lines, flags, start, k - 1);
    lemma_stack_follows_depth(lines, flags, start, k - 1);
    lemma_stack_follows_depth(lines, flags, start, k);
    if k - 1 > open_at {
        lemma_false_block_is_inactive(lines, flags, start, open_at, k - 1);
    }
}

/// Disabled content: a content line inside a block whose condition does not
/// hold leaves the engine in the state in which it found it, whatever the
/// text of the line. Nothing of it reaches the output.
pub proof fn lemma_content_in_false_block_is_dropped(
    lines: Seq<Seq<char>>,
    flags: Set<Seq<char>>,
    used: Seq<Seq<char>>,
    open_at: int,
    at: int,
)
    requires
        0 <= open_at < at < lines.len(),
        classify(lines[open_at]) matches Ok(LineView::If(cond)) && !cond.holds(flags),
        open_through(lines, open_at, at),
        classify(lines[at]) matches Ok(LineView::Content(_)),
    ensures
        run(lines.take(at + 1), flags, initial(used)) == run(lines.take(at), flags, initial(used)),
{
    lemma_false_block_is_inactive(lines, flags, initial(used), open_at, at);
    lemma_run_next(lines, flags, initial(used), at);
}

/// Two files that differ in one line only, on which the engine ends up the
/// same, are processed alike from there on.
proof fn lemma_same_from(
    lines: Seq<Seq<char>>,
    others: Seq<Seq<char>>,
    flags: Set<Seq<char>>,
    start: EngineState,
    at: int,
    k: int,
)
    requires
        0 <= at < k <= lines.len(),
        lines.len() == others.len(),
        forall|i: int| 0 <= i < lines.len() && i != at ==> lines[i] == others[i],
        run(lines.take(at + 1), flags, start) == run(others.take(at + 1), flags, start),
    ensures
        run(lines.take(k), flags, start) == run(others.take(k), flags, start),
    decreases k,
{
    if k > at + 1 {
        lemma_same_from(lines, others, flags, start, at, k - 1);
        lemma_run_next(lines, flags, start, k - 1);
        lemma_run_next(others, flags, start, k - 1);
    }
}

/// Disabled content, regardless of its own text: where a content line
/// stands inside a block whose condition does not hold, any other content
/// line in its place yields the same lines, the same error and the same used
/// flags.
pub proof fn lemma_disabled_content_is_irrelevant(
    lines: Seq<Seq<char>>,
    path: Seq<char>,
    flags: Set<Seq<char>>,
    used: Seq<Seq<char>>,
    open_at: int,
    at: int,
    other: Seq<char>,
)
    requires
        0 <= open_at < at < lines.len(),
        classify(lines[open_at]) matches Ok(LineView::If(cond)) && !cond.holds(flags),
        open_through(lines, open_at, at),
        classify(lines[at]) matches Ok(LineView::Content(_)),
        classify(other) matches Ok(LineView::Content(_)),
    ensures
        process_spec(lines.update(at, other), path, flags, used) == process_spec(
            lines,
            path,
            flags,
            used,
        ),
{
    let others = lines.update(at, other);
    let start = initial(used);
    let n = lines.len() as int;
    assert forall|k: int| 0 <= k <= at implies #[trigger] others.take(k) == lines.take(k) by {
        assert(others.take(k) =~= lines.take(k));
    }
    lemma_content_in_false_block_is_dropped(lines, flags, used, open_at, at);
    lemma_content_in_false_block_is_dropped(others, flags, used, open_at, at);
    lemma_same_from(lines, others, flags, start, at, n);
    assert(lines.take(n) =~= lines);
    assert(others.take(n) =~= others);
}

/// The output only grows, and in order: the lines kept when the engine has
/// taken some lines are the first of the lines kept when it has taken more.
pub proof fn lemma_output_grows(
    lines: Seq<Seq<char>>,
    flags: Set<Seq<char>>,
    start: EngineState,
    from: int,
    to: int,
)
    requires
        0 <= from <= to <= lines.len(),
        run(lines.take(to), flags, start) is Running,
    ensures
        run(lines.take(from), flags, start) is Running,
        run(lines.take(from), flags, start)->Running_0.output.len() <= run(
            lines.take(to),
            flags,
            start,
        )->Running_0.output.len(),
        run(lines.take(to), flags, start)->Running_0.output.take(
            run(lines.take(from), flags, start)->Running_0.output.len() as int,
        ) == run(lines.take(from), flags, start)->Running_0.output,
    decreases to - from,
{
    if from < to {
        lemma_run_next(lines, flags, start, to - 1);
        lemma_output_grows(lines, flags, start, from, to - 1);
    }
}

/// Used flags across files: where the flags recorded for one file are handed
/// on to the next, each file's flags stay recorded after the other.
pub proof fn lemma_used_flags_accumulate(
    first: Seq<Seq<char>>,
    first_path: Seq<char>,
    second: Seq<Seq<char>>,
    second_path: Seq<char>,
    flags: Set<Seq<char>>,
    used: Seq<Seq<char>>,
)
    ensures
        ({
            let after_first = process_spec(first, first_path, flags, used).1;
            let after_second = process_spec(second, second_path, flags, after_first).1;
            &&& used.to_set().subset_of(after_first.to_set())
            &&& after_first.to_set().subset_of(after_second.to_set())
        }),
{
    lemma_used_flags_monotonic(first, first_path, flags, used);
    lemma_used_flags_monotonic(
        second,
        second_path,
        flags,
        process_spec(first, first_path, flags, used).1,
    );
}

/// A scan sees every flag that a run can come to use: the flags recorded
/// for a file are among those recorded before and those that the directives
/// of the file mention.
proof fn lemma_used_within_scanned(
    lines: Seq<Seq<char>>,
    flags: Set<Seq<char>>,
    start: EngineState,
    seen: Seq<Seq<char>>,
    k: int,
)
    requires
        0 <= k <= lines.len(),
    ensures
        used_after(run(lines.take(k), flags, start)).to_set().subset_of(
            start.used.to_set().union(scan_spec(lines.take(k), seen).to_set()),
        ),
        seen.to_set().subset_of(scan_spec(lines.take(k), seen).to_set()),
    decreases k,
{
    if k > 0 {
        // Where the engine records the flags of a line, the scan adds them
        // too.
        lemma_used_within_scanned(lines, flags, start, seen, k - 1);
        lemma_run_next(lines, flags, start, k - 1);
        assert(lines.take(k).drop_last() =~= lines.take(k - 1));
        lemma_add_all(scan_spec(lines.take(k - 1), seen), line_flags(lines[k - 1]));
        if let Progress::Running(st) = run(lines.take(k - 1), flags, start) {
            lemma_add_all(st.used, line_flags(lines[k - 1]));
        }
    }
}

/// A scan sees every flag that a run can come to use: after a file was
/// processed, each used flag was used before or is mentioned by a directive
/// of the file, and so is found by a scan of it.
pub proof fn lemma_used_flags_are_scanned(
    lines: Seq<Seq<char>>,
    path: Seq<char>,
    flags: Set<Seq<char>>,
    used: Seq<Seq<char>>,
    seen: Seq<Seq<char>>,
)
    ensures
        process_spec(lines, path, flags, used).1.to_set().subset_of(
            used.to_set().union(scan_spec(lines, seen).to_set()),
        ),
{
    let n = lines.len() as int;
    assert(lines.take(n) =~= lines);
    lemma_used_within_scanned(lines, flags, initial(used), seen, n);
}

/// Whether the engine got as far from the state `initial(used)` as it got
/// from the state `initial(Seq::empty())`, with the same stack and output or
/// the same failure, and with the flags that it recorded added to `used`.
pub open spec fn same_but_for_used(with: Progress, without: Progress, used: Seq<Seq<char>>) -> bool {
    match (with, without) {
        (Progress::Running(a), Progress::Running(b)) => {
            &&& a.stack == b.stack
            &&& a.output == b.output
            &&& a.used == add_all(used, b.used)
        },
        (
            Progress::Stopped { line_num: line_a, used: used_a, cause: cause_a },
            Progress::Stopped { line_num: line_b, used: used_b, cause: cause_b },
        ) => {
            &&& line_a == line_b
            &&& cause_a == cause_b
            &&& used_a == add_all(used, used_b)
        },
        _ => false,
    }
}

/// The flags recorded before a file have no part in what the engine does
/// with the file.
proof fn lemma_run_apart(
    lines: Seq<Seq<char>>,
    flags: Set<Seq<char>>,
    used: Seq<Seq<char>>,
    k: int,
)
    requires
        0 <= k <= lines.len(),
    ensures
        same_but_for_used(
            run(lines.take(k), flags, initial(used)),
            run(lines.take(k), flags, initial(Seq::empty())),
            used,
        ),
    decreases k,
{
    if k > 0 {
        lemma_run_apart(lines, flags, used, k - 1);
        lemma_run_next(lines, flags, initial(used), k - 1);
        lemma_run_next(lines, flags, initial(Seq::empty()), k - 1);
        if let Progress::Running(st) = run(lines.take(k - 1), flags, initial(Seq::empty())) {
            lemma_add_all_twice(used, st.used, line_flags(lines[k - 1]));
        }
    }
}

/// Used flags of files processed apart: a file yields the same lines or the
/// same error whatever was recorded before it, and the flags recorded after
/// it are those recorded before with those that the file records by itself
/// added to them. Files can be processed each with a set of its own, in any
/// order, and the sets merged.
pub proof fn lemma_used_flags_merge(
    lines: Seq<Seq<char>>,
    path: Seq<char>,
    flags: Set<Seq<char>>,
    used: Seq<Seq<char>>,
)
    ensures
        process_spec(lines, path, flags, used).0 == process_spec(
            lines,
            path,
            flags,
            Seq::empty(),
        ).0,
        process_spec(lines, path, flags, used).1 == add_all(
            used,
            process_spec(lines, path, flags, Seq::empty()).1,
        ),
{
    let n = lines.len() as int;
    assert(lines.take(n) =~= lines);
    lemma_run_apart(lines, flags, used, n);
}

} // verus!
