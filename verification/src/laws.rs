//! What holds of the compiler and the machine beyond the contract of any one function.

use vstd::prelude::*;
use crate::brackets::{
    delta, depth, lemma_close_exists, lemma_close_unique, lemma_depth_agrees,
    lemma_matched_agrees, lemma_open_exists, lemma_open_unique, matched, well_nested,
};
use crate::compiler::{
    compile_spec, leading, lemma_leading_bounded, repeats, resolved, run_instruction, scan,
    CompileError,
};
use crate::instruction::Instruction;
use crate::machine::{
    apply, lemma_run_halted, report, run_spec, step_spec, wrap, Progress, RuntimeError, State,
};

verus! {

/// `count` copies of the character `c`.
pub open spec fn uniform(c: char, count: nat) -> Seq<char> {
    Seq::new(count, |i: int| c)
}

/// A text made of copies of `c` alone begins with as many copies of `c` as it is long.
pub proof fn lemma_leading_uniform(c: char, count: nat)
    ensures
        leading(uniform(c, count), c) == count,
    decreases count,
{
    if count > 0 {
        assert(uniform(c, count).drop_first() =~= uniform(c, (count - 1) as nat));
        lemma_leading_uniform(c, (count - 1) as nat);
    }
}

/// A run of a repeatable operator, taken by itself, stands for exactly one
/// instruction, which carries the length of the run.
pub proof fn lemma_scan_uniform(c: char, count: nat)
    requires
        repeats(c),
        1 <= count,
    ensures
        scan(uniform(c, count)) == seq![run_instruction(c, count as usize)],
{
    let text = uniform(c, count);
    let rest = text.drop_first();
    assert(rest =~= uniform(c, (count - 1) as nat));
    lemma_leading_uniform(c, (count - 1) as nat);
    assert(leading(rest, c) == count - 1);
    assert(rest.skip(count - 1) =~= Seq::<char>::empty());
    assert(scan(rest.skip(count - 1)) =~= Seq::<Instruction>::empty());
    assert(scan(text) =~= seq![run_instruction(c, count as usize)]);
}

/// A source that is one run of a repeatable operator compiles to exactly one
/// instruction, which carries the length of the run.
pub proof fn lemma_run_compiles_to_one(c: char, count: nat)
    requires
        repeats(c),
        1 <= count,
    ensures
        compile_spec(uniform(c, count)) == Ok::<Seq<Instruction>, CompileError>(
            seq![run_instruction(c, count as usize)],
        ),
{
    lemma_scan_uniform(c, count);
    let skeleton = seq![run_instruction(c, count as usize)];
    assert(depth(skeleton, 0) == 0);
    assert(depth(skeleton, 1) == 0);
    assert(resolved(skeleton) =~= skeleton);
}

/// The first `leading(text, c)` characters of `text` are copies of `c`.
pub proof fn lemma_leading_are_copies(text: Seq<char>, c: char, i: int)
    requires
        0 <= i < leading(text, c),
    ensures
        i < text.len(),
        text[i] == c,
    decreases text.len(),
{
    if i > 0 {
        lemma_leading_are_copies(text.drop_first(), c, i - 1);
    }
}

/// Appending to a text does not change how many copies of `c` it begins with, unless
/// the text is made of copies of `c` alone and what is appended begins with one more.
pub proof fn lemma_leading_append(text: Seq<char>, more: Seq<char>, c: char)
    requires
        leading(text, c) < text.len() || more.len() == 0 || more[0] != c,
    ensures
        leading(text + more, c) == leading(text, c),
    decreases text.len(),
{
    if text.len() == 0 {
        assert(text + more =~= more);
    } else {
        assert((text + more).drop_first() =~= text.drop_first() + more);
        if text[0] == c {
            lemma_leading_append(text.drop_first(), more, c);
        }
    }
}

/// Whether the place where `left` ends and `right` begins lies inside a run: both
/// sides of it show the same repeatable operator.
pub open spec fn splits_run(left: Seq<char>, right: Seq<char>) -> bool {
    left.len() > 0 && right.len() > 0 && repeats(left.last()) && left.last() == right[0]
}

/// Two texts put together stand for the instructions of the first followed by those of
/// the second, provided that the seam does not cut a run in two.
pub proof fn lemma_scan_concat(left: Seq<char>, right: Seq<char>)
    requires
        !splits_run(left, right),
    ensures
        scan(left + right) == scan(left) + scan(right),
    decreases left.len(),
{
    let whole = left + right;
    if left.len() == 0 {
        assert(whole =~= right);
        assert(scan(left) + scan(right) =~= scan(right));
    } else {
        let c = left[0];
        let rest = left.drop_first();
        assert(whole.drop_first() =~= rest + right);
        if repeats(c) {
            let further = leading(rest, c);
            lemma_leading_bounded(rest, c);
            if further == rest.len() && right.len() > 0 {
                if rest.len() > 0 {
                    lemma_leading_are_copies(rest, c, rest.len() - 1);
                }
                assert(left.last() == c);
            }
            lemma_leading_append(rest, right, c);
            let tail = rest.skip(further as int);
            assert((rest + right).skip(further as int) =~= tail + right);
            if tail.len() > 0 {
                assert(tail.last() == left.last());
            }
            lemma_scan_concat(tail, right);
            let head = seq![run_instruction(c, (1 + further) as usize)];
            assert(head + (scan(tail) + scan(right)) =~= (head + scan(tail)) + scan(right));
        } else {
            if rest.len() > 0 {
                assert(rest.last() == left.last());
            }
            lemma_scan_concat(rest, right);
            if c == '[' {
                let head = seq![Instruction::JumpIfZero(0)];
                assert(head + (scan(rest) + scan(right)) =~= (head + scan(rest)) + scan(right));
            } else if c == ']' {
                let head = seq![Instruction::JumpIfNonZero(0)];
                assert(head + (scan(rest) + scan(right)) =~= (head + scan(rest)) + scan(right));
            }
        }
    }
}

/// Wherever a run of `count` copies of a repeatable operator stands in a source, with
/// no further copy right before or right behind it, it gives exactly one instruction,
/// which carries `count`, between the instructions of what stands before it and of what
/// stands behind.
pub proof fn lemma_run_within(before: Seq<char>, c: char, count: nat, after: Seq<char>)
    requires
        repeats(c),
        1 <= count,
        before.len() == 0 || before.last() != c,
        after.len() == 0 || after[0] != c,
    ensures
        scan(before + uniform(c, count) + after) == scan(before) + seq![
            run_instruction(c, count as usize),
        ] + scan(after),
{
    let run = uniform(c, count);
    assert(run.last() == c && run[0] == c);
    assert(before + run + after =~= before + (run + after));
    assert((run + after)[0] == c);
    lemma_scan_concat(before, run + after);
    lemma_scan_concat(run, after);
    lemma_scan_uniform(c, count);
    assert(scan(before) + (scan(run) + scan(after)) =~= scan(before) + scan(run) + scan(after));
}

/// Whether `c` is a character that the compiler acts on.
pub open spec fn operator(c: char) -> bool {
    repeats(c) || c == '[' || c == ']'
}

/// A text gives at most one instruction per character.
pub proof fn lemma_scan_bounded(text: Seq<char>)
    ensures
        scan(text).len() <= text.len(),
    decreases text.len(),
{
    if text.len() > 0 {
        let c = text[0];
        let rest = text.drop_first();
        if repeats(c) {
            lemma_leading_bounded(rest, c);
            lemma_scan_bounded(rest.skip(leading(rest, c) as int));
        } else {
            lemma_scan_bounded(rest);
        }
    }
}

/// Whether `instruction` could stand in a compiled program of `length` instructions
/// for a source of `characters` characters: a run is at least one and at most
/// `characters` long, a jump stays within the program or leaves it by one, and input
/// is never asked for.
pub open spec fn fits(instruction: Instruction, characters: nat, length: nat) -> bool {
    match instruction {
        Instruction::Increment(n)
        | Instruction::Decrement(n)
        | Instruction::MoveLeft(n)
        | Instruction::MoveRight(n)
        | Instruction::WriteOutput(n) => 1 <= n <= characters,
        Instruction::ReadInput => false,
        Instruction::JumpIfZero(target) | Instruction::JumpIfNonZero(target) => 1 <= target
            <= length,
    }
}

/// Every instruction that a text stands for is a jump, or carries a run length of at
/// least one and at most the length of the text; none asks for input.
pub proof fn lemma_scan_operands(text: Seq<char>, i: int)
    requires
        text.len() <= usize::MAX,
        0 <= i < scan(text).len(),
    ensures
        scan(text)[i].opens() || scan(text)[i].closes() || fits(scan(text)[i], text.len(), 0),
    decreases text.len(),
{
    let c = text[0];
    let rest = text.drop_first();
    if repeats(c) {
        let further = leading(rest, c);
        lemma_leading_bounded(rest, c);
        if i > 0 {
            lemma_scan_operands(rest.skip(further as int), i - 1);
        }
    } else if c == '[' || c == ']' {
        if i > 0 {
            lemma_scan_operands(rest, i - 1);
        }
    } else {
        lemma_scan_operands(rest, i);
    }
}

/// In every program that compiles, each instruction fits: run lengths are positive,
/// jump targets lie between one and the length of the program, and no instruction
/// asks for input.
pub proof fn lemma_compiled_fits(text: Seq<char>, code: Seq<Instruction>)
    requires
        text.len() <= usize::MAX,
        compile_spec(text) == Ok::<Seq<Instruction>, CompileError>(code),
    ensures
        code.len() <= text.len(),
        forall|i: int| 0 <= i < code.len() ==> fits(#[trigger] code[i], text.len(), code.len()),
{
    lemma_scan_bounded(text);
    lemma_pairing_exact(text, code);
    assert forall|i: int| 0 <= i < code.len() implies fits(
        #[trigger] code[i],
        text.len(),
        code.len(),
    ) by {
        lemma_scan_operands(text, i);
        if code[i].opens() {
            let close = lemma_close_exists(code, i);
        } else if code[i].closes() {
            let open = lemma_open_exists(code, i);
        }
    }
}

/// In every program that compiles, the loop jumps pair up exactly. The nesting is
/// sound; every opening jump has one closing jump matched to it and every closing jump
/// one opening jump; and matched jumps name each other: the opening jump continues
/// just behind the closing one, the closing jump just behind the opening one.
pub proof fn lemma_pairing_exact(text: Seq<char>, code: Seq<Instruction>)
    requires
        text.len() <= usize::MAX,
        compile_spec(text) == Ok::<Seq<Instruction>, CompileError>(code),
    ensures
        well_nested(code),
        forall|open: int|
            0 <= open < code.len() && (#[trigger] code[open]).opens() ==> exists|close: int|
                matched(code, open, close),
        forall|close: int|
            0 <= close < code.len() && (#[trigger] code[close]).closes() ==> exists|open: int|
                matched(code, open, close),
        forall|open: int, first: int, second: int|
            #[trigger] matched(code, open, first) && #[trigger] matched(code, open, second)
                ==> first == second,
        forall|first: int, second: int, close: int|
            #[trigger] matched(code, first, close) && #[trigger] matched(code, second, close)
                ==> first == second,
        forall|open: int, close: int| #[trigger]
            matched(code, open, close) ==> code[open] == Instruction::JumpIfZero(
                (close + 1) as usize,
            ) && code[close] == Instruction::JumpIfNonZero((open + 1) as usize),
{
    let skeleton = scan(text);
    lemma_scan_bounded(text);
    assert(code == resolved(skeleton));
    assert forall|i: int| 0 <= i < code.len() implies delta(code[i]) == delta(skeleton[i]) by {}
    assert forall|n: int| 0 <= n <= code.len() implies depth(code, n) == depth(skeleton, n) by {
        lemma_depth_agrees(code, skeleton, n);
    }
    assert forall|open: int, close: int| matched(code, open, close) == matched(
        skeleton,
        open,
        close,
    ) by {
        if 0 <= close < code.len() {
            lemma_matched_agrees(code, skeleton, open, close);
        }
    }
    assert forall|open: int|
        0 <= open < code.len() && (#[trigger] code[open]).opens() implies exists|close: int|
        matched(code, open, close) by {
        let close = lemma_close_exists(code, open);
    }
    assert forall|close: int|
        0 <= close < code.len() && (#[trigger] code[close]).closes() implies exists|open: int|
        matched(code, open, close) by {
        let open = lemma_open_exists(code, close);
    }
    assert forall|open: int, first: int, second: int|
        #[trigger] matched(code, open, first) && #[trigger] matched(
            code,
            open,
            second,
        ) implies first == second by {
        lemma_close_unique(code, open, first, second);
    }
    assert forall|first: int, second: int, close: int|
        #[trigger] matched(code, first, close) && #[trigger] matched(
            code,
            second,
            close,
        ) implies first == second by {
        lemma_open_unique(code, first, second, close);
    }
    assert forall|open: int, close: int| #[trigger] matched(code, open, close) implies code[open]
        == Instruction::JumpIfZero((close + 1) as usize) && code[close]
        == Instruction::JumpIfNonZero((open + 1) as usize) by {
        let chosen_close = choose|other: int| matched(skeleton, open, other);
        lemma_close_unique(skeleton, open, close, chosen_close);
        let chosen_open = choose|other: int| matched(skeleton, other, close);
        lemma_open_unique(skeleton, open, chosen_open, close);
    }
}

/// An opening jump that finds its cell zero continues just behind its closing jump.
/// That is where a jump to the closing instruction itself would arrive one step later:
/// a closing jump on a zero cell only moves on by one.
pub proof fn lemma_exit_is_behind_close(code: Seq<Instruction>, s: State, close: int)
    requires
        0 <= close < code.len(),
        code[close].closes(),
        s.cell() == 0,
    ensures
        step_spec(code, State { counter: close, ..s }) == Ok::<State, RuntimeError>(
            State { counter: close + 1, ..s },
        ),
{
}

/// A source without any operator compiles to the empty program, and the empty
/// program halts at once, in the initial state and so without output, whatever the
/// budget.
pub proof fn lemma_commentary_does_nothing(text: Seq<char>, budget: nat)
    requires
        forall|i: int| 0 <= i < text.len() ==> !operator(text[i]),
    ensures
        compile_spec(text) == Ok::<Seq<Instruction>, CompileError>(Seq::empty()),
        run_spec(Seq::empty(), State::initial(), budget) == (
            State::initial(),
            None::<RuntimeError>,
        ),
        report(Seq::empty(), run_spec(Seq::empty(), State::initial(), budget)) == Ok::<
            Progress,
            RuntimeError,
        >(Progress::Halted),
{
    lemma_scan_commentary(text);
    let skeleton = scan(text);
    assert(depth(skeleton, 0) == 0);
    assert(resolved(skeleton) =~= Seq::<Instruction>::empty());
    lemma_run_halted(Seq::empty(), State::initial(), budget);
}

/// A text without any operator stands for no instruction.
pub proof fn lemma_scan_commentary(text: Seq<char>)
    requires
        forall|i: int| 0 <= i < text.len() ==> !operator(text[i]),
    ensures
        scan(text) == Seq::<Instruction>::empty(),
    decreases text.len(),
{
    if text.len() > 0 {
        assert(!operator(text[0]));
        let rest = text.drop_first();
        assert forall|i: int| 0 <= i < rest.len() implies !operator(rest[i]) by {
            assert(rest[i] == text[i + 1]);
        }
        lemma_scan_commentary(rest);
    }
}

/// What applying `instruction` `times` times in a row leads to from state `s`.
pub open spec fn apply_times(instruction: Instruction, s: State, times: nat) -> Result<
    State,
    RuntimeError,
>
    decreases times,
{
    if times == 0 {
        Ok(s)
    } else {
        match apply(instruction, s) {
            Ok(next) => apply_times(instruction, next, (times - 1) as nat),
            Err(e) => Err(e),
        }
    }
}

/// Two outcomes that an observer of tape, data pointer and output cannot tell apart:
/// the same error, or states that differ in the program counter at most.
pub open spec fn same_effect(
    a: Result<State, RuntimeError>,
    b: Result<State, RuntimeError>,
) -> bool {
    match (a, b) {
        (Ok(s), Ok(t)) => s.tape == t.tape && s.pointer == t.pointer && s.output == t.output,
        (Err(e), Err(f)) => e == f,
        _ => false,
    }
}

/// Wrapping in between changes nothing: only the sum is wrapped.
pub proof fn lemma_wrap_absorbs(value: int, change: int)
    ensures
        wrap(wrap(value) + change) == wrap(value + change),
{
    assert((value % 256 + change) % 256 == (value + change) % 256) by {
        vstd::arithmetic::div_mod::lemma_add_mod_noop(value, change, 256);
        vstd::arithmetic::div_mod::lemma_add_mod_noop(value % 256, change, 256);
        vstd::arithmetic::div_mod::lemma_mod_twice(value, 256);
    }
}

/// A run of `count` copies does what one copy and then a run of `count - 1` copies do.
proof fn lemma_run_splits(c: char, count: usize, s: State)
    requires
        repeats(c),
        s.wf(),
        count >= 1,
    ensures
        match apply(run_instruction(c, 1), s) {
            Ok(next) => next.wf() && same_effect(
                apply(run_instruction(c, count), s),
                apply(run_instruction(c, (count - 1) as usize), next),
            ),
            Err(e) => apply(run_instruction(c, count), s) == Err::<State, RuntimeError>(e),
        },
{
    let fewer = (count - 1) as usize;
    let cell = s.cell() as int;
    if c == '+' {
        let next = s.store(wrap(cell + 1));
        lemma_wrap_absorbs(cell + 1, fewer as int);
        assert(next.cell() == wrap(cell + 1));
        assert(next.store(wrap(next.cell() + fewer)).tape =~= s.store(wrap(cell + count)).tape);
    } else if c == '-' {
        let next = s.store(wrap(cell - 1));
        lemma_wrap_absorbs(cell - 1, -(fewer as int));
        assert(next.cell() == wrap(cell - 1));
        assert(next.store(wrap(next.cell() - fewer)).tape =~= s.store(wrap(cell - count)).tape);
    } else if c == '<' {
    } else if c == '>' {
    } else {
        let next = s.emit(1);
        assert(next.cell() == s.cell());
        assert(next.emit(fewer as nat).output =~= s.emit(count as nat).output);
    }
}

/// Collapsing a run loses nothing: the one instruction for a run of `count` copies of
/// an operator has the effect of `count` instructions for a single copy, executed one
/// after the other.
pub proof fn lemma_decompaction(c: char, count: usize, s: State)
    requires
        repeats(c),
        s.wf(),
    ensures
        same_effect(
            apply(run_instruction(c, count), s),
            apply_times(run_instruction(c, 1), s, count as nat),
        ),
    decreases count,
{
    if count == 0 {
        let whole = apply(run_instruction(c, count), s);
        assert(whole is Ok);
        assert(whole->Ok_0.tape =~= s.tape);
        assert(whole->Ok_0.output =~= s.output);
    } else {
        lemma_run_splits(c, count, s);
        if let Ok(next) = apply(run_instruction(c, 1), s) {
            lemma_decompaction(c, (count - 1) as usize, next);
        }
    }
}

/// The program made of `count` instructions for a single copy of the operator `c`.
pub open spec fn decompacted(c: char, count: nat) -> Seq<Instruction> {
    Seq::new(count, |i: int| run_instruction(c, 1))
}

/// Running the last `left` instructions of a decompacted program is applying the
/// single-copy instruction `left` times; where that fails, nothing was emitted on the
/// way.
proof fn lemma_decompacted_run(c: char, total: nat, s: State, left: nat)
    requires
        repeats(c),
        s.wf(),
        left <= total,
        s.counter == total - left,
    ensures
        match apply_times(run_instruction(c, 1), s, left) {
            Ok(end) => run_spec(decompacted(c, total), s, left) == (end, None::<RuntimeError>)
                && end.counter == total,
            Err(e) => {
                &&& run_spec(decompacted(c, total), s, left).1 == Some(e)
                &&& run_spec(decompacted(c, total), s, left).0.output == s.output
                &&& c == '<' || c == '>'
            },
        },
    decreases left,
{
    if left > 0 {
        let program = decompacted(c, total);
        assert(program[s.counter] == run_instruction(c, 1));
        assert(step_spec(program, s) == apply(run_instruction(c, 1), s));
        if let Ok(next) = apply(run_instruction(c, 1), s) {
            lemma_decompacted_run(c, total, next, (left - 1) as nat);
        }
    }
}

/// Collapsing a run loses nothing under execution. From any state at the start of the
/// program, the one-instruction program for a run of `count` copies of an operator and
/// the program of `count` single-copy instructions end alike: with the same error and
/// the same output, or both halted with the same tape, data pointer and output.
pub proof fn lemma_decompacted_program(c: char, count: usize, s: State)
    requires
        repeats(c),
        s.wf(),
        s.counter == 0,
    ensures
        ({
            let compacted = seq![run_instruction(c, count)];
            let single = decompacted(c, count as nat);
            let a = run_spec(compacted, s, 1);
            let b = run_spec(single, s, count as nat);
            &&& a.1 == b.1
            &&& a.0.output == b.0.output
            &&& a.1 is None ==> {
                &&& a.0.tape == b.0.tape
                &&& a.0.pointer == b.0.pointer
                &&& a.0.halted(compacted)
                &&& b.0.halted(single)
            }
        }),
{
    let compacted = seq![run_instruction(c, count)];
    lemma_decompaction(c, count, s);
    lemma_decompacted_run(c, count as nat, s, count as nat);
    assert(step_spec(compacted, s) == apply(run_instruction(c, count), s));
    if let Ok(end) = apply(run_instruction(c, count), s) {
        assert(run_spec(compacted, end, 0) == (end, None::<RuntimeError>));
    }
}

} // verus!
