//! The compiler: from source text to instructions, in a single pass.
//!
//! What a source compiles to is stated in two layers. `scan` reads the characters and
//! yields the instructions in order, runs of one operator collapsed and jump targets
//! left at zero. `resolved` then gives every jump the target that the nesting of the
//! loops determines. `compile` is proved to compute exactly that.

use vstd::prelude::*;
use crate::brackets::{
    delta, depth, lemma_close_exists, lemma_depth_agrees, lemma_depth_prefix, lemma_matched_agrees,
    lemma_open_exists, lemma_open_unique, matched, never_negative,
};
use crate::instruction::Instruction;
use crate::scanner::Scanner;

verus! {

/// Why a source text does not compile.
#[derive(Clone, Copy, Debug, PartialEq, Eq, Structural)]
pub enum CompileError {
    /// A `]` closes a loop that no `[` has opened.
    BracketMismatch,
    /// A `[` opens a loop that no `]` closes.
    UnmatchedOpen,
}

impl CompileError {
    /// A short description of the error, for a person to read.
    pub fn message(&self) -> (text: &'static str)
        ensures
            text@ == match *self {
                CompileError::BracketMismatch => "Loop mismatch"@,
                CompileError::UnmatchedOpen => "Loop never closed"@,
            },
    {
        match self {
            CompileError::BracketMismatch => "Loop mismatch",
            CompileError::UnmatchedOpen => "Loop never closed",
        }
    }
}

/// Whether `c` is one of the operators of which a run becomes a single instruction.
pub open spec fn repeats(c: char) -> bool {
    c == '+' || c == '-' || c == '<' || c == '>' || c == '.'
}

/// The instruction for a run of `count` copies of the operator `c`.
pub open spec fn run_instruction(c: char, count: usize) -> Instruction
    recommends
        repeats(c),
{
    if c == '+' {
        Instruction::Increment(count)
    } else if c == '-' {
        Instruction::Decrement(count)
    } else if c == '<' {
        Instruction::MoveLeft(count)
    } else if c == '>' {
        Instruction::MoveRight(count)
    } else {
        Instruction::WriteOutput(count)
    }
}

/// The number of copies of `c` that `text` begins with.
pub open spec fn leading(text: Seq<char>, c: char) -> nat
    decreases text.len(),
{
    if text.len() > 0 && text[0] == c {
        1 + leading(text.drop_first(), c)
    } else {
        0
    }
}

/// `text` cannot begin with more copies of `c` than it has characters.
pub proof fn lemma_leading_bounded(text: Seq<char>, c: char)
    ensures
        leading(text, c) <= text.len(),
    decreases text.len(),
{
    if text.len() > 0 && text[0] == c {
        lemma_leading_bounded(text.drop_first(), c);
    }
}

/// The instructions that `text` stands for, in order, with every jump target still
/// zero: a run of a repeatable operator gives one instruction that carries the run's
/// length, a bracket gives a jump, and any other character gives nothing.
pub open spec fn scan(text: Seq<char>) -> Seq<Instruction>
    decreases text.len(),
    via scan_decreases
{
    if text.len() == 0 {
        Seq::empty()
    } else {
        let c = text[0];
        let rest = text.drop_first();
        if repeats(c) {
            let further = leading(rest, c);
            seq![run_instruction(c, (1 + further) as usize)] + scan(rest.skip(further as int))
        } else if c == '[' {
            seq![Instruction::JumpIfZero(0)] + scan(rest)
        } else if c == ']' {
            seq![Instruction::JumpIfNonZero(0)] + scan(rest)
        } else {
            scan(rest)
        }
    }
}

#[via_fn]
proof fn scan_decreases(text: Seq<char>) {
    if text.len() > 0 {
        lemma_leading_bounded(text.drop_first(), text[0]);
    }
}

/// `skeleton` with every jump given its target: an opening instruction continues
/// behind the closing instruction matched to it, and a closing instruction behind the
/// opening one.
pub open spec fn resolved(skeleton: Seq<Instruction>) -> Seq<Instruction> {
    Seq::new(
        skeleton.len(),
        |i: int|
            match skeleton[i] {
                Instruction::JumpIfZero(_) => Instruction::JumpIfZero(
                    ((choose|close: int| matched(skeleton, i, close)) + 1) as usize,
                ),
                Instruction::JumpIfNonZero(_) => Instruction::JumpIfNonZero(
                    ((choose|open: int| matched(skeleton, open, i)) + 1) as usize,
                ),
                other => other,
            },
    )
}

/// What `text` compiles to. A closing bracket without an opening one before it is a
/// `BracketMismatch`; failing that, an opening bracket left unclosed is an
/// `UnmatchedOpen`.
pub open spec fn compile_spec(text: Seq<char>) -> Result<Seq<Instruction>, CompileError> {
    let skeleton = scan(text);
    if !never_negative(skeleton) {
        Err(CompileError::BracketMismatch)
    } else if depth(skeleton, skeleton.len() as int) != 0 {
        Err(CompileError::UnmatchedOpen)
    } else {
        Ok(resolved(skeleton))
    }
}

/// Counts the run of `c` whose first character has just been consumed: consumes the
/// copies of `c` that follow at once, and returns their number plus one.
///
/// The count has to fit in a machine word, hence the bound on what is left to read; it
/// holds whenever a character has been consumed before.
pub fn compact(c: char, chars: &mut Scanner) -> (count: usize)
    requires
        old(chars).remaining().len() < usize::MAX,
    ensures
        count == 1 + leading(old(chars).remaining(), c),
        final(chars).remaining() == old(chars).remaining().skip(
            leading(old(chars).remaining(), c) as int,
        ),
{
    let mut count: usize = 1;
    let ghost start = chars.remaining();
    assert(start.skip(0) =~= start);
    loop
        invariant_except_break
            count - 1 + chars.remaining().len() == start.len(),
            leading(start, c) == (count - 1) + leading(chars.remaining(), c),
        invariant
            1 <= count,
            start.len() < usize::MAX,
            chars.remaining() == start.skip(count - 1),
        ensures
            count == 1 + leading(start, c),
        decreases chars.remaining().len(),
    {
        match chars.peek() {
            Some(next) => {
                if next != c {
                    break ;
                }
            },
            None => {
                break ;
            },
        }
        let ghost before = chars.remaining();
        chars.next();
        count = count + 1;
        assert(before.drop_first() =~= start.skip(count - 1));
    }
    count
}

/// Compiles `source` to instructions, in one pass from left to right.
///
/// A run of `+`, `-`, `<`, `>` or `.` becomes one instruction that carries the length
/// of the run. `[` and `]` become jumps that name each other's position plus one. All
/// other characters are skipped. A `]` that closes nothing fails with
/// `BracketMismatch` where it stands; a `[` still open at the end fails with
/// `UnmatchedOpen`.
pub fn compile(source: &str) -> (result: Result<Vec<Instruction>, CompileError>)
    ensures
        match result {
            Ok(code) => compile_spec(source@) == Ok::<Seq<Instruction>, CompileError>(code@),
            Err(e) => compile_spec(source@) == Err::<Seq<Instruction>, CompileError>(e),
        },
{
    let mut code: Vec<Instruction> = Vec::new();
    let mut stack: Vec<usize> = Vec::new();
    let mut chars = Scanner::new(source);
    proof {
        assert(placeholders(code@) + scan(chars.remaining()) =~= scan(source@));
        assert(depth(code@, 0) == 0);
    }
    loop
        invariant_except_break
            scan(source@) == placeholders(code@) + scan(chars.remaining()),
            partial(code@, stack@),
        ensures
            scan(source@) == placeholders(code@),
            partial(code@, stack@),
        decreases chars.remaining().len(),
    {
        let ghost before = chars.remaining();
        let ghost emitted = code@;
        let c = match chars.next() {
            Some(c) => c,
            None => {
                assert(placeholders(code@) + Seq::<Instruction>::empty() =~= placeholders(code@));
                break ;
            },
        };
        let ghost rest = before.drop_first();
        if c == '+' || c == '-' || c == '<' || c == '>' || c == '.' {
            let count = compact(c, &mut chars);
            let instruction = if c == '+' {
                Instruction::Increment(count)
            } else if c == '-' {
                Instruction::Decrement(count)
            } else if c == '<' {
                Instruction::MoveLeft(count)
            } else if c == '>' {
                Instruction::MoveRight(count)
            } else {
                Instruction::WriteOutput(count)
            };
            code.push(instruction);
            proof {
                lemma_leading_bounded(rest, c);
                lemma_push_plain(emitted, stack@, instruction);
                lemma_placeholders_push(emitted, instruction);
                assert(placeholders(emitted) + (seq![instruction] + scan(chars.remaining()))
                    =~= placeholders(emitted).push(instruction) + scan(chars.remaining()));
            }
        } else if c == '[' {
            let ghost pending_before = stack@;
            stack.push(code.len());
            code.push(Instruction::JumpIfZero(0));
            proof {
                lemma_push_open(emitted, pending_before, Instruction::JumpIfZero(0));
                lemma_placeholders_push(emitted, Instruction::JumpIfZero(0));
                assert(placeholders(emitted) + (seq![Instruction::JumpIfZero(0)] + scan(rest))
                    =~= placeholders(emitted).push(Instruction::JumpIfZero(0)) + scan(rest));
            }
        } else if c == ']' {
            let ghost pending_before = stack@;
            let index = match stack.pop() {
                Some(index) => index,
                None => {
                    proof {
                        lemma_close_without_open(emitted, scan(rest));
                    }
                    return Err(CompileError::BracketMismatch);
                },
            };
            assert(pending(emitted, index as int, stack@.len() as int));
            assert(index < code.len());
            code.push(Instruction::JumpIfNonZero(index + 1));
            let exit = code.len();
            code[index] = Instruction::JumpIfZero(exit);
            proof {
                lemma_push_close(emitted, pending_before);
                lemma_placeholders_close(emitted, index as int);
                assert(placeholders(emitted) + (seq![Instruction::JumpIfNonZero(0)] + scan(rest))
                    =~= placeholders(emitted).push(Instruction::JumpIfNonZero(0)) + scan(rest));
            }
        }
    }
    if stack.len() > 0 {
        proof {
            lemma_left_open(code@, stack@);
        }
        Err(CompileError::UnmatchedOpen)
    } else {
        proof {
            assert(code@.len() == code.len());
            lemma_complete(code@);
        }
        Ok(code)
    }
}

/// `code` with every jump target set to zero.
spec fn placeholders(code: Seq<Instruction>) -> Seq<Instruction> {
    Seq::new(code.len(), |i: int| code[i].placeholder())
}

/// The opening instruction at `open` waits at nesting level `level` for its closing
/// instruction: nothing behind it in `code` has come back to that level.
spec fn pending(code: Seq<Instruction>, open: int, level: int) -> bool {
    &&& 0 <= open < code.len()
    &&& code[open].opens()
    &&& depth(code, open) == level
    &&& forall|k: int| open < k <= code.len() ==> #[trigger] depth(code, k) > level
}

/// The two jumps at `open` and `close` carry each other's position plus one.
spec fn linked(code: Seq<Instruction>, open: int, close: int) -> bool {
    &&& code[open] == Instruction::JumpIfZero((close + 1) as usize)
    &&& code[close] == Instruction::JumpIfNonZero((open + 1) as usize)
}

/// What holds of the instructions emitted so far and the stack of loop starts: no
/// prefix closes more than it opened, the stack lists the loops still open from the
/// outermost in, and every pair of matched jumps is linked.
spec fn partial(code: Seq<Instruction>, stack: Seq<usize>) -> bool {
    &&& never_negative(code)
    &&& depth(code, code.len() as int) == stack.len()
    &&& forall|level: int|
        0 <= level < stack.len() ==> pending(code, (#[trigger] stack[level]) as int, level)
    &&& forall|open: int, close: int| #[trigger]
        matched(code, open, close) ==> linked(code, open, close)
}

/// Emitting an instruction appends its placeholder to the placeholders.
proof fn lemma_placeholders_push(code: Seq<Instruction>, instruction: Instruction)
    ensures
        placeholders(code.push(instruction)) == placeholders(code).push(
            instruction.placeholder(),
        ),
{
    assert(placeholders(code.push(instruction)) =~= placeholders(code).push(
        instruction.placeholder(),
    ));
}

/// Closing the loop opened at `open` appends one closing placeholder and changes no
/// other: the patched opening jump keeps its kind.
proof fn lemma_placeholders_close(code: Seq<Instruction>, open: int)
    requires
        0 <= open < code.len(),
        code[open].opens(),
    ensures
        placeholders(
            code.push(Instruction::JumpIfNonZero((open + 1) as usize)).update(
                open,
                Instruction::JumpIfZero((code.len() + 1) as usize),
            ),
        ) == placeholders(code).push(Instruction::JumpIfNonZero(0)),
{
    assert(placeholders(
        code.push(Instruction::JumpIfNonZero((open + 1) as usize)).update(
            open,
            Instruction::JumpIfZero((code.len() + 1) as usize),
        ),
    ) =~= placeholders(code).push(Instruction::JumpIfNonZero(0)));
}

/// Emitting an instruction that is no jump keeps `partial`.
proof fn lemma_push_plain(code: Seq<Instruction>, stack: Seq<usize>, instruction: Instruction)
    requires
        partial(code, stack),
        !instruction.opens(),
        !instruction.closes(),
    ensures
        partial(code.push(instruction), stack),
{
    let longer = code.push(instruction);
    let len = code.len() as int;
    lemma_depth_prefix(code, longer, len);
    assert(depth(longer, len + 1) == depth(longer, len) + delta(longer[len]));
    assert forall|level: int| 0 <= level < stack.len() implies pending(
        longer,
        (#[trigger] stack[level]) as int,
        level,
    ) by {
        assert(pending(code, stack[level] as int, level));
    }
    assert forall|open: int, close: int| #[trigger] matched(longer, open, close) implies linked(
        longer,
        open,
        close,
    ) by {
        lemma_matched_agrees(code, longer, open, close);
        assert(matched(code, open, close));
    }
}

/// Emitting an opening jump and pushing its position keeps `partial`.
proof fn lemma_push_open(code: Seq<Instruction>, stack: Seq<usize>, instruction: Instruction)
    requires
        partial(code, stack),
        instruction.opens(),
        code.len() <= usize::MAX,
    ensures
        partial(code.push(instruction), stack.push(code.len() as usize)),
{
    let longer = code.push(instruction);
    let deeper = stack.push(code.len() as usize);
    let len = code.len() as int;
    lemma_depth_prefix(code, longer, len);
    assert(depth(longer, len + 1) == depth(longer, len) + delta(longer[len]));
    assert forall|level: int| 0 <= level < deeper.len() implies pending(
        longer,
        (#[trigger] deeper[level]) as int,
        level,
    ) by {
        if level < stack.len() {
            assert(pending(code, stack[level] as int, level));
        }
    }
    assert forall|open: int, close: int| #[trigger] matched(longer, open, close) implies linked(
        longer,
        open,
        close,
    ) by {
        lemma_matched_agrees(code, longer, open, close);
        assert(matched(code, open, close));
    }
}

/// Popping the innermost open loop, emitting its closing jump and patching its opening
/// jump keeps `partial`: the two are matched, and now linked.
proof fn lemma_push_close(code: Seq<Instruction>, stack: Seq<usize>)
    requires
        partial(code, stack),
        stack.len() > 0,
        code.len() < usize::MAX,
    ensures
        partial(
            code.push(Instruction::JumpIfNonZero((stack.last() + 1) as usize)).update(
                stack.last() as int,
                Instruction::JumpIfZero((code.len() + 1) as usize),
            ),
            stack.drop_last(),
        ),
{
    let len = code.len() as int;
    let top = stack.last() as int;
    let level = stack.len() - 1;
    let longer = code.push(Instruction::JumpIfNonZero((top + 1) as usize));
    let closed = longer.update(top, Instruction::JumpIfZero((len + 1) as usize));
    let shorter = stack.drop_last();
    assert(pending(code, stack[level] as int, level));
    lemma_depth_prefix(code, closed, len);
    assert(depth(closed, len + 1) == depth(closed, len) + delta(closed[len]));
    assert(matched(closed, top, len));
    assert forall|below: int| 0 <= below < shorter.len() implies pending(
        closed,
        (#[trigger] shorter[below]) as int,
        below,
    ) by {
        assert(pending(code, stack[below] as int, below));
    }
    assert forall|open: int, close: int| #[trigger] matched(closed, open, close) implies linked(
        closed,
        open,
        close,
    ) by {
        if close == len {
            lemma_open_unique(closed, open, top, len);
        } else {
            lemma_matched_agrees(code, closed, open, close);
            assert(matched(code, open, close));
            if open == top {
                assert(depth(code, close + 1) > level);
            }
        }
    }
}

/// A closing jump at depth zero takes the depth below zero, whatever follows it.
proof fn lemma_close_without_open(code: Seq<Instruction>, tail: Seq<Instruction>)
    requires
        depth(code, code.len() as int) == 0,
    ensures
        !never_negative(placeholders(code) + (seq![Instruction::JumpIfNonZero(0)] + tail)),
{
    let skeleton = placeholders(code) + (seq![Instruction::JumpIfNonZero(0)] + tail);
    let len = code.len() as int;
    lemma_depth_agrees(code, skeleton, len);
    assert(depth(skeleton, len + 1) == depth(skeleton, len) + delta(skeleton[len]));
}

/// With a loop still open at the end, the depth of the whole program is not zero.
proof fn lemma_left_open(code: Seq<Instruction>, stack: Seq<usize>)
    requires
        partial(code, stack),
        stack.len() > 0,
    ensures
        never_negative(placeholders(code)),
        depth(placeholders(code), placeholders(code).len() as int) != 0,
{
    lemma_depth_prefix(code, placeholders(code), code.len() as int);
}

/// With no loop left open, the instructions emitted are their own placeholders
/// resolved.
proof fn lemma_complete(code: Seq<Instruction>)
    requires
        partial(code, Seq::<usize>::empty()),
        code.len() <= usize::MAX,
    ensures
        never_negative(placeholders(code)),
        depth(placeholders(code), placeholders(code).len() as int) == 0,
        resolved(placeholders(code)) == code,
{
    let skeleton = placeholders(code);
    lemma_depth_prefix(code, skeleton, code.len() as int);
    assert forall|i: int| 0 <= i < code.len() implies resolved(skeleton)[i] == code[i] by {
        if code[i].opens() {
            let witness = lemma_close_exists(skeleton, i);
            let close = choose|close: int| matched(skeleton, i, close);
            lemma_matched_agrees(skeleton, code, i, close);
            assert(matched(code, i, close));
        } else if code[i].closes() {
            let witness = lemma_open_exists(skeleton, i);
            let open = choose|open: int| matched(skeleton, open, i);
            lemma_matched_agrees(skeleton, code, open, i);
            assert(matched(code, open, i));
        }
    }
    assert(resolved(skeleton) =~= code);
}

} // verus!
