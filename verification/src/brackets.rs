//! The nesting structure of the loop instructions in a program: how deep each position
//! lies, which opening instruction belongs to which closing one, and that in a
//! well-nested program this pairing exists and is unique.

use vstd::prelude::*;
use crate::instruction::Instruction;

verus! {

/// By how much `instruction` changes the nesting depth.
pub open spec fn delta(instruction: Instruction) -> int {
    if instruction.opens() {
        1
    } else if instruction.closes() {
        -1
    } else {
        0
    }
}

/// The number of loops opened minus the number closed among the first `n` instructions.
pub open spec fn depth(code: Seq<Instruction>, n: int) -> int
    decreases n,
{
    if n <= 0 {
        0
    } else {
        depth(code, n - 1) + delta(code[n - 1])
    }
}

/// No prefix of `code` closes more loops than it has opened.
pub open spec fn never_negative(code: Seq<Instruction>) -> bool {
    forall|n: int| 0 <= n <= code.len() ==> depth(code, n) >= 0
}

/// Every loop that `code` closes was opened before, and every loop it opens is closed.
pub open spec fn well_nested(code: Seq<Instruction>) -> bool {
    never_negative(code) && depth(code, code.len() as int) == 0
}

/// The instruction at `close` closes the loop that the instruction at `open` opens:
/// right after `close` the depth is back, for the first time, at what it was before
/// `open`.
pub open spec fn matched(code: Seq<Instruction>, open: int, close: int) -> bool {
    &&& 0 <= open < close < code.len()
    &&& code[open].opens()
    &&& code[close].closes()
    &&& depth(code, close + 1) == depth(code, open)
    &&& forall|k: int| open < k <= close ==> depth(code, k) > depth(code, open)
}

/// Two programs whose first `n` instructions change the depth alike have the same depth
/// at `n`.
pub proof fn lemma_depth_agrees(a: Seq<Instruction>, b: Seq<Instruction>, n: int)
    requires
        0 <= n <= a.len(),
        n <= b.len(),
        forall|i: int| 0 <= i < n ==> delta(a[i]) == delta(b[i]),
    ensures
        depth(a, n) == depth(b, n),
    decreases n,
{
    if n > 0 {
        lemma_depth_agrees(a, b, n - 1);
    }
}

/// Two programs whose first `upto` instructions change the depth alike have the same
/// depth everywhere up to `upto`.
pub proof fn lemma_depth_prefix(a: Seq<Instruction>, b: Seq<Instruction>, upto: int)
    requires
        0 <= upto <= a.len(),
        upto <= b.len(),
        forall|i: int| 0 <= i < upto ==> delta(a[i]) == delta(b[i]),
    ensures
        forall|n: int| 0 <= n <= upto ==> depth(a, n) == depth(b, n),
{
    assert forall|n: int| 0 <= n <= upto implies depth(a, n) == depth(b, n) by {
        lemma_depth_agrees(a, b, n);
    }
}

/// Two programs whose instructions up to `close` change the depth alike agree on
/// whether `open` and `close` are matched.
pub proof fn lemma_matched_agrees(a: Seq<Instruction>, b: Seq<Instruction>, open: int, close: int)
    requires
        0 <= close < a.len(),
        close < b.len(),
        forall|i: int| 0 <= i <= close ==> delta(a[i]) == delta(b[i]),
    ensures
        matched(a, open, close) == matched(b, open, close),
{
    lemma_depth_prefix(a, b, close + 1);
}

/// An opening instruction has at most one closing instruction matched to it.
pub proof fn lemma_close_unique(code: Seq<Instruction>, open: int, first: int, second: int)
    requires
        matched(code, open, first),
        matched(code, open, second),
    ensures
        first == second,
{
    if first < second {
        assert(depth(code, first + 1) > depth(code, open));
    } else if second < first {
        assert(depth(code, second + 1) > depth(code, open));
    }
}

/// A closing instruction has at most one opening instruction matched to it.
pub proof fn lemma_open_unique(code: Seq<Instruction>, first: int, second: int, close: int)
    requires
        matched(code, first, close),
        matched(code, second, close),
    ensures
        first == second,
{
    if first < second {
        assert(depth(code, second) > depth(code, first));
    } else if second < first {
        assert(depth(code, first) > depth(code, second));
    }
}

/// In a well-nested program every opening instruction has a matching closing one.
pub proof fn lemma_close_exists(code: Seq<Instruction>, open: int) -> (close: int)
    requires
        well_nested(code),
        0 <= open < code.len(),
        code[open].opens(),
    ensures
        matched(code, open, close),
{
    assert(depth(code, open) >= 0);
    assert(depth(code, open + 1) == depth(code, open) + 1);
    search_close(code, open, open + 1)
}

proof fn search_close(code: Seq<Instruction>, open: int, from: int) -> (close: int)
    requires
        0 <= open < from <= code.len(),
        code[open].opens(),
        depth(code, code.len() as int) <= depth(code, open),
        forall|k: int| open < k <= from ==> depth(code, k) > depth(code, open),
    ensures
        matched(code, open, close),
    decreases code.len() - from,
{
    assert(depth(code, from) > depth(code, open));
    assert(from < code.len());
    assert(depth(code, from + 1) == depth(code, from) + delta(code[from]));
    if depth(code, from + 1) > depth(code, open) {
        search_close(code, open, from + 1)
    } else {
        from
    }
}

/// In a program in which no prefix closes more than it opened, every closing
/// instruction has a matching opening one.
pub proof fn lemma_open_exists(code: Seq<Instruction>, close: int) -> (open: int)
    requires
        never_negative(code),
        0 <= close < code.len(),
        code[close].closes(),
    ensures
        matched(code, open, close),
{
    assert(depth(code, close + 1) == depth(code, close) - 1);
    assert(depth(code, close + 1) >= 0);
    assert(depth(code, 0) == 0);
    search_open(code, close, close - 1)
}

proof fn search_open(code: Seq<Instruction>, close: int, from: int) -> (open: int)
    requires
        0 <= from < close < code.len(),
        code[close].closes(),
        depth(code, close + 1) >= 0,
        forall|k: int| from < k <= close ==> #[trigger] depth(code, k) > depth(code, close + 1),
    ensures
        matched(code, open, close),
    decreases from,
{
    assert(depth(code, from + 1) == depth(code, from) + delta(code[from]));
    assert(depth(code, 0) == 0);
    if depth(code, from) > depth(code, close + 1) {
        search_open(code, close, from - 1)
    } else {
        from
    }
}

} // verus!
