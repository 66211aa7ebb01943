//! A compiler and interpreter for a minimal eight-instruction language that
//! operates on a fixed array of byte cells through a movable cursor.
//!
//! Source text is parsed into a sequence of [`Instruction`]s with fully
//! resolved branch targets, optionally shortened by a peephole optimiser, and
//! then either interpreted or translated into x86-64 machine code.
//!
//! The central guarantees are proved here: a successful parse yields a
//! [`well_formed`] program (`parser`), optimisation keeps programs
//! well-formed and never makes them longer (`optimiser`), an optimised
//! program is observationally equivalent to the program it came from
//! (`equiv`), and the emitted machine code is byte-for-byte the sequence the
//! translation specification lays out (`jit`).

use vstd::prelude::*;

pub mod equiv;
pub mod interpreter;
pub mod jit;
pub mod optimiser;
pub mod parser;

verus! {

/// Number of byte cells available to a running program.
pub const MEMORY_SIZE: usize = 30000;

/// Direction of a branch: `Forward` branches jump ahead when the current cell
/// is zero, `Backward` branches jump back when it is nonzero.
#[derive(Clone, Copy, Debug, PartialEq, Eq, Structural)]
pub enum Direction {
    Forward,
    Backward,
}

/// One primitive operation of the language.
///
/// `Jump.index` is always an absolute, fully resolved instruction index: a
/// `Forward` jump targets the index one past its matching `Backward` jump and
/// vice versa (see [`well_formed`]).
#[derive(Clone, Copy, Debug, PartialEq, Eq, Structural)]
pub enum Instruction {
    AddPointer(isize),
    AddData(i8),
    Input,
    Output,
    Jump { index: usize, direction: Direction },
}

/// True for a forward (opening) branch.
pub open spec fn is_open(ins: Instruction) -> bool {
    match ins {
        Instruction::Jump { direction: Direction::Forward, .. } => true,
        _ => false,
    }
}

/// True for a backward (closing) branch.
pub open spec fn is_close(ins: Instruction) -> bool {
    match ins {
        Instruction::Jump { direction: Direction::Backward, .. } => true,
        _ => false,
    }
}

/// The resolved target of a branch (meaningless for other instructions).
pub open spec fn jump_target(ins: Instruction) -> int {
    match ins {
        Instruction::Jump { index, .. } => index as int,
        _ => 0,
    }
}

/// The stack of still-unmatched forward-branch positions after scanning the
/// first `n` instructions of `p`, or `None` if some backward branch in that
/// prefix has no matching forward branch.
///
/// Only the branch directions matter here; targets are checked separately by
/// [`branch_targets_ok`].
pub open spec fn scan_stack(p: Seq<Instruction>, n: int) -> Option<Seq<int>>
    decreases n,
{
    if n <= 0 {
        Some(Seq::empty())
    } else {
        match scan_stack(p, n - 1) {
            Option::None => Option::None,
            Option::Some(st) => {
                if is_open(p[n - 1]) {
                    Some(st.push(n - 1))
                } else if is_close(p[n - 1]) {
                    if st.len() > 0 {
                        Some(st.drop_last())
                    } else {
                        Option::None
                    }
                } else {
                    Some(st)
                }
            },
        }
    }
}

/// The position of the forward branch matching the backward branch at
/// position `b` (meaningful when the scan up to `b` succeeds with a
/// non-empty stack).
pub open spec fn match_of(p: Seq<Instruction>, b: int) -> int {
    scan_stack(p, b).unwrap().last()
}

/// Every backward branch points one past its matching forward branch, and
/// that forward branch points one past the backward branch.
pub open spec fn branch_targets_ok(p: Seq<Instruction>) -> bool {
    forall|b: int|
        0 <= b < p.len() && #[trigger] is_close(p[b]) ==> {
            &&& jump_target(p[b]) == match_of(p, b) + 1
            &&& jump_target(p[match_of(p, b)]) == b + 1
        }
}

/// A structurally valid program: branches are perfectly nested, every branch
/// is matched, and all targets are resolved to the index one past the
/// matching branch.
pub open spec fn well_formed(p: Seq<Instruction>) -> bool {
    &&& scan_stack(p, p.len() as int) == Some(Seq::<int>::empty())
    &&& branch_targets_ok(p)
}

/// Scanning a prefix succeeds whenever scanning a longer prefix does.
pub proof fn lemma_scan_stack_prefix_some(p: Seq<Instruction>, i: int, n: int)
    requires
        0 <= i <= n,
        scan_stack(p, n) is Some,
    ensures
        scan_stack(p, i) is Some,
    decreases n - i,
{
    if i < n {
        lemma_scan_stack_prefix_some(p, i, n - 1);
    }
}

/// The scan depends only on the branch directions of the prefix scanned.
pub proof fn lemma_scan_stack_directions(p1: Seq<Instruction>, p2: Seq<Instruction>, n: int)
    requires
        forall|j: int|
            0 <= j < n ==> (is_open(#[trigger] p1[j]) == is_open(p2[j]) && is_close(p1[j])
                == is_close(p2[j])),
    ensures
        scan_stack(p1, n) == scan_stack(p2, n),
    decreases n,
{
    if n > 0 {
        lemma_scan_stack_directions(p1, p2, n - 1);
    }
}

/// Every entry of the scan stack is the position of a forward branch inside
/// the scanned prefix, and the entries are strictly increasing.
pub proof fn lemma_scan_stack_entries(p: Seq<Instruction>, n: int, st: Seq<int>)
    requires
        scan_stack(p, n) == Some(st),
    ensures
        forall|k: int| 0 <= k < st.len() ==> 0 <= #[trigger] st[k] < n && is_open(p[st[k]]),
        forall|k: int| 0 < k < st.len() ==> st[k - 1] < #[trigger] st[k],
    decreases n,
{
    if n > 0 {
        let prev = scan_stack(p, n - 1).unwrap();
        lemma_scan_stack_entries(p, n - 1, prev);
    }
}

/// The sequence `p` extended by a backward branch matched with the still-open
/// forward branch at position `f`: the backward branch targets `f + 1`, and
/// the forward branch is patched to target the index one past the new
/// backward branch. Both the parser and the optimiser close a bracket this
/// way.
pub open spec fn close_step(p: Seq<Instruction>, f: int) -> Seq<Instruction> {
    p.push(
        Instruction::Jump { index: (f + 1) as usize, direction: Direction::Backward },
    ).update(
        f,
        Instruction::Jump { index: (p.len() + 1) as usize, direction: Direction::Forward },
    )
}

/// A forward position still unmatched after scanning `n` instructions was
/// already on the stack at every point since it was pushed.
pub proof fn lemma_scan_stack_stays(p: Seq<Instruction>, m: int, n: int, f: int)
    requires
        0 <= m <= n,
        scan_stack(p, n) is Some,
        scan_stack(p, n).unwrap().contains(f),
        f < m,
    ensures
        scan_stack(p, m) is Some,
        scan_stack(p, m).unwrap().contains(f),
    decreases n - m,
{
    if m < n {
        let st = scan_stack(p, n).unwrap();
        let prev = scan_stack(p, n - 1).unwrap();
        lemma_scan_stack_entries(p, n - 1, prev);
        if is_open(p[n - 1]) {
            assert(st == prev.push(n - 1));
            let k = choose|k: int| 0 <= k < st.len() && st[k] == f;
            assert(prev[k] == f);
            assert(prev.contains(f));
        } else if is_close(p[n - 1]) {
            assert(st == prev.drop_last());
            let k = choose|k: int| 0 <= k < st.len() && st[k] == f;
            assert(prev[k] == f);
            assert(prev.contains(f));
        } else {
            assert(st == prev);
        }
        lemma_scan_stack_stays(p, m, n - 1, f);
    }
}

/// In a strictly increasing sequence, earlier entries are smaller.
pub proof fn lemma_increasing_distinct(st: Seq<int>, i: int, j: int)
    requires
        forall|k: int| 0 < k < st.len() ==> st[k - 1] < #[trigger] st[k],
        0 <= i < j < st.len(),
    ensures
        st[i] < st[j],
    decreases j - i,
{
    if i + 1 < j {
        lemma_increasing_distinct(st, i + 1, j);
    }
}

/// Appending anything but a backward branch cannot break the resolved-target
/// invariant, since it matches no pair.
pub proof fn lemma_push_non_close_targets(p: Seq<Instruction>, x: Instruction)
    requires
        branch_targets_ok(p),
        scan_stack(p, p.len() as int) is Some,
        !is_close(x),
    ensures
        branch_targets_ok(p.push(x)),
{
    let q = p.push(x);
    assert forall|b: int| 0 <= b < q.len() && #[trigger] is_close(q[b]) implies {
        &&& jump_target(q[b]) == match_of(q, b) + 1
        &&& jump_target(q[match_of(q, b)]) == b + 1
    } by {
        assert(b < p.len());
        lemma_scan_stack_directions(p, q, b);
        lemma_scan_stack_prefix_some(p, b + 1, p.len() as int);
        lemma_scan_stack_prefix_some(p, b, p.len() as int);
        let st = scan_stack(p, b).unwrap();
        assert(st.len() > 0);
        lemma_scan_stack_entries(p, b, st);
        assert(0 <= match_of(p, b) < b);
        assert(q[match_of(q, b)] == p[match_of(p, b)]);
        assert(q[b] == p[b]);
    }
}

/// Replacing a trailing non-branch instruction by another non-branch
/// instruction changes neither the branch scan nor the resolved targets.
pub proof fn lemma_replace_last_non_jump(p: Seq<Instruction>, x: Instruction)
    requires
        branch_targets_ok(p),
        scan_stack(p, p.len() as int) is Some,
        p.len() > 0,
        !is_open(p.last()) && !is_close(p.last()),
        !is_open(x) && !is_close(x),
    ensures
        scan_stack(p.drop_last().push(x), p.len() as int) == scan_stack(p, p.len() as int),
        branch_targets_ok(p.drop_last().push(x)),
{
    let q = p.drop_last().push(x);
    assert(q.len() == p.len());
    assert(forall|j: int|
        0 <= j < p.len() ==> (is_open(#[trigger] q[j]) == is_open(p[j]) && is_close(q[j])
            == is_close(p[j])));
    lemma_scan_stack_directions(p, q, p.len() as int);
    assert forall|b: int| 0 <= b < q.len() && #[trigger] is_close(q[b]) implies {
        &&& jump_target(q[b]) == match_of(q, b) + 1
        &&& jump_target(q[match_of(q, b)]) == b + 1
    } by {
        assert(b < p.len() - 1);
        lemma_scan_stack_directions(p, q, b);
        lemma_scan_stack_prefix_some(p, b + 1, p.len() as int);
        lemma_scan_stack_prefix_some(p, b, p.len() as int);
        let st = scan_stack(p, b).unwrap();
        assert(st.len() > 0);
        lemma_scan_stack_entries(p, b, st);
        assert(0 <= match_of(p, b) < b);
        assert(q[match_of(q, b)] == p[match_of(p, b)]);
        assert(q[b] == p[b]);
    }
}

/// Closing the innermost open bracket with [`close_step`] pops it from the
/// branch scan and leaves every resolved target — including the fresh pair —
/// correct.
pub proof fn lemma_close_step_wf(p: Seq<Instruction>, st: Seq<int>)
    requires
        scan_stack(p, p.len() as int) == Some(st),
        branch_targets_ok(p),
        st.len() > 0,
        p.len() < usize::MAX,
    ensures
        scan_stack(close_step(p, st.last()), p.len() as int + 1) == Some(st.drop_last()),
        branch_targets_ok(close_step(p, st.last())),
{
    let f = st.last();
    let b = p.len() as int;
    let len = b;
    lemma_scan_stack_entries(p, len, st);
    assert(st[st.len() - 1] == f);
    assert(0 <= f < b && is_open(p[f]));
    let q = close_step(p, f);
    let fwd = Instruction::Jump { index: (b + 1) as usize, direction: Direction::Forward };
    assert(q.len() == b + 1);
    assert(forall|j: int|
        0 <= j < b ==> (is_open(#[trigger] q[j]) == is_open(p[j]) && is_close(q[j]) == is_close(
            p[j],
        )));
    lemma_scan_stack_directions(p, q, b);
    assert(is_close(q[b]));
    assert(scan_stack(q, b + 1) == Some(st.drop_last()));
    assert forall|b2: int| 0 <= b2 < q.len() && #[trigger] is_close(q[b2]) implies {
        &&& jump_target(q[b2]) == match_of(q, b2) + 1
        &&& jump_target(q[match_of(q, b2)]) == b2 + 1
    } by {
        if b2 == b {
            assert(match_of(q, b) == f);
            assert(jump_target(q[b]) == f + 1);
            assert(q[f] == fwd);
            assert(jump_target(q[f]) == b + 1);
        } else {
            assert(q[b2] == p[b2]);
            lemma_scan_stack_directions(p, q, b2);
            assert(match_of(q, b2) == match_of(p, b2));
            lemma_scan_stack_prefix_some(p, b2 + 1, len);
            lemma_scan_stack_prefix_some(p, b2, len);
            let stb = scan_stack(p, b2).unwrap();
            assert(stb.len() > 0);
            lemma_scan_stack_entries(p, b2, stb);
            let m = match_of(p, b2);
            assert(0 <= m < b2);
            // The matching open of an already-matched close cannot be the
            // open being patched here: that one is still unmatched.
            assert(m != f) by {
                if m == f {
                    lemma_scan_stack_stays(p, b2 + 1, len, f);
                    let stb1 = scan_stack(p, b2 + 1).unwrap();
                    assert(stb1 == stb.drop_last());
                    assert(stb1.contains(f));
                    let k = choose|k: int| 0 <= k < stb1.len() && stb1[k] == f;
                    assert(stb[k] == f);
                    assert(stb[stb.len() - 1] == f);
                    assert(k < stb.len() - 1);
                    assert(stb[k] < stb[stb.len() - 1]) by {
                        lemma_increasing_distinct(stb, k, stb.len() - 1);
                    }
                }
            }
            assert(q[m] == p[m]);
        }
    }
}

} // verus!
