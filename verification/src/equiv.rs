//! Optimiser equivalence: an optimised program behaves exactly like the
//! program it came from.
//!
//! Each instruction of the optimised program stands for a run of adjacent
//! input instructions — a single instruction, or a fused run of `AddPointer`s
//! or `AddData`s. The proof builds the map from output positions to the input
//! positions where those runs start, shows the optimiser fold keeps it
//! consistent (including across branch-target re-resolution), and then plays
//! the two machines against each other: one step of the optimised program
//! against the whole corresponding run of the original.

use crate::interpreter::{
    init_state, run_n, step_spec, MachineState, StepResult,
};
use crate::optimiser::{lemma_opt_fold_inv, opt_fold, optimise_spec, OptState};
use crate::{
    branch_targets_ok, is_close, is_open, jump_target, lemma_scan_stack_directions,
    lemma_scan_stack_entries, lemma_scan_stack_prefix_some, lemma_scan_stack_stays, match_of,
    scan_stack, well_formed, Direction, Instruction,
};
use vstd::prelude::*;

verus! {

/// The wrapped sum of the `AddPointer` offsets in `p[lo..hi]`.
pub open spec fn pointer_sum(p: Seq<Instruction>, lo: int, hi: int) -> isize
    decreases hi - lo,
{
    if hi <= lo {
        0isize
    } else {
        pointer_sum(p, lo, hi - 1).wrapping_add(p[hi - 1]->AddPointer_0)
    }
}

/// The wrapped sum of the `AddData` deltas in `p[lo..hi]`.
pub open spec fn data_sum(p: Seq<Instruction>, lo: int, hi: int) -> i8
    decreases hi - lo,
{
    if hi <= lo {
        0i8
    } else {
        data_sum(p, lo, hi - 1).wrapping_add(p[hi - 1]->AddData_0)
    }
}

/// The run `p[lo..hi]` is what `ins` stands for: a run of like additive
/// instructions whose wrapped sum is the fused operand, or a single
/// instruction of the same kind. For branches only the direction is tied
/// here; targets are handled by [`close_link`].
pub open spec fn seg_matches(p: Seq<Instruction>, ins: Instruction, lo: int, hi: int) -> bool {
    match ins {
        Instruction::AddPointer(a) => (forall|m: int|
            lo <= m < hi ==> (#[trigger] p[m]) is AddPointer) && a == pointer_sum(p, lo, hi),
        Instruction::AddData(a) => (forall|m: int| lo <= m < hi ==> (#[trigger] p[m]) is AddData)
            && a == data_sum(p, lo, hi),
        Instruction::Input => hi == lo + 1 && p[lo] is Input,
        Instruction::Output => hi == lo + 1 && p[lo] is Output,
        Instruction::Jump { direction: d, .. } => hi == lo + 1 && (match p[lo] {
            Instruction::Jump { direction: d2, .. } => d2 == d,
            _ => false,
        }),
    }
}

/// True when the optimiser would fuse `ins` into the last output instruction.
pub open spec fn fuses(st: OptState, ins: Instruction) -> bool {
    ||| (ins is AddPointer && st.out.len() > 0 && st.out.last() is AddPointer)
    ||| (ins is AddData && st.out.len() > 0 && st.out.last() is AddData)
}

/// The input position where each output instruction's run starts, plus one
/// final entry holding the number of input instructions read: entry `j` is
/// where the run of output instruction `j` begins, and entry `j + 1` is
/// where it ends.
pub open spec fn opt_bounds(p: Seq<Instruction>, n: int) -> Seq<int>
    decreases n,
{
    if n <= 0 {
        seq![0]
    } else {
        let prev = opt_bounds(p, n - 1);
        if fuses(opt_fold(p, n - 1), p[n - 1]) {
            prev.update(prev.len() - 1, n)
        } else {
            prev.push(n)
        }
    }
}

/// The bracket-target link between output and input positions for one
/// matched pair: the backward branch at output position `c` lands where the
/// input backward branch lands, and likewise for the matching forward branch.
pub open spec fn close_link(
    p: Seq<Instruction>,
    out: Seq<Instruction>,
    b: Seq<int>,
    c: int,
) -> bool {
    let f = match_of(out, c);
    &&& 0 <= f < c
    &&& b[f + 1] == jump_target(p[b[c]])
    &&& b[c + 1] == jump_target(p[b[f]])
}

/// One output run is consistent with the boundary map: runs are non-empty
/// and stand for what the output instruction says.
pub open spec fn seg_ok(p: Seq<Instruction>, out: Seq<Instruction>, b: Seq<int>, j: int) -> bool {
    &&& b[j] < b[j + 1]
    &&& seg_matches(p, out[j], b[j], b[j + 1])
}

/// Everything the simulation needs of the optimiser's state after `n` input
/// instructions: the boundary map covers the output and the input prefix,
/// every run is consistent, still-open brackets pair up across the map, and
/// every matched pair's targets are linked across the map.
pub open spec fn equiv_inv(p: Seq<Instruction>, n: int) -> bool {
    let st = opt_fold(p, n);
    let b = opt_bounds(p, n);
    let in_st = scan_stack(p, n).unwrap();
    &&& b.len() == st.out.len() + 1
    &&& b[0] == 0
    &&& b[b.len() - 1] == n
    &&& forall|j: int| 0 <= j < st.out.len() ==> #[trigger] seg_ok(p, st.out, b, j)
    &&& forall|k: int| 0 <= k < st.stack.len() ==> b[#[trigger] st.stack[k]] == in_st[k]
    &&& forall|c: int|
        0 <= c < st.out.len() && is_close(#[trigger] st.out[c]) ==> close_link(p, st.out, b, c)
}

/// The match of an already-matched backward branch is never a still-pending
/// forward branch.
proof fn lemma_match_not_pending(p: Seq<Instruction>, st: Seq<int>, c: int, f: int)
    requires
        scan_stack(p, p.len() as int) == Some(st),
        st.contains(f),
        0 <= c < p.len(),
        is_close(p[c]),
    ensures
        match_of(p, c) != f,
{
    let len = p.len() as int;
    lemma_scan_stack_prefix_some(p, c + 1, len);
    lemma_scan_stack_prefix_some(p, c, len);
    let stb = scan_stack(p, c).unwrap();
    assert(stb.len() > 0);
    lemma_scan_stack_entries(p, c, stb);
    if match_of(p, c) == f {
        lemma_scan_stack_stays(p, c + 1, len, f);
        let stb1 = scan_stack(p, c + 1).unwrap();
        assert(stb1 == stb.drop_last());
        assert(stb1.contains(f));
        let k = choose|k: int| 0 <= k < stb1.len() && stb1[k] == f;
        assert(stb[k] == f);
        assert(stb[stb.len() - 1] == f);
        assert(k < stb.len() - 1);
        assert(forall|k2: int| 0 < k2 < stb.len() ==> stb[k2 - 1] < #[trigger] stb[k2]);
        crate::lemma_increasing_distinct(stb, k, stb.len() - 1);
    }
}

/// Every forward branch of a fully scanned, balanced program is the match of
/// some backward branch.
proof fn lemma_every_open_matched(q: Seq<Instruction>, f: int, m: int)
    requires
        scan_stack(q, q.len() as int) == Some(Seq::<int>::empty()),
        0 <= m <= q.len(),
        scan_stack(q, m).unwrap().contains(f),
    ensures
        exists|c: int|
            m <= c < q.len() && is_close(#[trigger] q[c]) && match_of(q, c) == f,
    decreases q.len() - m,
{
    let len = q.len() as int;
    assert(m < len) by {
        if m == len {
            assert(scan_stack(q, m).unwrap().len() == 0);
        }
    }
    lemma_scan_stack_prefix_some(q, m + 1, len);
    lemma_scan_stack_prefix_some(q, m, len);
    let cur = scan_stack(q, m).unwrap();
    let nxt = scan_stack(q, m + 1).unwrap();
    lemma_scan_stack_entries(q, m, cur);
    if nxt.contains(f) {
        lemma_every_open_matched(q, f, m + 1);
        let c = choose|c: int|
            m + 1 <= c < q.len() && is_close(#[trigger] q[c]) && match_of(q, c) == f;
        assert(m <= c < q.len() && is_close(q[c]) && match_of(q, c) == f);
    } else {
        // The step from m to m + 1 must be the backward branch that pops f.
        if is_open(q[m]) {
            assert(nxt == cur.push(m));
            let k = choose|k: int| 0 <= k < cur.len() && cur[k] == f;
            assert(nxt[k] == f);
            assert(false);
        } else if is_close(q[m]) {
            assert(nxt == cur.drop_last());
            let k = choose|k: int| 0 <= k < cur.len() && cur[k] == f;
            if k < cur.len() - 1 {
                assert(nxt[k] == f);
                assert(false);
            }
            assert(cur.last() == f);
            assert(match_of(q, m) == f);
            assert(m <= m < q.len() && is_close(q[m]) && match_of(q, m) == f);
        } else {
            assert(nxt == cur);
            assert(false);
        }
    }
}

/// The optimiser fold of a well-formed program keeps [`equiv_inv`] at every
/// step.
#[verifier::rlimit(100)]
#[verifier::spinoff_prover]
pub proof fn lemma_equiv_inv(p: Seq<Instruction>, n: int)
    requires
        well_formed(p),
        0 <= n <= p.len() <= usize::MAX,
    ensures
        equiv_inv(p, n),
    decreases n,
{
    lemma_opt_fold_inv(p, n);
    lemma_scan_stack_prefix_some(p, n, p.len() as int);
    if n == 0 {
        assert(opt_bounds(p, 0) == seq![0int]);
        assert(opt_bounds(p, 0)[0] == 0);
    } else {
        lemma_equiv_inv(p, n - 1);
        lemma_opt_fold_inv(p, n - 1);
        lemma_scan_stack_prefix_some(p, n - 1, p.len() as int);
        let prev = opt_fold(p, n - 1);
        let st = opt_fold(p, n);
        let bp = opt_bounds(p, n - 1);
        let b = opt_bounds(p, n);
        let ins = p[n - 1];
        let out = prev.out;
        let len = out.len() as int;
        let in_prev = scan_stack(p, n - 1).unwrap();
        let in_cur = scan_stack(p, n).unwrap();
        lemma_scan_stack_entries(out, len, prev.stack);
        lemma_scan_stack_entries(p, n - 1, in_prev);
        assert(bp.len() == len + 1);
        if fuses(prev, ins) {
            assert(len >= 1);
            assert(b == bp.update(len, n));
            assert(st.out.len() == len);
            assert(st.stack == prev.stack);
            assert(in_cur == in_prev);
            assert(!is_open(out[len - 1]) && !is_close(out[len - 1]));
            assert(!is_open(st.out[len - 1]) && !is_close(st.out[len - 1]));
            assert(forall|j: int|
                0 <= j < len ==> (is_open(#[trigger] out[j]) == is_open(st.out[j]) && is_close(
                    out[j],
                ) == is_close(st.out[j])));
            assert forall|j: int| 0 <= j < st.out.len() implies #[trigger] seg_ok(
                p,
                st.out,
                b,
                j,
            ) by {
                assert(seg_ok(p, out, bp, j));
                if j < len - 1 {
                    assert(st.out[j] == out[j]);
                    assert(b[j] == bp[j] && b[j + 1] == bp[j + 1]);
                } else {
                    // The run of the last output instruction grows by one.
                    let lo = bp[len - 1];
                    assert(b[len - 1] == lo && b[len] == n);
                    assert(bp[len] == n - 1);
                    if ins is AddPointer {
                        let a = out[len - 1]->AddPointer_0;
                        let v = ins->AddPointer_0;
                        assert(st.out[len - 1] == Instruction::AddPointer(a.wrapping_add(v)));
                        assert(forall|m: int|
                            lo <= m < n - 1 ==> (#[trigger] p[m]) is AddPointer);
                        assert(p[n - 1] is AddPointer);
                        assert(pointer_sum(p, lo, n) == pointer_sum(p, lo, n - 1).wrapping_add(v));
                    } else {
                        let a = out[len - 1]->AddData_0;
                        let v = ins->AddData_0;
                        assert(st.out[len - 1] == Instruction::AddData(a.wrapping_add(v)));
                        assert(forall|m: int| lo <= m < n - 1 ==> (#[trigger] p[m]) is AddData);
                        assert(p[n - 1] is AddData);
                        assert(data_sum(p, lo, n) == data_sum(p, lo, n - 1).wrapping_add(v));
                    }
                }
            }
            assert forall|k: int| 0 <= k < st.stack.len() implies b[#[trigger] st.stack[k]]
                == in_cur[k] by {
                assert(is_open(out[prev.stack[k]]));
                assert(prev.stack[k] < len - 1 || prev.stack[k] == len - 1);
                assert(prev.stack[k] != len - 1);
                assert(b[prev.stack[k]] == bp[prev.stack[k]]);
            }
            assert forall|c: int| 0 <= c < st.out.len() && is_close(#[trigger] st.out[c]) implies
                close_link(p, st.out, b, c) by {
                assert(c != len - 1);
                assert(st.out[c] == out[c]);
                assert(is_close(out[c]));
                assert(close_link(p, out, bp, c));
                lemma_scan_stack_directions(out, st.out, c);
                assert(match_of(st.out, c) == match_of(out, c));
                let f = match_of(out, c);
                assert(0 <= f < c);
                assert(c <= len - 2);
                assert(b[f + 1] == bp[f + 1]);
                assert(b[c + 1] == bp[c + 1]);
                assert(b[c] == bp[c] && b[f] == bp[f]);
            }
        } else {
            assert(b == bp.push(n));
            assert(forall|x: int| 0 <= x <= len ==> #[trigger] b[x] == bp[x]);
            if is_open(ins) {
                assert(st.out == out.push(Instruction::Jump {
                    index: 0,
                    direction: Direction::Forward,
                }));
                assert(st.stack == prev.stack.push(len));
                assert(in_cur == in_prev.push(n - 1));
                assert forall|j: int| 0 <= j < st.out.len() implies #[trigger] seg_ok(
                    p,
                    st.out,
                    b,
                    j,
                ) by {
                    if j < len {
                        assert(seg_ok(p, out, bp, j));
                        assert(st.out[j] == out[j]);
                    } else {
                        assert(b[len] == n - 1 && b[len + 1] == n);
                        assert(is_open(p[n - 1]));
                    }
                }
                assert forall|k: int| 0 <= k < st.stack.len() implies b[#[trigger] st.stack[k]]
                    == in_cur[k] by {
                    if k < prev.stack.len() {
                        assert(st.stack[k] == prev.stack[k]);
                        assert(in_cur[k] == in_prev[k]);
                    } else {
                        assert(st.stack[k] == len && in_cur[k] == n - 1);
                        assert(b[len] == bp[len] == n - 1);
                    }
                }
                assert forall|c: int|
                    0 <= c < st.out.len() && is_close(#[trigger] st.out[c]) implies close_link(
                    p,
                    st.out,
                    b,
                    c,
                ) by {
                    assert(c < len);
                    assert(st.out[c] == out[c]);
                    assert(close_link(p, out, bp, c));
                    lemma_scan_stack_directions(out, st.out, c);
                    assert(match_of(st.out, c) == match_of(out, c));
                }
            } else if is_close(ins) {
                assert(in_prev.len() > 0);
                assert(in_cur == in_prev.drop_last());
                assert(prev.stack.len() > 0);
                let fo = prev.stack.last();
                assert(0 <= fo < len && is_open(out[fo]));
                assert(st.out == crate::close_step(out, fo));
                assert(st.stack == prev.stack.drop_last());
                assert(st.out.len() == len + 1);
                assert(forall|j: int|
                    0 <= j < len ==> (is_open(#[trigger] out[j]) == is_open(st.out[j]) && is_close(
                        out[j],
                    ) == is_close(st.out[j])));
                // The input backward branch at n - 1 matches the input
                // forward branch the pending output bracket stands for.
                assert(is_close(p[n - 1]));
                let fi = match_of(p, n - 1);
                assert(fi == in_prev.last());
                assert(b[fo] == bp[fo] == fi);
                assert(jump_target(p[n - 1]) == fi + 1);
                assert(jump_target(p[fi]) == n);
                assert(seg_ok(p, out, bp, fo));
                assert(bp[fo + 1] == fi + 1);
                assert forall|j: int| 0 <= j < st.out.len() implies #[trigger] seg_ok(
                    p,
                    st.out,
                    b,
                    j,
                ) by {
                    if j < len {
                        assert(seg_ok(p, out, bp, j));
                        if j == fo {
                            assert(st.out[j] == Instruction::Jump {
                                index: (len + 1) as usize,
                                direction: Direction::Forward,
                            });
                        } else {
                            assert(st.out[j] == out[j]);
                        }
                    } else {
                        assert(b[len] == n - 1 && b[len + 1] == n);
                        assert(st.out[len] == Instruction::Jump {
                            index: (fo + 1) as usize,
                            direction: Direction::Backward,
                        });
                    }
                }
                assert forall|k: int| 0 <= k < st.stack.len() implies b[#[trigger] st.stack[k]]
                    == in_cur[k] by {
                    assert(st.stack[k] == prev.stack[k]);
                    assert(in_cur[k] == in_prev[k]);
                }
                lemma_scan_stack_directions(out, st.out, len);
                assert(scan_stack(st.out, len) == Some(prev.stack));
                assert forall|c: int|
                    0 <= c < st.out.len() && is_close(#[trigger] st.out[c]) implies close_link(
                    p,
                    st.out,
                    b,
                    c,
                ) by {
                    if c == len {
                        assert(match_of(st.out, len) == fo);
                        assert(b[fo + 1] == fi + 1);
                        assert(b[len] == n - 1);
                        assert(b[len + 1] == n);
                        assert(b[fo] == fi);
                    } else {
                        assert(c != fo);
                        assert(st.out[c] == out[c]);
                        assert(is_close(out[c]));
                        assert(close_link(p, out, bp, c));
                        lemma_scan_stack_directions(out, st.out, c);
                        assert(match_of(st.out, c) == match_of(out, c));
                        let f = match_of(out, c);
                        lemma_match_not_pending(out, prev.stack, c, fo);
                        assert(f != fo);
                    }
                }
            } else {
                assert(st.out == out.push(ins));
                assert(st.stack == prev.stack);
                assert(in_cur == in_prev);
                assert forall|j: int| 0 <= j < st.out.len() implies #[trigger] seg_ok(
                    p,
                    st.out,
                    b,
                    j,
                ) by {
                    if j < len {
                        assert(seg_ok(p, out, bp, j));
                        assert(st.out[j] == out[j]);
                    } else {
                        assert(b[len] == n - 1 && b[len + 1] == n);
                        if ins is AddPointer {
                            let v = ins->AddPointer_0;
                            assert(pointer_sum(p, n - 1, n) == pointer_sum(
                                p,
                                n - 1,
                                n - 1,
                            ).wrapping_add(v));
                            assert((0isize).wrapping_add(v) == v);
                        } else if ins is AddData {
                            let v = ins->AddData_0;
                            assert(data_sum(p, n - 1, n) == data_sum(p, n - 1, n - 1).wrapping_add(
                                v,
                            ));
                            assert((0i8).wrapping_add(v) == v);
                        }
                    }
                }
                assert forall|k: int| 0 <= k < st.stack.len() implies b[#[trigger] st.stack[k]]
                    == in_cur[k] by {
                    assert(b[prev.stack[k]] == bp[prev.stack[k]]);
                }
                assert forall|c: int|
                    0 <= c < st.out.len() && is_close(#[trigger] st.out[c]) implies close_link(
                    p,
                    st.out,
                    b,
                    c,
                ) by {
                    assert(c < len);
                    assert(st.out[c] == out[c]);
                    assert(close_link(p, out, bp, c));
                    lemma_scan_stack_directions(out, st.out, c);
                    assert(match_of(st.out, c) == match_of(out, c));
                }
            }
        }
    }
}

/// The two machines agree on everything a run can observe: cells, cursor,
/// and the two byte streams.
pub open spec fn same_observables(a: MachineState, b: MachineState) -> bool {
    &&& a.mem == b.mem
    &&& a.dp == b.dp
    &&& a.input == b.input
    &&& a.in_pos == b.in_pos
    &&& a.output == b.output
}

/// The optimised machine `t` mirrors the original machine `s`: observables
/// equal, and the instruction pointers sit at positions the boundary map
/// pairs up.
pub open spec fn corresponds(s: MachineState, t: MachineState, b: Seq<int>, j: int) -> bool {
    &&& same_observables(s, t)
    &&& 0 <= j < b.len()
    &&& t.ip == j
    &&& s.ip == b[j]
}

/// Running `a + k` steps is running `a` steps and then `k` more.
pub proof fn lemma_run_n_compose(p: Seq<Instruction>, s: MachineState, a: nat, k: nat)
    ensures
        run_n(p, s, a + k) == (match run_n(p, s, a) {
            StepResult::Next(s1) => run_n(p, s1, k),
            done => done,
        }),
    decreases k,
{
    if k > 0 {
        lemma_run_n_compose(p, s, a, (k - 1) as nat);
    }
}

/// Wrapped word addition is associative.
proof fn lemma_wrap_assoc_isize(x: isize, y: isize, z: isize)
    ensures
        x.wrapping_add(y).wrapping_add(z) == x.wrapping_add(y.wrapping_add(z)),
{
}

/// Adding two deltas to a byte one after the other is adding their wrapped
/// sum once.
proof fn lemma_wrap_assoc_data(c: u8, a: i8, b: i8)
    ensures
        c.wrapping_add_signed(a).wrapping_add_signed(b) == c.wrapping_add_signed(
            a.wrapping_add(b),
        ),
{
}

/// Running `k` steps into a run of `AddPointer`s moves the cursor by their
/// wrapped sum and nothing else.
proof fn lemma_run_pointer_segment(
    p: Seq<Instruction>,
    s: MachineState,
    lo: int,
    hi: int,
    k: nat,
)
    requires
        0 <= lo,
        lo + k <= hi <= p.len(),
        s.ip == lo,
        forall|m: int| lo <= m < hi ==> (#[trigger] p[m]) is AddPointer,
    ensures
        run_n(p, s, k) == StepResult::Next(
            MachineState { dp: s.dp.wrapping_add(pointer_sum(p, lo, lo + k)), ip: lo + k, ..s },
        ),
    decreases k,
{
    if k == 0 {
        assert(s.dp.wrapping_add(0isize) == s.dp);
        assert(MachineState { dp: s.dp, ip: lo, ..s } == s);
    } else {
        lemma_run_pointer_segment(p, s, lo, hi, (k - 1) as nat);
        let mid = MachineState {
            dp: s.dp.wrapping_add(pointer_sum(p, lo, lo + k - 1)),
            ip: lo + k - 1,
            ..s
        };
        assert(p[lo + k - 1] is AddPointer);
        let v = p[lo + k - 1]->AddPointer_0;
        assert(step_spec(p, mid) == StepResult::Next(
            MachineState { dp: mid.dp.wrapping_add(v), ip: lo + k, ..s },
        ));
        lemma_wrap_assoc_isize(s.dp, pointer_sum(p, lo, lo + k - 1), v);
        assert(pointer_sum(p, lo, lo + k) == pointer_sum(p, lo, lo + k - 1).wrapping_add(v));
    }
}

/// Running `k` steps into a run of `AddData`s adds their wrapped sum to the
/// byte at the cursor and nothing else.
proof fn lemma_run_data_segment(p: Seq<Instruction>, s: MachineState, lo: int, hi: int, k: nat)
    requires
        0 <= lo,
        lo + k <= hi <= p.len(),
        s.ip == lo,
        0 <= s.dp < s.mem.len(),
        forall|m: int| lo <= m < hi ==> (#[trigger] p[m]) is AddData,
    ensures
        run_n(p, s, k) == StepResult::Next(
            MachineState {
                mem: s.mem.update(
                    s.dp as int,
                    s.mem[s.dp as int].wrapping_add_signed(data_sum(p, lo, lo + k)),
                ),
                ip: lo + k,
                ..s
            },
        ),
    decreases k,
{
    let d = s.dp as int;
    let c = s.mem[d];
    if k == 0 {
        assert(c.wrapping_add_signed(0i8) == c);
        assert(s.mem.update(d, c) =~= s.mem);
        assert(MachineState { mem: s.mem.update(d, c), ip: lo, ..s } == s);
    } else {
        lemma_run_data_segment(p, s, lo, hi, (k - 1) as nat);
        let sum1 = data_sum(p, lo, lo + k - 1);
        let mid = MachineState {
            mem: s.mem.update(d, c.wrapping_add_signed(sum1)),
            ip: lo + k - 1,
            ..s
        };
        assert(p[lo + k - 1] is AddData);
        let v = p[lo + k - 1]->AddData_0;
        assert(0 <= mid.dp < mid.mem.len());
        assert(mid.mem[d] == c.wrapping_add_signed(sum1));
        assert(step_spec(p, mid) == StepResult::Next(
            MachineState {
                mem: mid.mem.update(d, mid.mem[d].wrapping_add_signed(v)),
                ip: lo + k,
                ..s
            },
        ));
        lemma_wrap_assoc_data(c, sum1, v);
        assert(data_sum(p, lo, lo + k) == sum1.wrapping_add(v));
        assert(mid.mem.update(d, c.wrapping_add_signed(sum1).wrapping_add_signed(v)) =~= s.mem.update(
            d,
            c.wrapping_add_signed(data_sum(p, lo, lo + k)),
        ));
    }
}

/// Running one step is stepping once.
proof fn lemma_run_one(p: Seq<Instruction>, s: MachineState)
    ensures
        run_n(p, s, 1nat) == step_spec(p, s),
{
    assert(run_n(p, s, 0nat) == StepResult::Next(s));
}

/// One step of the optimised machine against the run it stands for: from
/// corresponding states, either the optimised step succeeds and the original
/// machine reaches the corresponding state in as many steps as the run is
/// long, or both machines fail at once, in the same way.
#[verifier::rlimit(100)]
#[verifier::spinoff_prover]
proof fn lemma_segment_step(p: Seq<Instruction>, s: MachineState, t: MachineState, j: int)
    requires
        well_formed(p),
        p.len() <= usize::MAX,
        corresponds(s, t, opt_bounds(p, p.len() as int), j),
        j < optimise_spec(p).len(),
    ensures
        ({
            let out = optimise_spec(p);
            let b = opt_bounds(p, p.len() as int);
            match step_spec(out, t) {
                StepResult::Next(t2) => exists|l: nat|
                    (#[trigger] run_n(p, s, l)) matches StepResult::Next(s2) && corresponds(
                        s2,
                        t2,
                        b,
                        t2.ip,
                    ) && l >= 1,
                StepResult::Error(e, te) => step_spec(p, s) matches StepResult::Error(e2, se)
                    && e2 == e && same_observables(se, te),
                StepResult::Halted(_) => false,
            }
        }),
{
    let n = p.len() as int;
    let out = optimise_spec(p);
    let b = opt_bounds(p, n);
    lemma_equiv_inv(p, n);
    lemma_opt_fold_inv(p, n);
    crate::optimiser::lemma_optimise_well_formed(p);
    assert(seg_ok(p, out, b, j));
    let lo = b[j];
    let hi = b[j + 1];
    assert(0 <= lo < hi <= n) by {
        assert(b[b.len() - 1] == n);
        if j + 1 < out.len() {
            lemma_bounds_increasing(p, b, out, j + 1, out.len() as int);
        }
        if 0 < j {
            lemma_bounds_increasing(p, b, out, 0, j);
        }
        assert(b[0] == 0);
    }
    assert(s.ip == lo && t.ip == j);
    lemma_run_one(p, s);
    match out[j] {
        Instruction::AddPointer(a) => {
            let l = (hi - lo) as nat;
            lemma_run_pointer_segment(p, s, lo, hi, l);
            let s2 = MachineState { dp: s.dp.wrapping_add(a), ip: hi, ..s };
            assert(run_n(p, s, l) == StepResult::Next(s2));
            let t2 = MachineState { dp: t.dp.wrapping_add(a), ip: j + 1, ..t };
            assert(step_spec(out, t) == StepResult::Next(t2));
            assert(run_n(p, s, l) matches StepResult::Next(s2x) && corresponds(s2x, t2, b, t2.ip)
                && l >= 1);
        },
        Instruction::AddData(a) => {
            if 0 <= t.dp < t.mem.len() {
                let l = (hi - lo) as nat;
                lemma_run_data_segment(p, s, lo, hi, l);
                let s2 = MachineState {
                    mem: s.mem.update(s.dp as int, s.mem[s.dp as int].wrapping_add_signed(a)),
                    ip: hi,
                    ..s
                };
                assert(run_n(p, s, l) == StepResult::Next(s2));
                let t2 = MachineState {
                    mem: t.mem.update(t.dp as int, t.mem[t.dp as int].wrapping_add_signed(a)),
                    ip: j + 1,
                    ..t
                };
                assert(step_spec(out, t) == StepResult::Next(t2));
                assert(run_n(p, s, l) matches StepResult::Next(s2x) && corresponds(
                    s2x,
                    t2,
                    b,
                    t2.ip,
                ) && l >= 1);
            } else {
                assert(p[lo] is AddData);
                assert(step_spec(out, t) == StepResult::Error(
                    crate::interpreter::oob_error(t),
                    t,
                ));
                assert(step_spec(p, s) == StepResult::Error(crate::interpreter::oob_error(s), s));
                assert(crate::interpreter::oob_error(s) == crate::interpreter::oob_error(t));
            }
        },
        Instruction::Input => {
            assert(hi == lo + 1 && p[lo] is Input);
            let byte = crate::interpreter::next_input_byte(s);
            let pos = crate::interpreter::next_input_pos(s);
            assert(byte == crate::interpreter::next_input_byte(t));
            assert(pos == crate::interpreter::next_input_pos(t));
            if 0 <= t.dp < t.mem.len() {
                let s2 = MachineState {
                    mem: s.mem.update(s.dp as int, byte),
                    in_pos: pos,
                    ip: lo + 1,
                    ..s
                };
                assert(run_n(p, s, 1nat) == StepResult::Next(s2));
                let t2 = MachineState {
                    mem: t.mem.update(t.dp as int, byte),
                    in_pos: pos,
                    ip: j + 1,
                    ..t
                };
                assert(step_spec(out, t) == StepResult::Next(t2));
                assert(run_n(p, s, 1nat) matches StepResult::Next(s2x) && corresponds(
                    s2x,
                    t2,
                    b,
                    t2.ip,
                ) && 1nat >= 1);
            } else {
                assert(step_spec(p, s) == StepResult::Error(
                    crate::interpreter::oob_error(s),
                    MachineState { in_pos: pos, ..s },
                ));
                assert(same_observables(
                    MachineState { in_pos: pos, ..s },
                    MachineState { in_pos: pos, ..t },
                ));
            }
        },
        Instruction::Output => {
            assert(hi == lo + 1 && p[lo] is Output);
            if 0 <= t.dp < t.mem.len() {
                let s2 = MachineState {
                    output: s.output.push(s.mem[s.dp as int]),
                    ip: lo + 1,
                    ..s
                };
                assert(run_n(p, s, 1nat) == StepResult::Next(s2));
                let t2 = MachineState {
                    output: t.output.push(t.mem[t.dp as int]),
                    ip: j + 1,
                    ..t
                };
                assert(step_spec(out, t) == StepResult::Next(t2));
                assert(run_n(p, s, 1nat) matches StepResult::Next(s2x) && corresponds(
                    s2x,
                    t2,
                    b,
                    t2.ip,
                ) && 1nat >= 1);
            } else {
                assert(crate::interpreter::oob_error(s) == crate::interpreter::oob_error(t));
            }
        },
        Instruction::Jump { index, direction } => {
            assert(hi == lo + 1);
            let ti = jump_target(p[lo]);
            let tj = jump_target(out[j]);
            assert(match p[lo] {
                Instruction::Jump { direction: d2, .. } => d2 == direction,
                _ => false,
            });
            if 0 <= t.dp < t.mem.len() {
                // The landing points pair up across the boundary map.
                assert(0 <= tj < b.len() && b[tj] == ti) by {
                    if is_close(out[j]) {
                        assert(close_link(p, out, b, j));
                        let f = match_of(out, j);
                        assert(jump_target(out[j]) == f + 1);
                        assert(b[f + 1] == jump_target(p[b[j]]));
                    } else {
                        assert(is_open(out[j]));
                        lemma_open_target_links(p, out, b, j);
                    }
                }
                let cell = t.mem[t.dp as int];
                let taken = (direction == Direction::Forward && cell == 0) || (direction
                    == Direction::Backward && cell != 0);
                assert(s.mem[s.dp as int] == cell);
                let s2 = MachineState { ip: if taken { ti } else { lo + 1 }, ..s };
                assert(run_n(p, s, 1nat) == StepResult::Next(s2));
                let t2 = MachineState { ip: if taken { tj } else { j + 1 }, ..t };
                assert(step_spec(out, t) == StepResult::Next(t2));
                assert(run_n(p, s, 1nat) matches StepResult::Next(s2x) && corresponds(
                    s2x,
                    t2,
                    b,
                    t2.ip,
                ) && 1nat >= 1);
            } else {
                assert(crate::interpreter::oob_error(s) == crate::interpreter::oob_error(t));
            }
        },
    }
}

/// The boundary map is strictly increasing between any two positions.
proof fn lemma_bounds_increasing(
    p: Seq<Instruction>,
    b: Seq<int>,
    out: Seq<Instruction>,
    i: int,
    j: int,
)
    requires
        b == opt_bounds(p, p.len() as int),
        out == optimise_spec(p),
        well_formed(p),
        p.len() <= usize::MAX,
        0 <= i <= j <= out.len(),
        b.len() == out.len() + 1,
    ensures
        b[i] <= b[j],
    decreases j - i,
{
    if i < j {
        lemma_equiv_inv(p, p.len() as int);
        assert(seg_ok(p, out, b, j - 1));
        lemma_bounds_increasing(p, b, out, i, j - 1);
    }
}

/// A forward branch of the optimised program lands where the forward branch
/// it stands for lands: the link recorded for its matching backward branch,
/// read the other way round.
proof fn lemma_open_target_links(p: Seq<Instruction>, out: Seq<Instruction>, b: Seq<int>, j: int)
    requires
        well_formed(p),
        p.len() <= usize::MAX,
        out == optimise_spec(p),
        b == opt_bounds(p, p.len() as int),
        0 <= j < out.len(),
        is_open(out[j]),
    ensures
        0 <= jump_target(out[j]) < b.len(),
        b[jump_target(out[j])] == jump_target(p[b[j]]),
{
    let n = p.len() as int;
    lemma_equiv_inv(p, n);
    lemma_opt_fold_inv(p, n);
    crate::optimiser::lemma_optimise_well_formed(p);
    let len = out.len() as int;
    // Put j on the scan stack right after it is scanned, then find the
    // backward branch that pops it.
    lemma_scan_stack_prefix_some(out, j + 1, len);
    lemma_scan_stack_prefix_some(out, j, len);
    assert(scan_stack(out, j + 1).unwrap() == scan_stack(out, j).unwrap().push(j));
    assert(scan_stack(out, j + 1).unwrap().contains(j)) by {
        let stj = scan_stack(out, j + 1).unwrap();
        assert(stj[stj.len() - 1] == j);
    }
    lemma_every_open_matched(out, j, j + 1);
    let c = choose|c: int|
        j + 1 <= c < out.len() && is_close(#[trigger] out[c]) && match_of(out, c) == j;
    assert(close_link(p, out, b, c));
    assert(jump_target(out[j]) == c + 1) by {
        assert(branch_targets_ok(out));
        assert(is_close(out[c]));
    }
}

/// The machine halts from `s`, in the state `sf`.
pub open spec fn halts_with(p: Seq<Instruction>, s: MachineState, sf: MachineState) -> bool {
    exists|m: nat| run_n(p, s, m) == StepResult::Halted(sf)
}

/// The machine fails from `s` with error `e`, in the state `sf`.
pub open spec fn fails_with(
    p: Seq<Instruction>,
    s: MachineState,
    e: crate::interpreter::InterpreterError,
    sf: MachineState,
) -> bool {
    exists|m: nat| run_n(p, s, m) == StepResult::Error(e, sf)
}

/// From corresponding states, whatever the original machine does within `k`
/// steps — halt or fail — the optimised machine does too, with the same
/// observables.
#[verifier::rlimit(60)]
#[verifier::spinoff_prover]
proof fn lemma_sim_forward(p: Seq<Instruction>, s: MachineState, t: MachineState, j: int, k: nat)
    requires
        well_formed(p),
        p.len() <= usize::MAX,
        corresponds(s, t, opt_bounds(p, p.len() as int), j),
    ensures
        run_n(p, s, k) matches StepResult::Halted(sf) ==> exists|tf: MachineState|
            #[trigger] halts_with(optimise_spec(p), t, tf) && same_observables(sf, tf),
        run_n(p, s, k) matches StepResult::Error(e, sf) ==> exists|tf: MachineState|
            #[trigger] fails_with(optimise_spec(p), t, e, tf) && same_observables(sf, tf),
    decreases k,
{
    let n = p.len() as int;
    let out = optimise_spec(p);
    let b = opt_bounds(p, n);
    lemma_equiv_inv(p, n);
    lemma_opt_fold_inv(p, n);
    lemma_run_one(p, s);
    lemma_run_one(out, t);
    if j == out.len() {
        // Both instruction pointers are past their programs: both halt.
        assert(s.ip == n);
        assert(run_n(p, s, 1nat) == StepResult::Halted(s));
        if k >= 1 {
            crate::interpreter::lemma_run_n_stable(p, s, 1nat, k);
            assert(run_n(p, s, k) == StepResult::Halted(s));
            assert(run_n(out, t, 1nat) == StepResult::Halted(t));
            assert(halts_with(out, t, t) && same_observables(s, t));
        }
    } else {
        lemma_segment_step(p, s, t, j);
        match step_spec(out, t) {
            StepResult::Next(t2) => {
                let l = choose|l: nat|
                    (#[trigger] run_n(p, s, l)) matches StepResult::Next(s2) && corresponds(
                        s2,
                        t2,
                        b,
                        t2.ip,
                    ) && l >= 1;
                let s2 = run_n(p, s, l)->Next_0;
                assert(corresponds(s2, t2, b, t2.ip));
                match run_n(p, s, k) {
                    StepResult::Next(_) => {},
                    StepResult::Halted(sf) => {
                        if k < l {
                            crate::interpreter::lemma_run_n_next_prefix(p, s, k, l);
                        }
                        assert(k >= l);
                        lemma_run_n_compose(p, s, l, (k - l) as nat);
                        assert(run_n(p, s2, (k - l) as nat) == StepResult::Halted(sf));
                        lemma_sim_forward(p, s2, t2, t2.ip, (k - l) as nat);
                        let tf = choose|tf: MachineState|
                            #[trigger] halts_with(out, t2, tf) && same_observables(sf, tf);
                        let m2 = choose|m: nat| run_n(out, t2, m) == StepResult::Halted(tf);
                        lemma_run_n_compose(out, t, 1nat, m2);
                        assert(run_n(out, t, 1 + m2) == StepResult::Halted(tf));
                        assert(halts_with(out, t, tf));
                    },
                    StepResult::Error(e, sf) => {
                        if k < l {
                            crate::interpreter::lemma_run_n_next_prefix(p, s, k, l);
                        }
                        assert(k >= l);
                        lemma_run_n_compose(p, s, l, (k - l) as nat);
                        assert(run_n(p, s2, (k - l) as nat) == StepResult::Error(e, sf));
                        lemma_sim_forward(p, s2, t2, t2.ip, (k - l) as nat);
                        let tf = choose|tf: MachineState|
                            #[trigger] fails_with(out, t2, e, tf) && same_observables(sf, tf);
                        let m2 = choose|m: nat| run_n(out, t2, m) == StepResult::Error(e, tf);
                        lemma_run_n_compose(out, t, 1nat, m2);
                        assert(run_n(out, t, 1 + m2) == StepResult::Error(e, tf));
                        assert(fails_with(out, t, e, tf));
                    },
                }
            },
            StepResult::Error(e, te) => {
                let se = step_spec(p, s)->Error_1;
                assert(step_spec(p, s) == StepResult::Error(e, se));
                assert(run_n(p, s, 1nat) == StepResult::Error(e, se));
                if k >= 1 {
                    crate::interpreter::lemma_run_n_stable(p, s, 1nat, k);
                    assert(run_n(p, s, k) == StepResult::Error(e, se));
                    assert(run_n(out, t, 1nat) == StepResult::Error(e, te));
                    assert(fails_with(out, t, e, te) && same_observables(se, te));
                }
            },
            StepResult::Halted(_) => {},
        }
    }
}

/// From corresponding states, whatever the optimised machine does within `m`
/// steps — halt or fail — the original machine does too, with the same
/// observables.
#[verifier::rlimit(60)]
#[verifier::spinoff_prover]
proof fn lemma_sim_backward(p: Seq<Instruction>, s: MachineState, t: MachineState, j: int, m: nat)
    requires
        well_formed(p),
        p.len() <= usize::MAX,
        corresponds(s, t, opt_bounds(p, p.len() as int), j),
    ensures
        run_n(optimise_spec(p), t, m) matches StepResult::Halted(tf) ==> exists|sf: MachineState|
            #[trigger] halts_with(p, s, sf) && same_observables(sf, tf),
        run_n(optimise_spec(p), t, m) matches StepResult::Error(e, tf) ==> exists|sf: MachineState|
            #[trigger] fails_with(p, s, e, sf) && same_observables(sf, tf),
    decreases m,
{
    let n = p.len() as int;
    let out = optimise_spec(p);
    let b = opt_bounds(p, n);
    lemma_equiv_inv(p, n);
    lemma_opt_fold_inv(p, n);
    lemma_run_one(p, s);
    lemma_run_one(out, t);
    if j == out.len() {
        assert(s.ip == n);
        assert(run_n(out, t, 1nat) == StepResult::Halted(t));
        if m >= 1 {
            crate::interpreter::lemma_run_n_stable(out, t, 1nat, m);
            assert(run_n(out, t, m) == StepResult::Halted(t));
            assert(run_n(p, s, 1nat) == StepResult::Halted(s));
            assert(halts_with(p, s, s) && same_observables(s, t));
        }
    } else if m >= 1 {
        lemma_segment_step(p, s, t, j);
        lemma_run_n_compose(out, t, 1nat, (m - 1) as nat);
        match step_spec(out, t) {
            StepResult::Next(t2) => {
                assert(run_n(out, t, m) == run_n(out, t2, (m - 1) as nat));
                let l = choose|l: nat|
                    (#[trigger] run_n(p, s, l)) matches StepResult::Next(s2) && corresponds(
                        s2,
                        t2,
                        b,
                        t2.ip,
                    ) && l >= 1;
                let s2 = run_n(p, s, l)->Next_0;
                assert(corresponds(s2, t2, b, t2.ip));
                lemma_sim_backward(p, s2, t2, t2.ip, (m - 1) as nat);
                match run_n(out, t2, (m - 1) as nat) {
                    StepResult::Next(_) => {},
                    StepResult::Halted(tf) => {
                        let sf = choose|sf: MachineState|
                            #[trigger] halts_with(p, s2, sf) && same_observables(sf, tf);
                        let k2 = choose|k: nat| run_n(p, s2, k) == StepResult::Halted(sf);
                        lemma_run_n_compose(p, s, l, k2);
                        assert(run_n(p, s, l + k2) == StepResult::Halted(sf));
                        assert(halts_with(p, s, sf));
                    },
                    StepResult::Error(e, tf) => {
                        let sf = choose|sf: MachineState|
                            #[trigger] fails_with(p, s2, e, sf) && same_observables(sf, tf);
                        let k2 = choose|k: nat| run_n(p, s2, k) == StepResult::Error(e, sf);
                        lemma_run_n_compose(p, s, l, k2);
                        assert(run_n(p, s, l + k2) == StepResult::Error(e, sf));
                        assert(fails_with(p, s, e, sf));
                    },
                }
            },
            StepResult::Error(e, te) => {
                let se = step_spec(p, s)->Error_1;
                assert(run_n(out, t, 1nat) == StepResult::Error(e, te));
                crate::interpreter::lemma_run_n_stable(out, t, 1nat, m);
                assert(run_n(out, t, m) == StepResult::Error(e, te));
                assert(run_n(p, s, 1nat) == StepResult::Error(e, se));
                assert(fails_with(p, s, e, se) && same_observables(se, te));
            },
            StepResult::Halted(_) => {},
        }
    }
}

/// Optimiser equivalence: on any input stream, a well-formed program and its
/// optimised form produce the same observable behaviour. Whenever one of
/// them halts or fails within some number of steps, the other halts or fails
/// too, with byte-identical output (and identical cells, cursor and consumed
/// input); failures carry the same error. In particular one diverges exactly
/// when the other does.
pub proof fn lemma_optimiser_equivalence(p: Seq<Instruction>, input: Seq<u8>, k: nat)
    requires
        well_formed(p),
        p.len() <= usize::MAX,
    ensures
        run_n(p, init_state(input), k) matches StepResult::Halted(sf) ==> exists|
            tf: MachineState,
        |
            #[trigger] halts_with(optimise_spec(p), init_state(input), tf) && same_observables(
                sf,
                tf,
            ),
        run_n(p, init_state(input), k) matches StepResult::Error(e, sf) ==> exists|
            tf: MachineState,
        |
            #[trigger] fails_with(optimise_spec(p), init_state(input), e, tf) && same_observables(
                sf,
                tf,
            ),
        run_n(optimise_spec(p), init_state(input), k) matches StepResult::Halted(tf) ==> exists|
            sf: MachineState,
        |
            #[trigger] halts_with(p, init_state(input), sf) && same_observables(sf, tf),
        run_n(optimise_spec(p), init_state(input), k) matches StepResult::Error(e, tf) ==> exists|
            sf: MachineState,
        |
            #[trigger] fails_with(p, init_state(input), e, sf) && same_observables(sf, tf),
{
    let s0 = init_state(input);
    lemma_equiv_inv(p, p.len() as int);
    assert(corresponds(s0, s0, opt_bounds(p, p.len() as int), 0));
    lemma_sim_forward(p, s0, s0, 0, k);
    lemma_sim_backward(p, s0, s0, 0, k);
}

} // verus!
