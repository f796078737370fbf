//! What the optimizer's rewrites compute: each rewritten template, run step
//! by step on the machine, ends in the state that its replacement reaches.

use vstd::prelude::*;
use vstd::arithmetic::div_mod::{lemma_add_mod_noop_right, lemma_mod_bound, lemma_small_mod};
use vstd::wrapping::{i8_specs, isize_specs};
use crate::interpret::{
    anchor_left_target, anchor_right_target, cell_add, first_from, last_before, ptr_add, step_spec, ANCHOR,
    TAPE_SIZE,
};
use crate::ir::{fusable, push_fused, IR};

verus! {

/// The machine after `n` steps with no input at hand: tape, pointer and
/// instruction pointer.
pub open spec fn run_steps(insts: Seq<IR>, tape: Seq<u8>, ptr: u16, ip: int, n: nat) -> (Seq<u8>, u16, int)
    decreases n,
{
    if n == 0 {
        (tape, ptr, ip)
    } else {
        let (t, p, i, _) = step_spec(insts, tape, ptr, ip, None);
        run_steps(insts, t, p, i, (n - 1) as nat)
    }
}

proof fn lemma_run_steps_split(insts: Seq<IR>, tape: Seq<u8>, ptr: u16, ip: int, n: nat, m: nat)
    ensures
        run_steps(insts, tape, ptr, ip, n + m) == ({
            let (t, p, i) = run_steps(insts, tape, ptr, ip, n);
            run_steps(insts, t, p, i, m)
        }),
    decreases n,
{
    if n > 0 {
        let (t, p, i, _) = step_spec(insts, tape, ptr, ip, None);
        lemma_run_steps_split(insts, t, p, i, (n - 1) as nat, m);
        assert((n + m - 1) as nat == (n - 1) as nat + m);
    }
}

/// Adding twice to a cell is adding the sum once.
pub proof fn lemma_cell_add_twice(x: u8, a: int, b: int)
    ensures
        cell_add(cell_add(x, a), b) == cell_add(x, a + b),
{
    lemma_mod_bound(x + a, 256);
    lemma_mod_bound(x + a + b, 256);
    lemma_add_mod_noop_right(b, x + a, 256);
    assert(b + (x + a) == x + a + b);
}

/// Moving the pointer twice is moving it by the sum once.
pub proof fn lemma_ptr_add_twice(p: u16, a: int, b: int)
    ensures
        ptr_add(ptr_add(p, a), b) == ptr_add(p, a + b),
{
    lemma_mod_bound(p + a, 65536);
    lemma_mod_bound(p + a + b, 65536);
    lemma_add_mod_noop_right(b, p + a, 65536);
    assert(b + (p + a) == p + a + b);
}

proof fn lemma_ptr_add_multiple(p: u16, a: int, k: int)
    ensures
        ptr_add(p, a + 65536 * k) == ptr_add(p, a),
{
    vstd::arithmetic::div_mod::lemma_mod_multiples_vanish(k, p + a, 65536);
    assert(p + (a + 65536 * k) == 65536 * k + (p + a));
}

proof fn lemma_cell_add_multiple(x: u8, a: int, k: int)
    ensures
        cell_add(x, a + 256 * k) == cell_add(x, a),
{
    vstd::arithmetic::div_mod::lemma_mod_multiples_vanish(k, x + a, 256);
    assert(x + (a + 256 * k) == 256 * k + (x + a));
}

/// Two shifts in a row leave the pointer where the one shift that run
/// fusion makes of them does.
pub proof fn lemma_fused_shifts(p: u16, a: isize, b: isize)
    ensures
        ptr_add(ptr_add(p, a as int), b as int) == ptr_add(p, isize_specs::wrapping_add(a, b) as int),
{
    lemma_ptr_add_twice(p, a as int, b as int);
    let s = a + b;
    assert(usize::MAX == 0xffff_ffff || usize::MAX == 0xffff_ffff_ffff_ffff);
    let r: int = usize::MAX + 1;
    let k: int = if usize::MAX == 0xffff_ffff { 0x1_0000 } else { 0x1_0000_0000_0000 };
    assert(r == 65536 * k);
    if s > isize::MAX {
        lemma_ptr_add_multiple(p, s - r, k);
    } else if s < isize::MIN {
        lemma_ptr_add_multiple(p, s, k);
        assert(isize_specs::wrapping_add(a, b) as int == s + r);
        lemma_ptr_add_multiple(p, s, k);
        assert(ptr_add(p, s + 65536 * k) == ptr_add(p, s));
    }
}

/// Two arithmetic steps in a row leave the cell as the one step that run
/// fusion makes of them does.
pub proof fn lemma_fused_arithmetic(x: u8, a: i8, b: i8)
    ensures
        cell_add(cell_add(x, a as int), b as int) == cell_add(x, i8_specs::wrapping_add(a, b) as int),
        i8_specs::wrapping_add(a, b) == 0 ==> cell_add(cell_add(x, a as int), b as int) == x,
{
    lemma_cell_add_twice(x, a as int, b as int);
    let s = a + b;
    if s > 127 {
        lemma_cell_add_multiple(x, s - 256, 1);
    } else if s < -128 {
        lemma_cell_add_multiple(x, s, 1);
    }
    lemma_small_mod(x as nat, 256);
}

/// Running a fusable pair from its start leaves the tape and pointer as
/// running what run fusion makes of the pair; a pair of arithmetic steps
/// that sums to zero leaves them unchanged.
pub proof fn lemma_fused_pair(x: IR, y: IR, tape: Seq<u8>, ptr: u16)
    requires
        fusable(x, y),
        tape.len() == TAPE_SIZE,
    ensures
        ({
            let (t, p, _) = run_steps(seq![x, y], tape, ptr, 0, 2);
            let fused = push_fused(seq![x], y);
            &&& fused.len() == 1 ==> (t, p) == ({
                let (t1, p1, _) = run_steps(fused, tape, ptr, 0, 1);
                (t1, p1)
            })
            &&& fused.len() == 0 ==> t == tape && p == ptr
        }),
{
    reveal_with_fuel(run_steps, 3);
    let w = seq![x, y];
    assert(w.len() == 2 && w[0] == x && w[1] == y);
    assert(seq![x].last() == x);
    assert(seq![x].drop_last() =~= Seq::<IR>::empty());
    let c = tape[ptr as int];
    match (x, y) {
        (IR::Shift { amount: a }, IR::Shift { amount: b }) => {
            lemma_fused_shifts(ptr, a, b);
        },
        (IR::Arithmetic { amount: a }, IR::Arithmetic { amount: b }) => {
            lemma_fused_arithmetic(c, a, b);
            lemma_mod_bound(c + a, 256);
            let t1 = tape.update(ptr as int, cell_add(c, a as int));
            assert(t1[ptr as int] == cell_add(c, a as int));
            let sum = i8_specs::wrapping_add(a, b);
            if sum == 0 {
                assert(t1.update(ptr as int, cell_add(cell_add(c, a as int), b as int)) =~= tape);
            } else {
                assert(t1.update(ptr as int, cell_add(cell_add(c, a as int), b as int)) =~= tape.update(
                    ptr as int,
                    cell_add(c, sum as int),
                ));
            }
        },
        _ => {},
    }
}

/// The matched loop `[`, shift by `o`, add `k`, shift by `back`, subtract
/// one, `]`, as idiom recognition finds it.
pub open spec fn transfer_loop(o: isize, k: i8, back: isize) -> Seq<IR> {
    seq![
        IR::LoopStart { end_index: 5 },
        IR::Shift { amount: o },
        IR::Arithmetic { amount: k },
        IR::Shift { amount: back },
        IR::Arithmetic { amount: -1i8 },
        IR::LoopEnd { start_index: 0 },
    ]
}

proof fn lemma_transfer_iteration(o: isize, k: i8, back: isize, tape: Seq<u8>, ptr: u16)
    requires
        back == -o,
        tape.len() == TAPE_SIZE,
        ptr_add(ptr, o as int) != ptr,
        tape[ptr as int] != 0,
    ensures
        ({
            let dest = ptr_add(ptr, o as int) as int;
            let c = tape[ptr as int];
            run_steps(transfer_loop(o, k, back), tape, ptr, 1, 5) == (
                tape.update(dest, cell_add(tape[dest], k as int)).update(ptr as int, (c - 1) as u8),
                ptr,
                if c - 1 != 0 { 1int } else { 6int },
            )
        }),
{
    reveal_with_fuel(run_steps, 6);
    let w = transfer_loop(o, k, back);
    assert(w.len() == 6);
    let dest = ptr_add(ptr, o as int);
    let c = tape[ptr as int];
    lemma_ptr_add_twice(ptr, o as int, back as int);
    lemma_small_mod(ptr as nat, 65536);
    assert(ptr_add(dest, back as int) == ptr);
    let t1 = tape.update(dest as int, cell_add(tape[dest as int], k as int));
    assert(t1[ptr as int] == c);
    lemma_small_mod((c - 1) as nat, 256);
    assert(cell_add(c, -1) == (c - 1) as u8);
}

proof fn lemma_transfer_rounds(o: isize, k: i8, back: isize, tape: Seq<u8>, ptr: u16)
    requires
        back == -o,
        tape.len() == TAPE_SIZE,
        ptr_add(ptr, o as int) != ptr,
        tape[ptr as int] != 0,
    ensures
        ({
            let dest = ptr_add(ptr, o as int) as int;
            let c = tape[ptr as int];
            run_steps(transfer_loop(o, k, back), tape, ptr, 1, (5 * c) as nat) == (
                tape.update(dest, cell_add(tape[dest], c * k)).update(ptr as int, 0),
                ptr,
                6int,
            )
        }),
    decreases tape[ptr as int],
{
    let w = transfer_loop(o, k, back);
    let dest = ptr_add(ptr, o as int) as int;
    let c = tape[ptr as int];
    let x = tape[dest];
    lemma_transfer_iteration(o, k, back, tape, ptr);
    let t1 = tape.update(dest, cell_add(x, k as int)).update(ptr as int, (c - 1) as u8);
    if c == 1 {
        assert(c * k == k);
    } else {
        lemma_run_steps_split(w, tape, ptr, 1, 5, (5 * (c - 1)) as nat);
        assert((5 * c) as nat == 5 + (5 * (c - 1)) as nat);
        assert(t1[ptr as int] == c - 1);
        assert(t1[dest] == cell_add(x, k as int));
        lemma_transfer_rounds(o, k, back, t1, ptr);
        lemma_cell_add_twice(x, k as int, (c - 1) * k);
        assert(k + (c - 1) * k == c * k) by (nonlinear_arith);
        assert(t1.update(dest, cell_add(t1[dest], (c - 1) * k)).update(ptr as int, 0) =~= tape.update(
            dest,
            cell_add(x, c * k),
        ).update(ptr as int, 0));
    }
}

/// The loop `[`, shift by `o`, add `k`, shift back, subtract one, `]`, run
/// from its start until it leaves, reaches the tape and pointer that one
/// `Multiply { amount: k, output_offset: o }` step reaches, when the cell it
/// adds to is not the current one; for `k == 1` those of one `Move` step.
pub proof fn lemma_transfer_loop(o: isize, k: i8, back: isize, tape: Seq<u8>, ptr: u16)
    requires
        back == -o,
        tape.len() == TAPE_SIZE,
        ptr_add(ptr, o as int) != ptr,
    ensures
        ({
            let (t, p, i) = run_steps(transfer_loop(o, k, back), tape, ptr, 0, (1 + 5 * tape[ptr as int]) as nat);
            let (tm, pm, _, _) = step_spec(
                seq![IR::Multiply { amount: k, output_offset: o }],
                tape,
                ptr,
                0,
                None,
            );
            &&& t == tm && p == pm && i == 6
            &&& k == 1 ==> ({
                let (tv, pv, _, _) = step_spec(seq![IR::Move { output_offset: o }], tape, ptr, 0, None);
                t == tv && p == pv
            })
        }),
{
    let w = transfer_loop(o, k, back);
    let c = tape[ptr as int];
    let dest = ptr_add(ptr, o as int) as int;
    let x = tape[dest];
    assert(w[0] == IR::LoopStart { end_index: 5 });
    assert(seq![IR::Multiply { amount: k, output_offset: o }][0] == IR::Multiply { amount: k, output_offset: o });
    assert(seq![IR::Move { output_offset: o }][0] == IR::Move { output_offset: o });
    if c == 0 {
        reveal_with_fuel(run_steps, 2);
        lemma_small_mod(x as nat, 256);
        assert(tape.update(dest, cell_add(x, c * k)).update(ptr as int, 0) =~= tape);
        assert(tape.update(dest, cell_add(x, c as int)).update(ptr as int, 0) =~= tape);
    } else {
        assert((1 + 5 * c) as nat - 1 == (5 * c) as nat);
        lemma_transfer_rounds(o, k, back, tape, ptr);
        if k == 1 {
            assert(c * k == c as int) by (nonlinear_arith)
                requires
                    k == 1,
            ;
        }
    }
}

/// The matched loop `[`, add `d`, `]`, as idiom recognition finds it.
pub open spec fn clear_loop(d: i8) -> Seq<IR> {
    seq![IR::LoopStart { end_index: 2 }, IR::Arithmetic { amount: d }, IR::LoopEnd { start_index: 0 }]
}

/// How many rounds `[`, add `d`, `]` takes to bring the cell from `c` to
/// zero, for `d` one or minus one.
pub open spec fn clear_rounds(c: u8, d: i8) -> int {
    if d == -1 {
        c as int
    } else {
        256 - c
    }
}

proof fn lemma_clear_rounds(d: i8, tape: Seq<u8>, ptr: u16)
    requires
        d == 1 || d == -1,
        tape.len() == TAPE_SIZE,
        tape[ptr as int] != 0,
    ensures
        run_steps(clear_loop(d), tape, ptr, 1, (2 * clear_rounds(tape[ptr as int], d)) as nat) == (
            tape.update(ptr as int, 0),
            ptr,
            3int,
        ),
    decreases clear_rounds(tape[ptr as int], d),
{
    reveal_with_fuel(run_steps, 3);
    let w = clear_loop(d);
    let c = tape[ptr as int];
    let n = clear_rounds(c, d);
    lemma_mod_bound(c + d, 256);
    if c + d == 256 {
        assert(cell_add(c, d as int) == 0) by {
            vstd::arithmetic::div_mod::lemma_mod_self_0(256);
        }
    } else {
        lemma_small_mod((c + d) as nat, 256);
    }
    let c1 = cell_add(c, d as int);
    let t1 = tape.update(ptr as int, c1);
    if c1 != 0 {
        assert(clear_rounds(c1, d) == n - 1);
        lemma_run_steps_split(w, tape, ptr, 1, 2, (2 * (n - 1)) as nat);
        assert((2 * n) as nat == 2 + (2 * (n - 1)) as nat);
        assert(t1[ptr as int] == c1);
        lemma_clear_rounds(d, t1, ptr);
        assert(t1.update(ptr as int, 0) =~= tape.update(ptr as int, 0));
    } else {
        assert(n == 1);
    }
}

/// The loop `[`, add `d`, `]` for `d` one or minus one, run from its start
/// until it leaves, reaches the tape and pointer that one `Zero` step
/// reaches.
pub proof fn lemma_clear_loop(d: i8, tape: Seq<u8>, ptr: u16)
    requires
        d == 1 || d == -1,
        tape.len() == TAPE_SIZE,
    ensures
        ({
            let c = tape[ptr as int];
            let n = if c == 0 { 1int } else { 1 + 2 * clear_rounds(c, d) };
            let (t, p, i) = run_steps(clear_loop(d), tape, ptr, 0, n as nat);
            let (tz, pz, _, _) = step_spec(seq![IR::Zero], tape, ptr, 0, None);
            t == tz && p == pz && i == 3
        }),
{
    let w = clear_loop(d);
    let c = tape[ptr as int];
    assert(w[0] == IR::LoopStart { end_index: 2 });
    assert(seq![IR::Zero][0] == IR::Zero);
    if c == 0 {
        reveal_with_fuel(run_steps, 2);
        assert(tape.update(ptr as int, 0) =~= tape);
    } else {
        assert((1 + 2 * clear_rounds(c, d)) as nat - 1 == (2 * clear_rounds(c, d)) as nat);
        lemma_clear_rounds(d, tape, ptr);
    }
}

/// The matched loop `[`, subtract one, shift by `dir`, add one, `]`, as
/// idiom recognition finds it.
pub open spec fn anchor_loop(dir: isize) -> Seq<IR> {
    seq![
        IR::LoopStart { end_index: 4 },
        IR::Arithmetic { amount: -1i8 },
        IR::Shift { amount: dir },
        IR::Arithmetic { amount: 1 },
        IR::LoopEnd { start_index: 0 },
    ]
}

/// The compound that idiom recognition makes of `anchor_loop(dir)`.
pub open spec fn anchor_op(dir: isize) -> IR {
    if dir == 1 {
        IR::AnchorRight
    } else {
        IR::AnchorLeft
    }
}

proof fn lemma_first_from_facts(t: Seq<u8>, from: int, b: u8)
    requires
        0 <= from,
    ensures
        match first_from(t, from, b) {
            Some(k) => from <= k < t.len() && t[k] == b && forall|j: int| from <= j < k ==> t[j] != b,
            None => forall|j: int| from <= j < t.len() ==> t[j] != b,
        },
    decreases t.len() - from,
{
    if from < t.len() && t[from] != b {
        lemma_first_from_facts(t, from + 1, b);
    }
}

proof fn lemma_last_before_facts(t: Seq<u8>, upto: int, b: u8)
    requires
        upto <= t.len(),
    ensures
        match last_before(t, upto, b) {
            Some(k) => 0 <= k < upto && t[k] == b && forall|j: int| k < j < upto ==> t[j] != b,
            None => forall|j: int| 0 <= j < upto ==> t[j] != b,
        },
    decreases upto,
{
    if 0 < upto && t[upto - 1] != b {
        lemma_last_before_facts(t, upto - 1, b);
    }
}

proof fn lemma_ptr_add_value(p: u16, x: int)
    requires
        -65536 <= p + x < 2 * 65536,
    ensures
        ptr_add(p, x) as int == if p + x < 0 {
            p + x + 65536
        } else if p + x >= 65536 {
            p + x - 65536
        } else {
            p + x
        },
{
    if p + x < 0 {
        vstd::arithmetic::div_mod::lemma_mod_add_multiples_vanish(p + x, 65536);
        lemma_small_mod((p + x + 65536) as nat, 65536);
    } else if p + x >= 65536 {
        vstd::arithmetic::div_mod::lemma_mod_add_multiples_vanish(p + x - 65536, 65536);
        lemma_small_mod((p + x - 65536) as nat, 65536);
    } else {
        lemma_small_mod((p + x) as nat, 65536);
    }
}

/// The cell `j` steps of `dir` away from `q`, round the tape.
pub open spec fn walk(q: u16, dir: isize, j: int) -> u16 {
    ptr_add(q, dir * j)
}

proof fn lemma_walk_step(q: u16, dir: isize, j: int)
    ensures
        walk(ptr_add(q, dir as int), dir, j) == walk(q, dir, j + 1),
{
    lemma_ptr_add_twice(q, dir as int, dir * j);
    assert(dir + dir * j == dir * (j + 1)) by (nonlinear_arith);
}

proof fn lemma_path_shift(dir: isize, t: Seq<u8>, q: u16, r: int)
    requires
        forall|j: int| 1 <= j < r ==> t[#[trigger] walk(q, dir, j) as int] != ANCHOR,
    ensures
        forall|j: int| 1 <= j < r - 1 ==> t[#[trigger] walk(ptr_add(q, dir as int), dir, j) as int] != ANCHOR,
{
    assert forall|j: int| 1 <= j < r - 1 implies t[#[trigger] walk(ptr_add(q, dir as int), dir, j) as int]
        != ANCHOR by {
        lemma_walk_step(q, dir, j);
        assert(t[walk(q, dir, j + 1) as int] != ANCHOR);
    }
}

proof fn lemma_anchor_iteration(dir: isize, t: Seq<u8>, q: u16)
    requires
        dir == 1 || dir == -1,
        t.len() == TAPE_SIZE,
    ensures
        ({
            let next = ptr_add(q, dir as int);
            run_steps(anchor_loop(dir), t.update(q as int, cell_add(t[q as int], 1)), q, 1, 4) == if t[next as int]
                != ANCHOR {
                (t.update(next as int, cell_add(t[next as int], 1)), next, 1int)
            } else {
                (t.update(next as int, 0), next, 5int)
            }
        }),
{
    reveal_with_fuel(run_steps, 5);
    let w = anchor_loop(dir);
    assert(w.len() == 5);
    let next = ptr_add(q, dir as int);
    let u = t.update(q as int, cell_add(t[q as int], 1));
    lemma_cell_add_twice(t[q as int], 1, -1);
    lemma_small_mod(t[q as int] as nat, 256);
    assert(u.update(q as int, cell_add(u[q as int], -1)) =~= t);
    let y = t[next as int];
    lemma_mod_bound(y + 1, 256);
    if y == ANCHOR {
        assert(cell_add(y, 1) == 0);
    } else {
        lemma_small_mod((y + 1) as nat, 256);
        assert(cell_add(y, 1) != 0);
    }
}

proof fn lemma_anchor_rounds(dir: isize, t: Seq<u8>, q: u16, r: int)
    requires
        dir == 1 || dir == -1,
        t.len() == TAPE_SIZE,
        r >= 1,
        forall|j: int| 1 <= j < r ==> t[#[trigger] walk(q, dir, j) as int] != ANCHOR,
        t[walk(q, dir, r) as int] == ANCHOR,
    ensures
        ({
            let k = walk(q, dir, r);
            run_steps(anchor_loop(dir), t.update(q as int, cell_add(t[q as int], 1)), q, 1, (4 * r) as nat) == (
                t.update(k as int, 0),
                k,
                5int,
            )
        }),
    decreases r,
{
    let w = anchor_loop(dir);
    let next = ptr_add(q, dir as int);
    lemma_anchor_iteration(dir, t, q);
    assert(dir * 1 == dir);
    if r > 1 {
        assert(walk(q, dir, 1) == next);
        assert(t[walk(q, dir, 1) as int] != ANCHOR);
        lemma_run_steps_split(w, t.update(q as int, cell_add(t[q as int], 1)), q, 1, 4, (4 * (r - 1)) as nat);
        assert((4 * r) as nat == 4 + (4 * (r - 1)) as nat);
        lemma_path_shift(dir, t, q, r);
        lemma_walk_step(q, dir, r - 1);
        lemma_anchor_rounds(dir, t, next, r - 1);
    }
}

/// The loop `[`, subtract one, shift by one, add one, `]`, run from its start,
/// reaches the tape and pointer of one `AnchorRight` step (`AnchorLeft` for a
/// shift by minus one) when that step finds an anchor cell.
pub proof fn lemma_anchor_loop(dir: isize, tape: Seq<u8>, ptr: u16)
    requires
        dir == 1 || dir == -1,
        tape.len() == TAPE_SIZE,
        tape[ptr as int] != 0 ==> ({
            let t = tape.update(ptr as int, (tape[ptr as int] - 1) as u8);
            if dir == 1 {
                anchor_right_target(t, ptr as int) is Some
            } else {
                anchor_left_target(t, ptr as int) is Some
            }
        }),
    ensures
        ({
            let (ta, pa, _, _) = step_spec(seq![anchor_op(dir)], tape, ptr, 0, None);
            exists|n: nat| #[trigger] run_steps(anchor_loop(dir), tape, ptr, 0, n) == (ta, pa, 5int)
        }),
{
    let w = anchor_loop(dir);
    let c = tape[ptr as int];
    let p = ptr as int;
    assert(w[0] == IR::LoopStart { end_index: 4 });
    assert(seq![anchor_op(dir)][0] == anchor_op(dir));
    let (ta, pa, _, _) = step_spec(seq![anchor_op(dir)], tape, ptr, 0, None);
    if c == 0 {
        reveal_with_fuel(run_steps, 2);
        assert(run_steps(w, tape, ptr, 0, 1) == (ta, pa, 5int));
    } else {
        let t = tape.update(p, (c - 1) as u8);
        assert(t[p] != ANCHOR);
        lemma_small_mod(c as nat, 256);
        assert(cell_add(t[p], 1) == c);
        assert(t.update(p, cell_add(t[p], 1)) =~= tape);
        let r: int;
        let k: int;
        if dir == 1 {
            lemma_first_from_facts(t, p, ANCHOR);
            lemma_first_from_facts(t, 0, ANCHOR);
            k = anchor_right_target(t, p)->0;
            if first_from(t, p, ANCHOR) is Some {
                r = k - p;
            } else {
                r = k + 65536 - p;
            }
            assert forall|j: int| 1 <= j < r implies t[#[trigger] walk(ptr, dir, j) as int] != ANCHOR by {
                lemma_ptr_add_value(ptr, j);
            }
            lemma_ptr_add_value(ptr, r);
        } else {
            lemma_last_before_facts(t, p, ANCHOR);
            lemma_last_before_facts(t, 65536, ANCHOR);
            k = anchor_left_target(t, p)->0;
            if last_before(t, p, ANCHOR) is Some {
                r = p - k;
            } else {
                r = p + 65536 - k;
            }
            assert forall|j: int| 1 <= j < r implies t[#[trigger] walk(ptr, dir, j) as int] != ANCHOR by {
                lemma_ptr_add_value(ptr, -j);
            }
            lemma_ptr_add_value(ptr, -r);
        }
        assert(walk(ptr, dir, r) as int == k);
        lemma_anchor_rounds(dir, t, ptr, r);
        assert((1 + 4 * r) as nat - 1 == (4 * r) as nat);
        assert(run_steps(w, tape, ptr, 0, (1 + 4 * r) as nat) == (ta, pa, 5int));
    }
}

proof fn lemma_clear_loop_inside(d: i8, t0: Seq<u8>, t: Seq<u8>, ptr: u16, ip: int, n: nat)
    requires
        t0.len() == TAPE_SIZE,
        t.len() == TAPE_SIZE,
        forall|k: int| 0 <= k < TAPE_SIZE && k != ptr ==> t[k] == t0[k],
        0 <= ip <= 3,
        ip == 3 ==> t[ptr as int] == 0,
    ensures
        ({
            let (t1, p1, i1) = run_steps(clear_loop(d), t, ptr, ip, n);
            &&& p1 == ptr && 0 <= i1 <= 3 && t1.len() == TAPE_SIZE
            &&& forall|k: int| 0 <= k < TAPE_SIZE && k != ptr ==> t1[k] == t0[k]
            &&& i1 == 3 ==> t1[ptr as int] == 0
        }),
    decreases n,
{
    if n > 0 {
        let w = clear_loop(d);
        assert(w.len() == 3);
        let (t1, p1, i1, _) = step_spec(w, t, ptr, ip, None);
        lemma_clear_loop_inside(d, t0, t1, p1, i1, (n - 1) as nat);
    }
}

/// Whatever `d` is, once the loop `[`, add `d`, `]` has left, it has left the
/// tape and pointer as one `Zero` step does.
pub proof fn lemma_clear_loop_on_exit(d: i8, tape: Seq<u8>, ptr: u16, n: nat)
    requires
        tape.len() == TAPE_SIZE,
    ensures
        ({
            let (t, p, i) = run_steps(clear_loop(d), tape, ptr, 0, n);
            let (tz, pz, _, _) = step_spec(seq![IR::Zero], tape, ptr, 0, None);
            i == 3 ==> t == tz && p == pz
        }),
{
    lemma_clear_loop_inside(d, tape, tape, ptr, 0, n);
    let (t, p, i) = run_steps(clear_loop(d), tape, ptr, 0, n);
    assert(seq![IR::Zero][0] == IR::Zero);
    if i == 3 {
        assert(t =~= tape.update(ptr as int, 0));
    }
}

proof fn lemma_self_transfer_inside(o: isize, k: i8, back: isize, t0: Seq<u8>, t: Seq<u8>, ptr: u16, ip: int, n: nat)
    requires
        back == -o,
        ptr_add(ptr, o as int) == ptr,
        t0.len() == TAPE_SIZE,
        t.len() == TAPE_SIZE,
        forall|j: int| 0 <= j < TAPE_SIZE && j != ptr ==> t[j] == t0[j],
        0 <= ip <= 6,
        ip == 6 ==> t[ptr as int] == 0,
    ensures
        ({
            let (t1, p1, i1) = run_steps(transfer_loop(o, k, back), t, ptr, ip, n);
            &&& p1 == ptr && 0 <= i1 <= 6 && t1.len() == TAPE_SIZE
            &&& forall|j: int| 0 <= j < TAPE_SIZE && j != ptr ==> t1[j] == t0[j]
            &&& i1 == 6 ==> t1[ptr as int] == 0
        }),
    decreases n,
{
    if n > 0 {
        let w = transfer_loop(o, k, back);
        assert(w.len() == 6);
        lemma_ptr_add_twice(ptr, o as int, back as int);
        lemma_small_mod(ptr as nat, 65536);
        assert(ptr_add(ptr, back as int) == ptr);
        let (t1, p1, i1, _) = step_spec(w, t, ptr, ip, None);
        lemma_self_transfer_inside(o, k, back, t0, t1, p1, i1, (n - 1) as nat);
    }
}

/// When the cell that the loop `[`, shift by `o`, add `k`, shift back,
/// subtract one, `]` adds to is the current one, the loop, once it has left,
/// has left the tape and pointer as one `Multiply { amount: k,
/// output_offset: o }` step does, and for `k == 1` as one `Move` step does.
pub proof fn lemma_self_transfer_on_exit(o: isize, k: i8, back: isize, tape: Seq<u8>, ptr: u16, n: nat)
    requires
        back == -o,
        tape.len() == TAPE_SIZE,
        ptr_add(ptr, o as int) == ptr,
    ensures
        ({
            let (t, p, i) = run_steps(transfer_loop(o, k, back), tape, ptr, 0, n);
            let (tm, pm, _, _) = step_spec(
                seq![IR::Multiply { amount: k, output_offset: o }],
                tape,
                ptr,
                0,
                None,
            );
            let (tv, pv, _, _) = step_spec(seq![IR::Move { output_offset: o }], tape, ptr, 0, None);
            &&& i == 6 ==> t == tm && p == pm
            &&& i == 6 && k == 1 ==> t == tv && p == pv
        }),
{
    lemma_self_transfer_inside(o, k, back, tape, tape, ptr, 0, n);
    let (t, p, i) = run_steps(transfer_loop(o, k, back), tape, ptr, 0, n);
    assert(seq![IR::Multiply { amount: k, output_offset: o }][0] == IR::Multiply { amount: k, output_offset: o });
    if i == 6 {
        let c = tape[ptr as int];
        let moved = tape.update(ptr as int, cell_add(c, c * k));
        assert(t =~= moved.update(ptr as int, 0));
        assert(seq![IR::Move { output_offset: o }][0] == IR::Move { output_offset: o });
        assert(t =~= tape.update(ptr as int, cell_add(c, c as int)).update(ptr as int, 0));
    }
}

} // verus!
