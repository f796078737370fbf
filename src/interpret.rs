//! The abstract machine that every backend realizes: a ring of 65 536 byte
//! cells and a 16-bit pointer, driven one instruction at a time. Reading and
//! writing bytes is left to the caller, which hands input in and takes output
//! out of each step.

use vstd::prelude::*;
use vstd::arithmetic::div_mod::{
    lemma_add_mod_noop_right, lemma_mod_add_multiples_vanish, lemma_mod_multiples_vanish,
    lemma_mul_mod_noop_right, lemma_small_mod,
};
use vstd::slice::slice_subrange;
use crate::ir::{targets_in_range, IR};

verus! {

/// Number of cells on the tape.
pub const TAPE_SIZE: usize = 65536;

/// The cell value that anchor scans stop at.
pub const ANCHOR: u8 = 255;

/// `v + d`, modulo 256.
pub open spec fn cell_add(v: u8, d: int) -> u8 {
    ((v + d) % 256) as u8
}

/// `p + d`, modulo the tape size.
pub open spec fn ptr_add(p: u16, d: int) -> u16 {
    ((p + d) % 65536) as u16
}

/// The first position at or after `from` that holds `b`.
pub open spec fn first_from(t: Seq<u8>, from: int, b: u8) -> Option<int>
    decreases t.len() - from,
{
    if !(0 <= from < t.len()) {
        None
    } else if t[from] == b {
        Some(from)
    } else {
        first_from(t, from + 1, b)
    }
}

/// The last position before `upto` that holds `b`.
pub open spec fn last_before(t: Seq<u8>, upto: int, b: u8) -> Option<int>
    decreases upto,
{
    if !(0 < upto <= t.len()) {
        None
    } else if t[upto - 1] == b {
        Some(upto - 1)
    } else {
        last_before(t, upto - 1, b)
    }
}

/// Where a rightward anchor scan from `p` stops: the first anchor cell at or
/// after `p`, else, wrapping round, the first on the tape.
pub open spec fn anchor_right_target(t: Seq<u8>, p: int) -> Option<int> {
    match first_from(t, p, ANCHOR) {
        Some(k) => Some(k),
        None => first_from(t, 0, ANCHOR),
    }
}

/// Where a leftward anchor scan from `p` stops: the last anchor cell before
/// `p`, else, wrapping round, the last on the tape.
pub open spec fn anchor_left_target(t: Seq<u8>, p: int) -> Option<int> {
    match last_before(t, p, ANCHOR) {
        Some(k) => Some(k),
        None => last_before(t, t.len() as int, ANCHOR),
    }
}

/// What one step of the machine did.
#[derive(Clone, Copy, PartialEq, Eq, Structural, Debug)]
pub enum Step {
    /// An instruction ran; nothing to hand out.
    Ran,
    /// The instruction pointer is past the end of the program.
    Halted,
    /// An `Input` instruction waits for a byte; nothing changed.
    Read,
    /// An `Output` instruction ran; this byte is to be written.
    Write(u8),
    /// An anchor scan went round the whole tape without finding a 255.
    NoAnchor,
}

/// The machine's state after one step from `(tape, ptr, ip)`, and what the
/// step did. `input` is the byte for an `Input` instruction, if one is at
/// hand.
pub open spec fn step_spec(insts: Seq<IR>, tape: Seq<u8>, ptr: u16, ip: int, input: Option<u8>) -> (
    Seq<u8>,
    u16,
    int,
    Step,
) {
    if !(0 <= ip < insts.len()) {
        (tape, ptr, ip, Step::Halted)
    } else {
        let cell = tape[ptr as int];
        match insts[ip] {
            IR::Shift { amount } => (tape, ptr_add(ptr, amount as int), ip + 1, Step::Ran),
            IR::Arithmetic { amount } => (
                tape.update(ptr as int, cell_add(cell, amount as int)),
                ptr,
                ip + 1,
                Step::Ran,
            ),
            IR::LoopStart { end_index } => if cell == 0 {
                (tape, ptr, end_index + 1, Step::Ran)
            } else {
                (tape, ptr, ip + 1, Step::Ran)
            },
            IR::LoopEnd { start_index } => if cell != 0 {
                (tape, ptr, start_index + 1, Step::Ran)
            } else {
                (tape, ptr, ip + 1, Step::Ran)
            },
            IR::Input => match input {
                Some(b) => (tape.update(ptr as int, b), ptr, ip + 1, Step::Ran),
                None => (tape, ptr, ip, Step::Read),
            },
            IR::Output => (tape, ptr, ip + 1, Step::Write(cell)),
            IR::Zero => (tape.update(ptr as int, 0), ptr, ip + 1, Step::Ran),
            IR::Multiply { amount, output_offset } => {
                let dest = ptr_add(ptr, output_offset as int) as int;
                let moved = tape.update(dest, cell_add(tape[dest], cell * amount));
                (moved.update(ptr as int, 0), ptr, ip + 1, Step::Ran)
            },
            IR::Move { output_offset } => {
                let dest = ptr_add(ptr, output_offset as int) as int;
                let moved = tape.update(dest, cell_add(tape[dest], cell as int));
                (moved.update(ptr as int, 0), ptr, ip + 1, Step::Ran)
            },
            IR::AnchorRight => if cell == 0 {
                (tape, ptr, ip + 1, Step::Ran)
            } else {
                let t = tape.update(ptr as int, (cell - 1) as u8);
                match anchor_right_target(t, ptr as int) {
                    Some(k) => (t.update(k, 0), k as u16, ip + 1, Step::Ran),
                    None => (t, ptr, ip, Step::NoAnchor),
                }
            },
            IR::AnchorLeft => if cell == 0 {
                (tape, ptr, ip + 1, Step::Ran)
            } else {
                let t = tape.update(ptr as int, (cell - 1) as u8);
                match anchor_left_target(t, ptr as int) {
                    Some(k) => (t.update(k, 0), k as u16, ip + 1, Step::Ran),
                    None => (t, ptr, ip, Step::NoAnchor),
                }
            },
        }
    }
}

proof fn lemma_first_from_found(t: Seq<u8>, from: int, k: int, b: u8)
    requires
        0 <= from <= k < t.len(),
        t[k] == b,
        forall|j: int| from <= j < k ==> t[j] != b,
    ensures
        first_from(t, from, b) == Some(k),
    decreases k - from,
{
    if from < k {
        lemma_first_from_found(t, from + 1, k, b);
    }
}

proof fn lemma_first_from_absent(t: Seq<u8>, from: int, b: u8)
    requires
        0 <= from,
        forall|j: int| from <= j < t.len() ==> t[j] != b,
    ensures
        first_from(t, from, b) is None,
    decreases t.len() - from,
{
    if from < t.len() {
        lemma_first_from_absent(t, from + 1, b);
    }
}

proof fn lemma_last_before_found(t: Seq<u8>, upto: int, k: int, b: u8)
    requires
        0 <= k < upto <= t.len(),
        t[k] == b,
        forall|j: int| k < j < upto ==> t[j] != b,
    ensures
        last_before(t, upto, b) == Some(k),
    decreases upto - k,
{
    if k < upto - 1 {
        lemma_last_before_found(t, upto - 1, k, b);
    }
}

proof fn lemma_last_before_absent(t: Seq<u8>, upto: int, b: u8)
    requires
        upto <= t.len(),
        forall|j: int| 0 <= j < upto ==> t[j] != b,
    ensures
        last_before(t, upto, b) is None,
    decreases upto,
{
    if upto > 0 {
        lemma_last_before_absent(t, upto - 1, b);
    }
}

/// Relies on memchr::memchr: the position of the first occurrence of
/// `needle` in `haystack`, or `None` when it does not occur.
#[verifier::external_body]
fn find_first(needle: u8, haystack: &[u8]) -> (r: Option<usize>)
    ensures
        match r {
            Some(i) => i < haystack@.len() && haystack@[i as int] == needle && forall|j: int|
                0 <= j < i ==> haystack@[j] != needle,
            None => forall|j: int| 0 <= j < haystack@.len() ==> haystack@[j] != needle,
        },
{
    memchr::memchr(needle, haystack)
}

/// Relies on memchr::memrchr: the position of the last occurrence of
/// `needle` in `haystack`, or `None` when it does not occur.
#[verifier::external_body]
fn find_last(needle: u8, haystack: &[u8]) -> (r: Option<usize>)
    ensures
        match r {
            Some(i) => i < haystack@.len() && haystack@[i as int] == needle && forall|j: int|
                i < j < haystack@.len() ==> haystack@[j] != needle,
            None => forall|j: int| 0 <= j < haystack@.len() ==> haystack@[j] != needle,
        },
{
    memchr::memrchr(needle, haystack)
}

/// `v + d` on a cell, wrapping.
fn add_to_cell(v: u8, d: i8) -> (r: u8)
    ensures
        r == cell_add(v, d as int),
{
    let s: u16 = (v as i16 + d as i16 + 256) as u16;
    proof {
        lemma_mod_add_multiples_vanish(v + d, 256);
        lemma_small_mod((s % 256) as nat, 256);
    }
    (s % 256) as u8
}

/// `dst + src * factor` on a cell, wrapping.
fn multiply_into_cell(dst: u8, src: u8, factor: i8) -> (r: u8)
    ensures
        r == cell_add(dst, src * factor),
{
    let f: u16 = if factor >= 0 { factor as u16 } else { (factor as i16 + 256) as u16 };
    proof {
        if factor >= 0 {
            lemma_small_mod(factor as nat, 256);
        } else {
            lemma_mod_add_multiples_vanish(factor as int, 256);
            lemma_small_mod((factor + 256) as nat, 256);
        }
        assert(f == (factor as int) % 256);
        assert(src * f <= 255 * 255) by (nonlinear_arith)
            requires
                src <= 255,
                f <= 255,
        ;
        lemma_mul_mod_noop_right(src as int, factor as int, 256);
        lemma_add_mod_noop_right(dst as int, src * factor, 256);
    }
    let product: u16 = (src as u16 * f) % 256;
    ((dst as u16 + product) % 256) as u8
}

/// `dst + src` on a cell, wrapping.
fn add_cells(dst: u8, src: u8) -> (r: u8)
    ensures
        r == cell_add(dst, src as int),
{
    proof {
        lemma_small_mod(((dst + src) % 256) as nat, 256);
    }
    ((dst as u16 + src as u16) % 256) as u8
}

/// `p + d` on the pointer, modulo the tape size.
fn move_pointer(p: u16, d: isize) -> (r: u16)
    ensures
        r == ptr_add(p, d as int),
{
    let offset: usize = if d >= 0 {
        proof {
            lemma_add_mod_noop_right(p as int, d as int, 65536);
        }
        d as usize % TAPE_SIZE
    } else {
        let neg: usize = (-(d + 1)) as usize;
        let rest = neg % TAPE_SIZE;
        proof {
            let q = neg as int / 65536;
            assert(neg as int == 65536 * q + rest) by {
                vstd::arithmetic::div_mod::lemma_fundamental_div_mod(neg as int, 65536);
            }
            assert(p + (65535 - rest) == 65536 * (q + 1) + (p + d));
            lemma_mod_multiples_vanish(q + 1, p + d, 65536);
        }
        65535 - rest
    };
    ((p as usize + offset) % TAPE_SIZE) as u16
}

/// The tape, the pointer and the instruction pointer of a running program.
pub struct Machine {
    tape: Vec<u8>,
    ptr: u16,
    ip: usize,
}

impl Machine {
    /// The cells.
    pub closed spec fn spec_tape(&self) -> Seq<u8> {
        self.tape@
    }

    /// The cell pointer.
    pub closed spec fn spec_ptr(&self) -> u16 {
        self.ptr
    }

    /// The position of the next instruction.
    pub closed spec fn spec_ip(&self) -> int {
        self.ip as int
    }

    /// The tape holds exactly `TAPE_SIZE` cells.
    pub open spec fn wf(&self) -> bool {
        self.spec_tape().len() == TAPE_SIZE
    }

    /// A machine at the first instruction, pointer at cell 0, every cell 0.
    pub fn new() -> (r: Machine)
        ensures
            r.wf(),
            r.spec_tape() == Seq::new(TAPE_SIZE as nat, |i: int| 0u8),
            r.spec_ptr() == 0,
            r.spec_ip() == 0,
    {
        let tape = vec![0u8; TAPE_SIZE];
        assert(tape@ =~= Seq::new(TAPE_SIZE as nat, |i: int| 0u8));
        Machine { tape, ptr: 0, ip: 0 }
    }

    /// The value of cell `i`.
    pub fn cell(&self, i: u16) -> (r: u8)
        requires
            self.wf(),
        ensures
            r == self.spec_tape()[i as int],
    {
        self.tape[i as usize]
    }

    /// The cell pointer.
    pub fn pointer(&self) -> (r: u16)
        ensures
            r == self.spec_ptr(),
    {
        self.ptr
    }

    /// The position of the next instruction.
    pub fn position(&self) -> (r: usize)
        ensures
            r == self.spec_ip(),
    {
        self.ip
    }

    /// Runs the instruction at the instruction pointer, if any. An `Input`
    /// instruction takes `input`; without it the step changes nothing and
    /// asks for a byte.
    pub fn step(&mut self, insts: &Vec<IR>, input: Option<u8>) -> (r: Step)
        requires
            old(self).wf(),
            targets_in_range(insts@),
        ensures
            final(self).wf(),
            (final(self).spec_tape(), final(self).spec_ptr(), final(self).spec_ip(), r) == step_spec(
                insts@,
                old(self).spec_tape(),
                old(self).spec_ptr(),
                old(self).spec_ip(),
                input,
            ),
    {
        if self.ip >= insts.len() {
            return Step::Halted;
        }
        let p = self.ptr as usize;
        let cell = self.tape[p];
        let inst = insts[self.ip];
        assert(targets_in_range(insts@) ==> match insts@[self.ip as int] {
            IR::LoopStart { end_index } => end_index < insts@.len(),
            IR::LoopEnd { start_index } => start_index < insts@.len(),
            _ => true,
        });
        match inst {
            IR::Shift { amount } => {
                self.ptr = move_pointer(self.ptr, amount);
                self.ip = self.ip + 1;
                Step::Ran
            },
            IR::Arithmetic { amount } => {
                self.tape.set(p, add_to_cell(cell, amount));
                self.ip = self.ip + 1;
                Step::Ran
            },
            IR::LoopStart { end_index } => {
                if cell == 0 {
                    self.ip = end_index + 1;
                } else {
                    self.ip = self.ip + 1;
                }
                Step::Ran
            },
            IR::LoopEnd { start_index } => {
                if cell != 0 {
                    self.ip = start_index + 1;
                } else {
                    self.ip = self.ip + 1;
                }
                Step::Ran
            },
            IR::Input => match input {
                Some(b) => {
                    self.tape.set(p, b);
                    self.ip = self.ip + 1;
                    Step::Ran
                },
                None => Step::Read,
            },
            IR::Output => {
                self.ip = self.ip + 1;
                Step::Write(cell)
            },
            IR::Zero => {
                self.tape.set(p, 0);
                self.ip = self.ip + 1;
                Step::Ran
            },
            IR::Multiply { amount, output_offset } => {
                let dest = move_pointer(self.ptr, output_offset) as usize;
                let sum = multiply_into_cell(self.tape[dest], cell, amount);
                self.tape.set(dest, sum);
                self.tape.set(p, 0);
                self.ip = self.ip + 1;
                Step::Ran
            },
            IR::Move { output_offset } => {
                let dest = move_pointer(self.ptr, output_offset) as usize;
                let sum = add_cells(self.tape[dest], cell);
                self.tape.set(dest, sum);
                self.tape.set(p, 0);
                self.ip = self.ip + 1;
                Step::Ran
            },
            IR::AnchorRight => {
                if cell == 0 {
                    self.ip = self.ip + 1;
                    return Step::Ran;
                }
                self.tape.set(p, cell - 1);
                let ghost t = self.tape@;
                let whole = self.tape.as_slice();
                let tail = slice_subrange(whole, p, TAPE_SIZE);
                let found = match find_first(ANCHOR, tail) {
                    Some(o) => {
                        proof {
                            assert forall|j: int| p <= j < p + o implies t[j] != ANCHOR by {
                                assert(tail@[j - p] == t[j]);
                            }
                            assert(tail@[o as int] == t[p + o]);
                            lemma_first_from_found(t, p as int, p + o, ANCHOR);
                        }
                        Some(p + o)
                    },
                    None => {
                        proof {
                            assert forall|j: int| p <= j < t.len() implies t[j] != ANCHOR by {
                                assert(tail@[j - p] == t[j]);
                            }
                            lemma_first_from_absent(t, p as int, ANCHOR);
                        }
                        let w = find_first(ANCHOR, whole);
                        proof {
                            match w {
                                Some(k) => lemma_first_from_found(t, 0, k as int, ANCHOR),
                                None => lemma_first_from_absent(t, 0, ANCHOR),
                            }
                        }
                        w
                    },
                };
                self.finish_anchor(found)
            },
            IR::AnchorLeft => {
                if cell == 0 {
                    self.ip = self.ip + 1;
                    return Step::Ran;
                }
                self.tape.set(p, cell - 1);
                let ghost t = self.tape@;
                let whole = self.tape.as_slice();
                let head = slice_subrange(whole, 0, p);
                let found = match find_last(ANCHOR, head) {
                    Some(k) => {
                        proof {
                            assert forall|j: int| k < j < p implies t[j] != ANCHOR by {
                                assert(head@[j] == t[j]);
                            }
                            assert(head@[k as int] == t[k as int]);
                            lemma_last_before_found(t, p as int, k as int, ANCHOR);
                        }
                        Some(k)
                    },
                    None => {
                        proof {
                            assert forall|j: int| 0 <= j < p implies t[j] != ANCHOR by {
                                assert(head@[j] == t[j]);
                            }
                            lemma_last_before_absent(t, p as int, ANCHOR);
                        }
                        let tail = slice_subrange(whole, p, TAPE_SIZE);
                        match find_last(ANCHOR, tail) {
                            Some(o) => {
                                proof {
                                    assert forall|j: int| p + o < j < t.len() implies t[j] != ANCHOR by {
                                        assert(tail@[j - p] == t[j]);
                                    }
                                    assert(tail@[o as int] == t[p + o]);
                                    lemma_last_before_found(t, TAPE_SIZE as int, p + o, ANCHOR);
                                }
                                Some(p + o)
                            },
                            None => {
                                proof {
                                    assert forall|j: int| 0 <= j < t.len() implies t[j] != ANCHOR by {
                                        if j >= p {
                                            assert(tail@[j - p] == t[j]);
                                        }
                                    }
                                    lemma_last_before_absent(t, TAPE_SIZE as int, ANCHOR);
                                }
                                None
                            },
                        }
                    },
                };
                self.finish_anchor(found)
            },
        }
    }

    /// Ends an anchor scan: moves to the anchor found and zeroes it, or
    /// reports that there was none.
    fn finish_anchor(&mut self, found: Option<usize>) -> (r: Step)
        requires
            old(self).wf(),
            old(self).ip < usize::MAX,
            found matches Some(k) ==> k < TAPE_SIZE,
        ensures
            final(self).wf(),
            match found {
                Some(k) => final(self).tape@ == old(self).tape@.update(k as int, 0) && final(self).ptr == k as u16
                    && final(self).ip == old(self).ip + 1 && r == Step::Ran,
                None => *final(self) == *old(self) && r == Step::NoAnchor,
            },
    {
        match found {
            Some(k) => {
                self.tape.set(k, 0);
                self.ptr = k as u16;
                self.ip = self.ip + 1;
                Step::Ran
            },
            None => Step::NoAnchor,
        }
    }
}

/// Wrap discipline: from a full tape, a step leaves a full tape, moves the
/// pointer modulo the tape size and changes cells modulo 256.
pub proof fn lemma_step_wraps(insts: Seq<IR>, tape: Seq<u8>, ptr: u16, ip: int, input: Option<u8>)
    requires
        tape.len() == TAPE_SIZE,
    ensures
        step_spec(insts, tape, ptr, ip, input).0.len() == TAPE_SIZE,
        0 <= ip < insts.len() ==> match insts[ip] {
            IR::Shift { amount } => step_spec(insts, tape, ptr, ip, input).1 as int == (ptr + amount) % 65536,
            IR::Arithmetic { amount } => step_spec(insts, tape, ptr, ip, input).0[ptr as int] as int == (
            tape[ptr as int] + amount) % 256,
            _ => true,
        },
{
    if 0 <= ip < insts.len() {
        let cell = tape[ptr as int];
        match insts[ip] {
            IR::Shift { amount } => {
                vstd::arithmetic::div_mod::lemma_mod_bound(ptr + amount, 65536);
            },
            IR::Arithmetic { amount } => {
                vstd::arithmetic::div_mod::lemma_mod_bound(cell + amount, 256);
            },
            IR::AnchorRight => {
                let t = tape.update(ptr as int, (cell - 1) as u8);
                if let Some(k) = anchor_right_target(t, ptr as int) {
                    lemma_anchor_target_in_tape(t, ptr as int);
                }
            },
            IR::AnchorLeft => {
                let t = tape.update(ptr as int, (cell - 1) as u8);
                if let Some(k) = anchor_left_target(t, ptr as int) {
                    lemma_anchor_target_in_tape(t, ptr as int);
                }
            },
            _ => {},
        }
    }
}

proof fn lemma_first_from_in(t: Seq<u8>, from: int, b: u8)
    ensures
        first_from(t, from, b) matches Some(k) ==> 0 <= k < t.len(),
    decreases t.len() - from,
{
    if 0 <= from < t.len() && t[from] != b {
        lemma_first_from_in(t, from + 1, b);
    }
}

proof fn lemma_last_before_in(t: Seq<u8>, upto: int, b: u8)
    ensures
        last_before(t, upto, b) matches Some(k) ==> 0 <= k < t.len(),
    decreases upto,
{
    if 0 < upto <= t.len() && t[upto - 1] != b {
        lemma_last_before_in(t, upto - 1, b);
    }
}

proof fn lemma_anchor_target_in_tape(t: Seq<u8>, p: int)
    ensures
        anchor_right_target(t, p) matches Some(k) ==> 0 <= k < t.len(),
        anchor_left_target(t, p) matches Some(k) ==> 0 <= k < t.len(),
{
    lemma_first_from_in(t, p, ANCHOR);
    lemma_first_from_in(t, 0, ANCHOR);
    lemma_last_before_in(t, p, ANCHOR);
    lemma_last_before_in(t, t.len() as int, ANCHOR);
}

} // verus!
