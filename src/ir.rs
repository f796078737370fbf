//! The intermediate representation, the parser that lowers source text into
//! it, the bracket check on source text, the two optimizer passes and the
//! bracket matcher.

use vstd::prelude::*;
use vstd::wrapping::{i8_specs, isize_specs};
use crate::chunk_list::ChunkList;

verus! {

/// One instruction of the intermediate representation.
#[allow(inconsistent_fields)]
#[derive(Clone, Copy, PartialEq, Eq, Structural, Debug)]
pub enum IR {
    /// `>` or `<`: move the pointer by `amount`, modulo the tape size.
    Shift { amount: isize },
    /// `+` or `-`: add `amount` to the current cell, wrapping.
    Arithmetic { amount: i8 },
    /// `[`: jump past the partner at `end_index` when the cell is zero.
    LoopStart { end_index: usize },
    /// `]`: jump back to the partner at `start_index` when the cell is non-zero.
    LoopEnd { start_index: usize },
    /// `,`: read one byte into the current cell.
    Input,
    /// `.`: write the current cell.
    Output,
    /// `[-]`: set the current cell to zero.
    Zero,
    /// `[>+++<-]`: add the cell times `amount` to the cell at `output_offset`, then zero it.
    Multiply { amount: i8, output_offset: isize },
    /// `[>+<-]`: add the cell to the cell at `output_offset`, then zero it.
    Move { output_offset: isize },
    /// `[->+]`: scan rightward for a cell holding 255.
    AnchorRight,
    /// `[-<+]`: scan leftward for a cell holding 255.
    AnchorLeft,
}

/// The loop target that the parser leaves for the matcher to fill in.
pub const UNRESOLVED: usize = usize::MAX;

/// Size of the buckets that the parser's output is held in.
pub const CHUNK_SIZE: usize = 2048;

/// The instruction that a source character stands for, if any.
pub open spec fn lower_char(c: char) -> Option<IR> {
    if c == '>' {
        Some(IR::Shift { amount: 1 })
    } else if c == '<' {
        Some(IR::Shift { amount: -1isize })
    } else if c == '+' {
        Some(IR::Arithmetic { amount: 1 })
    } else if c == '-' {
        Some(IR::Arithmetic { amount: -1i8 })
    } else if c == '[' {
        Some(IR::LoopStart { end_index: UNRESOLVED })
    } else if c == ']' {
        Some(IR::LoopEnd { start_index: UNRESOLVED })
    } else if c == ',' {
        Some(IR::Input)
    } else if c == '.' {
        Some(IR::Output)
    } else {
        None
    }
}

/// The instructions of a source text, comments dropped.
pub open spec fn parse(s: Seq<char>) -> Seq<IR>
    decreases s.len(),
{
    if s.len() == 0 {
        Seq::empty()
    } else {
        match lower_char(s.last()) {
            Some(x) => parse(s.drop_last()).push(x),
            None => parse(s.drop_last()),
        }
    }
}

/// How many times `c` occurs in `s`.
pub open spec fn count_char(s: Seq<char>, c: char) -> nat
    decreases s.len(),
{
    if s.len() == 0 {
        0
    } else {
        count_char(s.drop_last(), c) + if s.last() == c { 1nat } else { 0nat }
    }
}

/// How many `LoopStart`s `s` holds.
pub open spec fn count_starts(s: Seq<IR>) -> nat
    decreases s.len(),
{
    if s.len() == 0 {
        0
    } else {
        count_starts(s.drop_last()) + if s.last() is LoopStart { 1nat } else { 0nat }
    }
}

/// How many `LoopEnd`s `s` holds.
pub open spec fn count_ends(s: Seq<IR>) -> nat
    decreases s.len(),
{
    if s.len() == 0 {
        0
    } else {
        count_ends(s.drop_last()) + if s.last() is LoopEnd { 1nat } else { 0nat }
    }
}

proof fn lemma_count_char_bound(s: Seq<char>, c: char)
    ensures
        count_char(s, c) <= s.len(),
    decreases s.len(),
{
    if s.len() > 0 {
        lemma_count_char_bound(s.drop_last(), c);
    }
}

/// Lowers source text into instructions, dropping every other character.
pub fn compile(code: String) -> (r: ChunkList<IR>)
    ensures
        r.wf(),
        r@ == parse(code@),
{
    let s: &str = code.as_str();
    let n = s.unicode_len();
    let mut ir: Vec<IR> = Vec::new();
    let mut i: usize = 0;
    while i < n
        invariant
            n == s@.len(),
            i <= n,
            ir@ == parse(s@.take(i as int)),
        decreases n - i,
    {
        let c = s.get_char(i);
        proof {
            assert(s@.take(i + 1).drop_last() =~= s@.take(i as int));
        }
        if c == '>' {
            ir.push(IR::Shift { amount: 1 });
        } else if c == '<' {
            ir.push(IR::Shift { amount: -1 });
        } else if c == '+' {
            ir.push(IR::Arithmetic { amount: 1 });
        } else if c == '-' {
            ir.push(IR::Arithmetic { amount: -1 });
        } else if c == '[' {
            ir.push(IR::LoopStart { end_index: UNRESOLVED });
        } else if c == ']' {
            ir.push(IR::LoopEnd { start_index: UNRESOLVED });
        } else if c == ',' {
            ir.push(IR::Input);
        } else if c == '.' {
            ir.push(IR::Output);
        }
        i = i + 1;
    }
    assert(s@.take(n as int) =~= s@);
    ChunkList::new(ir, CHUNK_SIZE)
}

/// Why a source text's brackets do not balance.
#[derive(Clone, Copy, PartialEq, Eq, Structural, Debug)]
pub enum BracketError {
    /// This many more `[` than `]`.
    UnmatchedOpening(usize),
    /// This many more `]` than `[`.
    UnmatchedClosing(usize),
}

/// The outcome of the bracket check: `Ok` when `[` and `]` occur equally
/// often, else the side in excess and by how much.
pub open spec fn bracket_check(s: Seq<char>) -> Result<(), BracketError> {
    let opening = count_char(s, '[');
    let closing = count_char(s, ']');
    if opening > closing {
        Err(BracketError::UnmatchedOpening((opening - closing) as usize))
    } else if closing > opening {
        Err(BracketError::UnmatchedClosing((closing - opening) as usize))
    } else {
        Ok(())
    }
}

/// Checks that a source text has as many `[` as `]`.
pub fn verify(source: &str) -> (r: Result<(), BracketError>)
    ensures
        r == bracket_check(source@),
{
    let n = source.unicode_len();
    let mut opening: usize = 0;
    let mut closing: usize = 0;
    let mut i: usize = 0;
    while i < n
        invariant
            n == source@.len(),
            i <= n,
            opening == count_char(source@.take(i as int), '['),
            closing == count_char(source@.take(i as int), ']'),
        decreases n - i,
    {
        let c = source.get_char(i);
        proof {
            assert(source@.take(i + 1).drop_last() =~= source@.take(i as int));
            lemma_count_char_bound(source@.take(i as int), '[');
            lemma_count_char_bound(source@.take(i as int), ']');
        }
        if c == '[' {
            opening = opening + 1;
        } else if c == ']' {
            closing = closing + 1;
        }
        i = i + 1;
    }
    assert(source@.take(n as int) =~= source@);
    if opening > closing {
        Err(BracketError::UnmatchedOpening(opening - closing))
    } else if closing > opening {
        Err(BracketError::UnmatchedClosing(closing - opening))
    } else {
        Ok(())
    }
}

/// Whether run fusion merges `a` followed by `b`: two shifts, or two
/// arithmetic steps.
pub open spec fn fusable(a: IR, b: IR) -> bool {
    (a is Shift && b is Shift) || (a is Arithmetic && b is Arithmetic)
}

/// No two neighbours of `s` can be fused.
pub open spec fn runs_fused(s: Seq<IR>) -> bool {
    forall|i: int| 0 <= i < s.len() - 1 ==> !fusable(#[trigger] s[i], s[i + 1])
}

/// Appends `x` to a fused prefix, merging it into the last instruction where
/// both are shifts or both arithmetic; an arithmetic sum of zero vanishes.
pub open spec fn push_fused(out: Seq<IR>, x: IR) -> Seq<IR> {
    if out.len() == 0 {
        out.push(x)
    } else {
        match (out.last(), x) {
            (IR::Shift { amount: a }, IR::Shift { amount: b }) => out.drop_last().push(
                IR::Shift { amount: isize_specs::wrapping_add(a, b) },
            ),
            (IR::Arithmetic { amount: a }, IR::Arithmetic { amount: b }) => {
                let sum = i8_specs::wrapping_add(a, b);
                if sum == 0 {
                    out.drop_last()
                } else {
                    out.drop_last().push(IR::Arithmetic { amount: sum })
                }
            },
            _ => out.push(x),
        }
    }
}

/// Feeds `rest`, in order, onto the fused prefix `out`.
pub open spec fn fuse_onto(out: Seq<IR>, rest: Seq<IR>) -> Seq<IR>
    decreases rest.len(),
{
    if rest.len() == 0 {
        out
    } else {
        fuse_onto(push_fused(out, rest[0]), rest.drop_first())
    }
}

/// What run fusion makes of `s`.
pub open spec fn fuse_runs(s: Seq<IR>) -> Seq<IR> {
    fuse_onto(Seq::empty(), s)
}

proof fn lemma_push_fused_keeps_fused(out: Seq<IR>, x: IR)
    requires
        runs_fused(out),
    ensures
        runs_fused(push_fused(out, x)),
{
    let r = push_fused(out, x);
    if out.len() > 0 {
        assert forall|i: int| 0 <= i < r.len() - 1 implies !fusable(#[trigger] r[i], r[i + 1]) by {
            if i < out.len() - 2 {
                assert(r[i] == out[i] && r[i + 1] == out[i + 1]);
            } else if out.len() >= 2 && i == out.len() - 2 {
                assert(r[i] == out[i]);
                assert(!fusable(out[i], out[i + 1]));
            }
        }
    }
}

proof fn lemma_fuse_onto_fused(out: Seq<IR>, rest: Seq<IR>)
    requires
        runs_fused(out),
    ensures
        runs_fused(fuse_onto(out, rest)),
    decreases rest.len(),
{
    if rest.len() > 0 {
        lemma_push_fused_keeps_fused(out, rest[0]);
        lemma_fuse_onto_fused(push_fused(out, rest[0]), rest.drop_first());
    }
}

proof fn lemma_fused_is_fixed(s: Seq<IR>, k: int)
    requires
        runs_fused(s),
        0 <= k <= s.len(),
    ensures
        fuse_onto(s.take(k), s.skip(k)) == s,
    decreases s.len() - k,
{
    if k == s.len() {
        assert(s.take(k) =~= s);
        assert(s.skip(k).len() == 0);
    } else {
        if k > 0 {
            assert(!fusable(s[k - 1], s[k]));
            assert(s.take(k).last() == s[k - 1]);
        }
        assert(push_fused(s.take(k), s[k]) =~= s.take(k + 1));
        assert(s.skip(k).drop_first() =~= s.skip(k + 1));
        lemma_fused_is_fixed(s, k + 1);
    }
}

/// Run fusion leaves no fusable neighbours.
pub proof fn lemma_fuse_runs_fused(s: Seq<IR>)
    ensures
        runs_fused(fuse_runs(s)),
{
    lemma_fuse_onto_fused(Seq::empty(), s);
}

/// Run fusion changes nothing in a sequence without fusable neighbours.
pub proof fn lemma_fuse_runs_fixed(s: Seq<IR>)
    requires
        runs_fused(s),
    ensures
        fuse_runs(s) == s,
{
    lemma_fused_is_fixed(s, 0);
    assert(s.take(0) =~= Seq::<IR>::empty());
    assert(s.skip(0) =~= s);
}

/// Run fusion is idempotent: a second application changes nothing.
pub proof fn lemma_fuse_runs_idempotent(s: Seq<IR>)
    ensures
        fuse_runs(fuse_runs(s)) == fuse_runs(s),
{
    lemma_fuse_runs_fused(s);
    lemma_fuse_runs_fixed(fuse_runs(s));
}

/// Fuses neighbouring shifts and neighbouring arithmetic steps, dropping
/// arithmetic that sums to zero. Returns how many instructions were removed.
pub fn collapse_repeated(ir: &mut ChunkList<IR>) -> (pruned: usize)
    requires
        old(ir).wf(),
    ensures
        final(ir).wf(),
        final(ir)@ == fuse_runs(old(ir)@),
        pruned == old(ir)@.len() - final(ir)@.len(),
{
    let ghost orig = ir@;
    let mut len = ir.len();
    let mut k: usize = 0;
    let mut pruned: usize = 0;
    proof {
        assert(ir@.take(0) =~= Seq::<IR>::empty());
        assert(ir@.skip(0) =~= ir@);
    }
    while k < len
        invariant
            ir.wf(),
            len == ir@.len(),
            k <= len,
            fuse_onto(ir@.take(k as int), ir@.skip(k as int)) == fuse_runs(orig),
            runs_fused(ir@.take(k as int)),
            pruned + len == orig.len(),
            orig.len() <= usize::MAX,
        decreases 2 * (len as int) - (k as int),
    {
        let ghost s = ir@;
        proof {
            assert(s.skip(k as int).drop_first() =~= s.skip(k + 1));
            assert(s.skip(k as int)[0] == s[k as int]);
            assert(fuse_onto(s.take(k as int), s.skip(k as int)) == fuse_onto(
                push_fused(s.take(k as int), s[k as int]),
                s.skip(k + 1),
            ));
        }
        if k == 0 {
            proof {
                assert(push_fused(Seq::empty(), s[0]) =~= s.take(1));
                assert(s.take(0) =~= Seq::<IR>::empty());
            }
            k = 1;
        } else {
            let prev = *ir.index(k - 1);
            let cur = *ir.index(k);
            let ghost p = s.take(k as int);
            assert(p.last() == prev);
            match (prev, cur) {
                (IR::Shift { amount: a }, IR::Shift { amount: b }) => {
                    ir.set(k - 1, IR::Shift { amount: a.wrapping_add(b) });
                    ir.remove(k);
                    len = len - 1;
                    pruned = pruned + 1;
                    proof {
                        assert(ir@.take(k as int) =~= push_fused(p, cur));
                        assert(ir@.skip(k as int) =~= s.skip(k + 1));
                        lemma_push_fused_keeps_fused(p, cur);
                    }
                },
                (IR::Arithmetic { amount: a }, IR::Arithmetic { amount: b }) => {
                    let sum = a.wrapping_add(b);
                    if sum == 0 {
                        ir.remove(k);
                        ir.remove(k - 1);
                        len = len - 2;
                        pruned = pruned + 2;
                        k = k - 1;
                        proof {
                            assert(ir@.take(k as int) =~= push_fused(p, cur));
                            assert(ir@.skip(k as int) =~= s.skip(k + 2));
                            lemma_push_fused_keeps_fused(p, cur);
                        }
                    } else {
                        ir.set(k - 1, IR::Arithmetic { amount: sum });
                        ir.remove(k);
                        len = len - 1;
                        pruned = pruned + 1;
                        proof {
                            assert(ir@.take(k as int) =~= push_fused(p, cur));
                            assert(ir@.skip(k as int) =~= s.skip(k + 1));
                            lemma_push_fused_keeps_fused(p, cur);
                        }
                    }
                },
                _ => {
                    proof {
                        assert(push_fused(p, cur) =~= s.take(k + 1));
                        lemma_push_fused_keeps_fused(p, cur);
                    }
                    k = k + 1;
                },
            }
        }
    }
    proof {
        assert(ir@.take(len as int) =~= ir@);
        assert(ir@.skip(len as int) =~= Seq::<IR>::empty());
    }
    pruned
}

/// Same number of `LoopStart`s as `LoopEnd`s.
pub open spec fn balanced(s: Seq<IR>) -> bool {
    count_starts(s) == count_ends(s)
}

/// Neither a `LoopStart` nor a `LoopEnd`.
pub open spec fn not_bracket(x: IR) -> bool {
    !(x is LoopStart) && !(x is LoopEnd)
}

proof fn lemma_counts_concat(a: Seq<IR>, b: Seq<IR>)
    ensures
        count_starts(a + b) == count_starts(a) + count_starts(b),
        count_ends(a + b) == count_ends(a) + count_ends(b),
    decreases b.len(),
{
    if b.len() == 0 {
        assert(a + b =~= a);
    } else {
        assert((a + b).drop_last() =~= a + b.drop_last());
        assert((a + b).last() == b.last());
        lemma_counts_concat(a, b.drop_last());
    }
}

proof fn lemma_counts_single(x: IR)
    ensures
        count_starts(seq![x]) == if x is LoopStart { 1nat } else { 0nat },
        count_ends(seq![x]) == if x is LoopEnd { 1nat } else { 0nat },
{
    assert(seq![x].drop_last() =~= Seq::<IR>::empty());
    assert(seq![x].last() == x);
    assert(count_starts(Seq::<IR>::empty()) == 0);
    assert(count_ends(Seq::<IR>::empty()) == 0);
}

proof fn lemma_counts_push(s: Seq<IR>, x: IR)
    ensures
        count_starts(s.push(x)) == count_starts(s) + if x is LoopStart { 1nat } else { 0nat },
        count_ends(s.push(x)) == count_ends(s) + if x is LoopEnd { 1nat } else { 0nat },
{
    assert(s.push(x).drop_last() =~= s);
}

proof fn lemma_counts_front(s: Seq<IR>)
    requires
        s.len() > 0,
    ensures
        count_starts(s) == count_starts(s.drop_first()) + if s[0] is LoopStart { 1nat } else { 0nat },
        count_ends(s) == count_ends(s.drop_first()) + if s[0] is LoopEnd { 1nat } else { 0nat },
{
    assert(s =~= seq![s[0]] + s.drop_first());
    lemma_counts_concat(seq![s[0]], s.drop_first());
    lemma_counts_single(s[0]);
}

proof fn lemma_counts_no_brackets(s: Seq<IR>)
    requires
        forall|i: int| 0 <= i < s.len() ==> not_bracket(#[trigger] s[i]),
    ensures
        count_starts(s) == 0,
        count_ends(s) == 0,
    decreases s.len(),
{
    if s.len() > 0 {
        assert(forall|i: int| 0 <= i < s.len() - 1 ==> s.drop_last()[i] == s[i]);
        lemma_counts_no_brackets(s.drop_last());
        assert(not_bracket(s[s.len() - 1]));
    }
}

/// Parsing keeps every bracket of the source text, and adds none.
pub proof fn lemma_parse_counts(s: Seq<char>)
    ensures
        count_starts(parse(s)) == count_char(s, '['),
        count_ends(parse(s)) == count_char(s, ']'),
    decreases s.len(),
{
    if s.len() > 0 {
        lemma_parse_counts(s.drop_last());
        if let Some(x) = lower_char(s.last()) {
            lemma_counts_push(parse(s.drop_last()), x);
        }
    }
}

/// A source text that passes the bracket check parses to a balanced sequence.
pub proof fn lemma_parse_balanced(s: Seq<char>)
    requires
        bracket_check(s) is Ok,
    ensures
        balanced(parse(s)),
{
    lemma_parse_counts(s);
}

proof fn lemma_push_fused_counts(out: Seq<IR>, x: IR)
    ensures
        count_starts(push_fused(out, x)) == count_starts(out) + if x is LoopStart { 1nat } else { 0nat },
        count_ends(push_fused(out, x)) == count_ends(out) + if x is LoopEnd { 1nat } else { 0nat },
{
    if out.len() > 0 && fusable(out.last(), x) {
        let d = out.drop_last();
        assert(out =~= d.push(out.last()));
        lemma_counts_push(d, out.last());
        match (out.last(), x) {
            (IR::Shift { amount: a }, IR::Shift { amount: b }) => {
                lemma_counts_push(d, IR::Shift { amount: isize_specs::wrapping_add(a, b) });
            },
            (IR::Arithmetic { amount: a }, IR::Arithmetic { amount: b }) => {
                lemma_counts_push(d, IR::Arithmetic { amount: i8_specs::wrapping_add(a, b) });
            },
            _ => {},
        }
    } else {
        lemma_counts_push(out, x);
    }
}

proof fn lemma_fuse_onto_counts(out: Seq<IR>, rest: Seq<IR>)
    ensures
        count_starts(fuse_onto(out, rest)) == count_starts(out) + count_starts(rest),
        count_ends(fuse_onto(out, rest)) == count_ends(out) + count_ends(rest),
    decreases rest.len(),
{
    if rest.len() > 0 {
        lemma_push_fused_counts(out, rest[0]);
        lemma_fuse_onto_counts(push_fused(out, rest[0]), rest.drop_first());
        lemma_counts_front(rest);
    }
}

/// Run fusion keeps every bracket: the counts of `LoopStart` and `LoopEnd` are
/// unchanged.
pub proof fn lemma_fuse_runs_counts(s: Seq<IR>)
    ensures
        count_starts(fuse_runs(s)) == count_starts(s),
        count_ends(fuse_runs(s)) == count_ends(s),
        balanced(s) ==> balanced(fuse_runs(s)),
{
    lemma_fuse_onto_counts(Seq::empty(), s);
}

/// Whether `x` is one of the six instructions that the parser produces.
pub open spec fn is_primitive(x: IR) -> bool {
    x is Shift || x is Arithmetic || x is LoopStart || x is LoopEnd || x is Input || x is Output
}

/// The compound for a window `[`, shift by `o`, add `k`, shift by `-o`,
/// subtract one, `]` at the start of `s`: `Move` for `k == 1`, else
/// `Multiply` for `k >= 0`.
pub open spec fn transfer_window(s: Seq<IR>) -> Option<IR> {
    if s.len() >= 6 && s[0] is LoopStart && s[5] is LoopEnd {
        match (s[1], s[2], s[3], s[4]) {
            (
                IR::Shift { amount: o1 },
                IR::Arithmetic { amount: k },
                IR::Shift { amount: o2 },
                IR::Arithmetic { amount: m },
            ) => if m == -1 && o1 == -o2 && k == 1 {
                Some(IR::Move { output_offset: o1 })
            } else if m == -1 && o1 == -o2 && k >= 0 {
                Some(IR::Multiply { amount: k, output_offset: o1 })
            } else {
                None
            },
            _ => None,
        }
    } else {
        None
    }
}

/// The compound for a window `[`, subtract one, shift by one, add one, `]`
/// at the start of `s`: the shift's direction picks the anchor.
pub open spec fn anchor_window(s: Seq<IR>) -> Option<IR> {
    if s.len() >= 5 && s[0] is LoopStart && s[4] is LoopEnd && s[1] == (IR::Arithmetic { amount: -1i8 })
        && s[3] == (IR::Arithmetic { amount: 1 }) {
        if s[2] == (IR::Shift { amount: 1 }) {
            Some(IR::AnchorRight)
        } else if s[2] == (IR::Shift { amount: -1isize }) {
            Some(IR::AnchorLeft)
        } else {
            None
        }
    } else {
        None
    }
}

/// Whether `s` starts with `[`, any arithmetic, `]`.
pub open spec fn zero_window(s: Seq<IR>) -> bool {
    s.len() >= 3 && s[0] is LoopStart && s[1] is Arithmetic && s[2] is LoopEnd
}

/// The compound that the window at the start of `s` is rewritten to, with the
/// window's length, in order of priority.
pub open spec fn idiom_at(s: Seq<IR>) -> Option<(IR, nat)> {
    if let Some(x) = transfer_window(s) {
        Some((x, 6nat))
    } else if let Some(x) = anchor_window(s) {
        Some((x, 5nat))
    } else if zero_window(s) {
        Some((IR::Zero, 3nat))
    } else {
        None
    }
}

/// The length of the window at the start of `s`, or zero.
pub open spec fn idiom_len(s: Seq<IR>) -> nat {
    match idiom_at(s) {
        Some((_, n)) => n,
        None => 0,
    }
}

/// The compound that the window at the start of `s` becomes.
pub open spec fn idiom_op(s: Seq<IR>) -> IR {
    match idiom_at(s) {
        Some((x, _)) => x,
        None => IR::Zero,
    }
}

/// What idiom recognition makes of `s`: a left-to-right walk that replaces
/// each window it stands on and then steps past the replacement.
pub open spec fn rewrite_idioms(s: Seq<IR>) -> Seq<IR>
    decreases s.len(),
{
    if s.len() == 0 {
        Seq::empty()
    } else {
        match idiom_at(s) {
            Some((x, n)) => seq![x] + rewrite_idioms(s.skip(n as int)),
            None => seq![s[0]] + rewrite_idioms(s.skip(1)),
        }
    }
}

/// No window starts anywhere in `s`.
pub open spec fn idiom_free(s: Seq<IR>) -> bool {
    forall|i: int| 0 <= i < s.len() ==> #[trigger] idiom_at(s.skip(i)) is None
}

proof fn lemma_idiom_shape(s: Seq<IR>)
    requires
        idiom_at(s) is Some,
    ensures
        idiom_len(s) <= s.len(),
        !is_primitive(idiom_op(s)),
        not_bracket(idiom_op(s)),
        forall|j: int| 0 <= j < idiom_len(s) ==> is_primitive(#[trigger] s[j]),
        s[0] is LoopStart,
        s[idiom_len(s) - 1] is LoopEnd,
        forall|j: int| 0 < j < idiom_len(s) - 1 ==> not_bracket(#[trigger] s[j]),
{
}

/// A window is decided by its own elements.
proof fn lemma_idiom_prefix(s: Seq<IR>, u: Seq<IR>)
    requires
        idiom_at(s) is Some,
        u.len() >= idiom_len(s),
        u.take(idiom_len(s) as int) == s.take(idiom_len(s) as int),
    ensures
        idiom_at(u) is Some,
{
    let n = idiom_len(s) as int;
    lemma_idiom_shape(s);
    assert forall|j: int| 0 <= j < n implies u[j] == s[j] by {
        assert(u.take(n)[j] == s.take(n)[j]);
    }
}

proof fn lemma_rewrite_primitive_prefix(t: Seq<IR>, m: int)
    requires
        0 <= m <= rewrite_idioms(t).len(),
        forall|j: int| 0 <= j < m ==> is_primitive(#[trigger] rewrite_idioms(t)[j]),
    ensures
        m <= t.len(),
        rewrite_idioms(t).take(m) == t.take(m),
    decreases t.len(),
{
    let r = rewrite_idioms(t);
    if m == 0 {
        assert(r.take(0) =~= t.take(0));
    } else {
        assert(t.len() > 0);
        assert(is_primitive(r[0]));
        if idiom_at(t) is Some {
            lemma_idiom_shape(t);
            assert(r[0] == idiom_op(t));
        }
        let r1 = rewrite_idioms(t.skip(1));
        assert(r == seq![t[0]] + r1);
        assert forall|j: int| 0 <= j < m - 1 implies is_primitive(#[trigger] r1[j]) by {
            assert(r[j + 1] == r1[j]);
        }
        lemma_rewrite_primitive_prefix(t.skip(1), m - 1);
        assert(r.take(m) =~= seq![t[0]] + r1.take(m - 1));
        assert(t.take(m) =~= seq![t[0]] + t.skip(1).take(m - 1));
    }
}

/// Idiom recognition leaves no window behind.
pub proof fn lemma_rewrite_idiom_free(t: Seq<IR>)
    ensures
        idiom_free(rewrite_idioms(t)),
    decreases t.len(),
{
    let r = rewrite_idioms(t);
    if t.len() > 0 {
        let n: int = match idiom_at(t) {
            Some((x, k)) => k as int,
            None => 1,
        };
        if idiom_at(t) is Some {
            lemma_idiom_shape(t);
        }
        let r1 = rewrite_idioms(t.skip(n));
        lemma_rewrite_idiom_free(t.skip(n));
        assert(r == seq![r[0]] + r1);
        assert forall|i: int| 0 <= i < r.len() implies #[trigger] idiom_at(r.skip(i)) is None by {
            if i > 0 {
                assert(r.skip(i) =~= r1.skip(i - 1));
            } else if idiom_at(r) is Some {
                assert(r.skip(0) =~= r);
                lemma_idiom_shape(r);
                let w = idiom_len(r) as int;
                assert(is_primitive(r[0]));
                assert(idiom_at(t) is None);
                assert(n == 1);
                assert forall|j: int| 0 <= j < w - 1 implies is_primitive(#[trigger] r1[j]) by {
                    assert(r[j + 1] == r1[j]);
                }
                lemma_rewrite_primitive_prefix(t.skip(1), w - 1);
                assert(t.take(w) =~= seq![t[0]] + t.skip(1).take(w - 1));
                assert(r.take(w) =~= seq![t[0]] + r1.take(w - 1));
                lemma_idiom_prefix(r, t);
            }
        }
    }
}

/// Idiom recognition changes nothing in a sequence without windows.
pub proof fn lemma_rewrite_fixed(s: Seq<IR>)
    requires
        idiom_free(s),
    ensures
        rewrite_idioms(s) == s,
    decreases s.len(),
{
    if s.len() > 0 {
        assert(s.skip(0) =~= s);
        assert(idiom_at(s.skip(0)) is None);
        assert forall|i: int| 0 <= i < s.skip(1).len() implies #[trigger] idiom_at(s.skip(1).skip(i)) is None by {
            assert(s.skip(1).skip(i) =~= s.skip(i + 1));
        }
        lemma_rewrite_fixed(s.skip(1));
        assert(seq![s[0]] + s.skip(1) =~= s);
    }
}

/// Idiom recognition is idempotent: a second application changes nothing.
pub proof fn lemma_rewrite_idioms_idempotent(s: Seq<IR>)
    ensures
        rewrite_idioms(rewrite_idioms(s)) == rewrite_idioms(s),
{
    lemma_rewrite_idiom_free(s);
    lemma_rewrite_fixed(rewrite_idioms(s));
}

/// Each rewrite takes away one `LoopStart` and one `LoopEnd`, so idiom
/// recognition keeps the difference of their counts, and with it balance.
pub proof fn lemma_rewrite_idioms_counts(s: Seq<IR>)
    ensures
        count_starts(rewrite_idioms(s)) - count_ends(rewrite_idioms(s)) == count_starts(s) - count_ends(s),
        balanced(s) ==> balanced(rewrite_idioms(s)),
    decreases s.len(),
{
    if s.len() > 0 {
        match idiom_at(s) {
            Some((x, n)) => {
                lemma_idiom_shape(s);
                let n = n as int;
                lemma_rewrite_idioms_counts(s.skip(n));
                lemma_counts_concat(seq![x], rewrite_idioms(s.skip(n)));
                lemma_counts_single(x);
                let inner = s.subrange(1, n - 1);
                assert(s =~= seq![s[0]] + inner + seq![s[n - 1]] + s.skip(n));
                lemma_counts_concat(seq![s[0]] + inner + seq![s[n - 1]], s.skip(n));
                lemma_counts_concat(seq![s[0]] + inner, seq![s[n - 1]]);
                lemma_counts_concat(seq![s[0]], inner);
                lemma_counts_single(s[0]);
                lemma_counts_single(s[n - 1]);
                assert forall|i: int| 0 <= i < inner.len() implies not_bracket(#[trigger] inner[i]) by {
                    assert(inner[i] == s[i + 1]);
                }
                lemma_counts_no_brackets(inner);
            },
            None => {
                lemma_rewrite_idioms_counts(s.skip(1));
                lemma_counts_concat(seq![s[0]], rewrite_idioms(s.skip(1)));
                lemma_counts_single(s[0]);
                lemma_counts_front(s);
                assert(s.drop_first() =~= s.skip(1));
            },
        }
    }
}

/// Looks for a window at position `idx`, in order of priority.
fn find_idiom(ir: &ChunkList<IR>, idx: usize) -> (r: Option<(IR, usize)>)
    requires
        ir.wf(),
        idx < ir@.len(),
    ensures
        match r {
            Some((x, n)) => idiom_at(ir@.skip(idx as int)) == Some((x, n as nat)),
            None => idiom_at(ir@.skip(idx as int)) is None,
        },
{
    let ghost s = ir@.skip(idx as int);
    let avail = ir.len() - idx;
    if avail >= 6 {
        let a = *ir.index(idx);
        let b = *ir.index(idx + 1);
        let c = *ir.index(idx + 2);
        let d = *ir.index(idx + 3);
        let e = *ir.index(idx + 4);
        let f = *ir.index(idx + 5);
        assert(s[0] == a && s[1] == b && s[2] == c && s[3] == d && s[4] == e && s[5] == f);
        if let (
            IR::LoopStart { .. },
            IR::Shift { amount: o1 },
            IR::Arithmetic { amount: k },
            IR::Shift { amount: o2 },
            IR::Arithmetic { amount: m },
            IR::LoopEnd { .. },
        ) = (a, b, c, d, e, f) {
            if m == -1 && o2 != isize::MIN && o1 == -o2 {
                if k == 1 {
                    return Some((IR::Move { output_offset: o1 }, 6));
                } else if k >= 0 {
                    return Some((IR::Multiply { amount: k, output_offset: o1 }, 6));
                }
            }
        }
    }
    assert(transfer_window(s) is None);
    if avail >= 5 {
        let a = *ir.index(idx);
        let b = *ir.index(idx + 1);
        let c = *ir.index(idx + 2);
        let d = *ir.index(idx + 3);
        let e = *ir.index(idx + 4);
        assert(s[0] == a && s[1] == b && s[2] == c && s[3] == d && s[4] == e);
        if let (
            IR::LoopStart { .. },
            IR::Arithmetic { amount: -1 },
            IR::Shift { amount: dir },
            IR::Arithmetic { amount: 1 },
            IR::LoopEnd { .. },
        ) = (a, b, c, d, e) {
            if dir == 1 {
                return Some((IR::AnchorRight, 5));
            } else if dir == -1 {
                return Some((IR::AnchorLeft, 5));
            }
        }
    }
    assert(anchor_window(s) is None);
    if avail >= 3 {
        let a = *ir.index(idx);
        let b = *ir.index(idx + 1);
        let c = *ir.index(idx + 2);
        assert(s[0] == a && s[1] == b && s[2] == c);
        if let (IR::LoopStart { .. }, IR::Arithmetic { .. }, IR::LoopEnd { .. }) = (a, b, c) {
            return Some((IR::Zero, 3));
        }
    }
    None
}

/// Rewrites the loop templates of `Move`, `Multiply`, `AnchorRight`,
/// `AnchorLeft` and `Zero` into those compounds, in one left-to-right walk.
/// Returns how many instructions were removed.
pub fn collapse_idioms(ir: &mut ChunkList<IR>) -> (pruned: usize)
    requires
        old(ir).wf(),
    ensures
        final(ir).wf(),
        final(ir)@ == rewrite_idioms(old(ir)@),
        pruned == old(ir)@.len() - final(ir)@.len(),
{
    let ghost orig = ir@;
    let mut len = ir.len();
    let mut idx: usize = 0;
    let mut pruned: usize = 0;
    proof {
        assert(ir@.take(0) + ir@.skip(0) =~= ir@);
        assert(ir@.take(0) + rewrite_idioms(ir@.skip(0)) =~= rewrite_idioms(ir@.skip(0)));
    }
    while idx < len
        invariant
            ir.wf(),
            len == ir@.len(),
            idx <= len,
            ir@.take(idx as int) + rewrite_idioms(ir@.skip(idx as int)) == rewrite_idioms(orig),
            pruned + len == orig.len(),
            orig.len() <= usize::MAX,
        decreases len - idx,
    {
        let ghost s = ir@;
        let ghost rest = s.skip(idx as int);
        match find_idiom(ir, idx) {
            Some((x, n)) => {
                proof {
                    lemma_idiom_shape(rest);
                }
                ir.set(idx, x);
                let ghost base = ir@;
                let mut j: usize = n - 1;
                while j > 0
                    invariant
                        ir.wf(),
                        j < n,
                        n <= base.len() - idx,
                        base.len() <= usize::MAX,
                        ir@ == base.take(idx + 1 + j) + base.skip(idx + n),
                    decreases j,
                {
                    ir.remove(idx + j);
                    j = j - 1;
                    assert(ir@ =~= base.take(idx + 1 + j) + base.skip(idx + n));
                }
                len = len - (n - 1);
                pruned = pruned + (n - 1);
                proof {
                    assert(rest.skip(n as int) =~= s.skip(idx + n));
                    assert(ir@.take(idx + 1) =~= s.take(idx as int) + seq![x]);
                    assert(ir@.skip(idx + 1) =~= s.skip(idx + n));
                    assert(ir@.take(idx + 1) + rewrite_idioms(ir@.skip(idx + 1)) =~= s.take(idx as int)
                        + rewrite_idioms(rest));
                }
            },
            None => {
                proof {
                    assert(rest.skip(1) =~= s.skip(idx + 1));
                    assert(s.take(idx + 1) + rewrite_idioms(s.skip(idx + 1)) =~= s.take(idx as int)
                        + rewrite_idioms(rest));
                }
            },
        }
        idx = idx + 1;
    }
    proof {
        assert(ir@.take(len as int) =~= ir@);
        assert(ir@.skip(len as int) =~= Seq::<IR>::empty());
        assert(ir@ + Seq::<IR>::empty() =~= ir@);
    }
    pruned
}

/// One for a `LoopStart`, minus one for a `LoopEnd`, zero otherwise.
pub open spec fn bracket_weight(x: IR) -> int {
    if x is LoopStart {
        1
    } else if x is LoopEnd {
        -1
    } else {
        0
    }
}

/// How much deeper `s[a..b]` leaves the nesting.
pub open spec fn depth(s: Seq<IR>, a: int, b: int) -> int
    decreases b - a,
{
    if b <= a {
        0
    } else {
        depth(s, a, b - 1) + bracket_weight(s[b - 1])
    }
}

/// The `LoopEnd` at `j` closes the `LoopStart` at `i`: it is the first
/// position after `i` where the nesting returns to the depth before `i`.
pub open spec fn partners(s: Seq<IR>, i: int, j: int) -> bool {
    &&& 0 <= i < j < s.len()
    &&& s[i] is LoopStart
    &&& s[j] is LoopEnd
    &&& depth(s, i, j + 1) == 0
    &&& forall|k: int| i <= k < j ==> #[trigger] depth(s, i, k + 1) > 0
}

/// A `LoopStart` at `i` that nothing closes.
pub open spec fn unclosed(s: Seq<IR>, i: int) -> bool {
    0 <= i < s.len() && s[i] is LoopStart && !exists|j: int| partners(s, i, j)
}

/// A `LoopEnd` at `j` that nothing opens.
pub open spec fn unopened(s: Seq<IR>, j: int) -> bool {
    0 <= j < s.len() && s[j] is LoopEnd && !exists|i: int| partners(s, i, j)
}

/// Every bracket of `s` has a partner.
pub open spec fn all_paired(s: Seq<IR>) -> bool {
    &&& forall|i: int| !#[trigger] unclosed(s, i)
    &&& forall|j: int| !#[trigger] unopened(s, j)
}

/// The same instruction, but for the targets that brackets hold.
pub open spec fn same_shape(a: IR, b: IR) -> bool {
    match (a, b) {
        (IR::LoopStart { .. }, IR::LoopStart { .. }) => true,
        (IR::LoopEnd { .. }, IR::LoopEnd { .. }) => true,
        _ => a == b,
    }
}

/// `t` is `s` with each bracket pointing at its partner.
pub open spec fn resolved(s: Seq<IR>, t: Seq<IR>) -> bool {
    &&& t.len() == s.len()
    &&& forall|k: int| 0 <= k < s.len() ==> same_shape(#[trigger] s[k], t[k])
    &&& forall|i: int, j: int|
        #[trigger] partners(s, i, j) ==> t[i] == (IR::LoopStart { end_index: j as usize }) && t[j] == (
        IR::LoopEnd { start_index: i as usize })
}

/// Every bracket's target lies inside the program.
pub open spec fn targets_in_range(insts: Seq<IR>) -> bool {
    forall|i: int|
        0 <= i < insts.len() ==> match #[trigger] insts[i] {
            IR::LoopStart { end_index } => end_index < insts.len(),
            IR::LoopEnd { start_index } => start_index < insts.len(),
            _ => true,
        }
}

/// Why a sequence's brackets cannot be matched.
#[derive(Clone, Copy, PartialEq, Eq, Structural, Debug)]
pub enum MatchError {
    /// The first `LoopStart` that no `LoopEnd` closes.
    UnclosedLoop(usize),
    /// The first `LoopEnd` that no `LoopStart` opens.
    UnopenedLoop(usize),
}

proof fn lemma_depth_split(s: Seq<IR>, a: int, b: int, c: int)
    requires
        a <= b <= c,
    ensures
        depth(s, a, c) == depth(s, a, b) + depth(s, b, c),
    decreases c - b,
{
    if c > b {
        lemma_depth_split(s, a, b, c - 1);
    }
}

proof fn lemma_depth_bound(s: Seq<IR>, a: int, b: int)
    requires
        a <= b,
    ensures
        depth(s, a, b) <= b - a,
    decreases b - a,
{
    if b > a {
        lemma_depth_bound(s, a, b - 1);
    }
}

proof fn lemma_depth_same_shape(s: Seq<IR>, t: Seq<IR>, a: int, b: int)
    requires
        s.len() == t.len(),
        0 <= a <= b <= s.len(),
        forall|k: int| 0 <= k < s.len() ==> same_shape(#[trigger] s[k], t[k]),
    ensures
        depth(s, a, b) == depth(t, a, b),
    decreases b - a,
{
    if b > a {
        lemma_depth_same_shape(s, t, a, b - 1);
        assert(same_shape(s[b - 1], t[b - 1]));
    }
}

proof fn lemma_partners_same_shape(s: Seq<IR>, t: Seq<IR>)
    requires
        s.len() == t.len(),
        forall|k: int| 0 <= k < s.len() ==> same_shape(#[trigger] s[k], t[k]),
    ensures
        forall|i: int, j: int| #[trigger] partners(s, i, j) == partners(t, i, j),
{
    assert forall|i: int, j: int| #[trigger] partners(s, i, j) == partners(t, i, j) by {
        if 0 <= i < j < s.len() {
            assert(same_shape(s[i], t[i]) && same_shape(s[j], t[j]));
            lemma_depth_same_shape(s, t, i, j + 1);
            if partners(s, i, j) {
                assert forall|k: int| i <= k < j implies #[trigger] depth(t, i, k + 1) > 0 by {
                    lemma_depth_same_shape(s, t, i, k + 1);
                    assert(depth(s, i, k + 1) > 0);
                }
            }
            if partners(t, i, j) {
                assert forall|k: int| i <= k < j implies #[trigger] depth(s, i, k + 1) > 0 by {
                    lemma_depth_same_shape(s, t, i, k + 1);
                    assert(depth(t, i, k + 1) > 0);
                }
            }
        }
    }
}

/// A `LoopStart` has at most one partner, and so has a `LoopEnd`.
pub proof fn lemma_partners_unique(s: Seq<IR>, i1: int, j1: int, i2: int, j2: int)
    requires
        partners(s, i1, j1),
        partners(s, i2, j2),
        i1 == i2 || j1 == j2,
    ensures
        i1 == i2 && j1 == j2,
{
    if i1 == i2 {
        if j1 < j2 {
            assert(depth(s, i2, j1 + 1) > 0);
        } else if j2 < j1 {
            assert(depth(s, i1, j2 + 1) > 0);
        }
    } else if i1 < i2 {
        lemma_depth_split(s, i1, i2, j1 + 1);
        assert(depth(s, i1, (i2 - 1) + 1) > 0);
    } else {
        lemma_depth_split(s, i2, i1, j2 + 1);
        assert(depth(s, i2, (i1 - 1) + 1) > 0);
    }
}

/// Brackets keep their kind, so matching keeps the counts.
pub proof fn lemma_same_shape_counts(s: Seq<IR>, t: Seq<IR>)
    requires
        s.len() == t.len(),
        forall|k: int| 0 <= k < s.len() ==> same_shape(#[trigger] s[k], t[k]),
    ensures
        count_starts(s) == count_starts(t),
        count_ends(s) == count_ends(t),
    decreases s.len(),
{
    if s.len() > 0 {
        let n = s.len() - 1;
        assert(forall|k: int| 0 <= k < n ==> s.drop_last()[k] == s[k] && t.drop_last()[k] == t[k]);
        lemma_same_shape_counts(s.drop_last(), t.drop_last());
        assert(same_shape(s[n], t[n]));
    }
}

/// The partner of the `LoopStart` at `idx`, found by scanning forward with a
/// depth counter.
fn find_partner(ir: &ChunkList<IR>, idx: usize) -> (r: Option<usize>)
    requires
        ir.wf(),
        idx < ir@.len(),
        ir@[idx as int] is LoopStart,
    ensures
        match r {
            Some(j) => partners(ir@, idx as int, j as int),
            None => !exists|j: int| partners(ir@, idx as int, j),
        },
{
    let ghost s = ir@;
    let len = ir.len();
    let mut counter: usize = 1;
    let mut j: usize = idx + 1;
    assert(depth(s, idx as int, idx as int) == 0);
    assert(depth(s, idx as int, idx + 1) == 1);
    while j < len
        invariant
            ir.wf(),
            s == ir@,
            len == s.len(),
            len <= usize::MAX,
            idx < j <= len,
            s[idx as int] is LoopStart,
            counter as int == depth(s, idx as int, j as int),
            counter > 0,
            forall|k: int| idx <= k < j ==> #[trigger] depth(s, idx as int, k + 1) > 0,
        decreases len - j,
    {
        proof {
            lemma_depth_bound(s, idx as int, j as int);
        }
        match *ir.index(j) {
            IR::LoopStart { .. } => {
                counter = counter + 1;
            },
            IR::LoopEnd { .. } => {
                counter = counter - 1;
                if counter == 0 {
                    return Some(j);
                }
            },
            _ => {},
        }
        j = j + 1;
    }
    proof {
        assert forall|j2: int| !partners(s, idx as int, j2) by {
            if partners(s, idx as int, j2) {
                assert(depth(s, idx as int, j2 + 1) > 0);
            }
        }
    }
    None
}

/// Points every `LoopStart` and `LoopEnd` at its partner. Fails on the first
/// `LoopStart` that nothing closes, else on the first `LoopEnd` that nothing
/// opens.
pub fn match_brackets(ir: &mut ChunkList<IR>) -> (r: Result<(), MatchError>)
    requires
        old(ir).wf(),
    ensures
        final(ir).wf(),
        final(ir)@.len() == old(ir)@.len(),
        forall|k: int| 0 <= k < old(ir)@.len() ==> same_shape(#[trigger] old(ir)@[k], final(ir)@[k]),
        r is Ok <==> all_paired(old(ir)@),
        r is Ok ==> resolved(old(ir)@, final(ir)@),
        r is Ok ==> targets_in_range(final(ir)@),
        r matches Err(MatchError::UnclosedLoop(i)) ==> unclosed(old(ir)@, i as int) && forall|k: int|
            0 <= k < i ==> !#[trigger] unclosed(old(ir)@, k),
        r matches Err(MatchError::UnopenedLoop(j)) ==> (forall|k: int| !#[trigger] unclosed(old(ir)@, k))
            && unopened(old(ir)@, j as int) && forall|k: int| 0 <= k < j ==> !#[trigger] unopened(old(ir)@, k),
{
    let ghost orig = ir@;
    let len = ir.len();
    let mut idx: usize = 0;
    while idx < len
        invariant
            ir.wf(),
            len == ir@.len(),
            len == orig.len(),
            orig == old(ir)@,
            idx <= len,
            forall|k: int| 0 <= k < len ==> same_shape(#[trigger] orig[k], ir@[k]),
            forall|i: int| 0 <= i < idx ==> !#[trigger] unclosed(orig, i),
            forall|i: int, j: int|
                0 <= i < idx && #[trigger] partners(orig, i, j) ==> ir@[i] == (IR::LoopStart {
                    end_index: j as usize,
                }) && ir@[j] == (IR::LoopEnd { start_index: i as usize }),
        decreases len - idx,
    {
        proof {
            lemma_partners_same_shape(orig, ir@);
            assert(same_shape(orig[idx as int], ir@[idx as int]));
        }
        if let IR::LoopStart { .. } = *ir.index(idx) {
            match find_partner(ir, idx) {
                None => {
                    assert(unclosed(orig, idx as int));
                    return Err(MatchError::UnclosedLoop(idx));
                },
                Some(j) => {
                    let ghost before = ir@;
                    assert(partners(orig, idx as int, j as int));
                    ir.set(idx, IR::LoopStart { end_index: j });
                    ir.set(j, IR::LoopEnd { start_index: idx });
                    proof {
                        assert(same_shape(orig[j as int], before[j as int]));
                        assert forall|i: int, j2: int|
                            0 <= i < idx + 1 && #[trigger] partners(orig, i, j2) implies ir@[i] == (
                        IR::LoopStart { end_index: j2 as usize }) && ir@[j2] == (IR::LoopEnd {
                            start_index: i as usize,
                        }) by {
                            if i == idx {
                                lemma_partners_unique(orig, i, j2, idx as int, j as int);
                            } else {
                                if j2 == j {
                                    lemma_partners_unique(orig, i, j2, idx as int, j as int);
                                }
                            }
                        }
                        assert forall|k: int| 0 <= k < len implies same_shape(#[trigger] orig[k], ir@[k]) by {
                            assert(same_shape(orig[k], before[k]));
                        }
                    }
                },
            }
        }
        idx = idx + 1;
    }
    let mut j: usize = 0;
    while j < len
        invariant
            ir.wf(),
            len == ir@.len(),
            len == orig.len(),
            orig == old(ir)@,
            j <= len,
            forall|k: int| 0 <= k < len ==> same_shape(#[trigger] orig[k], ir@[k]),
            forall|i: int| 0 <= i < len ==> !#[trigger] unclosed(orig, i),
            forall|i: int, j: int|
                0 <= i < len && #[trigger] partners(orig, i, j) ==> ir@[i] == (IR::LoopStart {
                    end_index: j as usize,
                }) && ir@[j] == (IR::LoopEnd { start_index: i as usize }),
            forall|k: int| 0 <= k < j ==> !#[trigger] unopened(orig, k),
        decreases len - j,
    {
        proof {
            assert(same_shape(orig[j as int], ir@[j as int]));
        }
        if let IR::LoopEnd { start_index } = *ir.index(j) {
            let mut opened = false;
            if start_index < len {
                if let IR::LoopStart { end_index } = *ir.index(start_index) {
                    if end_index == j {
                        opened = true;
                    }
                }
            }
            proof {
                if opened {
                    let i = start_index as int;
                    assert(same_shape(orig[i], ir@[i]));
                    assert(!unclosed(orig, i));
                    let j2 = choose|j2: int| partners(orig, i, j2);
                    assert(partners(orig, i, j2));
                    assert(j2 == j);
                } else {
                    if exists|i: int| partners(orig, i, j as int) {
                        let i = choose|i: int| partners(orig, i, j as int);
                        assert(partners(orig, i, j as int));
                    }
                }
            }
            if !opened {
                assert(unopened(orig, j as int));
                return Err(MatchError::UnopenedLoop(j));
            }
        }
        j = j + 1;
    }
    proof {
        assert forall|i: int| 0 <= i < ir@.len() implies match #[trigger] ir@[i] {
            IR::LoopStart { end_index } => end_index < ir@.len(),
            IR::LoopEnd { start_index } => start_index < ir@.len(),
            _ => true,
        } by {
            if ir@[i] is LoopStart {
                lemma_matched_start(orig, ir@, i);
            } else if ir@[i] is LoopEnd {
                lemma_matched_end(orig, ir@, i);
            }
        }
    }
    Ok(())
}

proof fn lemma_matched_start(s: Seq<IR>, t: Seq<IR>, i: int)
    requires
        all_paired(s),
        resolved(s, t),
        t.len() <= usize::MAX,
        0 <= i < t.len(),
        t[i] is LoopStart,
    ensures
        t[i]->end_index < t.len(),
        t[t[i]->end_index as int] == (IR::LoopEnd { start_index: i as usize }),
{
    assert(same_shape(s[i], t[i]));
    assert(!unclosed(s, i));
    let j = choose|j: int| partners(s, i, j);
    assert(partners(s, i, j));
}

proof fn lemma_matched_end(s: Seq<IR>, t: Seq<IR>, j: int)
    requires
        all_paired(s),
        resolved(s, t),
        t.len() <= usize::MAX,
        0 <= j < t.len(),
        t[j] is LoopEnd,
    ensures
        t[j]->start_index < t.len(),
        t[t[j]->start_index as int] == (IR::LoopStart { end_index: j as usize }),
{
    assert(same_shape(s[j], t[j]));
    assert(!unopened(s, j));
    let i = choose|i: int| partners(s, i, j);
    assert(partners(s, i, j));
}

/// After matching, brackets point at each other: the `LoopStart` at `i` names
/// a `LoopEnd` that names `i`, and the other way round.
pub proof fn lemma_matched_mutual(s: Seq<IR>, t: Seq<IR>)
    requires
        all_paired(s),
        resolved(s, t),
        t.len() <= usize::MAX,
    ensures
        forall|i: int|
            0 <= i < t.len() && #[trigger] t[i] is LoopStart ==> t[i]->end_index < t.len() && t[t[i]->end_index as int]
                == (IR::LoopEnd { start_index: i as usize }),
        forall|j: int|
            0 <= j < t.len() && #[trigger] t[j] is LoopEnd ==> t[j]->start_index < t.len() && t[t[j]->start_index as int]
                == (IR::LoopStart { end_index: j as usize }),
{
    assert forall|i: int| 0 <= i < t.len() && #[trigger] t[i] is LoopStart implies t[i]->end_index < t.len()
        && t[t[i]->end_index as int] == (IR::LoopEnd { start_index: i as usize }) by {
        lemma_matched_start(s, t, i);
    }
    assert forall|j: int| 0 <= j < t.len() && #[trigger] t[j] is LoopEnd implies t[j]->start_index < t.len()
        && t[t[j]->start_index as int] == (IR::LoopStart { end_index: j as usize }) by {
        lemma_matched_end(s, t, j);
    }
}

/// A primitive whose bracket targets, if any, are unresolved.
pub open spec fn fresh_primitive(x: IR) -> bool {
    match x {
        IR::Shift { .. } | IR::Arithmetic { .. } | IR::Input | IR::Output => true,
        IR::LoopStart { end_index } => end_index == UNRESOLVED,
        IR::LoopEnd { start_index } => start_index == UNRESOLVED,
        _ => false,
    }
}

/// No `Arithmetic { amount: 0 }` occurs in `s`.
pub open spec fn no_zero_arithmetic(s: Seq<IR>) -> bool {
    forall|i: int| 0 <= i < s.len() ==> #[trigger] s[i] != (IR::Arithmetic { amount: 0 })
}

/// Parsing yields only primitives, with every bracket target unresolved, and
/// no `Arithmetic { amount: 0 }`.
pub proof fn lemma_parse_fresh(s: Seq<char>)
    ensures
        forall|i: int| 0 <= i < parse(s).len() ==> fresh_primitive(#[trigger] parse(s)[i]),
        no_zero_arithmetic(parse(s)),
    decreases s.len(),
{
    if s.len() > 0 {
        lemma_parse_fresh(s.drop_last());
    }
}

proof fn lemma_push_fused_no_zero(out: Seq<IR>, x: IR)
    requires
        no_zero_arithmetic(out),
        x != (IR::Arithmetic { amount: 0 }),
    ensures
        no_zero_arithmetic(push_fused(out, x)),
{
    let r = push_fused(out, x);
    assert forall|i: int| 0 <= i < r.len() implies #[trigger] r[i] != (IR::Arithmetic { amount: 0 }) by {
        if i < out.len() - 1 {
            assert(r[i] == out[i]);
        } else if i < out.len() && r.len() > out.len() {
            assert(r[i] == out[i]);
        }
    }
}

proof fn lemma_fuse_onto_no_zero(out: Seq<IR>, rest: Seq<IR>)
    requires
        no_zero_arithmetic(out),
        no_zero_arithmetic(rest),
    ensures
        no_zero_arithmetic(fuse_onto(out, rest)),
    decreases rest.len(),
{
    if rest.len() > 0 {
        lemma_push_fused_no_zero(out, rest[0]);
        assert(forall|i: int| 0 <= i < rest.len() - 1 ==> rest.drop_first()[i] == rest[i + 1]);
        lemma_fuse_onto_no_zero(push_fused(out, rest[0]), rest.drop_first());
    }
}

/// Run fusion leaves no `Arithmetic { amount: 0 }` behind, given none
/// before: sums that wrap to zero vanish.
pub proof fn lemma_fuse_runs_no_zero(s: Seq<IR>)
    requires
        no_zero_arithmetic(s),
    ensures
        no_zero_arithmetic(fuse_runs(s)),
{
    lemma_fuse_onto_no_zero(Seq::empty(), s);
}

} // verus!
