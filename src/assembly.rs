//! The assembly backend: a flat-assembler listing for an ELF64 program that
//! realizes the machine, built from the unmatched instructions.

use vstd::prelude::*;
use vstd::string::StringExecFns;
use crate::chunk_list::ChunkList;
use crate::ir::IR;

verus! {

/// Sections, the tape and the entry point.
pub const PRELUDE: &'static str = "\
    ; compiled by boyfriend -- riir nation!\n\
    format ELF64\n\
    public _start\n\
    \n\
    section '.bss' writable\n\
    tape rb 65536\n\
    \n\
    section '.text' executable\n\
    _start:\n\
    xor r8, r8\n";

/// The exit call and the subroutines for input, output and the idioms.
pub const POSTLUDE: &'static str = "\
    ; exit syscall\n\
    mov rax, 60\n\
    xor rdi, rdi\n\
    syscall\n\
    \n\
    ; little assembly 'macros' to slim down code\n\
    \n\
    ; `,` in brainf*ck -- gets one character of user input\n\
    i:\n\
    xor rax, rax\n\
    xor rdi, rdi\n\
    lea rsi, byte [tape + r8]\n\
    mov rdx, 1\n\
    syscall\n\
    ret\n\
    \n\
    ; `.` in brainf*ck -- outputs the current byte in ascii\n\
    o:\n\
    mov rax, 1\n\
    mov rdi, 1\n\
    lea rsi, byte [tape + r8]\n\
    mov rdx, 1\n\
    syscall\n\
    ret\n\
    \n\
    ; idioms\n\
    \n\
    ; zero current byte\n\
    z:\n\
    mov byte [tape + r8], 0\n\
    ret\n\
    \n\
    ; these last four can go burn in hell\n\
    \n\
    ; multiply (positive output offset)\n\
    m:\n\
    add r12, r8\n\
    and r12, 0xFFFF\n\
    mov al, r13b\n\
    mul byte [tape + r8]\n\
    add byte [tape + r12], al\n\
    mov byte [tape + r8], 0\n\
    ret\n\
    \n\
    ; multiply (negative output offset)\n\
    ms:\n\
    mov r14, r8\n\
    sub r14, r12\n\
    and r14, 0xFFFF\n\
    mov al, r13b\n\
    mul byte [tape + r8]\n\
    add byte [tape + r14], al\n\
    mov byte [tape + r8], 0\n\
    ret\n\
    \n\
    ; move (positive output offset)\n\
    M:\n\
    add r12, r8\n\
    and r12, 0xFFFF\n\
    mov r13b, byte [tape + r8]\n\
    add byte [tape + r12], r13b\n\
    mov byte [tape + r8], 0\n\
    ret\n\
    \n\
    ; move (negative output offset)\n\
    Ms:\n\
    mov r14, r8\n\
    sub r14, r12\n\
    and r14, 0xFFFF\n\
    mov r13b, byte [tape + r8]\n\
    add byte [tape + r14], r13b\n\
    mov byte [tape + r8], 0\n\
    ret\n";

/// Anchor scans through libc's `memchr` and `memrchr`.
pub const ANCHORS_LIBC: &'static str = "\
    extrn memchr\n\
    extrn memrchr\n\
    \n\
    ; find right anchor (memchr-enabled)\n\
    r:\n\
    call anchor_start\n\
    lea rdi, byte [tape + r8]\n\
    mov rsi, 255\n\
    mov rdx, 0xFFFF\n\
    sub rdx, r8\n\
    call memchr\n\
    cmp rax, 0\n\
    jz r_wrap\n\
    jmp anchor_done\n\
    ret\n\
    r_wrap:\n\
    lea rdi, byte [tape]\n\
    mov rsi, 255\n\
    mov rdx, r8\n\
    call memchr\n\
    cmp rax, 0\n\
    jz halting_problem_solved_100_percent_working_1936\n\
    jmp anchor_done\n\
    \n\
    ; find left anchor (memrchr-enabled)\n\
    l:\n\
    call anchor_start\n\
    lea rdi, byte [tape]\n\
    mov rsi, 255\n\
    mov rdx, r8\n\
    call memrchr\n\
    cmp rax, 0\n\
    jz l_wrap\n\
    jmp anchor_done\n\
    l_wrap:\n\
    lea rdi, byte [tape + r8]\n\
    mov rsi, 255\n\
    mov rdx, 0xFFFF\n\
    sub rdx, r8\n\
    call memrchr\n\
    cmp rax, 0\n\
    jz halting_problem_solved_100_percent_working_1936\n\
    jmp anchor_done\n\
    \n\
    ; common code\n\
    anchor_start:\n\
    cmp byte [tape + r8], 0\n\
    jz anchor_short_circuit\n\
    sub byte [tape + r8], 1\n\
    ret\n\
    \n\
    anchor_short_circuit:\n\
    add rsp, 8\n\
    ret\n\
    \n\
    anchor_done:\n\
    mov r8, rax\n\
    lea rax, byte [tape]\n\
    sub r8, rax\n\
    mov byte [tape + r8], 0\n\
    ret\n\
    \n\
    ; solve the halting problem\n\
    halting_problem_solved_100_percent_working_1936:\n\
    mov rax, 1\n\
    mov rdi, 1\n\
    lea rsi, byte [halting_message]\n\
    mov rdx, halting_message_len\n\
    syscall\n\
    mov rax, 60\n\
    mov rdi, 1\n\
    syscall\n\
    \n\
    section '.data'\n\
    halting_message db '[boyfriend] ! infinite loop detected, exiting', 0xA\n\
    halting_message_len = $-halting_message\n";

/// Anchor scans as plain loops.
pub const ANCHORS_PLAIN: &'static str = "\
    ; find right anchor (no libc)\n\
    r:\n\
    call anchor_start\n\
    r_glide:\n\
    add r8, 1\n\
    and r8, 0xFFFF\n\
    cmp byte [tape + r8], 255\n\
    jne r_glide\n\
    jmp anchor_end\n\
    \n\
    ; find left anchor (no libc)\n\
    l:\n\
    call anchor_start\n\
    l_glide:\n\
    sub r8, 1\n\
    and r8, 0xFFFF\n\
    cmp byte [tape + r8], 255\n\
    jne l_glide\n\
    jmp anchor_end\n\
    \n\
    ; common code\n\
    anchor_start:\n\
    cmp byte [tape + r8], 0\n\
    jz anchor_short_circuit\n\
    sub byte [tape + r8], 1\n\
    ret\n\
    \n\
    anchor_short_circuit:\n\
    add rsp, 8\n\
    ret\n\
    \n\
    anchor_end:\n\
    mov byte [tape + r8], 0\n\
    ret\n";

/// The text of one digit, `0` to `f`.
pub open spec fn digit_text(d: nat) -> Seq<char> {
    if d == 0 { "0"@ } else if d == 1 { "1"@ } else if d == 2 { "2"@ } else if d == 3 { "3"@ }
    else if d == 4 { "4"@ } else if d == 5 { "5"@ } else if d == 6 { "6"@ } else if d == 7 { "7"@ }
    else if d == 8 { "8"@ } else if d == 9 { "9"@ } else if d == 10 { "a"@ } else if d == 11 { "b"@ }
    else if d == 12 { "c"@ } else if d == 13 { "d"@ } else if d == 14 { "e"@ } else { "f"@ }
}

/// `n` in decimal, without leading zeros.
pub open spec fn decimal(n: nat) -> Seq<char>
    decreases n,
{
    if n < 10 {
        digit_text(n)
    } else {
        decimal(n / 10) + digit_text(n % 10)
    }
}

/// `n` in lower-case hexadecimal, without leading zeros.
pub open spec fn hex(n: nat) -> Seq<char>
    decreases n,
{
    if n < 16 {
        digit_text(n)
    } else {
        hex(n / 16) + digit_text(n % 16)
    }
}

/// The magnitude of `x`.
pub open spec fn magnitude(x: int) -> nat {
    if x < 0 { (-x) as nat } else { x as nat }
}

/// `x` in decimal, with a minus sign when negative.
pub open spec fn signed_decimal(x: int) -> Seq<char> {
    if x < 0 { "-"@ + decimal(magnitude(x)) } else { decimal(magnitude(x)) }
}

/// The lines for an instruction other than a bracket.
pub open spec fn plain_text(x: IR) -> Seq<char> {
    match x {
        IR::Shift { amount } => if amount < 0 {
            "sub r8, "@ + decimal(magnitude(amount as int)) + "\n"@ + "and r8, 0xFFFF\n"@
        } else {
            "add r8, "@ + decimal(magnitude(amount as int)) + "\n"@ + "and r8, 0xFFFF\n"@
        },
        IR::Arithmetic { amount } => if amount < 0 {
            "sub byte [tape + r8], "@ + decimal(magnitude(amount as int)) + "\n"@
        } else {
            "add byte [tape + r8], "@ + decimal(magnitude(amount as int)) + "\n"@
        },
        IR::Input => "call i\n"@,
        IR::Output => "call o\n"@,
        IR::Zero => "call z\n"@,
        IR::Multiply { amount, output_offset } => "mov r13b, "@ + signed_decimal(amount as int) + "\n"@
            + "mov r12, "@ + decimal(magnitude(output_offset as int)) + "\n"@ + (if output_offset > 0 {
            "call m\n"@
        } else {
            "call ms\n"@
        }),
        IR::Move { output_offset } => "mov r12, "@ + decimal(magnitude(output_offset as int)) + "\n"@ + (
        if output_offset > 0 {
            "call M\n"@
        } else {
            "call Ms\n"@
        }),
        IR::AnchorRight => "call r\n"@,
        IR::AnchorLeft => "call l\n"@,
        _ => Seq::empty(),
    }
}

/// The lines that open loop number `l`.
pub open spec fn open_text(l: nat) -> Seq<char> {
    "o"@ + hex(l) + ":\n"@ + "cmp byte [tape + r8], 0\n"@ + "jz c"@ + hex(l) + "\n"@
}

/// The lines that close loop number `l`.
pub open spec fn close_text(l: nat) -> Seq<char> {
    "jmp o"@ + hex(l) + "\n"@ + "c"@ + hex(l) + ":\n"@
}

/// The lines for `s`, when loops are numbered from `next` on and `open`
/// holds the numbers of the loops still open, innermost last. `None` when a
/// `LoopEnd` finds no loop open.
pub open spec fn body_text(s: Seq<IR>, next: nat, open: Seq<nat>) -> Option<Seq<char>>
    decreases s.len(),
{
    if s.len() == 0 {
        Some(Seq::empty())
    } else {
        match s[0] {
            IR::LoopStart { .. } => match body_text(s.drop_first(), next + 1, open.push(next)) {
                Some(r) => Some(open_text(next) + r),
                None => None,
            },
            IR::LoopEnd { .. } => if open.len() == 0 {
                None
            } else {
                match body_text(s.drop_first(), next, open.drop_last()) {
                    Some(r) => Some(close_text(open.last()) + r),
                    None => None,
                }
            },
            x => match body_text(s.drop_first(), next, open) {
                Some(r) => Some(plain_text(x) + r),
                None => None,
            },
        }
    }
}

/// The whole listing for `s`.
pub open spec fn listing(link_libc: bool, s: Seq<IR>) -> Option<Seq<char>> {
    match body_text(s, 0, Seq::empty()) {
        Some(body) => Some(PRELUDE@ + "\n"@ + body + POSTLUDE@ + "\n"@ + (if link_libc {
            ANCHORS_LIBC@
        } else {
            ANCHORS_PLAIN@
        }) + "\n"@),
        None => None,
    }
}

fn digit(d: usize) -> (r: &'static str)
    requires
        d < 16,
    ensures
        r@ == digit_text(d as nat),
{
    if d == 0 { "0" } else if d == 1 { "1" } else if d == 2 { "2" } else if d == 3 { "3" }
    else if d == 4 { "4" } else if d == 5 { "5" } else if d == 6 { "6" } else if d == 7 { "7" }
    else if d == 8 { "8" } else if d == 9 { "9" } else if d == 10 { "a" } else if d == 11 { "b" }
    else if d == 12 { "c" } else if d == 13 { "d" } else if d == 14 { "e" } else { "f" }
}

fn push_decimal(out: &mut String, n: usize)
    ensures
        final(out)@ == old(out)@ + decimal(n as nat),
    decreases n,
{
    if n < 10 {
        out.append(digit(n));
    } else {
        push_decimal(out, n / 10);
        out.append(digit(n % 10));
    }
}

fn push_hex(out: &mut String, n: usize)
    ensures
        final(out)@ == old(out)@ + hex(n as nat),
    decreases n,
{
    if n < 16 {
        out.append(digit(n));
    } else {
        push_hex(out, n / 16);
        out.append(digit(n % 16));
    }
}

/// The magnitude of `x`, without overflow.
fn magnitude_of(x: isize) -> (r: usize)
    ensures
        r == magnitude(x as int),
{
    if x < 0 {
        (-(x + 1)) as usize + 1
    } else {
        x as usize
    }
}

/// `p` before the text in `o`, if there is one.
pub open spec fn prepend(p: Seq<char>, o: Option<Seq<char>>) -> Option<Seq<char>> {
    match o {
        Some(r) => Some(p + r),
        None => None,
    }
}

proof fn lemma_prepend_twice(a: Seq<char>, b: Seq<char>, o: Option<Seq<char>>)
    ensures
        prepend(a, prepend(b, o)) == prepend(a + b, o),
{
    if let Some(r) = o {
        assert(a + (b + r) =~= (a + b) + r);
    }
}

/// The loop numbers as plain numbers.
pub open spec fn label_view(labels: Seq<usize>) -> Seq<nat> {
    labels.map_values(|l: usize| l as nat)
}

/// Appends the lines for an instruction other than a bracket.
fn push_plain(out: &mut String, x: IR)
    requires
        !(x is LoopStart),
        !(x is LoopEnd),
    ensures
        final(out)@ == old(out)@ + plain_text(x),
{
    let ghost before = out@;
    match x {
        IR::Shift { amount } => {
            if amount < 0 {
                out.append("sub r8, ");
            } else {
                out.append("add r8, ");
            }
            push_decimal(out, magnitude_of(amount));
            out.append("\n");
            out.append("and r8, 0xFFFF\n");
        },
        IR::Arithmetic { amount } => {
            if amount < 0 {
                out.append("sub byte [tape + r8], ");
            } else {
                out.append("add byte [tape + r8], ");
            }
            push_decimal(out, magnitude_of(amount as isize));
            out.append("\n");
        },
        IR::Input => out.append("call i\n"),
        IR::Output => out.append("call o\n"),
        IR::Zero => out.append("call z\n"),
        IR::Multiply { amount, output_offset } => {
            out.append("mov r13b, ");
            if amount < 0 {
                out.append("-");
            }
            push_decimal(out, magnitude_of(amount as isize));
            out.append("\n");
            out.append("mov r12, ");
            push_decimal(out, magnitude_of(output_offset));
            out.append("\n");
            if output_offset > 0 {
                out.append("call m\n");
            } else {
                out.append("call ms\n");
            }
        },
        IR::Move { output_offset } => {
            out.append("mov r12, ");
            push_decimal(out, magnitude_of(output_offset));
            out.append("\n");
            if output_offset > 0 {
                out.append("call M\n");
            } else {
                out.append("call Ms\n");
            }
        },
        IR::AnchorRight => out.append("call r\n"),
        IR::AnchorLeft => out.append("call l\n"),
        _ => {},
    }
    assert(out@ =~= before + plain_text(x));
}

/// The flat-assembler listing for a program, loops numbered in order of
/// their `LoopStart`; `None` when a `LoopEnd` closes no loop.
pub fn to_asm(link_libc: bool, ir: ChunkList<IR>) -> (r: Option<String>)
    ensures
        r is None <==> listing(link_libc, ir@) is None,
        r matches Some(t) ==> listing(link_libc, ir@) == Some(t@),
{
    let ghost all = ir@;
    let insts = ir.into_vec();
    let mut labels: Vec<usize> = Vec::new();
    let mut current: usize = 0;
    let mut out = String::new();
    out.append(PRELUDE);
    out.append("\n");
    let ghost head = out@;
    let ghost body: Seq<char> = Seq::empty();
    let mut i: usize = 0;
    proof {
        assert(insts@.skip(0) =~= insts@);
        assert(label_view(labels@) =~= Seq::<nat>::empty());
        lemma_prepend_twice(Seq::empty(), Seq::empty(), body_text(insts@, 0, Seq::empty()));
        assert(Seq::<char>::empty() + Seq::<char>::empty() =~= Seq::<char>::empty());
        if let Some(t) = body_text(insts@, 0, Seq::empty()) {
            assert(Seq::<char>::empty() + t =~= t);
        }
    }
    while i < insts.len()
        invariant
            current <= i <= insts@.len(),
            insts@ == all,
            all == ir@,
            out@ == head + body,
            body_text(insts@, 0, Seq::empty()) == prepend(
                body,
                body_text(insts@.skip(i as int), current as nat, label_view(labels@)),
            ),
        decreases insts.len() - i,
    {
        let ghost rest = insts@.skip(i as int);
        let ghost lv = label_view(labels@);
        assert(rest[0] == insts@[i as int]);
        assert(rest.drop_first() =~= insts@.skip(i + 1));
        let x = insts[i];
        match x {
            IR::LoopStart { .. } => {
                let ghost piece = open_text(current as nat);
                out.append("o");
                push_hex(&mut out, current);
                out.append(":\n");
                out.append("cmp byte [tape + r8], 0\n");
                out.append("jz c");
                push_hex(&mut out, current);
                out.append("\n");
                labels.push(current);
                proof {
                    assert(label_view(labels@) =~= lv.push(current as nat));
                    lemma_prepend_twice(body, piece, body_text(insts@.skip(i + 1), current as nat + 1, lv.push(current as nat)));
                    body = body + piece;
                    assert(out@ =~= head + body);
                }
                current = current + 1;
            },
            IR::LoopEnd { .. } => {
                match labels.pop() {
                    None => {
                        assert(lv.len() == 0);
                        assert(body_text(rest, current as nat, lv) is None);
                        assert(body_text(insts@, 0, Seq::empty()) is None);
                        assert(listing(link_libc, all) is None);
                        return None;
                    },
                    Some(l) => {
                        let ghost piece = close_text(l as nat);
                        out.append("jmp o");
                        push_hex(&mut out, l);
                        out.append("\n");
                        out.append("c");
                        push_hex(&mut out, l);
                        out.append(":\n");
                        proof {
                            assert(label_view(labels@) =~= lv.drop_last());
                            assert(lv.last() == l as nat);
                            lemma_prepend_twice(body, piece, body_text(insts@.skip(i + 1), current as nat, lv.drop_last()));
                            body = body + piece;
                            assert(out@ =~= head + body);
                        }
                    },
                }
            },
            _ => {
                let ghost piece = plain_text(x);
                push_plain(&mut out, x);
                proof {
                    lemma_prepend_twice(body, piece, body_text(insts@.skip(i + 1), current as nat, lv));
                    body = body + piece;
                    assert(out@ =~= head + body);
                }
            },
        }
        i = i + 1;
    }
    proof {
        assert(insts@.skip(i as int).len() == 0);
        assert(body_text(insts@.skip(i as int), current as nat, label_view(labels@)) == Some(Seq::<char>::empty()));
        assert(body + Seq::<char>::empty() =~= body);
    }
    out.append(POSTLUDE);
    out.append("\n");
    if link_libc {
        out.append(ANCHORS_LIBC);
    } else {
        out.append(ANCHORS_PLAIN);
    }
    out.append("\n");
    proof {
        assert(out@ =~= PRELUDE@ + "\n"@ + body + POSTLUDE@ + "\n"@ + (if link_libc {
            ANCHORS_LIBC@
        } else {
            ANCHORS_PLAIN@
        }) + "\n"@);
    }
    Some(out)
}

} // verus!
