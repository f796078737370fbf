use boyfriend::assembly::{to_asm, ANCHORS_LIBC, ANCHORS_PLAIN, POSTLUDE, PRELUDE};
use boyfriend::chunk_list::ChunkList;
use boyfriend::interpret::{Machine, Step};
use boyfriend::ir::{
    collapse_idioms, collapse_repeated, compile, match_brackets, verify, BracketError, MatchError, IR,
    UNRESOLVED,
};

/// Runs the optimized, matched program on `input`; returns the machine, the
/// output and the step that ended the run.
fn run(src: &str, input: &[u8]) -> (Machine, Vec<u8>, Step) {
    verify(src).unwrap();
    let mut ir = compile(src.to_string());
    collapse_repeated(&mut ir);
    collapse_idioms(&mut ir);
    match_brackets(&mut ir).unwrap();
    run_insts(&ir.into_vec(), input)
}

fn run_insts(insts: &Vec<IR>, input: &[u8]) -> (Machine, Vec<u8>, Step) {
    let mut m = Machine::new();
    let mut out = Vec::new();
    let mut pending = None;
    let mut next_input = 0;
    loop {
        match m.step(insts, pending.take()) {
            Step::Ran => {}
            Step::Write(b) => out.push(b),
            Step::Read => {
                if next_input < input.len() {
                    pending = Some(input[next_input]);
                    next_input += 1;
                } else {
                    return (m, out, Step::Read);
                }
            }
            other => return (m, out, other),
        }
    }
}

fn optimized(src: &str) -> Vec<IR> {
    let mut ir = compile(src.to_string());
    collapse_repeated(&mut ir);
    collapse_idioms(&mut ir);
    ir.into_vec()
}

#[test]
fn empty_program() {
    let (m, out, end) = run("", b"");
    assert!(out.is_empty());
    assert_eq!(end, Step::Halted);
    assert_eq!(m.pointer(), 0);
    assert_eq!(compile(String::new()).len(), 0);
}

#[test]
fn hello_world() {
    let src = "++++++++[>++++[>++>+++>+++>+<<<<-]>+>+>->>+[<]<-]>>.>---.+++++++..+++.>>.<-.<.+++.------.--------.>>+.>++.";
    assert_eq!(src.len(), 106);
    let (_, out, end) = run(src, b"");
    // This program prints no comma after "Hello"; the unoptimized run below agrees.
    assert_eq!(out, b"Hello World!\n".to_vec());
    assert_eq!(end, Step::Halted);
}

#[test]
fn hello_world_unoptimized_agrees() {
    let src = "++++++++[>++++[>++>+++>+++>+<<<<-]>+>+>->>+[<]<-]>>.>---.+++++++..+++.>>.<-.<.+++.------.--------.>>+.>++.";
    let mut ir = compile(src.to_string());
    match_brackets(&mut ir).unwrap();
    let (plain, out, _) = run_insts(&ir.into_vec(), b"");
    let (opt, out2, _) = run(src, b"");
    assert_eq!(out, out2);
    assert_eq!(plain.pointer(), opt.pointer());
    for i in 0..16u16 {
        assert_eq!(plain.cell(i), opt.cell(i));
    }
}

#[test]
fn clear_cell() {
    assert_eq!(optimized("+++++[-]"), vec![IR::Arithmetic { amount: 5 }, IR::Zero]);
    let (m, out, end) = run("+++++[-]", b"");
    assert_eq!(m.cell(0), 0);
    assert_eq!(m.pointer(), 0);
    assert!(out.is_empty());
    assert_eq!(end, Step::Halted);
}

#[test]
fn copy_by_move() {
    assert_eq!(
        optimized("++++>[<+>-]"),
        vec![IR::Arithmetic { amount: 4 }, IR::Shift { amount: 1 }, IR::Move { output_offset: -1 }]
    );
    let (m, _, _) = run("++++>[<+>-]", b"");
    assert_eq!(m.cell(0), 4);
    assert_eq!(m.cell(1), 0);
}

#[test]
fn move_carries_the_value() {
    let (m, _, _) = run("++++[>+<-]", b"");
    assert_eq!(m.cell(0), 0);
    assert_eq!(m.cell(1), 4);
}

#[test]
fn multiply() {
    assert_eq!(
        optimized("+++[>++<-]"),
        vec![IR::Arithmetic { amount: 3 }, IR::Multiply { amount: 2, output_offset: 1 }]
    );
    let (m, _, _) = run("+++[>++<-]", b"");
    assert_eq!(m.cell(0), 0);
    assert_eq!(m.cell(1), 6);
}

#[test]
fn multiply_wraps_cell_and_pointer() {
    let src = "++++++++++++++++[<++++++++++++++++++++>-]";
    let (m, _, _) = run(src, b"");
    assert_eq!(m.cell(0), 0);
    assert_eq!(m.cell(65535), 64);
}

#[test]
fn unbalanced() {
    assert_eq!(verify("+++[>++"), Err(BracketError::UnmatchedOpening(1)));
    assert_eq!(verify("]]+["), Err(BracketError::UnmatchedClosing(1)));
    assert_eq!(verify("]]"), Err(BracketError::UnmatchedClosing(2)));
    assert_eq!(verify("[[]]"), Ok(()));
}

#[test]
fn parse_drops_comments() {
    let ir = compile("a>b<c+d-e[f]g,h.\n".to_string()).into_vec();
    assert_eq!(
        ir,
        vec![
            IR::Shift { amount: 1 },
            IR::Shift { amount: -1 },
            IR::Arithmetic { amount: 1 },
            IR::Arithmetic { amount: -1 },
            IR::LoopStart { end_index: UNRESOLVED },
            IR::LoopEnd { start_index: UNRESOLVED },
            IR::Input,
            IR::Output,
        ]
    );
}

#[test]
fn fusion_merges_runs() {
    let mut ir = compile(">>>+++--<".to_string());
    let pruned = collapse_repeated(&mut ir);
    assert_eq!(pruned, 6);
    assert_eq!(
        ir.into_vec(),
        vec![IR::Shift { amount: 3 }, IR::Arithmetic { amount: 1 }, IR::Shift { amount: -1 }]
    );
}

#[test]
fn fusion_drops_zero_sums_and_refuses_neighbours() {
    let mut ir = compile(">+-<".to_string());
    assert_eq!(collapse_repeated(&mut ir), 3);
    assert_eq!(ir.into_vec(), vec![IR::Shift { amount: 0 }]);
}

#[test]
fn fusion_wraps_arithmetic() {
    let mut ir = compile("+".repeat(200));
    collapse_repeated(&mut ir);
    assert_eq!(ir.into_vec(), vec![IR::Arithmetic { amount: -56 }]);
    let mut ir = compile("+".repeat(256));
    assert_eq!(collapse_repeated(&mut ir), 256);
    assert_eq!(ir.len(), 0);
}

#[test]
fn fusion_is_idempotent() {
    let src = "++>>-<<[->+<]>>>+++---,..<<<+[-]++";
    let mut ir = compile(src.to_string());
    collapse_repeated(&mut ir);
    let once = ir.into_vec();
    let mut again = ChunkList::new(once.clone(), 3);
    assert_eq!(collapse_repeated(&mut again), 0);
    assert_eq!(again.into_vec(), once);
}

#[test]
fn idioms_are_idempotent() {
    let src = "[[-]][>+<-][<++>-][->+][-<+][+][[>+<-]]";
    let mut ir = compile(src.to_string());
    collapse_repeated(&mut ir);
    collapse_idioms(&mut ir);
    let once = ir.into_vec();
    let mut again = ChunkList::new(once.clone(), 4);
    assert_eq!(collapse_idioms(&mut again), 0);
    assert_eq!(again.into_vec(), once);
}

#[test]
fn idiom_windows() {
    let got = optimized("[[-]][>+<-][<++>-][->+][-<+][+]");
    assert_eq!(
        got,
        vec![
            IR::LoopStart { end_index: UNRESOLVED },
            IR::Zero,
            IR::LoopEnd { start_index: UNRESOLVED },
            IR::Move { output_offset: 1 },
            IR::Multiply { amount: 2, output_offset: -1 },
            IR::AnchorRight,
            IR::AnchorLeft,
            IR::Zero,
        ]
    );
}

#[test]
fn idioms_report_pruned_count() {
    let mut ir = compile("[>+<-][-]".to_string());
    assert_eq!(collapse_idioms(&mut ir), 7);
    assert_eq!(ir.len(), 2);
}

#[test]
fn unequal_offsets_are_not_moves() {
    let got = optimized("[>+<<-]");
    assert_eq!(got.len(), 6);
    assert_eq!(got[0], IR::LoopStart { end_index: UNRESOLVED });
}

#[test]
fn matcher_points_brackets_at_each_other() {
    let mut ir = compile("+[>[-<]+]".to_string());
    match_brackets(&mut ir).unwrap();
    let insts = ir.into_vec();
    assert_eq!(insts[1], IR::LoopStart { end_index: 8 });
    assert_eq!(insts[8], IR::LoopEnd { start_index: 1 });
    assert_eq!(insts[3], IR::LoopStart { end_index: 6 });
    assert_eq!(insts[6], IR::LoopEnd { start_index: 3 });
    for (i, inst) in insts.iter().enumerate() {
        if let IR::LoopStart { end_index } = inst {
            assert_eq!(insts[*end_index], IR::LoopEnd { start_index: i });
        }
    }
}

#[test]
fn matcher_errors() {
    let mut ir = compile("][".to_string());
    assert_eq!(match_brackets(&mut ir), Err(MatchError::UnclosedLoop(1)));
    let mut ir = compile("+[]]".to_string());
    assert_eq!(match_brackets(&mut ir), Err(MatchError::UnopenedLoop(3)));
}

#[test]
fn balance_kept_through_passes() {
    let src = "+[[-]>[>+<-]<[->+]]";
    let mut ir = compile(src.to_string());
    let count = |v: &Vec<IR>| {
        let s = v.iter().filter(|x| matches!(x, IR::LoopStart { .. })).count();
        let e = v.iter().filter(|x| matches!(x, IR::LoopEnd { .. })).count();
        (s, e)
    };
    collapse_repeated(&mut ir);
    collapse_idioms(&mut ir);
    let v = ir.into_vec();
    let (s, e) = count(&v);
    assert_eq!(s, e);
    assert_eq!(s, 1);
}

#[test]
fn anchor_left_finds_sentinel() {
    let (m, _, end) = run("->>>+[-<+]", b"");
    assert_eq!(end, Step::Halted);
    assert_eq!(m.pointer(), 0);
    assert_eq!(m.cell(0), 0);
    assert_eq!(m.cell(3), 0);
}

#[test]
fn anchor_right_wraps_round() {
    let (m, _, end) = run("->>>+[->+]", b"");
    assert_eq!(end, Step::Halted);
    assert_eq!(m.pointer(), 0);
    assert_eq!(m.cell(0), 0);
    assert_eq!(m.cell(3), 0);
}

#[test]
fn anchor_without_sentinel() {
    let (_, _, end) = run("+[->+]", b"");
    assert_eq!(end, Step::NoAnchor);
    let (_, _, end) = run("+[-<+]", b"");
    assert_eq!(end, Step::NoAnchor);
}

#[test]
fn anchor_on_zero_cell_is_noop() {
    let (m, _, end) = run("[->+]", b"");
    assert_eq!(end, Step::Halted);
    assert_eq!(m.pointer(), 0);
}

#[test]
fn input_and_output() {
    let (_, out, end) = run(",+.,.", b"AZ");
    assert_eq!(out, b"BZ".to_vec());
    assert_eq!(end, Step::Halted);
    let (_, out, end) = run(",.,.", b"x");
    assert_eq!(out, b"x".to_vec());
    assert_eq!(end, Step::Read);
}

#[test]
fn pointer_wraps() {
    let (m, _, _) = run("<+", b"");
    assert_eq!(m.pointer(), 65535);
    assert_eq!(m.cell(65535), 1);
    let (m, _, _) = run("<>>", b"");
    assert_eq!(m.pointer(), 1);
}

#[test]
fn cell_wraps() {
    let (m, _, _) = run("-", b"");
    assert_eq!(m.cell(0), 255);
}

#[test]
fn chunk_list_operations() {
    let mut list = ChunkList::new((0..10u32).collect(), 3);
    assert_eq!(list.len(), 10);
    assert_eq!(*list.index(4), 4);
    list.remove(3);
    list.remove(3);
    list.remove(3);
    assert_eq!(list.len(), 7);
    assert_eq!(*list.index(3), 6);
    list.set(0, 42);
    assert_eq!(list.into_vec(), vec![42, 1, 2, 6, 7, 8, 9]);
}

#[test]
fn chunk_list_empty() {
    let list: ChunkList<u8> = ChunkList::new(Vec::new(), 2048);
    assert_eq!(list.len(), 0);
    assert!(list.into_vec().is_empty());
}

fn listing_of(src: &str, link_libc: bool) -> Option<String> {
    let mut ir = compile(src.to_string());
    collapse_repeated(&mut ir);
    collapse_idioms(&mut ir);
    to_asm(link_libc, ir)
}

#[test]
fn listing_instructions() {
    let text = listing_of("+>[-]<<.,[>+<-]+++[<++>-][->+][-<+]", false).unwrap();
    assert!(text.starts_with(PRELUDE));
    let body = "\nadd byte [tape + r8], 1\n\
                add r8, 1\nand r8, 0xFFFF\n\
                call z\n\
                sub r8, 2\nand r8, 0xFFFF\n\
                call o\n\
                call i\n\
                mov r12, 1\ncall M\n\
                add byte [tape + r8], 3\n\
                mov r13b, 2\nmov r12, 1\ncall ms\n\
                call r\n\
                call l\n";
    assert_eq!(&text[PRELUDE.len()..PRELUDE.len() + body.len()], body);
    assert!(text.ends_with(&format!("{}\n{}\n", POSTLUDE, ANCHORS_PLAIN)));
}

#[test]
fn listing_labels_loops_in_hex() {
    let src = "[.]".repeat(16) + "[[,]]";
    let text = listing_of(&src, true).unwrap();
    assert!(text.contains("o0:\ncmp byte [tape + r8], 0\njz c0\ncall o\njmp o0\nc0:\n"));
    assert!(text.contains("of:\ncmp byte [tape + r8], 0\njz cf\n"));
    assert!(text.contains("o10:\ncmp byte [tape + r8], 0\njz c10\no11:\ncmp byte [tape + r8], 0\njz c11\ncall i\njmp o11\nc11:\njmp o10\nc10:\n"));
    assert!(text.ends_with(&format!("{}\n{}\n", POSTLUDE, ANCHORS_LIBC)));
}

#[test]
fn listing_large_amounts() {
    let src = ">".repeat(300) + &"-".repeat(100);
    let text = listing_of(&src, false).unwrap();
    assert!(text.contains("\nadd r8, 300\nand r8, 0xFFFF\nsub byte [tape + r8], 100\n"));
}

#[test]
fn listing_refuses_unopened_loop() {
    assert_eq!(listing_of("+]", false), None);
    assert!(listing_of("[+", false).is_some());
}

fn unoptimized(src: &str, input: &[u8]) -> (Machine, Vec<u8>, Step) {
    let mut ir = compile(src.to_string());
    match_brackets(&mut ir).unwrap();
    run_insts(&ir.into_vec(), input)
}

#[test]
fn rewrites_keep_final_state() {
    let programs = [
        "+++++[-]>",
        "+++++[+]>",
        "++++++[>++++++++<-]>.",
        "+++[<++>-]<.",
        "->>>++[-<+]",
        "->>>+[->+]",
        ",[>+>++<<-]>.>.",
        ">++<--[>+<+]>>+<<",
    ];
    for src in programs {
        let (a, out_a, end_a) = unoptimized(src, b"\x07");
        let (b, out_b, end_b) = run(src, b"\x07");
        assert_eq!(out_a, out_b, "{src}");
        assert_eq!(end_a, end_b, "{src}");
        assert_eq!(a.pointer(), b.pointer(), "{src}");
        for i in [0u16, 1, 2, 3, 4, 65534, 65535] {
            assert_eq!(a.cell(i), b.cell(i), "{src} cell {i}");
        }
    }
}
