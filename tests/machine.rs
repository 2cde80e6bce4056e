use bfvm::engine::{compile, dec_data, decbyte, inbyte, inc_data, incbyte, resume_input, step, Event, State};
use bfvm::error::BfError;
use bfvm::fold::fold;
use bfvm::lexer::lex;
use bfvm::resolve::{forward_ofset, resolve, rev_ofset};
use bfvm::token::Token;

/// Runs a machine to its end, feeding `input` byte by byte (zero once it is
/// used up), and returns what it wrote.
fn run_state(mut st: State, input: &[u8]) -> Result<(Vec<u8>, State), BfError> {
    let mut out = Vec::new();
    let mut next = 0;
    for _ in 0..10_000_000 {
        match step(&mut st)? {
            Event::Continue => {}
            Event::Emit(b) => out.push(b),
            Event::NeedInput => {
                let v = input.get(next).copied();
                next += 1;
                resume_input(&mut st, v);
            }
            Event::Halt => return Ok((out, st)),
        }
    }
    panic!("the program did not halt");
}

fn run(src: &str, input: &[u8]) -> Result<Vec<u8>, BfError> {
    let st = State::from_source(src.as_bytes())?;
    run_state(st, input).map(|(o, _)| o)
}

#[test]
fn hello_prefix_prints_hello() {
    let src = "++++++++[>++++[>++>+++>+++>+<<<<-]>+>+>->>+[<]<-]>>.>---.+++++++..+++.";
    assert_eq!(run(src, &[]).unwrap(), b"Hello".to_vec());
}

#[test]
fn full_hello_world() {
    let src = "++++++++[>++++[>++>+++>+++>+<<<<-]>+>+>->>+[<]<-]>>.>---.+++++++..+++.>>.<-.<.+++.------.--------.>>+.>++.";
    assert_eq!(run(src, &[]).unwrap(), b"Hello World!\n".to_vec());
}

#[test]
fn echo_one_byte() {
    assert_eq!(run(",.", &[65]).unwrap(), vec![65u8]);
}

#[test]
fn output_is_raw_byte() {
    assert_eq!(run("+++.", &[]).unwrap(), vec![3u8]);
}

#[test]
fn unbalanced_open_is_rejected() {
    assert!(matches!(State::from_source(b"["), Err(BfError::MalformedProgram)));
    assert!(matches!(compile(b"["), Err(BfError::MalformedProgram)));
}

#[test]
fn unbalanced_close_and_nested_are_rejected() {
    assert!(matches!(compile(b"]"), Err(BfError::MalformedProgram)));
    assert!(matches!(compile(b"[[]"), Err(BfError::MalformedProgram)));
    assert!(matches!(compile(b"[]]["), Err(BfError::MalformedProgram)));
    assert!(compile(b"[[]][]").is_ok());
}

#[test]
fn end_of_input_reads_zero() {
    assert_eq!(run("+,.", &[]).unwrap(), vec![0u8]);
}

#[test]
fn increment_wraps_to_zero() {
    let mut st = State::new();
    incbyte(&mut st, 255);
    assert_eq!(st.memory[0], 255);
    incbyte(&mut st, 1);
    assert_eq!(st.memory[0], 0);
}

#[test]
fn decrement_wraps_to_255() {
    let mut st = State::new();
    decbyte(&mut st, 1);
    assert_eq!(st.memory[0], 255);
    assert_eq!(run("-.", &[]).unwrap(), vec![255u8]);
}

#[test]
fn long_runs_wrap_modulo_256() {
    let src = "+".repeat(300) + ".";
    assert_eq!(run(&src, &[]).unwrap(), vec![44u8]);
    let src = "-".repeat(257) + ".";
    assert_eq!(run(&src, &[]).unwrap(), vec![255u8]);
}

#[test]
fn tape_grows_with_zero_cells() {
    let mut st = State::new();
    incbyte(&mut st, 7);
    inc_data(&mut st, 3);
    assert_eq!(st.memptr, 3);
    assert_eq!(st.memory, vec![7u8, 0, 0, 0]);
    inc_data(&mut st, 0);
    assert_eq!(st.memory.len(), 4);
    assert!(dec_data(&mut st, 2).is_ok());
    inc_data(&mut st, 1);
    assert_eq!(st.memory.len(), 4);
    assert_eq!(st.memptr, 2);
}

#[test]
fn right_then_left_returns() {
    let st = State::from_source(b"+>>>+<<<").unwrap();
    let (_, st) = run_state(st, &[]).unwrap();
    assert_eq!(st.memptr, 0);
    assert_eq!(st.memory, vec![1u8, 0, 0, 1]);
}

#[test]
fn pointer_underflow_is_reported() {
    assert!(matches!(run("<", &[]), Err(BfError::PointerUnderflow)));
    let mut st = State::new();
    assert!(matches!(dec_data(&mut st, 1), Err(BfError::PointerUnderflow)));
    assert_eq!(st.memptr, 0);
}

#[test]
fn open_over_zero_skips_the_loop() {
    let mut st = State::from_source(b"[+.]+").unwrap();
    assert_eq!(st.inst[0], Token::LoopOpen(3));
    assert!(matches!(step(&mut st), Ok(Event::Continue)));
    assert_eq!(st.instptr, 4);
    assert_eq!(run("[+.]+.", &[]).unwrap(), vec![1u8]);
}

#[test]
fn close_over_nonzero_goes_back() {
    let mut st = State::from_source(b"+[-]").unwrap();
    assert!(matches!(step(&mut st), Ok(Event::Continue)));
    assert!(matches!(step(&mut st), Ok(Event::Continue)));
    assert_eq!(st.instptr, 2);
    st.memory[0] = 5;
    assert!(matches!(step(&mut st), Ok(Event::Continue)));
    assert!(matches!(step(&mut st), Ok(Event::Continue)));
    assert_eq!(st.instptr, 2);
    assert_eq!(st.memory[0], 4);
}

#[test]
fn lexer_skips_other_bytes() {
    let t = lex(b"a+ b\n[-]>,.<x");
    assert_eq!(
        t,
        vec![
            Token::Increment(1),
            Token::LoopOpen(0),
            Token::Decrement(1),
            Token::LoopClose(0),
            Token::MoveRight(1),
            Token::Input,
            Token::Output,
            Token::MoveLeft(1),
        ]
    );
    assert!(lex(b"hello world").is_empty());
}

#[test]
fn folder_merges_runs() {
    let f = fold(&lex(b"+++>>[--<]<<<,,"));
    assert_eq!(
        f,
        vec![
            Token::Increment(3),
            Token::MoveRight(2),
            Token::LoopOpen(0),
            Token::Decrement(2),
            Token::MoveLeft(1),
            Token::LoopClose(0),
            Token::MoveLeft(3),
            Token::Input,
            Token::Input,
        ]
    );
    assert_eq!(fold(&lex(&[b'+'; 300]))[0], Token::Increment(300));
}

#[test]
fn folded_and_unfolded_agree() {
    let src = "++++++++[>++++[>++>+++>+++>+<<<<-]>+>+>->>+[<]<-]>>.>---.+++++++..+++.";
    let plain = resolve(&lex(src.as_bytes())).unwrap();
    let folded = compile(src.as_bytes()).unwrap();
    assert!(folded.len() < plain.len());
    let (o1, s1) = run_state(State::from_program(plain), &[]).unwrap();
    let (o2, s2) = run_state(State::from_program(folded), &[]).unwrap();
    assert_eq!(o1, o2);
    assert_eq!(s1.memory, s2.memory);
    assert_eq!(s1.memptr, s2.memptr);
}

#[test]
fn targets_are_mutual() {
    let r = resolve(&lex(b"[[]+][-]")).unwrap();
    assert_eq!(
        r,
        vec![
            Token::LoopOpen(4),
            Token::LoopOpen(2),
            Token::LoopClose(1),
            Token::Increment(1),
            Token::LoopClose(0),
            Token::LoopOpen(7),
            Token::Decrement(1),
            Token::LoopClose(5),
        ]
    );
}

#[test]
fn bracket_scans() {
    let p = lex(b"[[]+]]");
    assert_eq!(forward_ofset(&p, 0), Some(4));
    assert_eq!(forward_ofset(&p, 1), Some(2));
    assert_eq!(rev_ofset(&p, 4), Some(0));
    assert_eq!(rev_ofset(&p, 5), None);
    let q = lex(b"[[]");
    assert_eq!(forward_ofset(&q, 0), None);
}

#[test]
fn empty_program_halts_at_once() {
    let mut st = State::from_source(b"no operators here").unwrap();
    assert_eq!(st.last, 0);
    assert!(matches!(step(&mut st), Ok(Event::Halt)));
}

#[test]
fn right_move_past_largest_index_is_reported() {
    let mut st = State::from_program(vec![Token::MoveRight(1), Token::MoveRight(usize::MAX)]);
    assert!(matches!(step(&mut st), Ok(Event::Continue)));
    assert!(matches!(step(&mut st), Err(BfError::TapeLimit)));
    assert_eq!(st.memptr, 1);
    assert_eq!(st.instptr, 1);
    assert_eq!(st.memory.len(), 2);
}

#[test]
fn inbyte_end_of_input_stores_zero() {
    let mut st = State::new();
    st.memory[0] = 7;
    inbyte(&mut st, None);
    assert_eq!(st.memory, vec![0u8]);
    assert_eq!(st.memptr, 0);
    assert_eq!(st.instptr, 0);
}

#[test]
fn inbyte_stores_the_byte_only() {
    let mut st = State::new();
    inbyte(&mut st, Some(65));
    assert_eq!(st.memory, vec![65u8]);
    assert_eq!(st.memptr, 0);
    assert_eq!(st.instptr, 0);
    assert_eq!(st.last, 0);
}

#[test]
fn resume_input_stores_and_advances() {
    let mut st = State::from_source(b",.").unwrap();
    assert!(matches!(step(&mut st), Ok(Event::NeedInput)));
    assert_eq!(st.instptr, 0);
    resume_input(&mut st, Some(65));
    assert_eq!(st.instptr, 1);
    assert_eq!(st.memory, vec![65u8]);
}
