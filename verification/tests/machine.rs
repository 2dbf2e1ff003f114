use goreutils::compile::ops;
use goreutils::compile::{Compile, CompileError};
use goreutils::interpret::Interpret;
use goreutils::token::Tokenize;
use goreutils::types::{NativeFnIndex, Token, TokenKind, Value};

fn floats_of(tokens: &[Token<'_>]) -> Vec<Option<u32>> {
    tokens
        .iter()
        .map(|t| match t.kind() {
            TokenKind::Flt => t.src().parse::<f32>().ok().map(|x| x.to_bits()),
            _ => None,
        })
        .collect()
}

fn compile(src: &str, globals: &[&str]) -> Result<Vec<u8>, CompileError> {
    let tokens = Tokenize::new(src).collect();
    let floats = floats_of(&tokens);
    Compile::new(tokens, floats, globals).parse()
}

fn add(vm: &mut Interpret<'_>) -> Value {
    let mut acc = Value::Nothing;
    while let Some(n) = vm.pull() {
        acc = match (acc, n) {
            (Value::Nothing, y) => y,
            (Value::Int(x), Value::Int(y)) => Value::Int(x.wrapping_add(y)),
            _ => Value::Nothing,
        };
    }
    acc
}

fn first(vm: &mut Interpret<'_>) -> Value {
    vm.pull().unwrap_or(Value::Nothing)
}

fn list(vm: &mut Interpret<'_>) -> Value {
    let mut out = vec![];
    while let Some(n) = vm.pull() {
        out.push(n);
    }
    Value::List(out)
}

fn three(_vm: &mut Interpret<'_>) -> Value {
    Value::Int(3)
}

const NAMES: [&str; 4] = ["add", "first", "list", "three"];

fn run(bin: &Vec<u8>) -> Vec<Value> {
    let mut vm = Interpret::new(bin, &NAMES);
    let mut steps = 0;
    while !vm.end() {
        assert!(!vm.traps());
        if let Some(NativeFnIndex(f)) = vm.tick() {
            let out = match f {
                0 => add(&mut vm),
                1 => first(&mut vm),
                2 => list(&mut vm),
                3 => three(&mut vm),
                _ => unreachable!(),
            };
            vm.ret(out);
        }
        steps += 1;
        assert!(steps < 10_000);
    }
    vm.stack()[NAMES.len()..].to_vec()
}

fn eval(src: &str) -> Vec<Value> {
    run(&compile(src, &NAMES).unwrap())
}

#[test]
fn interpret_test_interpret_0() {
    let src = "{1 0.2}";

    let tokens = Tokenize::new(src).collect();
    println!("{:?}", tokens);

    let globals: [&str; 0] = [];
    let floats = floats_of(&tokens);

    let bin = Compile::new(tokens, floats, &globals).parse().unwrap();

    assert_eq!(&bin, &[ops::LIT_INT, 0, 0, 0, 1, ops::POP, ops::LIT_FLT, 62, 76, 204, 205,]);

    let mut interpret = Interpret::new(&bin, &globals);

    interpret.tick();
    assert_eq!(interpret.stack(), &vec![Value::Int(1)]);
    interpret.tick();
    assert_eq!(interpret.stack(), &vec![]);
    interpret.tick();
    assert_eq!(interpret.stack(), &vec![Value::Flt(0.2f32.to_bits())]);
    interpret.tick();
}

#[test]
fn kibt_test_interpret_0() {
    let src = "{1 0.2}";

    let tokens = Tokenize::new(src).collect();
    println!("{:?}", tokens);

    let globals: [&str; 0] = [];
    let floats = floats_of(&tokens);

    let bin = Compile::new(tokens, floats, &globals).parse().unwrap();

    assert_eq!(&bin, &[ops::LIT_INT, 0, 0, 0, 1, ops::POP, ops::LIT_FLT, 62, 76, 204, 205,]);

    let mut interpret = Interpret::new(&bin, &globals);

    interpret.tick();
    assert_eq!(interpret.stack(), &vec![Value::Int(1)]);
    interpret.tick();
    assert_eq!(interpret.stack(), &vec![]);
    interpret.tick();
    assert_eq!(interpret.stack(), &vec![Value::Flt(0.2f32.to_bits())]);
    interpret.tick();
}

fn interpret_1() {
    let src = "{ let a 1 let b 2 a b }";

    let tokens = Tokenize::new(src).collect();
    println!("{:?}", tokens);

    let globals: [&str; 0] = [];
    let floats = floats_of(&tokens);

    let bin = Compile::new(tokens, floats, &globals).parse().unwrap();

    assert_eq!(
        &bin,
        &[
            ops::LIT_INT,
            0,
            0,
            0,
            1,
            ops::LIT_NONE,
            ops::POP,
            ops::LIT_INT,
            0,
            0,
            0,
            2,
            ops::LIT_NONE,
            ops::POP,
            ops::GET,
            0,
            ops::POP,
            ops::GET,
            1,
            ops::SWAP,
            ops::POP,
            ops::SWAP,
            ops::POP,
        ]
    );

    let mut interpret = Interpret::new(&bin, &globals);

    interpret.tick();
    interpret.tick();
    interpret.tick();
    assert_eq!(interpret.stack(), &vec![Value::Int(1)]);
    interpret.tick();
    interpret.tick();
    interpret.tick();
    assert_eq!(interpret.stack(), &vec![Value::Int(1), Value::Int(2)]);
    interpret.tick();
    assert_eq!(interpret.stack(), &vec![Value::Int(1), Value::Int(2), Value::Int(1)]);
    interpret.tick();
    assert_eq!(interpret.stack(), &vec![Value::Int(1), Value::Int(2)]);
    interpret.tick();
    assert_eq!(interpret.stack(), &vec![Value::Int(1), Value::Int(2), Value::Int(2)]);
    interpret.tick();
    assert_eq!(interpret.stack(), &vec![Value::Int(1), Value::Int(2), Value::Int(2)]);
    interpret.tick();
    assert_eq!(interpret.stack(), &vec![Value::Int(1), Value::Int(2)]);
    interpret.tick();
    assert_eq!(interpret.stack(), &vec![Value::Int(2), Value::Int(1)]);
    interpret.tick();
    assert_eq!(interpret.stack(), &vec![Value::Int(2)]);
    interpret.tick();
}

#[test]
fn interpret_test_interpret_1() {
    interpret_1();
}

#[test]
fn kibt_test_interpret_1() {
    interpret_1();
}

#[test]
fn a_call_interleaves_arguments_and_swaps() {
    assert_eq!(
        compile("(add 1 2)", &NAMES).unwrap(),
        vec![
            ops::GET,
            0,
            ops::LIT_INT,
            0,
            0,
            0,
            1,
            ops::SWAP,
            ops::LIT_INT,
            0,
            0,
            0,
            2,
            ops::SWAP,
            ops::CALL,
            2,
        ]
    );
    assert_eq!(compile("(three)", &NAMES).unwrap(), vec![ops::GET, 3, ops::CALL, 0]);
}

#[test]
fn literals_compile_to_big_endian_words() {
    assert_eq!(compile("none", &[]).unwrap(), vec![ops::LIT_NONE]);
    assert_eq!(compile("-5", &[]).unwrap(), vec![ops::LIT_INT, 255, 255, 255, 251]);
    assert_eq!(compile("258", &[]).unwrap(), vec![ops::LIT_INT, 0, 0, 1, 2]);
    assert_eq!(compile("2147483647", &[]).unwrap(), vec![ops::LIT_INT, 127, 255, 255, 255]);
    assert_eq!(compile("-2147483648", &[]).unwrap(), vec![ops::LIT_INT, 128, 0, 0, 0]);
    assert_eq!(compile("1.0", &[]).unwrap(), vec![ops::LIT_FLT, 63, 128, 0, 0]);
}

#[test]
fn only_the_first_expression_is_compiled() {
    assert_eq!(compile("1 2 3", &[]).unwrap(), vec![ops::LIT_INT, 0, 0, 0, 1]);
}

#[test]
fn a_conditional_is_two_patched_jumps() {
    let bin = compile("if 0 1 else 2", &[]).unwrap();
    assert_eq!(
        bin,
        vec![
            ops::LIT_INT,
            0,
            0,
            0,
            0,
            ops::JUMP,
            0,
            0,
            0,
            25,
            ops::LIT_INT,
            0,
            0,
            0,
            1,
            ops::LIT_INT,
            0,
            0,
            0,
            0,
            ops::JUMP,
            0,
            0,
            0,
            30,
            ops::LIT_INT,
            0,
            0,
            0,
            2,
        ]
    );
}

#[test]
fn zero_selects_the_else_branch_and_any_other_int_the_then_branch() {
    assert_eq!(eval("if 0 1 else 2"), vec![Value::Int(2)]);
    assert_eq!(eval("if 1 1 else 2"), vec![Value::Int(1)]);
    assert_eq!(eval("if -7 1 else 2"), vec![Value::Int(1)]);
    assert_eq!(eval("if (add 1 -1) { 10 } else { 20 }"), vec![Value::Int(20)]);
    assert_eq!(eval("{ let a if 0 1 else 2 let b if 5 3 else 4 (add a b) }"), vec![Value::Int(5)]);
}

#[test]
fn both_branches_end_at_the_same_place() {
    for src in ["if 0 1 else 2", "if 1 1 else 2"] {
        let bin = compile(src, &[]).unwrap();
        let globals: [&str; 0] = [];
        let mut vm = Interpret::new(&bin, &globals);
        let mut ticks = 0;
        while !vm.end() {
            assert!(!vm.traps());
            vm.tick();
            ticks += 1;
        }
        assert_eq!(vm.stack().len(), 1);
        assert_eq!(ticks, if src.starts_with("if 0") { 3 } else { 5 });
    }
}

#[test]
fn a_condition_that_is_no_int_traps() {
    for src in ["if none 1 else 2", "if 0.5 1 else 2"] {
        let bin = compile(src, &[]).unwrap();
        let globals: [&str; 0] = [];
        let mut vm = Interpret::new(&bin, &globals);
        assert!(!vm.traps());
        vm.tick();
        assert!(vm.traps());
    }
}

#[test]
fn bindings_are_unwound_and_the_result_stays() {
    assert_eq!(eval("{ let a 1 let b 2 a b }"), vec![Value::Int(2)]);
    assert_eq!(eval("{ let a 1 { let a 2 a } }"), vec![Value::Int(2)]);
    assert_eq!(eval("{ let a 1 { let b 2 b } a }"), vec![Value::Int(1)]);
    assert_eq!(eval("{ let a 1 set a 5 a }"), vec![Value::Int(5)]);
    assert_eq!(eval("{ let a 1 { let a 2 set a 3 } a }"), vec![Value::Int(1)]);
    assert_eq!(eval("{ let a 1 { set a 3 } a }"), vec![Value::Int(3)]);
    assert_eq!(eval("{ let a 1 }"), vec![Value::Nothing]);
    assert_eq!(eval("(add { 1 } { 2 })"), vec![Value::Int(3)]);
    assert_eq!(eval("{ let a 1 let b (add a 2) (add a b) }"), vec![Value::Int(4)]);
}

#[test]
fn a_binding_inside_a_call_is_given_the_slot_of_the_callee() {
    let bin = compile("(first { let a 1 a })", &NAMES).unwrap();
    assert_eq!(
        bin,
        vec![
            ops::GET,
            1,
            ops::LIT_INT,
            0,
            0,
            0,
            1,
            ops::LIT_NONE,
            ops::POP,
            ops::GET,
            4,
            ops::SWAP,
            ops::POP,
            ops::SWAP,
            ops::CALL,
            1,
        ]
    );
    let out = run(&bin);
    assert_eq!(out.len(), 1);
    assert!(matches!(out[0], Value::NativeFn(NativeFnIndex(1))));
}

#[test]
fn a_call_leaves_the_stack_balanced_whatever_the_native_pulls() {
    assert_eq!(eval("(three 1 2 3)"), vec![Value::Int(3)]);
    assert_eq!(eval("(first 1 2 3)"), vec![Value::Int(1)]);
    assert_eq!(eval("(add 1 2 3)"), vec![Value::Int(6)]);
    assert_eq!(eval("(first)"), vec![Value::Nothing]);
    assert_eq!(
        eval("(list 1 none 2.5 (list))"),
        vec![Value::List(vec![
            Value::Int(1),
            Value::Nothing,
            Value::Flt(2.5f32.to_bits()),
            Value::List(vec![]),
        ])]
    );
    assert_eq!(eval("{ let a 7 (three a a) a }"), vec![Value::Int(7)]);
}

#[test]
fn pull_hands_out_the_arguments_in_their_order() {
    let bin = compile("(list 1 2 3)", &NAMES).unwrap();
    let mut vm = Interpret::new(&bin, &NAMES);
    while !vm.calling() {
        assert!(vm.tick().is_none() || vm.calling());
    }
    assert_eq!(vm.stack().len(), NAMES.len() + 3);
    assert_eq!(vm.pull(), Some(Value::Int(1)));
    assert_eq!(vm.stack().len(), NAMES.len() + 2);
    assert_eq!(vm.pull(), Some(Value::Int(2)));
    vm.ret(Value::Int(9));
    assert!(!vm.calling());
    assert_eq!(vm.stack().len(), NAMES.len() + 1);
    assert_eq!(vm.pop(), Some(Value::Int(9)));
    assert_eq!(vm.pull(), None);
    assert!(vm.end());
}

#[test]
fn the_machine_starts_with_one_reference_per_native_in_order() {
    let bin = vec![];
    let vm = Interpret::new(&bin, &NAMES);
    assert_eq!(vm.stack().len(), 4);
    for (i, v) in vm.stack().iter().enumerate() {
        assert!(matches!(v, Value::NativeFn(NativeFnIndex(j)) if *j as usize == i));
    }
    assert!(vm.end());
    assert_eq!(compile("three", &NAMES).unwrap(), vec![ops::GET, 3]);
    assert_eq!(compile("add", &NAMES).unwrap(), vec![ops::GET, 0]);
}

#[test]
fn past_the_end_a_tick_does_nothing() {
    let bin = vec![ops::LIT_NONE];
    let globals: [&str; 0] = [];
    let mut vm = Interpret::new(&bin, &globals);
    vm.tick();
    assert!(vm.end());
    assert!(!vm.traps());
    vm.tick();
    assert_eq!(vm.stack(), &vec![Value::Nothing]);
    assert_eq!(vm.pop(), Some(Value::Nothing));
    assert_eq!(vm.pop(), None);
}

fn traps_at_start(bin: Vec<u8>) -> bool {
    Interpret::new(&bin, &NAMES).traps()
}

#[test]
fn each_trap_is_told_before_the_tick() {
    assert!(!traps_at_start(vec![ops::NOP]));
    assert!(!traps_at_start(vec![ops::POP]));
    assert!(!traps_at_start(vec![ops::GET, 3]));
    assert!(traps_at_start(vec![ops::GET, 4]));
    assert!(traps_at_start(vec![ops::GET]));
    assert!(!traps_at_start(vec![ops::SET, 2]));
    assert!(traps_at_start(vec![ops::SET, 3]));
    assert!(traps_at_start(vec![ops::LIT_INT, 0, 0, 0]));
    assert!(traps_at_start(vec![ops::LIT_FLT, 0, 0, 0]));
    assert!(traps_at_start(vec![ops::JUMP, 0, 0, 0, 0]));
    assert!(traps_at_start(vec![ops::JUMP, 0, 0, 0]));
    assert!(traps_at_start(vec![0x07]));
    assert!(traps_at_start(vec![0xff]));
    assert!(!traps_at_start(vec![ops::CALL, 3]));
    assert!(traps_at_start(vec![ops::CALL, 4]));
    assert!(traps_at_start(vec![ops::CALL]));

    let globals: [&str; 0] = [];
    for bin in [vec![ops::POP], vec![ops::SWAP], vec![ops::CALL, 0], vec![ops::SET, 0]] {
        assert!(Interpret::new(&bin, &globals).traps());
    }
    let bin = vec![ops::LIT_NONE, ops::CALL, 0];
    let mut vm = Interpret::new(&bin, &globals);
    vm.tick();
    assert!(vm.traps());
    let bin = vec![ops::LIT_NONE, ops::SWAP];
    let mut vm = Interpret::new(&bin, &globals);
    vm.tick();
    assert!(vm.traps());
}

#[test]
fn a_jump_may_leave_the_code() {
    let bin = vec![ops::LIT_INT, 0, 0, 0, 0, ops::JUMP, 0, 0, 1, 0, ops::LIT_NONE];
    let globals: [&str; 0] = [];
    let mut vm = Interpret::new(&bin, &globals);
    vm.tick();
    vm.tick();
    assert!(vm.end());
    assert_eq!(vm.stack(), &vec![]);
}

#[test]
fn each_compile_error_has_its_input() {
    assert_eq!(compile("{ let 1 }", &[]), Err(CompileError::MissingVarName));
    assert_eq!(compile("{ set 1 }", &[]), Err(CompileError::MissingVarName));
    assert_eq!(compile("{ let", &[]), Err(CompileError::MissingVarName));
    assert_eq!(compile("x", &[]), Err(CompileError::UnknownVariable(0)));
    assert_eq!(compile("{ set x 1 }", &[]), Err(CompileError::UnknownVariable(2)));
    assert_eq!(compile("{ { let x 1 } x }", &[]), Err(CompileError::UnknownVariable(6)));
    assert_eq!(compile("(add 1 y)", &NAMES), Err(CompileError::UnknownVariable(3)));
    assert_eq!(compile("if 1 2", &[]), Err(CompileError::MissingElse));
    assert_eq!(compile("if 1 2 3", &[]), Err(CompileError::MissingElse));
    assert_eq!(compile("-", &[]), Err(CompileError::NumberParse));
    assert_eq!(compile("99999999999", &[]), Err(CompileError::NumberParse));
    assert_eq!(compile("-.", &[]), Err(CompileError::NumberParse));
    assert_eq!(compile(")", &[]), Err(CompileError::UnexpectedToken(0)));
    assert_eq!(compile("{ else }", &[]), Err(CompileError::UnexpectedToken(1)));
    assert_eq!(compile("loop", &[]), Err(CompileError::UnexpectedToken(0)));
    assert_eq!(compile("#", &[]), Err(CompileError::UnexpectedToken(0)));
    assert_eq!(compile("", &[]), Err(CompileError::UnexpectedEnd));
    assert_eq!(compile("(", &[]), Err(CompileError::UnexpectedEnd));
    assert_eq!(compile("if", &[]), Err(CompileError::UnexpectedEnd));
    assert_eq!(compile("{ 1", &[]), Err(CompileError::MissingDelimiter));
    assert_eq!(compile("{", &[]), Err(CompileError::MissingDelimiter));
    assert_eq!(compile("(add 1", &NAMES), Err(CompileError::MissingDelimiter));
    assert_eq!(compile("if 1 {} else {}", &[]), Err(CompileError::EmptyBranch));
}

#[test]
fn a_float_literal_without_its_bits_does_not_compile() {
    let tokens = Tokenize::new("1.5").collect();
    assert_eq!(Compile::new(tokens, vec![], &[]).parse(), Err(CompileError::NumberParse));
    let tokens = Tokenize::new("1.5").collect();
    assert_eq!(Compile::new(tokens, vec![None], &[]).parse(), Err(CompileError::NumberParse));
    let tokens = Tokenize::new("1.5").collect();
    assert_eq!(
        Compile::new(tokens, vec![Some(7)], &[]).parse(),
        Ok(vec![ops::LIT_FLT, 0, 0, 0, 7])
    );
}

#[test]
fn an_empty_block_takes_back_the_byte_before_it() {
    assert_eq!(compile("{}", &[]).unwrap(), vec![]);
    assert_eq!(compile("(three {})", &NAMES).unwrap(), vec![ops::GET, ops::SWAP, ops::CALL, 1]);
}

#[test]
fn slots_and_counts_are_one_byte() {
    let mut src = String::from("(three");
    for _ in 0..300 {
        src.push_str(" 1");
    }
    src.push(')');
    let bin = compile(&src, &NAMES).unwrap();
    assert_eq!(&bin[bin.len() - 2..], &[ops::CALL, 255]);

    let mut src = String::from("{");
    for i in 0..260 {
        src.push_str(&format!(" let v{} {}", i, i));
    }
    src.push_str(" v257 }");
    let bin = compile(&src, &[]).unwrap();
    let at = 260 * 7;
    assert_eq!(&bin[at..at + 2], &[ops::GET, 1]);
}

#[test]
fn words_round_trip() {
    for a in [0, 1, -1, 255, 256, -256, i32::MAX, i32::MIN, 0x1234_5678] {
        assert_eq!(ops::to_bits(a), a as u32);
        assert_eq!(ops::from_bits(a as u32), a);
        let mut bin = vec![9];
        ops::push_word(&mut bin, a as u32);
        assert_eq!(&bin[1..], &(a as u32).to_be_bytes());
        assert_eq!(ops::read_word(&bin, 1), a as u32);
        let mut bin = vec![1, 2, 3, 4, 5, 6];
        ops::patch_word(&mut bin, 1, a as u32);
        assert_eq!(bin[0], 1);
        assert_eq!(&bin[1..5], &(a as u32).to_be_bytes());
        assert_eq!(bin[5], 6);
    }
}

#[test]
fn a_program_ends_with_one_value_more_than_the_library() {
    for src in [
        "1",
        "none",
        "add",
        "(add 1 2)",
        "(three 1 2 3 4 5)",
        "{ 1 2 3 }",
        "{ let a 1 let b a { let c b set a c } (add a b) }",
        "if 0 { let a 1 a } else { let b 2 (add b b) }",
        "if 1 (list 1 2) else none",
        "(add if 0 1 else 2 if 1 3 else 4)",
        "{ let a 0 if a { set a 1 } else { set a 2 } a }",
    ] {
        let bin = compile(src, &NAMES).unwrap();
        let mut vm = Interpret::new(&bin, &NAMES);
        while !vm.end() {
            assert!(!vm.traps(), "{}", src);
            if let Some(NativeFnIndex(f)) = vm.tick() {
                let out = match f {
                    0 => add(&mut vm),
                    1 => first(&mut vm),
                    2 => list(&mut vm),
                    _ => three(&mut vm),
                };
                vm.ret(out);
            }
            assert!(vm.stack().len() >= NAMES.len(), "{}", src);
        }
        assert_eq!(vm.stack().len(), NAMES.len() + 1, "{}", src);
    }
}

#[test]
fn compiling_in_one_call_is_new_and_parse() {
    for src in ["(add 1 2)", "{ let a 1 a }", "if 1 2 else 3", "x", "{ 1", ""] {
        let tokens: Vec<Token<'_>> = Tokenize::new(src).collect();
        let floats = floats_of(&tokens);
        assert_eq!(Compile::compile(tokens, floats, &NAMES), compile(src, &NAMES));
    }
}

#[test]
fn crack_takes_the_token_that_the_predicate_accepts() {
    let tokens: Vec<Token<'_>> = Tokenize::new("a 1").collect();
    let mut c = Compile::new(tokens, vec![], &[]);
    assert_eq!(c.crack(|t| t.kind() == TokenKind::Int), None);
    assert_eq!(c.crack(|t| t.kind() == TokenKind::Ident), Some(Token::new(TokenKind::Ident, "a")));
    assert_eq!(c.crack(|t| t.src() == "1"), Some(Token::new(TokenKind::Int, "1")));
    assert_eq!(c.crack(|_| true), None);
    assert_eq!(c.parse(), Err(CompileError::UnexpectedEnd));
}
