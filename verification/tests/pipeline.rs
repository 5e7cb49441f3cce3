//! End-to-end tests: compile small sources and execute the emitted
//! assembly on a reference interpreter of the stack machine.

use stackc::generate::generate;
use stackc::parse::parse;
use stackc::tokenize::tokenize;
use stackc::trans::trans;
use stackc::trans::Insn;
use stackc::trans::Lbl;

fn compile(src: &str) -> Vec<Insn> {
    let tokens = tokenize(src).expect("tokenize");
    let ast = parse(&tokens).expect("parse");
    let prog = generate(&ast).expect("generate");
    trans(&prog).expect("trans")
}

fn find_label(insns: &[Insn], target: &Lbl) -> usize {
    for (i, insn) in insns.iter().enumerate() {
        if let Insn::Label(l) = insn {
            if l == target {
                return i;
            }
        }
    }
    panic!("label not found");
}

/// A reference interpreter for the stack machine.
fn run(insns: &[Insn], input: &[i64]) -> Vec<i64> {
    let mut stack: Vec<i64> = Vec::new();
    let mut out: Vec<i64> = Vec::new();
    let mut inp = input.iter();
    let mut pc: usize = 0;
    let mut steps: usize = 0;
    loop {
        steps += 1;
        assert!(steps < 1_000_000, "interpreter ran too long");
        match &insns[pc] {
            Insn::Push(n) => stack.push(*n as i64),
            Insn::Pop => {
                stack.pop().unwrap();
            }
            Insn::Dup => {
                let t = *stack.last().unwrap();
                stack.push(t);
            }
            Insn::Swap => {
                let a = stack.pop().unwrap();
                let b = stack.pop().unwrap();
                stack.push(a);
                stack.push(b);
            }
            Insn::Roll => {
                let cnt = stack.pop().unwrap();
                let depth = stack.pop().unwrap() as usize;
                let len = stack.len();
                assert!(depth >= 1 && depth <= len);
                let region = &mut stack[len - depth..];
                let steps_by = cnt.rem_euclid(depth as i64) as usize;
                region.rotate_right(steps_by);
            }
            Insn::Add => {
                let a = stack.pop().unwrap();
                let b = stack.pop().unwrap();
                stack.push(b + a);
            }
            Insn::Sub => {
                let a = stack.pop().unwrap();
                let b = stack.pop().unwrap();
                stack.push(b - a);
            }
            Insn::Mul => {
                let a = stack.pop().unwrap();
                let b = stack.pop().unwrap();
                stack.push(b * a);
            }
            Insn::Div => {
                let a = stack.pop().unwrap();
                let b = stack.pop().unwrap();
                stack.push(b / a);
            }
            Insn::Mod => {
                let a = stack.pop().unwrap();
                let b = stack.pop().unwrap();
                stack.push(b % a);
            }
            Insn::Greater => {
                let a = stack.pop().unwrap();
                let b = stack.pop().unwrap();
                stack.push(if b > a { 1 } else { 0 });
            }
            Insn::Not => {
                let a = stack.pop().unwrap();
                stack.push(if a == 0 { 1 } else { 0 });
            }
            Insn::Inn | Insn::Inc => {
                stack.push(*inp.next().expect("input exhausted"));
            }
            Insn::Outn | Insn::Outc => {
                out.push(stack.pop().unwrap());
            }
            Insn::Jmp(l) => {
                pc = find_label(insns, l);
                continue;
            }
            Insn::Jez(l) => {
                let a = stack.pop().unwrap();
                if a == 0 {
                    pc = find_label(insns, l);
                    continue;
                }
            }
            Insn::Label(_) => {}
            Insn::Halt => break,
        }
        pc += 1;
    }
    out
}

#[test]
fn smallest_program() {
    let insns = compile("fn[0] main() { halt(); }");
    // the program starts by jumping to main
    assert_eq!(insns[0], Insn::Jmp(Lbl::Func("main".to_string())));
    // main pushes return token zero and jumps to the builtin halt
    let main_at = find_label(&insns, &Lbl::Func("main".to_string()));
    assert_eq!(insns[main_at + 2], Insn::Push(0));
    assert_eq!(insns[main_at + 3], Insn::Jmp(Lbl::Func("halt".to_string())));
    assert_eq!(insns[main_at + 4], Insn::Label(Lbl::Control(0)));
    assert_eq!(insns[main_at + 5], Insn::Pop);
    // the dispatcher ends the program: one entry for the one call site
    let ret_at = find_label(&insns, &Lbl::Ret);
    assert_eq!(insns[ret_at + 1], Insn::Dup);
    assert_eq!(insns[ret_at + 2], Insn::Jez(Lbl::Control(0)));
    assert_eq!(insns[ret_at + 3], Insn::Push(1));
    assert_eq!(insns[ret_at + 4], Insn::Sub);
    // it runs to completion without output
    assert_eq!(run(&insns, &[]), Vec::<i64>::new());
}

#[test]
fn identity_echo() {
    let insns = compile("fn[0] main() { x = getnum(); putnum(x); halt(); }");
    assert_eq!(run(&insns, &[42]), vec![42]);
}

#[test]
fn arithmetic_precedence() {
    let insns = compile("fn[0] main() { x = 2 + 3 * 4; putnum(x); halt(); }");
    assert_eq!(run(&insns, &[]), vec![14]);
}

#[test]
fn branch_on_zero() {
    let insns = compile(
        "fn[0] main() { x = getnum(); if x { putnum(1); } else { putnum(0); } halt(); }",
    );
    assert_eq!(run(&insns, &[0]), vec![0]);
    assert_eq!(run(&insns, &[5]), vec![1]);
}

#[test]
fn recursion_factorial() {
    let insns = compile(
        "fn[1] f(n) { if n == 0 { return 1; } return n * f(n - 1); } \
         fn[0] main() { putnum(f(5)); halt(); }",
    );
    assert_eq!(run(&insns, &[]), vec![120]);
}

#[test]
fn mutual_recursion() {
    let insns = compile(
        "fn[1] even(n) { if n == 0 { return 1; } return odd(n - 1); } \
         fn[1] odd(n) { if n == 0 { return 0; } return even(n - 1); } \
         fn[0] main() { putnum(even(7)); halt(); }",
    );
    assert_eq!(run(&insns, &[]), vec![0]);
}

#[test]
fn left_associative_chains() {
    let insns = compile("fn[0] main() { x = 20 - 5 - 3; putnum(x); halt(); }");
    assert_eq!(run(&insns, &[]), vec![12]);
    let insns2 = compile("fn[0] main() { x = 2 * 3 * 4; putnum(x); halt(); }");
    assert_eq!(run(&insns2, &[]), vec![24]);
}

#[test]
fn comparisons() {
    let insns = compile(
        "fn[0] main() { putnum(1 < 2); putnum(2 < 1); putnum(2 > 1); putnum(1 > 2); halt(); }",
    );
    assert_eq!(run(&insns, &[]), vec![1, 0, 1, 0]);
}

#[test]
fn division_and_modulo() {
    let insns = compile("fn[0] main() { putnum(17 / 5); putnum(17 % 5); halt(); }");
    assert_eq!(run(&insns, &[]), vec![3, 2]);
}

#[test]
fn control_labels_match_call_sites() {
    // one control label per call site, numbered from zero, each pushed once
    let insns = compile(
        "fn[1] f(n) { return n + 1; } \
         fn[0] main() { putnum(f(f(1))); halt(); }",
    );
    let mut labels: Vec<usize> = Vec::new();
    for insn in &insns {
        if let Insn::Label(Lbl::Control(i)) = insn {
            labels.push(*i);
        }
    }
    let mut sorted = labels.clone();
    sorted.sort();
    sorted.dedup();
    // four call sites: two calls of f, one of putnum, one of halt
    assert_eq!(labels.len(), 4);
    assert_eq!(sorted, vec![0, 1, 2, 3]);
    for i in &sorted {
        assert!(insns.iter().any(|x| *x == Insn::Push(*i as i128)));
    }
}

#[test]
fn nested_branches() {
    // only parameters survive a block boundary at run time, so the nested
    // conditions test the parameter
    let insns = compile(
        "fn[1] pick(x) { if x { if x == 2 { return 20; } return 30; } return 10; } \
         fn[0] main() { putnum(pick(getnum())); halt(); }",
    );
    assert_eq!(run(&insns, &[0]), vec![10]);
    assert_eq!(run(&insns, &[2]), vec![20]);
    assert_eq!(run(&insns, &[7]), vec![30]);
}

#[test]
fn variables_across_statements() {
    let insns = compile(
        "fn[0] main() { a = 3; b = a * a; c = b + a; putnum(c); halt(); }",
    );
    assert_eq!(run(&insns, &[]), vec![12]);
}

#[test]
fn call_with_two_arguments() {
    let insns = compile(
        "fn[1] sub2(a, b) { return a - b; } \
         fn[0] main() { putnum(sub2(10, 4)); halt(); }",
    );
    assert_eq!(run(&insns, &[]), vec![6]);
}
