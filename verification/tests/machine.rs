use latebra::assembler::{Asm, AsmError, Instr};
use latebra::bytecode;
use latebra::vm::{contract_id, execute, Storage, VmError, DEFAULT_GAS};

const NOBODY: [u8; 32] = [0u8; 32];

fn run(code: &[u8]) -> (Result<(), VmError>, Storage) {
    let mut s = Storage::new();
    let r = execute(code, &mut s, &NOBODY, 0, DEFAULT_GAS);
    (r, s)
}

/// storage[0] = 6 * 7 = 42.
#[test]
fn multiplies_and_stores() {
    let mut code = bytecode::push(0); // key
    code.extend(bytecode::push(6));
    code.extend(bytecode::push(7));
    code.push(bytecode::MUL);
    code.push(bytecode::SSTORE);
    code.push(bytecode::STOP);
    let (r, s) = run(&code);
    assert_eq!(r, Ok(()));
    assert_eq!(s.get(&0), Some(&42));
}

/// A counter: each call does storage[0] += 1.
#[test]
fn counter_increments_across_calls() {
    // key key SLOAD 1 ADD SSTORE STOP
    let mut code = bytecode::push(0);
    code.extend(bytecode::push(0));
    code.push(bytecode::SLOAD);
    code.extend(bytecode::push(1));
    code.push(bytecode::ADD);
    code.push(bytecode::SSTORE);
    code.push(bytecode::STOP);

    let mut s = Storage::new();
    for _ in 0..3 {
        execute(&code, &mut s, &NOBODY, 0, DEFAULT_GAS).unwrap();
    }
    assert_eq!(s.get(&0), Some(&3));
}

#[test]
fn infinite_loop_runs_out_of_gas() {
    // PUSH 0; JUMP  -> jumps to pc 0 forever.
    let mut code = bytecode::push(0);
    code.push(0x0D); // JUMP
    let mut s = Storage::new();
    assert_eq!(execute(&code, &mut s, &NOBODY, 0, 10_000), Err(VmError::OutOfGas));
}

#[test]
fn div_by_zero_errors() {
    let mut code = bytecode::push(1);
    code.extend(bytecode::push(0));
    code.push(0x06); // DIV
    assert_eq!(run(&code).0, Err(VmError::DivByZero));
}

#[test]
fn bad_opcode_errors() {
    assert_eq!(run(&[0xFF]).0, Err(VmError::BadOpcode(0xFF)));
}

#[test]
fn input_is_available() {
    // store the call input at storage[0]: PUSH 0(key) INPUT SSTORE STOP
    let mut code = bytecode::push(0);
    code.push(0x14); // INPUT
    code.push(bytecode::SSTORE);
    code.push(bytecode::STOP);
    let mut s = Storage::new();
    execute(&code, &mut s, &NOBODY, 99, DEFAULT_GAS).unwrap();
    assert_eq!(s.get(&0), Some(&99));
}

/// A forward branch: `if input != 0 { storage[0]=111 } else { storage[0]=222 }`.
#[test]
fn conditional_branch_resolves_forward_label() {
    // cond = input; if cond jump to SET111 else fall through to SET222.
    let code = Asm::new()
        .ins(Instr::Input) // cond
        .ins(Instr::PushLabel("set111")) // dest
        .ins(Instr::JumpI) // pops dest, cond; jump if cond!=0
        // else branch: storage[0] = 222
        .ins(Instr::Push(0)).ins(Instr::Push(222)).ins(Instr::Sstore)
        .ins(Instr::PushLabel("end")).ins(Instr::Jump)
        .ins(Instr::Label("set111"))
        .ins(Instr::Push(0)).ins(Instr::Push(111)).ins(Instr::Sstore)
        .ins(Instr::Label("end"))
        .ins(Instr::Stop)
        .assemble()
        .unwrap();

    let mut s = Storage::new();
    execute(&code, &mut s, &NOBODY, 1, DEFAULT_GAS).unwrap();
    assert_eq!(s.get(&0), Some(&111), "input!=0 takes the labelled branch");

    let mut s = Storage::new();
    execute(&code, &mut s, &NOBODY, 0, DEFAULT_GAS).unwrap();
    assert_eq!(s.get(&0), Some(&222), "input==0 falls through");
}

/// A backward branch (loop): sum 1..=input into storage[0].
#[test]
fn backward_label_forms_a_loop() {
    // storage[0]=0; i=input; while i>0 { s0+=i; i-=1 }
    let code = Asm::new()
        .ins(Instr::Push(0)).ins(Instr::Push(0)).ins(Instr::Sstore) // storage[0]=0
        .ins(Instr::Input) // i on stack (loop carries i on the stack top)
        .ins(Instr::Label("loop"))
        .ins(Instr::Dup).ins(Instr::Push(0)).ins(Instr::Gt) // cond: i>0  (dup i, push 0, GT)
        .ins(Instr::PushLabel("body")).ins(Instr::JumpI)
        .ins(Instr::PushLabel("done")).ins(Instr::Jump)
        .ins(Instr::Label("body"))
        // storage[0] += i, leaving i on the stack for the decrement.
        // stack: [i]
        .ins(Instr::Dup) // [i, i]
        .ins(Instr::Push(0)).ins(Instr::Sload) // [i, i, s0]
        .ins(Instr::Add) // [i, i+s0]
        .ins(Instr::Push(0)) // [i, i+s0, key=0]
        .ins(Instr::Swap) // [i, key=0, i+s0]
        .ins(Instr::Sstore) // storage[0]=i+s0 ; [i]
        // i -= 1
        .ins(Instr::Push(1)).ins(Instr::Sub)
        .ins(Instr::PushLabel("loop")).ins(Instr::Jump)
        .ins(Instr::Label("done"))
        .ins(Instr::Stop)
        .assemble()
        .unwrap();

    let mut s = Storage::new();
    execute(&code, &mut s, &NOBODY, 5, DEFAULT_GAS).unwrap();
    assert_eq!(s.get(&0), Some(&15), "1+2+3+4+5");
}

#[test]
fn revert_discards_via_vm_error() {
    let code = Asm::new().ins(Instr::Revert).ins(Instr::Stop).assemble().unwrap();
    let mut s = Storage::new();
    assert_eq!(execute(&code, &mut s, &NOBODY, 0, DEFAULT_GAS), Err(VmError::DivByZero));
}

#[test]
fn undefined_and_duplicate_labels_are_caught() {
    assert_eq!(
        Asm::new().ins(Instr::PushLabel("nope")).ins(Instr::Jump).assemble(),
        Err(AsmError::UndefinedLabel("nope"))
    );
    assert_eq!(
        Asm::new().ins(Instr::Label("x")).ins(Instr::Label("x")).assemble(),
        Err(AsmError::DuplicateLabel("x"))
    );
}

#[test]
fn every_vm_error_has_a_program() {
    assert_eq!(run(&[0x02]).0, Err(VmError::StackUnderflow));
    assert_eq!(run(&[0x01, 1, 2]).0, Err(VmError::Truncated));
    let mut far = bytecode::push(1_000);
    far.push(0x0D);
    assert_eq!(run(&far).0, Err(VmError::BadJump));
    // PUSH 0, then DUP without end: 1024 entries are the limit.
    let mut deep = bytecode::push(0);
    deep.extend(std::iter::repeat(0x0F).take(1024));
    assert_eq!(run(&deep).0, Err(VmError::StackOverflow));
}

#[test]
fn contract_address_depends_on_deployer_and_code() {
    let a = contract_id(&[1; 32], &[1, 2, 3]);
    assert_eq!(a, contract_id(&[1; 32], &[1, 2, 3]));
    assert_ne!(a, contract_id(&[2; 32], &[1, 2, 3]));
    assert_ne!(a, contract_id(&[1; 32], &[1, 2]));
    assert_ne!(a, [1; 32]);
}

#[test]
fn extend_appends_in_order() {
    let a = Asm::new().ins(Instr::Push(1)).ins(Instr::Stop).assemble();
    let b = Asm::new().extend(vec![Instr::Push(1), Instr::Stop]).assemble();
    assert_eq!(a, b);
}
