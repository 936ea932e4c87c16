//! The Latebra virtual machine: a small, deterministic, sandboxed stack machine
//! for on-chain contracts.
//!
//! Contracts have persistent key-to-value storage (`u64` to `u64`) and run a
//! bytecode program under a strict step (gas) limit, so execution always ends
//! and is the same on every node.
//!
//! One byte per opcode; `PUSH8` carries an eight-byte little-endian operand.
//! ```text
//!   00 STOP      08 EQ        10 SWAP
//!   01 PUSH8 x   09 LT        11 SLOAD   (key -> storage[key])
//!   02 POP       0A GT        12 SSTORE  (key, value -> )
//!   03 ADD       0B AND       13 CALLER  (-> first 8 bytes of caller id)
//!   04 SUB       0C NOT       14 INPUT   (-> the call's input word)
//!   05 MUL       0D JUMP      (dest -> )
//!   06 DIV       0E JUMPI     (dest, cond -> ; jumps if cond != 0)
//!   07 MOD       0F DUP
//! ```
//! Arithmetic wraps (mod 2^64); `DIV` and `MOD` by zero are errors.

use std::collections::HashMap;

use vstd::prelude::*;
use vstd::std_specs::hash::*;

use crate::bytes;
use crate::bytes::{push_bytes, u64_at};
use crate::hashing;
use crate::hashing::blake3_hash;

verus! {

broadcast use group_hash_axioms;

/// Default execution budget (VM steps) for one contract call.
pub const DEFAULT_GAS: u64 = 100_000;

/// The deepest the operand stack may grow.
pub const MAX_STACK: usize = 1024;

/// Persistent contract storage. A key that was never written reads as zero.
pub type Storage = HashMap<u64, u64>;

#[derive(Debug, PartialEq, Eq)]
pub enum VmError {
    OutOfGas,
    StackUnderflow,
    StackOverflow,
    BadJump,
    DivByZero,
    BadOpcode(u8),
    Truncated,
}

/// What a running program holds between two instructions.
pub struct Machine {
    pub stack: Seq<u64>,
    pub pc: int,
    pub storage: Map<u64, u64>,
}

/// What one instruction leads to.
pub enum Step {
    /// The next instruction is due.
    Next(Machine),
    /// The program ended.
    Done,
    /// The program failed.
    Fail(VmError),
}

/// The bytes that [`contract_id`] hashes.
pub open spec fn contract_preimage(deployer: Seq<u8>, code: Seq<u8>) -> Seq<u8> {
    seq![76u8, 65, 84, 45, 99, 111, 110, 116, 114, 97, 99, 116] + deployer + code
}

/// Deterministic contract address: the hash of a domain tag, the deployer and
/// the code.
pub fn contract_id(deployer: &[u8; 32], code: &[u8]) -> (id: [u8; 32])
    ensures
        id@ == hashing::digest(contract_preimage(deployer@, code@)),
{
    let mut b: Vec<u8> = vec![76u8, 65, 84, 45, 99, 111, 110, 116, 114, 97, 99, 116];
    push_bytes(&mut b, deployer.as_slice());
    push_bytes(&mut b, code);
    assert(b@ =~= contract_preimage(deployer@, code@));
    blake3_hash(&b)
}

/// A boolean on the stack.
pub open spec fn word(b: bool) -> u64 {
    if b {
        1
    } else {
        0
    }
}

/// `v` pushed on `stack`, the program going on at `pc`.
pub open spec fn pushed(stack: Seq<u64>, v: u64, pc: int, storage: Map<u64, u64>) -> Step {
    if stack.len() >= MAX_STACK {
        Step::Fail(VmError::StackOverflow)
    } else {
        Step::Next(Machine { stack: stack.push(v), pc, storage })
    }
}

/// `stack` without its top `n` entries.
pub open spec fn below(stack: Seq<u64>, n: int) -> Seq<u64> {
    stack.subrange(0, stack.len() - n)
}

/// The value of a two-operand instruction, `b` on top of `a`.
pub open spec fn binary(op: u8, a: u64, b: u64) -> Result<u64, VmError> {
    if op == 0x03 {
        Ok(a.wrapping_add(b))
    } else if op == 0x04 {
        Ok(a.wrapping_sub(b))
    } else if op == 0x05 {
        Ok(a.wrapping_mul(b))
    } else if op == 0x06 {
        if b == 0 {
            Err(VmError::DivByZero)
        } else {
            Ok(a / b)
        }
    } else if op == 0x07 {
        if b == 0 {
            Err(VmError::DivByZero)
        } else {
            Ok(a % b)
        }
    } else if op == 0x08 {
        Ok(word(a == b))
    } else if op == 0x09 {
        Ok(word(a < b))
    } else if op == 0x0A {
        Ok(word(a > b))
    } else {
        Ok(a & b)
    }
}

/// What storage holds under `key`.
pub open spec fn read(storage: Map<u64, u64>, key: u64) -> u64 {
    if storage.contains_key(key) {
        storage[key]
    } else {
        0
    }
}

/// The effect of the instruction at `m.pc`.
pub open spec fn step(code: Seq<u8>, caller: Seq<u8>, input: u64, m: Machine) -> Step {
    let op = code[m.pc];
    let pc = m.pc + 1;
    let n = m.stack.len();
    let top = m.stack[n - 1];
    let second = m.stack[n - 2];
    if op == 0x00 {
        Step::Done
    } else if op == 0x01 {
        if pc + 8 > code.len() {
            Step::Fail(VmError::Truncated)
        } else {
            pushed(m.stack, bytes::of_le8(code.subrange(pc, pc + 8)), pc + 8, m.storage)
        }
    } else if op == 0x02 {
        if n < 1 {
            Step::Fail(VmError::StackUnderflow)
        } else {
            Step::Next(Machine { stack: below(m.stack, 1), pc, storage: m.storage })
        }
    } else if 0x03 <= op <= 0x0B {
        if n < 2 {
            Step::Fail(VmError::StackUnderflow)
        } else {
            match binary(op, second, top) {
                Ok(v) => pushed(below(m.stack, 2), v, pc, m.storage),
                Err(e) => Step::Fail(e),
            }
        }
    } else if op == 0x0C {
        if n < 1 {
            Step::Fail(VmError::StackUnderflow)
        } else {
            pushed(below(m.stack, 1), word(top == 0), pc, m.storage)
        }
    } else if op == 0x0D {
        if n < 1 {
            Step::Fail(VmError::StackUnderflow)
        } else if top as usize >= code.len() {
            Step::Fail(VmError::BadJump)
        } else {
            Step::Next(Machine { stack: below(m.stack, 1), pc: top as usize as int,
                storage: m.storage })
        }
    } else if op == 0x0E {
        if n < 2 {
            Step::Fail(VmError::StackUnderflow)
        } else if second == 0 {
            Step::Next(Machine { stack: below(m.stack, 2), pc, storage: m.storage })
        } else if top as usize >= code.len() {
            Step::Fail(VmError::BadJump)
        } else {
            Step::Next(Machine { stack: below(m.stack, 2), pc: top as usize as int,
                storage: m.storage })
        }
    } else if op == 0x0F {
        if n < 1 {
            Step::Fail(VmError::StackUnderflow)
        } else {
            pushed(m.stack, top, pc, m.storage)
        }
    } else if op == 0x10 {
        if n < 2 {
            Step::Fail(VmError::StackUnderflow)
        } else {
            Step::Next(
                Machine { stack: below(m.stack, 2).push(top).push(second), pc, storage: m.storage },
            )
        }
    } else if op == 0x11 {
        if n < 1 {
            Step::Fail(VmError::StackUnderflow)
        } else {
            pushed(below(m.stack, 1), read(m.storage, top), pc, m.storage)
        }
    } else if op == 0x12 {
        if n < 2 {
            Step::Fail(VmError::StackUnderflow)
        } else {
            Step::Next(Machine { stack: below(m.stack, 2), pc,
                storage: m.storage.insert(second, top) })
        }
    } else if op == 0x13 {
        pushed(m.stack, bytes::of_le8(caller.subrange(0, 8)), pc, m.storage)
    } else if op == 0x14 {
        pushed(m.stack, input, pc, m.storage)
    } else {
        Step::Fail(VmError::BadOpcode(op))
    }
}

/// The outcome of running from `m` with `gas` steps left, and what storage
/// holds at the end. Running past the last byte ends the program well.
pub open spec fn run(
    code: Seq<u8>,
    caller: Seq<u8>,
    input: u64,
    m: Machine,
    gas: nat,
) -> (Result<(), VmError>, Map<u64, u64>)
    decreases gas,
{
    if m.pc >= code.len() {
        (Ok(()), m.storage)
    } else if gas == 0 {
        (Err(VmError::OutOfGas), m.storage)
    } else {
        match step(code, caller, input, m) {
            Step::Next(next) => run(code, caller, input, next, (gas - 1) as nat),
            Step::Done => (Ok(()), m.storage),
            Step::Fail(e) => (Err(e), m.storage),
        }
    }
}

/// The machine at the start of a call.
pub open spec fn start(storage: Map<u64, u64>) -> Machine {
    Machine { stack: Seq::empty(), pc: 0, storage }
}

/// A run writes at most one new slot per step.
pub proof fn lemma_storage_grows(
    code: Seq<u8>,
    caller: Seq<u8>,
    input: u64,
    m: Machine,
    gas: nat,
)
    requires
        m.storage.dom().finite(),
    ensures
        run(code, caller, input, m, gas).1.dom().finite(),
        run(code, caller, input, m, gas).1.dom().len() <= m.storage.dom().len() + gas,
    decreases gas,
{
    if m.pc < code.len() && gas > 0 {
        match step(code, caller, input, m) {
            Step::Next(next) => {
                lemma_storage_grows(code, caller, input, next, (gas - 1) as nat);
            },
            _ => {},
        }
    }
}

/// The two top entries, the topmost first.
fn pop_two(s: &mut Vec<u64>) -> (r: Result<(u64, u64), VmError>)
    ensures
        match r {
            Ok((b, a)) => {
                &&& old(s)@.len() >= 2
                &&& b == old(s)@[old(s)@.len() - 1]
                &&& a == old(s)@[old(s)@.len() - 2]
                &&& final(s)@ == below(old(s)@, 2)
            },
            Err(e) => old(s)@.len() < 2 && e == VmError::StackUnderflow,
        },
{
    let b = pop(s)?;
    let a = pop(s)?;
    assert(s@ =~= below(old(s)@, 2));
    Ok((b, a))
}

fn pop(s: &mut Vec<u64>) -> (r: Result<u64, VmError>)
    ensures
        match r {
            Ok(v) => {
                &&& old(s)@.len() >= 1
                &&& v == old(s)@[old(s)@.len() - 1]
                &&& final(s)@ == below(old(s)@, 1)
            },
            Err(e) => old(s)@.len() == 0 && final(s)@ == old(s)@ && e == VmError::StackUnderflow,
        },
{
    match s.pop() {
        Some(v) => Ok(v),
        None => Err(VmError::StackUnderflow),
    }
}

fn push(s: &mut Vec<u64>, v: u64) -> (r: Result<(), VmError>)
    ensures
        match r {
            Ok(_) => old(s)@.len() < MAX_STACK && final(s)@ == old(s)@.push(v),
            Err(e) => old(s)@.len() >= MAX_STACK && final(s)@ == old(s)@ && e
                == VmError::StackOverflow,
        },
{
    if s.len() >= MAX_STACK {
        return Err(VmError::StackOverflow);
    }
    s.push(v);
    Ok(())
}

/// One two-operand instruction on the stack.
fn binary_op(op: u8, s: &mut Vec<u64>) -> (r: Result<(), VmError>)
    requires
        0x03 <= op <= 0x0B,
    ensures
        ({
            let n = old(s)@.len();
            let v = binary(op, old(s)@[n - 2], old(s)@[n - 1]);
            match r {
                Ok(_) => {
                    &&& n >= 2
                    &&& v is Ok
                    &&& below(old(s)@, 2).len() < MAX_STACK
                    &&& final(s)@ == below(old(s)@, 2).push(v->Ok_0)
                },
                Err(e) => if n < 2 {
                    e == VmError::StackUnderflow
                } else if v is Err {
                    e == v->Err_0
                } else {
                    e == VmError::StackOverflow && below(old(s)@, 2).len() >= MAX_STACK
                },
            }
        }),
{
    let (b, a) = pop_two(s)?;
    let v: u64 = match op {
        0x03 => a.wrapping_add(b),
        0x04 => a.wrapping_sub(b),
        0x05 => a.wrapping_mul(b),
        0x06 => {
            if b == 0 {
                return Err(VmError::DivByZero);
            }
            a / b
        },
        0x07 => {
            if b == 0 {
                return Err(VmError::DivByZero);
            }
            a % b
        },
        0x08 => if a == b {
            1
        } else {
            0
        },
        0x09 => if a < b {
            1
        } else {
            0
        },
        0x0A => if a > b {
            1
        } else {
            0
        },
        _ => a & b,
    };
    push(s, v)
}

/// Execute `code`, mutating `storage`. `caller` and `input` are the call
/// context. On success `storage` holds the updated state; on error it should be
/// discarded.
pub fn execute(
    code: &[u8],
    storage: &mut Storage,
    caller: &[u8; 32],
    input: u64,
    gas_limit: u64,
) -> (r: Result<(), VmError>)
    ensures
        (r, final(storage)@) == run(code@, caller@, input, start(old(storage)@), gas_limit as nat),
{
    let mut stack: Vec<u64> = Vec::new();
    let mut pc: usize = 0;
    let mut gas: u64 = gas_limit;
    let ghost goal = run(code@, caller@, input, start(old(storage)@), gas_limit as nat);
    assert(start(storage@).stack =~= stack@);

    while pc < code.len()
        invariant_except_break
            run(
                code@,
                caller@,
                input,
                Machine { stack: stack@, pc: pc as int, storage: storage@ },
                gas as nat,
            ) == goal,
        invariant
            goal == run(code@, caller@, input, start(old(storage)@), gas_limit as nat),
        ensures
            goal == (Ok::<(), VmError>(()), storage@),
        decreases gas,
    {
        if gas == 0 {
            return Err(VmError::OutOfGas);
        }
        let ghost m = Machine { stack: stack@, pc: pc as int, storage: storage@ };
        gas -= 1;
        let op: u8 = code[pc];
        pc += 1;
        match op {
            0x00 => {
                break ;
            },
            0x01 => {
                if code.len() - pc < 8 {
                    return Err(VmError::Truncated);
                }
                push(&mut stack, u64_at(code, pc))?;
                pc = pc + 8;
            },
            0x02 => {
                pop(&mut stack)?;
            },
            0x03 | 0x04 | 0x05 | 0x06 | 0x07 | 0x08 | 0x09 | 0x0A | 0x0B => {
                binary_op(op, &mut stack)?;
            },
            0x0C => {
                let a = pop(&mut stack)?;
                let v: u64 = if a == 0 {
                    1
                } else {
                    0
                };
                push(&mut stack, v)?;
            },
            0x0D => {
                let dest = pop(&mut stack)? as usize;
                if dest >= code.len() {
                    return Err(VmError::BadJump);
                }
                pc = dest;
            },
            0x0E => {
                let (dest, cond) = pop_two(&mut stack)?;
                if cond != 0 {
                    let dest = dest as usize;
                    if dest >= code.len() {
                        return Err(VmError::BadJump);
                    }
                    pc = dest;
                }
            },
            0x0F => {
                if stack.len() == 0 {
                    return Err(VmError::StackUnderflow);
                }
                let top = stack[stack.len() - 1];
                push(&mut stack, top)?;
            },
            0x10 => {
                let (b, a) = pop_two(&mut stack)?;
                stack.push(b);
                stack.push(a);
            },
            0x11 => {
                let key = pop(&mut stack)?;
                let v: u64 = match storage.get(&key) {
                    Some(v) => *v,
                    None => 0,
                };
                push(&mut stack, v)?;
            },
            0x12 => {
                let (value, key) = pop_two(&mut stack)?;
                storage.insert(key, value);
            },
            0x13 => {
                push(&mut stack, u64_at(caller.as_slice(), 0))?;
            },
            0x14 => {
                push(&mut stack, input)?;
            },
            other => {
                return Err(VmError::BadOpcode(other));
            },
        }
        assert(step(code@, caller@, input, m) == Step::Next(
            Machine { stack: stack@, pc: pc as int, storage: storage@ },
        ));
    }
    Ok(())
}

} // verus!
