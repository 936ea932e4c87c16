//! What the machine's instructions do, said over integers, and what holds of a run as
//! a whole.

use vstd::prelude::*;

use crate::assembler;
use crate::assembler::Instr;
use crate::bytecode;
use crate::bytes;
use crate::vm;
use crate::vm::{Machine, Step, VmError};

verus! {

/// Whether an instruction goes on behind itself with the top `popped` words replaced by
/// the word `v`, and leaves storage alone.
pub open spec fn leaves(s: Step, m: Machine, popped: int, v: int) -> bool {
    s matches Step::Next(n) && {
        &&& n.stack.len() == m.stack.len() - popped + 1
        &&& n.stack.last() == v
        &&& n.stack.drop_last() == m.stack.take(m.stack.len() - popped)
        &&& n.pc == m.pc + 1
        &&& n.storage == m.storage
    }
}

/// The word on top of the stack after an instruction.
pub open spec fn top_after(s: Step) -> int {
    match s {
        Step::Next(n) => n.stack.last() as int,
        _ => 0,
    }
}

/// One of the two flags a comparison leaves.
pub open spec fn flag(b: bool) -> int {
    if b {
        1
    } else {
        0
    }
}

/// Addition, subtraction and multiplication are those of the integers modulo 2^64, of
/// the second word and the top one.
pub proof fn law_arithmetic_wraps(
    code: Seq<u8>,
    caller: Seq<u8>,
    input: u64,
    m: Machine,
    a: u64,
    b: u64,
)
    requires
        0 <= m.pc < code.len(),
        2 <= m.stack.len() <= 1024,
        a == m.stack[m.stack.len() - 2],
        b == m.stack[m.stack.len() - 1],
    ensures
        ({
            let s = vm::step(code, caller, input, m);
            let word: int = 0x1_0000_0000_0000_0000;
            &&& code[m.pc] == 0x03 ==> leaves(s, m, 2, (a + b) % word)
            &&& code[m.pc] == 0x04 ==> leaves(s, m, 2, (a - b) % word)
            &&& code[m.pc] == 0x05 ==> leaves(s, m, 2, (a * b) % word)
        }),
{
    let left = vm::below(m.stack, 2);
    assert(left =~= m.stack.take(m.stack.len() - 2));
    assert forall|v: u64| #[trigger] left.push(v).drop_last() == left by {
        assert(left.push(v).drop_last() =~= left);
    }
    lemma_wraps(a, b);
}

proof fn lemma_wraps(a: u64, b: u64)
    ensures
        a.wrapping_add(b) == (a + b) % 0x1_0000_0000_0000_0000,
        a.wrapping_sub(b) == (a - b) % 0x1_0000_0000_0000_0000,
        a.wrapping_mul(b) == (a * b) % 0x1_0000_0000_0000_0000,
{
    assert(0 <= a * b) by (nonlinear_arith);
}

/// Division rounds down and the remainder is what is left: the quotient times the
/// divisor and the remainder are the dividend, the remainder below the divisor. By zero
/// both fail.
pub proof fn law_division(
    code: Seq<u8>,
    caller: Seq<u8>,
    input: u64,
    m: Machine,
    a: u64,
    b: u64,
)
    requires
        0 <= m.pc < code.len(),
        2 <= m.stack.len() <= 1024,
        a == m.stack[m.stack.len() - 2],
        b == m.stack[m.stack.len() - 1],
    ensures
        ({
            let s = vm::step(code, caller, input, m);
            &&& code[m.pc] == 0x06 && b > 0 ==> {
                let q = top_after(s);
                leaves(s, m, 2, q) && q * b <= a < q * b + b
            }
            &&& code[m.pc] == 0x07 && b > 0 ==> {
                let rest = top_after(s);
                leaves(s, m, 2, rest) && 0 <= rest < b && exists|q: int|
                    0 <= q && a == #[trigger] (q * b) + rest
            }
            &&& (code[m.pc] == 0x06 || code[m.pc] == 0x07) && b == 0 ==> s == Step::Fail(
                VmError::DivByZero,
            )
        }),
{
    let left = vm::below(m.stack, 2);
    assert(left =~= m.stack.take(m.stack.len() - 2));
    assert forall|v: u64| #[trigger] left.push(v).drop_last() == left by {
        assert(left.push(v).drop_last() =~= left);
    }
    if b > 0 {
        let (x, y) = (a as int, b as int);
        vstd::arithmetic::div_mod::lemma_fundamental_div_mod(x, y);
        vstd::arithmetic::div_mod::lemma_mod_bound(x, y);
        let q = x / y;
        assert(0 <= q) by (nonlinear_arith)
            requires
                q == x / y,
                x >= 0,
                y > 0,
        ;
        assert(y * q == q * y) by (nonlinear_arith);
        assert(a == q * y + a % b);
    }
}

/// The comparisons: each leaves one or zero, of any two words exactly one of LT, EQ and
/// GT says one, and `a` is below `b` just when `b` is above `a`. NOT says whether the
/// top word is zero.
pub proof fn law_comparisons(
    code: Seq<u8>,
    caller: Seq<u8>,
    input: u64,
    m: Machine,
    a: u64,
    b: u64,
)
    requires
        0 <= m.pc < code.len(),
        2 <= m.stack.len() <= 1024,
        a == m.stack[m.stack.len() - 2],
        b == m.stack[m.stack.len() - 1],
    ensures
        ({
            let s = vm::step(code, caller, input, m);
            &&& code[m.pc] == 0x08 ==> leaves(s, m, 2, flag(a as int - b as int == 0))
            &&& code[m.pc] == 0x09 ==> leaves(s, m, 2, flag(b as int - a as int > 0))
            &&& code[m.pc] == 0x0A ==> leaves(s, m, 2, flag(a as int - b as int > 0))
            &&& code[m.pc] == 0x0C ==> leaves(s, m, 1, flag(b as int == 0))
        }),
        forall|op: u8| 0x08 <= op <= 0x0A ==> (#[trigger] vm::binary(op, a, b)) is Ok,
        vm::binary(0x08, a, b)->Ok_0 + vm::binary(0x09, a, b)->Ok_0 + vm::binary(0x0A, a, b)->Ok_0
            == 1,
        vm::binary(0x09, a, b) == vm::binary(0x0A, b, a),
        vm::binary(0x08, a, b) == vm::binary(0x08, b, a),
{
    let left = vm::below(m.stack, 2);
    assert(left =~= m.stack.take(m.stack.len() - 2));
    assert forall|v: u64| #[trigger] left.push(v).drop_last() == left by {
        assert(left.push(v).drop_last() =~= left);
    }
    let one = vm::below(m.stack, 1);
    assert(one =~= m.stack.take(m.stack.len() - 1));
    assert forall|v: u64| #[trigger] one.push(v).drop_last() == one by {
        assert(one.push(v).drop_last() =~= one);
    }
}

/// AND keeps just the bits that both words have.
pub proof fn law_and_is_bitwise(
    code: Seq<u8>,
    caller: Seq<u8>,
    input: u64,
    m: Machine,
    a: u64,
    b: u64,
    i: u64,
)
    requires
        0 <= m.pc < code.len(),
        2 <= m.stack.len() <= 1024,
        a == m.stack[m.stack.len() - 2],
        b == m.stack[m.stack.len() - 1],
        code[m.pc] == 0x0B,
        i < 64,
    ensures
        ({
            let s = vm::step(code, caller, input, m);
            let v = top_after(s) as u64;
            &&& leaves(s, m, 2, v as int)
            &&& ((v >> i) % 2 == 1) == ((a >> i) % 2 == 1 && (b >> i) % 2 == 1)
        }),
{
    let left = vm::below(m.stack, 2);
    assert(left =~= m.stack.take(m.stack.len() - 2));
    let v = a & b;
    assert(left.push(v).drop_last() =~= left);
    assert((((a & b) >> i) % 2 == 1) == ((a >> i) % 2 == 1 && (b >> i) % 2 == 1)) by (bit_vector)
        requires
            i < 64,
    ;
}

/// The value of eight bytes, the lowest first.
pub open spec fn little_endian(s: Seq<u8>) -> int
    recommends
        s.len() == 8,
{
    s[0] + 256 * (s[1] + 256 * (s[2] + 256 * (s[3] + 256 * (s[4] + 256 * (s[5] + 256 * (s[6] + 256
        * s[7]))))))
}

proof fn lemma_le8_value(s: Seq<u8>)
    requires
        s.len() == 8,
    ensures
        bytes::of_le8(s) == little_endian(s),
{
    let x = bytes::of_le8(s);
    vstd::bytes::lemma_auto_spec_u64_to_from_le_bytes();
    vstd::bytes::spec_u64_to_le_bytes_to_open(x);
    assert(vstd::bytes::spec_u64_to_le_bytes(x) == s);
    let (b0, b1, b2, b3) = (s[0], s[1], s[2], s[3]);
    let (b4, b5, b6, b7) = (s[4], s[5], s[6], s[7]);
    assert(b0 == (x & 0xff) as u8 && b1 == ((x >> 8) & 0xff) as u8 && b2 == ((x >> 16) & 0xff) as u8
        && b3 == ((x >> 24) & 0xff) as u8 && b4 == ((x >> 32) & 0xff) as u8 && b5 == ((x >> 40)
        & 0xff) as u8 && b6 == ((x >> 48) & 0xff) as u8 && b7 == ((x >> 56) & 0xff) as u8);
    assert(x == b0 + 256 * (b1 + 256 * (b2 + 256 * (b3 + 256 * (b4 + 256 * (b5 + 256 * (b6 + 256
        * b7))))))) by (bit_vector)
        requires
            b0 == (x & 0xff) as u8,
            b1 == ((x >> 8) & 0xff) as u8,
            b2 == ((x >> 16) & 0xff) as u8,
            b3 == ((x >> 24) & 0xff) as u8,
            b4 == ((x >> 32) & 0xff) as u8,
            b5 == ((x >> 40) & 0xff) as u8,
            b6 == ((x >> 48) & 0xff) as u8,
            b7 == ((x >> 56) & 0xff) as u8,
    ;
}

/// What is pushed: PUSH8 the eight bytes behind it, lowest first, CALLER the first eight
/// bytes of the caller in the same way, INPUT the call's input, DUP the top word again.
/// PUSH8 goes on behind its operand. A full stack refuses each, and PUSH8 needs its
/// operand.
pub proof fn law_pushes(code: Seq<u8>, caller: Seq<u8>, input: u64, m: Machine)
    requires
        0 <= m.pc < code.len(),
        caller.len() == 32,
    ensures
        ({
            let s = vm::step(code, caller, input, m);
            let op = code[m.pc];
            let full = m.stack.len() >= 1024;
            let here = m.pc + 1;
            &&& op == 0x01 && here + 8 > code.len() ==> s == Step::Fail(VmError::Truncated)
            &&& op == 0x01 && here + 8 <= code.len() && !full ==> {
                s matches Step::Next(n) && n.stack.len() == m.stack.len() + 1
                    && n.stack.drop_last() == m.stack && n.stack.last() == little_endian(
                    code.subrange(here, here + 8),
                ) && n.pc == m.pc + 9 && n.storage == m.storage
            }
            &&& op == 0x0F && 0 < m.stack.len() && !full ==> leaves(
                s,
                m,
                0,
                m.stack.last() as int,
            )
            &&& op == 0x13 && !full ==> leaves(s, m, 0, little_endian(caller.subrange(0, 8)))
            &&& op == 0x14 && !full ==> leaves(s, m, 0, input as int)
            &&& (op == 0x01 && here + 8 <= code.len() || op == 0x0F || op == 0x13 || op == 0x14)
                && full ==> s == Step::Fail(VmError::StackOverflow)
        }),
{
    let here = m.pc + 1;
    if here + 8 <= code.len() {
        lemma_le8_value(code.subrange(here, here + 8));
    }
    lemma_le8_value(caller.subrange(0, 8));
    assert(m.stack.take(m.stack.len() as int) =~= m.stack);
    assert forall|v: u64| #[trigger] m.stack.push(v).drop_last() == m.stack by {
        assert(m.stack.push(v).drop_last() =~= m.stack);
    }
}

/// POP takes the top word away. SWAP exchanges the two top words, and twice changes
/// nothing.
pub proof fn law_pop_and_swap(code: Seq<u8>, caller: Seq<u8>, input: u64, m: Machine)
    requires
        0 <= m.pc < code.len(),
        2 <= m.stack.len(),
    ensures
        ({
            let s = vm::step(code, caller, input, m);
            let n = m.stack.len() as int;
            &&& code[m.pc] == 0x02 ==> {
                s matches Step::Next(k) && k.stack == m.stack.drop_last() && k.pc == m.pc + 1
                    && k.storage == m.storage
            }
            &&& code[m.pc] == 0x10 ==> {
                s matches Step::Next(k) && k.stack.len() == n && k.stack[n - 1] == m.stack[n - 2]
                    && k.stack[n - 2] == m.stack[n - 1] && k.stack.take(n - 2) == m.stack.take(
                    n - 2,
                ) && k.pc == m.pc + 1 && k.storage == m.storage
            }
        }),
{
    let n = m.stack.len() as int;
    let b = m.stack[n - 1];
    let a = m.stack[n - 2];
    assert(vm::below(m.stack, 1) =~= m.stack.drop_last());
    let swapped = vm::below(m.stack, 2).push(b).push(a);
    assert(swapped.take(n - 2) =~= m.stack.take(n - 2));
}

/// Jumps go to the byte that the top word names and fail where the code has none; the
/// conditional one goes on behind itself where the second word is zero. Both take their
/// words, and nothing else changes.
pub proof fn law_jumps(code: Seq<u8>, caller: Seq<u8>, input: u64, m: Machine)
    requires
        0 <= m.pc < code.len(),
        2 <= m.stack.len(),
        m.stack.last() <= usize::MAX,
    ensures
        ({
            let s = vm::step(code, caller, input, m);
            let n = m.stack.len() as int;
            let to = m.stack[n - 1] as int;
            let cond = m.stack[n - 2];
            &&& code[m.pc] == 0x0D && to < code.len() ==> {
                s matches Step::Next(k) && k.pc == to && k.stack == m.stack.drop_last()
                    && k.storage == m.storage
            }
            &&& code[m.pc] == 0x0E && cond != 0 && to < code.len() ==> {
                s matches Step::Next(k) && k.pc == to && k.stack == m.stack.take(n - 2)
                    && k.storage == m.storage
            }
            &&& code[m.pc] == 0x0E && cond == 0 ==> {
                s matches Step::Next(k) && k.pc == m.pc + 1 && k.stack == m.stack.take(n - 2)
                    && k.storage == m.storage
            }
            &&& (code[m.pc] == 0x0D || code[m.pc] == 0x0E && cond != 0) && to >= code.len()
                ==> s == Step::Fail(VmError::BadJump)
        }),
{
    assert(vm::below(m.stack, 1) =~= m.stack.drop_last());
    assert(vm::below(m.stack, 2) =~= m.stack.take(m.stack.len() - 2));
}

/// Storage keeps what is written: SSTORE sets the slot that the second word names to the
/// top word and touches no other; SLOAD replaces a slot's name by what it holds, zero
/// where it was never written.
pub proof fn law_storage(code: Seq<u8>, caller: Seq<u8>, input: u64, m: Machine, slot: u64)
    requires
        0 <= m.pc < code.len(),
        2 <= m.stack.len() <= 1024,
    ensures
        ({
            let s = vm::step(code, caller, input, m);
            let n = m.stack.len() as int;
            &&& code[m.pc] == 0x12 ==> {
                s matches Step::Next(k) && k.stack == m.stack.take(n - 2) && k.pc == m.pc + 1
                    && k.storage.contains_key(m.stack[n - 2]) && k.storage[m.stack[n - 2]]
                    == m.stack[n - 1] && (slot != m.stack[n - 2] ==> {
                    &&& k.storage.contains_key(slot) == m.storage.contains_key(slot)
                    &&& m.storage.contains_key(slot) ==> k.storage[slot] == m.storage[slot]
                })
            }
            &&& code[m.pc] == 0x11 ==> leaves(
                s,
                m,
                1,
                if m.storage.contains_key(m.stack[n - 1]) {
                    m.storage[m.stack[n - 1]] as int
                } else {
                    0
                },
            )
        }),
{
    assert(vm::below(m.stack, 2) =~= m.stack.take(m.stack.len() - 2));
    let one = vm::below(m.stack, 1);
    assert(one =~= m.stack.take(m.stack.len() - 1));
    assert forall|v: u64| #[trigger] one.push(v).drop_last() == one by {
        assert(one.push(v).drop_last() =~= one);
    }
}

/// STOP ends the program. An instruction that lacks its words fails for that, and a byte
/// that is no instruction fails by its name.
pub proof fn law_stops_and_failures(code: Seq<u8>, caller: Seq<u8>, input: u64, m: Machine)
    requires
        0 <= m.pc < code.len(),
    ensures
        ({
            let s = vm::step(code, caller, input, m);
            let op = code[m.pc];
            let takes_one = op == 0x02 || op == 0x0C || op == 0x0D || op == 0x0F || op == 0x11;
            let takes_two = 0x03 <= op <= 0x0B || op == 0x0E || op == 0x10 || op == 0x12;
            &&& op == 0x00 ==> s is Done
            &&& op > 0x14 ==> s == Step::Fail(VmError::BadOpcode(op))
            &&& takes_one && m.stack.len() < 1 ==> s == Step::Fail(VmError::StackUnderflow)
            &&& takes_two && m.stack.len() < 2 ==> s == Step::Fail(VmError::StackUnderflow)
        }),
{
}

// --- a run -----------------------------------------------------------------------------

/// The machine after `n` instructions from `m`, if the program is still running then.
pub open spec fn after(code: Seq<u8>, caller: Seq<u8>, input: u64, m: Machine, n: nat) -> Option<
    Machine,
>
    decreases n,
{
    if n == 0 {
        Some(m)
    } else {
        match after(code, caller, input, m, (n - 1) as nat) {
            Some(k) => if k.pc < code.len() {
                match vm::step(code, caller, input, k) {
                    Step::Next(next) => Some(next),
                    _ => None,
                }
            } else {
                None
            },
            None => None,
        }
    }
}

/// A run does its instructions one by one, each for one unit of gas: where it stands
/// after `n` of them, it goes on with `n` units less. It ends well behind the last byte
/// or at STOP, fails as the failing instruction says, and runs out of gas where an
/// instruction is due that nothing is left for.
pub proof fn law_run_is_its_steps(
    code: Seq<u8>,
    caller: Seq<u8>,
    input: u64,
    m: Machine,
    gas: nat,
    n: nat,
)
    requires
        n <= gas,
        after(code, caller, input, m, n) is Some,
    ensures
        ({
            let k = after(code, caller, input, m, n)->0;
            let r = vm::run(code, caller, input, m, gas);
            &&& k.pc >= code.len() ==> r.0 is Ok && r.1 == k.storage
            &&& k.pc < code.len() && n == gas ==> r == (
                Err::<(), VmError>(VmError::OutOfGas),
                k.storage,
            )
            &&& k.pc < code.len() && n < gas ==> match vm::step(code, caller, input, k) {
                Step::Done => r.0 is Ok && r.1 == k.storage,
                Step::Fail(e) => r == (Err::<(), VmError>(e), k.storage),
                Step::Next(_) => after(code, caller, input, m, n + 1) is Some,
            }
        }),
{
    lemma_run_after(code, caller, input, m, gas, n);
}

proof fn lemma_run_after(
    code: Seq<u8>,
    caller: Seq<u8>,
    input: u64,
    m: Machine,
    gas: nat,
    n: nat,
)
    requires
        n <= gas,
        after(code, caller, input, m, n) is Some,
    ensures
        vm::run(code, caller, input, m, gas) == vm::run(
            code,
            caller,
            input,
            after(code, caller, input, m, n)->0,
            (gas - n) as nat,
        ),
    decreases n,
{
    if n > 0 {
        lemma_run_after(code, caller, input, m, gas, (n - 1) as nat);
    }
}

/// More gas changes nothing of a run that needed no more.
pub proof fn law_gas_is_a_limit_only(
    code: Seq<u8>,
    caller: Seq<u8>,
    input: u64,
    m: Machine,
    gas: nat,
    more: nat,
)
    requires
        vm::run(code, caller, input, m, gas).0 != Err::<(), VmError>(VmError::OutOfGas),
        gas <= more,
    ensures
        vm::run(code, caller, input, m, more) == vm::run(code, caller, input, m, gas),
    decreases gas,
{
    if m.pc < code.len() && gas > 0 {
        if let Step::Next(next) = vm::step(code, caller, input, m) {
            law_gas_is_a_limit_only(
                code,
                caller,
                input,
                next,
                (gas - 1) as nat,
                (more - 1) as nat,
            );
        }
    }
}

// --- assembled programs ------------------------------------------------------------------

/// Every item of a program does what its name says: at its place, the assembled code
/// holds the instruction of that effect.
pub proof fn law_items_are_their_instructions(items: Seq<Instr>, i: int)
    requires
        0 <= i < items.len(),
        assembler::is_plain(items[i]),
    ensures
        ({
            let code = assembler::program(items, items.len() as int);
            let at = assembler::offset(items, i) as int;
            &&& at < code.len()
            &&& code[at] == match items[i] {
                Instr::Stop => 0x00u8,
                Instr::Pop => 0x02,
                Instr::Add => 0x03,
                Instr::Sub => 0x04,
                Instr::Mul => 0x05,
                Instr::Div => 0x06,
                Instr::Mod => 0x07,
                Instr::Eq => 0x08,
                Instr::Lt => 0x09,
                Instr::Gt => 0x0A,
                Instr::And => 0x0B,
                Instr::Not => 0x0C,
                Instr::Jump => 0x0D,
                Instr::JumpI => 0x0E,
                Instr::Dup => 0x0F,
                Instr::Swap => 0x10,
                Instr::Sload => 0x11,
                Instr::Sstore => 0x12,
                Instr::Caller => 0x13,
                Instr::Input => 0x14,
                _ => code[at],
            }
        }),
{
    lemma_item_bytes(items, i);
    let code = assembler::program(items, items.len() as int);
    let at = assembler::offset(items, i) as int;
    assert(code.subrange(at, at + 1)[0] == code[at]);
}

/// A pushed number, and a pushed label, is the PUSH8 of it: the label's number is the
/// byte at which the code of what follows the label begins.
pub proof fn law_items_push_their_value(items: Seq<Instr>, i: int)
    requires
        0 <= i < items.len(),
        items[i] is Push || items[i] is PushLabel,
        forall|j: int| !assembler::redefines(items, j),
        forall|j: int| !assembler::dangles(items, j),
        assembler::offset(items, items.len() as int) <= u64::MAX,
    ensures
        ({
            let code = assembler::program(items, items.len() as int);
            let at = assembler::offset(items, i) as int;
            &&& at + 9 <= code.len()
            &&& code[at] == 0x01
            &&& items[i] matches Instr::Push(v) ==> little_endian(code.subrange(at + 1, at + 9))
                == v
            &&& items[i] matches Instr::PushLabel(name) ==> exists|j: int|
                0 <= j < items.len() && #[trigger] items[j] is Label && items[j]->Label_0@ == name@
                    && little_endian(code.subrange(at + 1, at + 9)) == assembler::program(
                    items,
                    j,
                ).len()
        }),
{
    broadcast use crate::bytes::group_le;

    lemma_item_bytes(items, i);
    let code = assembler::program(items, items.len() as int);
    let at = assembler::offset(items, i) as int;
    let e = assembler::emitted(items, i);
    let v: u64 = match items[i] {
        Instr::Push(v) => v,
        Instr::PushLabel(name) => assembler::offset(
            items,
            assembler::definition(items, name@),
        ) as u64,
        _ => 0,
    };
    assert(e == bytecode::push_code(v));
    assert(code.subrange(at, at + 9)[0] == code[at]);
    assert(code.subrange(at + 1, at + 9) =~= code.subrange(at, at + 9).subrange(1, 9));
    assert(e.subrange(1, 9) =~= bytes::le8(v));
    lemma_le8_value(bytes::le8(v));
    if let Instr::PushLabel(name) = items[i] {
        assert(!assembler::dangles(items, i));
        let j = assembler::definition(items, name@);
        assert(assembler::defines(items, j, name@));
        assembler::law_offsets_are_positions(items, j);
        assembler::lemma_offset_monotone(items, j, items.len() as int);
        assert(items[j] is Label);
    }
}

proof fn lemma_item_bytes(items: Seq<Instr>, i: int)
    requires
        0 <= i < items.len(),
    ensures
        ({
            let code = assembler::program(items, items.len() as int);
            let at = assembler::offset(items, i) as int;
            let w = assembler::width_of(items[i]) as int;
            &&& at + w <= code.len()
            &&& code.subrange(at, at + w) == assembler::emitted(items, i)
            &&& assembler::emitted(items, i).len() == w
        }),
{
    broadcast use crate::bytes::group_le;

    let code = assembler::program(items, items.len() as int);
    let at = assembler::offset(items, i) as int;
    let w = assembler::width_of(items[i]) as int;
    assembler::law_offsets_are_positions(items, i);
    assembler::law_offsets_are_positions(items, i + 1);
    assembler::law_offsets_are_positions(items, items.len() as int);
    assembler::lemma_offset_monotone(items, i + 1, items.len() as int);
    assert(assembler::program(items, i + 1) == assembler::program(items, i) + assembler::emitted(
        items,
        i,
    ));
    let front = code.subrange(0, at + w);
    assert(front == assembler::program(items, i + 1));
    assert(front.subrange(at, at + w) =~= assembler::emitted(items, i));
    assert(code.subrange(at, at + w) =~= front.subrange(at, at + w));
}

/// A label takes no room, a push nine bytes, a revert two pushes and a division, and any
/// other item one byte.
pub proof fn law_item_widths(items: Seq<Instr>, i: int)
    requires
        0 <= i < items.len(),
    ensures
        assembler::program(items, i + 1).len() - assembler::program(items, i).len() == match items[
        i] {
            Instr::Label(_) => 0int,
            Instr::Push(_) => 9,
            Instr::PushLabel(_) => 9,
            Instr::Revert => 19,
            _ => 1,
        },
{
    assembler::law_offsets_are_positions(items, i);
    assembler::law_offsets_are_positions(items, i + 1);
}

/// Hand-written bytecode uses the machine's own numbers.
pub proof fn law_named_opcodes(v: u64)
    ensures
        bytecode::push_code(v).len() == 9,
        bytecode::push_code(v)[0] == 0x01,
        little_endian(bytecode::push_code(v).subrange(1, 9)) == v,
        bytecode::STOP == 0x00,
        bytecode::ADD == 0x03,
        bytecode::MUL == 0x05,
        bytecode::SLOAD == 0x11,
        bytecode::SSTORE == 0x12,
{
    broadcast use crate::bytes::group_le;

    assert(bytecode::push_code(v).subrange(1, 9) =~= bytes::le8(v));
    lemma_le8_value(bytes::le8(v));
}

} // verus!
