//! A label-based assembler over the instruction set of [`crate::vm::execute`].
//!
//! Writing branching bytecode by hand means computing absolute jump targets,
//! which is fragile: insert one instruction and every `PUSH <dest>` shifts. Here
//! a contract refers to positions by name: [`Instr::Label`] marks a spot,
//! [`Instr::PushLabel`] pushes its byte offset, and [`Asm::assemble`] fixes up
//! the offsets in a second pass. It emits the bytecode the machine runs and adds
//! no opcodes.

use vstd::prelude::*;

use crate::bytecode;
use crate::bytes;
use crate::bytes::{push_bytes, same_str};
use crate::vm;

verus! {

/// One assembler item: either a real instruction or a label marker.
#[derive(Clone, Debug)]
pub enum Instr {
    /// `PUSH8 v`.
    Push(u64),
    /// `PUSH8 <byte offset of the named label>`, resolved at assembly time.
    PushLabel(&'static str),
    /// A named position (emits no bytes); a `PushLabel` targets it.
    Label(&'static str),
    Pop,
    Add,
    Sub,
    Mul,
    Div,
    Mod,
    Eq,
    Lt,
    Gt,
    And,
    Not,
    /// Unconditional jump: pops the destination.
    Jump,
    /// Conditional jump: pops `dest` then `cond`, jumps if `cond != 0`.
    JumpI,
    Dup,
    Swap,
    Sload,
    Sstore,
    Caller,
    Input,
    Stop,
    /// Force a machine error: the ledger discards the storage changes of a
    /// failed contract call, so this is how a contract rejects a bad call.
    /// Emitted as a deliberate division by zero.
    Revert,
}

/// Errors assembling a program.
#[derive(Debug, PartialEq, Eq)]
pub enum AsmError {
    /// A `PushLabel` named a label that is never defined.
    UndefinedLabel(&'static str),
    /// The same label name is defined more than once.
    DuplicateLabel(&'static str),
}

/// A program under construction.
#[derive(Default)]
pub struct Asm {
    items: Vec<Instr>,
}

/// The opcode of a one-byte instruction.
pub open spec fn opcode_of(i: Instr) -> u8 {
    match i {
        Instr::Pop => 0x02,
        Instr::Add => 0x03,
        Instr::Sub => 0x04,
        Instr::Mul => 0x05,
        Instr::Div => 0x06,
        Instr::Mod => 0x07,
        Instr::Eq => 0x08,
        Instr::Lt => 0x09,
        Instr::Gt => 0x0A,
        Instr::And => 0x0B,
        Instr::Not => 0x0C,
        Instr::Jump => 0x0D,
        Instr::JumpI => 0x0E,
        Instr::Dup => 0x0F,
        Instr::Swap => 0x10,
        Instr::Sload => 0x11,
        Instr::Sstore => 0x12,
        Instr::Caller => 0x13,
        Instr::Input => 0x14,
        _ => 0x00,
    }
}

/// Whether an item is one byte of bytecode.
pub open spec fn is_plain(i: Instr) -> bool {
    !(i is Push || i is PushLabel || i is Label || i is Revert)
}

/// How many bytes an item occupies.
pub open spec fn width_of(i: Instr) -> nat {
    match i {
        Instr::Label(_) => 0,
        Instr::Push(_) => 9,
        Instr::PushLabel(_) => 9,
        Instr::Revert => 19,
        _ => 1,
    }
}

/// The byte offset at which item `n` starts.
pub open spec fn offset(items: Seq<Instr>, n: int) -> nat
    decreases n,
{
    if n <= 0 {
        0
    } else {
        offset(items, n - 1) + width_of(items[n - 1])
    }
}

/// Whether item `i` defines the label `name`.
pub open spec fn defines(items: Seq<Instr>, i: int, name: Seq<char>) -> bool {
    0 <= i < items.len() && items[i] is Label && items[i]->Label_0@ == name
}

/// Whether item `j` defines a label that an earlier item defines too.
pub open spec fn redefines(items: Seq<Instr>, j: int) -> bool {
    0 <= j < items.len() && items[j] is Label && exists|i: int|
        0 <= i < j && defines(items, i, items[j]->Label_0@)
}

/// Whether item `j` names a label that no item defines.
pub open spec fn dangles(items: Seq<Instr>, j: int) -> bool {
    0 <= j < items.len() && items[j] is PushLabel && forall|i: int|
        !defines(items, i, items[j]->PushLabel_0@)
}

/// Whether item `j` is the earliest to redefine a label, and `name` is that label.
pub open spec fn first_redefined(items: Seq<Instr>, j: int, name: Seq<char>) -> bool {
    redefines(items, j) && items[j]->Label_0@ == name && forall|k: int|
        k < j ==> !redefines(items, k)
}

/// Whether item `j` is the earliest to name an undefined label, and `name` is
/// that label.
pub open spec fn first_dangling(items: Seq<Instr>, j: int, name: Seq<char>) -> bool {
    dangles(items, j) && items[j]->PushLabel_0@ == name && forall|k: int|
        k < j ==> !dangles(items, k)
}

/// The item that defines `name`.
pub open spec fn definition(items: Seq<Instr>, name: Seq<char>) -> int {
    choose|i: int| defines(items, i, name)
}

/// The bytes item `i` stands for.
pub open spec fn emitted(items: Seq<Instr>, i: int) -> Seq<u8> {
    match items[i] {
        Instr::Label(_) => Seq::empty(),
        Instr::Push(v) => bytecode::push_code(v),
        Instr::PushLabel(name) => bytecode::push_code(
            offset(items, definition(items, name@)) as u64,
        ),
        Instr::Revert => bytecode::push_code(1) + bytecode::push_code(0) + seq![0x06u8],
        other => seq![opcode_of(other)],
    }
}

/// The bytes of the first `n` items.
pub open spec fn program(items: Seq<Instr>, n: int) -> Seq<u8>
    decreases n,
{
    if n <= 0 {
        Seq::empty()
    } else {
        program(items, n - 1) + emitted(items, n - 1)
    }
}

impl Asm {
    /// The items so far.
    pub closed spec fn view(&self) -> Seq<Instr> {
        self.items@
    }

    pub fn new() -> (r: Self)
        ensures
            r@ == Seq::<Instr>::empty(),
    {
        Asm { items: Vec::new() }
    }

    /// Append one instruction (builder style).
    pub fn ins(self, i: Instr) -> (r: Self)
        ensures
            r@ == self@.push(i),
    {
        let mut items = self.items;
        items.push(i);
        Asm { items }
    }

    /// Append several instructions.
    pub fn extend(self, it: Vec<Instr>) -> (r: Self)
        ensures
            r@ == self@ + it@,
    {
        let mut items = self.items;
        let mut it = it;
        items.append(&mut it);
        Asm { items }
    }

    /// Byte width an instruction occupies in the final program (labels: 0;
    /// pushes: 9, an opcode and an 8-byte operand; a revert: two pushes and a
    /// division; everything else: 1).
    fn width(i: &Instr) -> (w: usize)
        ensures
            w == width_of(*i),
    {
        match i {
            Instr::Label(_) => 0,
            Instr::Push(_) | Instr::PushLabel(_) => 9,
            Instr::Revert => 19,
            _ => 1,
        }
    }

    /// The offset recorded for `name`.
    fn lookup(labels: &Vec<(&'static str, usize)>, name: &str) -> (r: Option<usize>)
        ensures
            match r {
                Some(off) => exists|k: int|
                    0 <= k < labels@.len() && #[trigger] labels@[k].0@ == name@ && labels@[k].1
                        == off,
                None => forall|k: int| 0 <= k < labels@.len() ==> #[trigger] labels@[k].0@ != name@,
            },
    {
        let mut k: usize = 0;
        while k < labels.len()
            invariant
                k <= labels@.len(),
                forall|x: int| 0 <= x < k ==> #[trigger] labels@[x].0@ != name@,
            decreases labels@.len() - k,
        {
            if same_str(labels[k].0, name) {
                return Some(labels[k].1);
            }
            k += 1;
        }
        None
    }

    /// Resolve labels and emit bytecode. Two passes: first compute each label's
    /// byte offset, then encode, substituting label offsets into `PushLabel`.
    /// A doubled label is reported before an undefined one, the earliest of its
    /// kind first. The program must fit in memory.
    pub fn assemble(&self) -> (r: Result<Vec<u8>, AsmError>)
        requires
            offset(self@, self@.len() as int) <= usize::MAX,
        ensures
            match r {
                Ok(out) => {
                    &&& forall|j: int| !redefines(self@, j)
                    &&& forall|j: int| !dangles(self@, j)
                    &&& out@ == program(self@, self@.len() as int)
                },
                Err(AsmError::DuplicateLabel(name)) => exists|j: int|
                    #[trigger] first_redefined(self@, j, name@),
                Err(AsmError::UndefinedLabel(name)) => {
                    &&& forall|j: int| !redefines(self@, j)
                    &&& exists|j: int| #[trigger] first_dangling(self@, j, name@)
                },
            },
    {
        let ghost items = self@;
        let mut labels: Vec<(&'static str, usize)> = Vec::new();
        let mut owners: Ghost<Seq<int>> = Ghost(Seq::empty());
        let mut pc: usize = 0;
        let mut i: usize = 0;
        while i < self.items.len()
            invariant
                items == self.items@,
                i <= items.len(),
                pc == offset(items, i as int),
                offset(items, items.len() as int) <= usize::MAX,
                owners@.len() == labels@.len(),
                forall|k: int|
                    0 <= k < labels@.len() ==> {
                        &&& #[trigger] owners@[k] < i
                        &&& defines(items, owners@[k], labels@[k].0@)
                        &&& labels@[k].1 == offset(items, owners@[k])
                    },
                forall|x: int|
                    0 <= x < i && items[x] is Label ==> exists|k: int|
                        0 <= k < owners@.len() && #[trigger] owners@[k] == x,
                forall|j: int| j < i ==> !redefines(items, j),
            decreases items.len() - i,
        {
            proof {
                lemma_offset_monotone(items, i + 1, items.len() as int);
            }
            if let Instr::Label(name) = &self.items[i] {
                match Self::lookup(&labels, name) {
                    Some(_) => {
                        proof {
                            let k = choose|k: int|
                                0 <= k < labels@.len() && #[trigger] labels@[k].0@ == name@;
                            assert(defines(items, owners@[k], name@));
                            assert(redefines(items, i as int));
                        }
                        let twice: &'static str = *name;
                        assert(first_redefined(self@, i as int, twice@));
                        let e = AsmError::DuplicateLabel(twice);
                        assert(e->DuplicateLabel_0 == twice);
                        return Err(e);
                    },
                    None => {
                        proof {
                            assert forall|x: int| 0 <= x < i implies !defines(
                                items,
                                x,
                                name@,
                            ) by {
                                if defines(items, x, name@) {
                                    let k = choose|k: int|
                                        0 <= k < owners@.len() && #[trigger] owners@[k] == x;
                                    assert(labels@[k].0@ != name@);
                                }
                            }
                            assert(!redefines(items, i as int));
                        }
                        let ghost before = owners@;
                        proof {
                            owners@ = owners@.push(i as int);
                        }
                        labels.push((*name, pc));
                        proof {
                            assert forall|x: int|
                                0 <= x < i + 1 && items[x] is Label implies exists|k: int|
                                0 <= k < owners@.len() && #[trigger] owners@[k] == x by {
                                if x == i {
                                    assert(owners@[before.len() as int] == x);
                                } else {
                                    let k = choose|k: int|
                                        0 <= k < before.len() && #[trigger] before[k] == x;
                                    assert(owners@[k] == x);
                                }
                            }
                        }
                    },
                }
            }
            pc += Self::width(&self.items[i]);
            i += 1;
        }

        proof {
            assert forall|x: int, name: Seq<char>| defines(items, x, name) implies x == definition(
                items,
                name,
            ) by {
                let y = definition(items, name);
                assert(defines(items, y, name));
                if x < y {
                    assert(redefines(items, y));
                } else if y < x {
                    assert(redefines(items, x));
                }
            }
        }

        let mut out: Vec<u8> = Vec::new();
        let mut i: usize = 0;
        while i < self.items.len()
            invariant
                items == self.items@,
                i <= items.len(),
                out@ == program(items, i as int),
                owners@.len() == labels@.len(),
                forall|k: int|
                    0 <= k < labels@.len() ==> {
                        &&& #[trigger] owners@[k] < items.len()
                        &&& defines(items, owners@[k], labels@[k].0@)
                        &&& labels@[k].1 == offset(items, owners@[k])
                    },
                forall|x: int|
                    0 <= x < items.len() && items[x] is Label ==> exists|k: int|
                        0 <= k < owners@.len() && #[trigger] owners@[k] == x,
                forall|x: int, name: Seq<char>|
                    defines(items, x, name) ==> x == definition(items, name),
                forall|j: int| !redefines(items, j),
                forall|j: int| j < i ==> !dangles(items, j),
            decreases items.len() - i,
        {
            match &self.items[i] {
                Instr::Label(_) => {
                    assert(out@ =~= out@ + emitted(items, i as int));
                },
                Instr::Push(v) => {
                    push_bytes(&mut out, &bytecode::push(*v));
                },
                Instr::PushLabel(name) => {
                    match Self::lookup(&labels, name) {
                        Some(off) => {
                            proof {
                                let k = choose|k: int|
                                    0 <= k < labels@.len() && #[trigger] labels@[k].0@ == name@
                                        && labels@[k].1 == off;
                                assert(defines(items, owners@[k], name@));
                                assert(!dangles(items, i as int));
                            }
                            push_bytes(&mut out, &bytecode::push(off as u64));
                        },
                        None => {
                            proof {
                                assert forall|x: int| !defines(items, x, name@) by {
                                    if defines(items, x, name@) {
                                        let k = choose|k: int|
                                            0 <= k < owners@.len() && #[trigger] owners@[k] == x;
                                        assert(labels@[k].0@ != name@);
                                    }
                                }
                                assert(dangles(items, i as int));
                            }
                            let missing: &'static str = *name;
                            assert(first_dangling(self@, i as int, missing@));
                            let e = AsmError::UndefinedLabel(missing);
                            assert(e->UndefinedLabel_0 == missing);
                            return Err(e);
                        },
                    }
                },
                Instr::Revert => {
                    let ghost before = out@;
                    push_bytes(&mut out, &bytecode::push(1));
                    push_bytes(&mut out, &bytecode::push(0));
                    out.push(0x06);
                    assert(out@ =~= before + emitted(items, i as int));
                },
                other => {
                    let ghost before = out@;
                    out.push(opcode(other));
                    assert(out@ =~= before + emitted(items, i as int));
                },
            }
            i += 1;
        }
        Ok(out)
    }
}

/// The single-byte opcode for a non-push, non-label instruction.
fn opcode(i: &Instr) -> (op: u8)
    requires
        is_plain(*i),
    ensures
        op == opcode_of(*i),
{
    match i {
        Instr::Pop => 0x02,
        Instr::Add => 0x03,
        Instr::Sub => 0x04,
        Instr::Mul => 0x05,
        Instr::Div => 0x06,
        Instr::Mod => 0x07,
        Instr::Eq => 0x08,
        Instr::Lt => 0x09,
        Instr::Gt => 0x0A,
        Instr::And => 0x0B,
        Instr::Not => 0x0C,
        Instr::Jump => 0x0D,
        Instr::JumpI => 0x0E,
        Instr::Dup => 0x0F,
        Instr::Swap => 0x10,
        Instr::Sload => 0x11,
        Instr::Sstore => 0x12,
        Instr::Caller => 0x13,
        Instr::Input => 0x14,
        _ => 0x00,
    }
}

pub proof fn lemma_offset_monotone(items: Seq<Instr>, i: int, j: int)
    requires
        0 <= i <= j <= items.len(),
    ensures
        offset(items, i) <= offset(items, j),
    decreases j - i,
{
    if i < j {
        lemma_offset_monotone(items, i, j - 1);
    }
}

/// Offsets are byte positions: the first `n` items take up exactly
/// `offset(items, n)` bytes of the program, so a label's offset is where the
/// item behind it starts.
pub proof fn law_offsets_are_positions(items: Seq<Instr>, n: int)
    requires
        0 <= n <= items.len(),
    ensures
        program(items, n).len() == offset(items, n),
        program(items, items.len() as int).subrange(0, offset(items, n) as int) == program(
            items,
            n,
        ),
    decreases items.len() - n,
{
    lemma_program_len(items, n);
    lemma_program_len(items, items.len() as int);
    if n == items.len() {
        assert(program(items, n).subrange(0, program(items, n).len() as int) =~= program(items, n));
    } else {
        law_offsets_are_positions(items, n + 1);
        let whole = program(items, items.len() as int);
        lemma_program_len(items, n + 1);
        assert(program(items, n + 1) == program(items, n) + emitted(items, n));
        lemma_offset_monotone(items, n, n + 1);
        lemma_offset_monotone(items, n + 1, items.len() as int);
        assert(whole.subrange(0, offset(items, n) as int) =~= whole.subrange(
            0,
            offset(items, n + 1) as int,
        ).subrange(0, offset(items, n) as int));
        assert(program(items, n + 1).subrange(0, offset(items, n) as int) =~= program(items, n));
    }
}

proof fn lemma_program_len(items: Seq<Instr>, n: int)
    requires
        0 <= n <= items.len(),
    ensures
        program(items, n).len() == offset(items, n),
    decreases n,
{
    broadcast use crate::bytes::group_le;

    if n > 0 {
        lemma_program_len(items, n - 1);
        assert(emitted(items, n - 1).len() == width_of(items[n - 1]));
    }
}

/// A revert always fails the call with `DivByZero`, whatever the machine holds,
/// as long as its two operands fit on the stack and its three steps are paid.
pub proof fn law_revert_fails(
    code: Seq<u8>,
    caller: Seq<u8>,
    input: u64,
    m: vm::Machine,
    gas: nat,
    items: Seq<Instr>,
    i: int,
)
    requires
        0 <= i < items.len(),
        items[i] is Revert,
        0 <= m.pc,
        m.pc + 19 <= code.len(),
        code.subrange(m.pc, m.pc + 19) == emitted(items, i),
        m.stack.len() + 2 <= vm::MAX_STACK,
        gas >= 3,
    ensures
        vm::run(code, caller, input, m, gas) == (
            Err::<(), vm::VmError>(vm::VmError::DivByZero),
            m.storage,
        ),
{
    broadcast use crate::bytes::group_le;

    let e = emitted(items, i);
    let p = m.pc;
    assert(e == bytecode::push_code(1) + bytecode::push_code(0) + seq![0x06u8]);
    assert forall|k: int| 0 <= k < 19 implies code[p + k] == e[k] by {
        assert(code.subrange(p, p + 19)[k] == code[p + k]);
    }
    assert(code[p] == e[0]);
    assert(code[p + 9] == e[9]);
    assert(code[p + 18] == e[18]);
    assert(code.subrange(p + 1, p + 9) =~= bytes::le8(1)) by {
        assert forall|k: int| 0 <= k < 8 implies code[p + 1 + k] == bytes::le8(1)[k] by {
            assert(code[p + (1 + k)] == e[1 + k]);
        }
    }
    assert(code.subrange(p + 10, p + 18) =~= bytes::le8(0)) by {
        assert forall|k: int| 0 <= k < 8 implies code[p + 10 + k] == bytes::le8(0)[k] by {
            assert(code[p + (10 + k)] == e[10 + k]);
        }
    }
    let m1 = vm::Machine { stack: m.stack.push(1), pc: p + 9, storage: m.storage };
    let m2 = vm::Machine { stack: m.stack.push(1).push(0), pc: p + 18, storage: m.storage };
    assert(vm::step(code, caller, input, m) == vm::Step::Next(m1));
    assert(vm::step(code, caller, input, m1) == vm::Step::Next(m2));
    assert(vm::step(code, caller, input, m2) == vm::Step::Fail(vm::VmError::DivByZero));
    reveal_with_fuel(vm::run, 4);
}

} // verus!
