//! The stack machine that runs compiled bytecode, one instruction at a time.
//! A native function is called by whoever drives the machine: `tick` says
//! which one is due, `pull` hands it its arguments one by one, and `ret`
//! takes its result.

use crate::compile::ops;
use crate::types::{views, NativeFnIndex, Value, ValueView};
use vstd::prelude::*;

verus! {

/// The state of a machine: where it stands in the code, its operand stack,
/// and, while a native function is being called, its place in the library
/// and how many arguments are still on offer to it.
pub struct Machine {
    pub pc: int,
    pub stack: Seq<ValueView>,
    pub call: Option<(u32, int)>,
}

/// The stack that a machine starts with: for each native function of the
/// library, in order, a reference to it.
pub open spec fn seeded_stack(n: int) -> Seq<ValueView> {
    Seq::new(n as nat, |i: int| ValueView::NativeFn(native_index(i)))
}

/// The index by which a value refers to the native function in place `i` of
/// the library: `i` itself, as far as 32 bits hold it, and its low 32 bits
/// beyond.
pub open spec fn native_index(i: int) -> u32 {
    (i % 0x1_0000_0000) as u32
}

/// The one-byte operand of the instruction at `pc`, if the code holds it.
pub open spec fn operand_byte(bin: Seq<u8>, pc: int) -> Option<u8> {
    if pc + 2 <= bin.len() {
        Some(bin[pc + 1])
    } else {
        None
    }
}

/// The four-byte operand of the instruction at `pc`, if the code holds it.
pub open spec fn operand_word(bin: Seq<u8>, pc: int) -> Option<u32> {
    if pc + 5 <= bin.len() {
        Some(ops::be_word(bin.subrange(pc + 1, pc + 5)))
    } else {
        None
    }
}

impl Machine {
    /// At `pc`, with the same stack.
    pub open spec fn at(self, pc: int) -> Machine {
        Machine { pc, ..self }
    }

    /// At `pc`, with `stack`.
    pub open spec fn with(self, pc: int, stack: Seq<ValueView>) -> Machine {
        Machine { pc, stack, ..self }
    }

    /// The number of arguments still on offer to the call in progress.
    pub open spec fn offered(self) -> int {
        match self.call {
            Some((_, n)) => n,
            None => 0,
        }
    }

    /// The call in progress, if any, offers no more than the stack holds,
    /// and is to a function of a library of `natives` entries.
    pub open spec fn wf(self, natives: int) -> bool {
        match self.call {
            Some((f, n)) => 0 <= n <= self.stack.len() && f < natives,
            None => true,
        }
    }
}

/// One instruction: the state after the one at `m.pc`, or nothing where it
/// traps. Past the end of the code nothing happens. A trap is: an opcode
/// that is not known, an operand that the code does not hold, a value that
/// the stack does not hold, a slot that the stack does not have, a `JUMP`
/// on a condition that is no `Int`, and a `CALL` of what is no native
/// function of the library.
pub open spec fn step(bin: Seq<u8>, natives: int, m: Machine) -> Option<Machine> {
    let n = m.stack.len() as int;
    if !(0 <= m.pc < bin.len()) {
        Some(m)
    } else if bin[m.pc] == ops::NOP {
        Some(m.at(m.pc + 1))
    } else if bin[m.pc] == ops::POP {
        if n >= 1 {
            Some(m.with(m.pc + 1, m.stack.drop_last()))
        } else {
            None
        }
    } else if bin[m.pc] == ops::SWAP {
        if n >= 2 {
            Some(
                m.with(
                    m.pc + 1,
                    m.stack.subrange(0, n - 2).push(m.stack[n - 1]).push(m.stack[n - 2]),
                ),
            )
        } else {
            None
        }
    } else if bin[m.pc] == ops::GET {
        match operand_byte(bin, m.pc) {
            Some(slot) => if slot < n {
                Some(m.with(m.pc + 2, m.stack.push(m.stack[slot as int])))
            } else {
                None
            },
            None => None,
        }
    } else if bin[m.pc] == ops::SET {
        match operand_byte(bin, m.pc) {
            Some(slot) => if slot < n - 1 {
                Some(m.with(m.pc + 2, m.stack.drop_last().update(slot as int, m.stack[n - 1])))
            } else {
                None
            },
            None => None,
        }
    } else if bin[m.pc] == ops::JUMP {
        match operand_word(bin, m.pc) {
            Some(target) => if n >= 1 {
                match m.stack[n - 1] {
                    ValueView::Int(x) => Some(
                        m.with(
                            if x == 0 {
                                target as int
                            } else {
                                m.pc + 5
                            },
                            m.stack.drop_last(),
                        ),
                    ),
                    _ => None,
                }
            } else {
                None
            },
            None => None,
        }
    } else if bin[m.pc] == ops::LIT_INT {
        match operand_word(bin, m.pc) {
            Some(w) => Some(m.with(m.pc + 5, m.stack.push(ValueView::Int(ops::bits_int(w))))),
            None => None,
        }
    } else if bin[m.pc] == ops::LIT_FLT {
        match operand_word(bin, m.pc) {
            Some(w) => Some(m.with(m.pc + 5, m.stack.push(ValueView::Flt(w)))),
            None => None,
        }
    } else if bin[m.pc] == ops::LIT_NONE {
        Some(m.with(m.pc + 1, m.stack.push(ValueView::Nothing)))
    } else if bin[m.pc] == ops::CALL {
        match operand_byte(bin, m.pc) {
            Some(argc) => if n >= 1 {
                match m.stack[n - 1] {
                    ValueView::NativeFn(f) => if f < natives && argc <= n - 1 {
                        Some(
                            Machine {
                                pc: m.pc + 2,
                                stack: m.stack.drop_last(),
                                call: Some((f, argc as int)),
                            },
                        )
                    } else {
                        None
                    },
                    _ => None,
                }
            } else {
                None
            },
            None => None,
        }
    } else {
        None
    }
}

/// The argument that a pull hands to the native function being called: the
/// deepest of those still on offer.
pub open spec fn offer(m: Machine) -> Option<ValueView> {
    if 0 < m.offered() <= m.stack.len() {
        Some(m.stack[m.stack.len() - m.offered()])
    } else {
        None
    }
}

/// The state after a pull: the argument handed out has left the stack.
pub open spec fn pulled(m: Machine) -> Machine {
    match m.call {
        Some((f, n)) => if 0 < n <= m.stack.len() {
            Machine { stack: m.stack.remove(m.stack.len() - n), call: Some((f, n - 1)), ..m }
        } else {
            m
        },
        None => m,
    }
}

/// The state after `k` pulls.
pub open spec fn pulled_n(m: Machine, k: nat) -> Machine
    decreases k,
{
    if k == 0 {
        m
    } else {
        pulled_n(pulled(m), (k - 1) as nat)
    }
}

/// The state after the native function has returned `out`: the arguments
/// that it did not pull are gone, and its result is on top.
pub open spec fn returned(m: Machine, out: ValueView) -> Machine {
    Machine {
        stack: m.stack.subrange(0, m.stack.len() - m.offered()).push(out),
        call: None,
        ..m
    }
}

/// A machine over one piece of bytecode.
pub struct Interpret<'a> {
    pc: usize,
    stack: Vec<Value>,
    bin: &'a Vec<u8>,
    natives: usize,
    pending: Option<(u32, usize)>,
}

impl<'a> Interpret<'a> {
    /// The bytecode.
    pub closed spec fn code(&self) -> Seq<u8> {
        self.bin@
    }

    /// The number of native functions in the library.
    pub closed spec fn natives(&self) -> int {
        self.natives as int
    }

    /// The state.
    pub closed spec fn machine(&self) -> Machine {
        Machine {
            pc: self.pc as int,
            stack: views(self.stack@),
            call: match self.pending {
                Some((f, n)) => Some((f, n as int)),
                None => None,
            },
        }
    }

    /// The state is in order.
    pub open spec fn wf(&self) -> bool {
        self.machine().wf(self.natives())
    }

    /// A machine at the start of `bin`, for a library with the names
    /// `natives`: its stack holds a reference to each of them, in order, as
    /// the compiler binds their names to the first slots.
    pub fn new(bin: &'a Vec<u8>, natives: &[&str]) -> (r: Self)
        ensures
            r.wf(),
            r.code() == bin@,
            r.natives() == natives@.len(),
            r.machine() == (Machine {
                pc: 0,
                stack: seeded_stack(natives@.len() as int),
                call: None,
            }),
    {
        let mut stack: Vec<Value> = Vec::new();
        let mut i: usize = 0;
        while i < natives.len()
            invariant
                i <= natives.len(),
                stack@.len() == i,
                forall|j: int|
                    0 <= j < i ==> (#[trigger] stack@[j])@ == ValueView::NativeFn(native_index(j)),
            decreases natives.len() - i,
        {
            stack.push(Value::NativeFn(NativeFnIndex(((i as u64) % 0x1_0000_0000) as u32)));
            i += 1;
        }
        let r = Self { pc: 0, stack, bin, natives: natives.len(), pending: None };
        assert(r.machine().stack =~= seeded_stack(natives@.len() as int));
        r
    }

    /// Whether the end of the code is reached.
    pub fn end(&self) -> (r: bool)
        ensures
            r == (self.machine().pc >= self.code().len()),
    {
        self.pc >= self.bin.len()
    }

    /// The operand stack, bottom first.
    pub fn stack(&self) -> (r: &Vec<Value>)
        ensures
            views(r@) == self.machine().stack,
    {
        &self.stack
    }

    /// Whether a native function is being called.
    pub fn calling(&self) -> (r: bool)
        ensures
            r == self.machine().call.is_some(),
    {
        self.pending.is_some()
    }

    fn byte(&mut self) -> (r: u8)
        requires
            old(self).pc < old(self).bin@.len(),
        ensures
            r == old(self).bin@[old(self).pc as int],
            final(self).pc == old(self).pc + 1,
            final(self).stack == old(self).stack,
            final(self).bin == old(self).bin,
            final(self).natives == old(self).natives,
            final(self).pending == old(self).pending,
    {
        let len = self.bin.len();
        let r = self.bin[self.pc];
        self.pc += 1;
        r
    }

    fn word(&mut self) -> (r: u32)
        requires
            old(self).pc + 4 <= old(self).bin@.len(),
        ensures
            r == ops::be_word(old(self).bin@.subrange(old(self).pc as int, old(self).pc + 4)),
            final(self).pc == old(self).pc + 4,
            final(self).stack == old(self).stack,
            final(self).bin == old(self).bin,
            final(self).natives == old(self).natives,
            final(self).pending == old(self).pending,
    {
        let len = self.bin.len();
        let r = ops::read_word(self.bin, self.pc);
        self.pc += 4;
        r
    }

    fn word_int(&mut self) -> (r: i32)
        requires
            old(self).pc + 4 <= old(self).bin@.len(),
        ensures
            r == ops::bits_int(
                ops::be_word(old(self).bin@.subrange(old(self).pc as int, old(self).pc + 4)),
            ),
            final(self).pc == old(self).pc + 4,
            final(self).stack == old(self).stack,
            final(self).bin == old(self).bin,
            final(self).natives == old(self).natives,
            final(self).pending == old(self).pending,
    {
        ops::from_bits(self.word())
    }

    /// Takes the top value off the stack, if there is one.
    pub fn pop(&mut self) -> (r: Option<Value>)
        ensures
            final(self).code() == old(self).code(),
            final(self).natives() == old(self).natives(),
            final(self).machine().pc == old(self).machine().pc,
            final(self).machine().call == old(self).machine().call,
            old(self).machine().stack.len() == 0 ==> r.is_none() && final(self).machine().stack
                == old(self).machine().stack,
            old(self).machine().stack.len() > 0 ==> r.is_some() && r.unwrap()@ == old(
                self,
            ).machine().stack.last() && final(self).machine().stack == old(
                self,
            ).machine().stack.drop_last(),
    {
        let r = self.stack.pop();
        assert(views(self.stack@) =~= if old(self).stack@.len() > 0 {
            views(old(self).stack@).drop_last()
        } else {
            views(old(self).stack@)
        });
        r
    }

    /// Whether the next instruction traps.
    pub fn traps(&self) -> (r: bool)
        ensures
            r == step(self.code(), self.natives(), self.machine()).is_none(),
    {
        let len = self.bin.len();
        let n = self.stack.len();
        if self.pc >= len {
            return false;
        }
        let op = self.bin[self.pc];
        if op == ops::NOP || op == ops::LIT_NONE {
            false
        } else if op == ops::POP {
            n < 1
        } else if op == ops::SWAP {
            n < 2
        } else if op == ops::GET {
            len - self.pc < 2 || self.bin[self.pc + 1] as usize >= n
        } else if op == ops::SET {
            len - self.pc < 2 || n < 1 || self.bin[self.pc + 1] as usize >= n - 1
        } else if op == ops::JUMP {
            if len - self.pc < 5 || n < 1 {
                true
            } else {
                match &self.stack[n - 1] {
                    Value::Int(_) => false,
                    _ => true,
                }
            }
        } else if op == ops::LIT_INT || op == ops::LIT_FLT {
            len - self.pc < 5
        } else if op == ops::CALL {
            if len - self.pc < 2 || n < 1 {
                true
            } else {
                match &self.stack[n - 1] {
                    Value::NativeFn(f) => !((f.0 as usize) < self.natives && self.bin[self.pc
                        + 1] as usize <= n - 1),
                    _ => true,
                }
            }
        } else {
            true
        }
    }

    /// Runs one instruction; at the end of the code, does nothing. Where the
    /// instruction is a `CALL`, the callee and the number of its arguments
    /// are taken in, and the answer is the native function to call: its
    /// arguments are then had by `pull`, and its result goes to `ret`.
    pub fn tick(&mut self) -> (r: Option<NativeFnIndex>)
        requires
            old(self).wf(),
            old(self).machine().call.is_none(),
            step(old(self).code(), old(self).natives(), old(self).machine()).is_some(),
        ensures
            final(self).wf(),
            final(self).code() == old(self).code(),
            final(self).natives() == old(self).natives(),
            Some(final(self).machine()) == step(
                old(self).code(),
                old(self).natives(),
                old(self).machine(),
            ),
            match final(self).machine().call {
                Some((f, _)) => r.is_some() && r.unwrap().0 == f,
                None => r.is_none(),
            },
    {
        let ghost before = self.machine();
        let ghost old_stack = self.stack@;
        if self.end() {
            return None;
        }
        let inst = self.byte();
        if inst == ops::NOP {
            None
        } else if inst == ops::POP {
            self.stack.pop();
            assert(views(self.stack@) =~= before.stack.drop_last());
            None
        } else if inst == ops::SWAP {
            let data_0 = self.stack.pop().unwrap();
            let data_1 = self.stack.pop().unwrap();
            self.stack.push(data_0);
            self.stack.push(data_1);
            assert(views(self.stack@) =~= before.stack.subrange(
                0,
                before.stack.len() - 2,
            ).push(before.stack[before.stack.len() - 1]).push(
                before.stack[before.stack.len() - 2],
            ));
            None
        } else if inst == ops::GET {
            let offset = self.byte();
            let data = self.stack[offset as usize].clone();
            self.stack.push(data);
            assert(views(self.stack@) =~= before.stack.push(before.stack[offset as int]));
            None
        } else if inst == ops::SET {
            let offset = self.byte();
            let data = self.stack.pop().unwrap();
            self.stack.set(offset as usize, data);
            assert(views(self.stack@) =~= before.stack.drop_last().update(
                offset as int,
                before.stack[before.stack.len() - 1],
            ));
            None
        } else if inst == ops::JUMP {
            let target = self.word();
            let condition = self.stack.pop();
            assert(views(self.stack@) =~= before.stack.drop_last());
            assert(before.stack[before.stack.len() - 1] == old_stack[old_stack.len() - 1]@);
            match condition {
                Some(Value::Int(x)) => {
                    if x == 0 {
                        self.pc = target as usize;
                    }
                },
                _ => {
                    assert(false);
                },
            }
            None
        } else if inst == ops::LIT_INT {
            let data = self.word_int();
            self.stack.push(Value::Int(data));
            assert(views(self.stack@) =~= before.stack.push(ValueView::Int(data)));
            None
        } else if inst == ops::LIT_FLT {
            let data = self.word();
            self.stack.push(Value::Flt(data));
            assert(views(self.stack@) =~= before.stack.push(ValueView::Flt(data)));
            None
        } else if inst == ops::LIT_NONE {
            self.stack.push(Value::Nothing);
            assert(views(self.stack@) =~= before.stack.push(ValueView::Nothing));
            None
        } else if inst == ops::CALL {
            let cmd = self.stack.pop();
            let count = self.byte();
            assert(views(self.stack@) =~= before.stack.drop_last());
            assert(before.stack[before.stack.len() - 1] == old_stack[old_stack.len() - 1]@);
            match cmd {
                Some(Value::NativeFn(x)) => {
                    self.pending = Some((x.0, count as usize));
                    Some(x)
                },
                _ => {
                    assert(false);
                    None
                },
            }
        } else {
            assert(false);
            None
        }
    }

    /// Hands the native function being called its next argument, which
    /// leaves the stack, or nothing once it has had all that were on offer.
    pub fn pull(&mut self) -> (r: Option<Value>)
        requires
            old(self).wf(),
        ensures
            final(self).wf(),
            final(self).code() == old(self).code(),
            final(self).natives() == old(self).natives(),
            final(self).machine() == pulled(old(self).machine()),
            match offer(old(self).machine()) {
                Some(v) => r.is_some() && r.unwrap()@ == v,
                None => r.is_none(),
            },
    {
        match self.pending {
            Some((f, n)) => {
                if n > 0 {
                    let at = self.stack.len() - n;
                    let v = self.stack.remove(at);
                    self.pending = Some((f, n - 1));
                    assert(views(self.stack@) =~= views(old(self).stack@).remove(at as int));
                    Some(v)
                } else {
                    None
                }
            },
            None => None,
        }
    }

    /// Ends the call in progress with the result `out`: the arguments that
    /// were not pulled are discarded, and `out` is pushed.
    pub fn ret(&mut self, out: Value)
        requires
            old(self).wf(),
        ensures
            final(self).wf(),
            final(self).code() == old(self).code(),
            final(self).natives() == old(self).natives(),
            final(self).machine() == returned(old(self).machine(), out@),
    {
        let n = match self.pending {
            Some((_, n)) => n,
            None => 0,
        };
        let keep = self.stack.len() - n;
        self.stack.truncate(keep);
        self.stack.push(out);
        self.pending = None;
        assert(views(self.stack@) =~= views(old(self).stack@).subrange(0, keep as int).push(
            out@,
        ));
    }
}

} // verus!
