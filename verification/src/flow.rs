//! The bytecode seen from the length of the stack alone: where each
//! instruction may go next, and how long the stack is afterwards.

use crate::compile::ops;
use crate::interpret::{pulled_n, returned, step, Machine};
use crate::laws::lemma_call_step_balanced;
use crate::types::ValueView;
use vstd::prelude::*;

verus! {

/// What is known of a machine without its values: where it stands, how long
/// its stack is, and whether the value on top is known to be `Int(0)`.
pub struct Shape {
    pub pc: int,
    pub depth: int,
    pub zero: bool,
}

/// Where the instruction at `s.pc` may go, and the shape after it: the two
/// places, which are one but for a `JUMP` on a value that is not known, the
/// length of the stack, a call taken with its return, and whether the top is
/// then known to be `Int(0)`. Nothing where the instruction would trap
/// whatever the values are.
pub open spec fn flow(bin: Seq<u8>, s: Shape) -> Option<(int, int, int, bool)> {
    let pc = s.pc;
    let d = s.depth;
    if !(0 <= pc < bin.len()) {
        None
    } else if bin[pc] == ops::NOP {
        Some((pc + 1, pc + 1, d, false))
    } else if bin[pc] == ops::POP {
        if d >= 1 {
            Some((pc + 1, pc + 1, d - 1, false))
        } else {
            None
        }
    } else if bin[pc] == ops::SWAP {
        if d >= 2 {
            Some((pc + 1, pc + 1, d, false))
        } else {
            None
        }
    } else if bin[pc] == ops::GET {
        if pc + 2 <= bin.len() && bin[pc + 1] < d {
            Some((pc + 2, pc + 2, d + 1, false))
        } else {
            None
        }
    } else if bin[pc] == ops::SET {
        if pc + 2 <= bin.len() && bin[pc + 1] < d - 1 {
            Some((pc + 2, pc + 2, d - 1, false))
        } else {
            None
        }
    } else if bin[pc] == ops::JUMP {
        if pc + 5 <= bin.len() && d >= 1 {
            let target = ops::be_word(bin.subrange(pc + 1, pc + 5)) as int;
            if s.zero {
                Some((target, target, d - 1, false))
            } else {
                Some((target, pc + 5, d - 1, false))
            }
        } else {
            None
        }
    } else if bin[pc] == ops::LIT_INT {
        if pc + 5 <= bin.len() {
            Some((pc + 5, pc + 5, d + 1, ops::be_word(bin.subrange(pc + 1, pc + 5)) == 0))
        } else {
            None
        }
    } else if bin[pc] == ops::LIT_FLT {
        if pc + 5 <= bin.len() {
            Some((pc + 5, pc + 5, d + 1, false))
        } else {
            None
        }
    } else if bin[pc] == ops::LIT_NONE {
        Some((pc + 1, pc + 1, d + 1, false))
    } else if bin[pc] == ops::CALL {
        if pc + 2 <= bin.len() && d >= 1 + bin[pc + 1] {
            Some((pc + 2, pc + 2, d - bin[pc + 1], false))
        } else {
            None
        }
    } else {
        None
    }
}

/// The number of bytes that the instruction with opcode `op` takes.
pub open spec fn width(op: u8) -> int {
    if op == ops::JUMP || op == ops::LIT_INT || op == ops::LIT_FLT {
        5
    } else if op == ops::GET || op == ops::SET || op == ops::CALL {
        2
    } else {
        1
    }
}

/// The length of the stack with which every run from `s` first comes to
/// `end`, if all runs come there within `fuel` instructions, none leaves the
/// code from `lo` to `end` before, and all come with the same length.
pub open spec fn lands(bin: Seq<u8>, lo: int, s: Shape, end: int, fuel: nat) -> Option<int>
    decreases fuel,
{
    if s.pc == end {
        Some(s.depth)
    } else if fuel == 0 || !(lo <= s.pc < end) {
        None
    } else {
        match flow(bin, s) {
            None => None,
            Some((a, b, d, z)) => {
                let ra = lands(bin, lo, Shape { pc: a, depth: d, zero: z }, end, (fuel - 1) as nat);
                let rb = lands(bin, lo, Shape { pc: b, depth: d, zero: z }, end, (fuel - 1) as nat);
                if ra == rb && s.pc + width(bin[s.pc]) <= end {
                    ra
                } else {
                    None
                }
            },
        }
    }
}

/// Whether `m` has the shape `s`.
pub open spec fn shaped(m: Machine, s: Shape) -> bool {
    &&& m.pc == s.pc
    &&& m.stack.len() == s.depth
    &&& m.call.is_none()
    &&& s.zero ==> m.stack.len() > 0 && m.stack.last() == ValueView::Int(0)
}

/// The machine goes where `flow` says: an instruction that does not trap,
/// with its call returned after any number of pulls, leaves a machine in one
/// of the two shapes that `flow` gives.
pub proof fn lemma_step_follows_flow(
    bin: Seq<u8>,
    natives: int,
    m: Machine,
    s: Shape,
    k: nat,
    out: ValueView,
)
    requires
        shaped(m, s),
        0 <= m.pc < bin.len(),
        step(bin, natives, m).is_some(),
    ensures
        flow(bin, s).is_some(),
        ({
            let (a, b, d, z) = flow(bin, s).unwrap();
            let next = step(bin, natives, m).unwrap();
            let after = if bin[m.pc] == ops::CALL {
                returned(pulled_n(next, k), out)
            } else {
                next
            };
            shaped(after, Shape { pc: a, depth: d, zero: z }) || shaped(
                after,
                Shape { pc: b, depth: d, zero: z },
            )
        }),
{
    if bin[m.pc] == ops::CALL {
        lemma_call_step_balanced(bin, natives, m, k, out);
        crate::laws::lemma_call_balanced(step(bin, natives, m).unwrap(), natives, k, out);
    }
    if bin[m.pc] == ops::LIT_INT {
        let w = ops::be_word(bin.subrange(m.pc + 1, m.pc + 5));
        assert(w == 0 ==> ops::bits_int(w) == 0);
    }
}

/// Where `flow` gives a next shape, the machine traps only on its values: on
/// a `JUMP` whose condition is no `Int`, or on a `CALL` of what is no native
/// function of the library.
pub proof fn lemma_flow_traps_on_values_only(bin: Seq<u8>, natives: int, m: Machine, s: Shape)
    requires
        shaped(m, s),
        flow(bin, s).is_some(),
        step(bin, natives, m).is_none(),
    ensures
        m.stack.len() > 0,
        bin[m.pc] == ops::JUMP || bin[m.pc] == ops::CALL,
        bin[m.pc] == ops::JUMP ==> !(m.stack.last() is Int),
        bin[m.pc] == ops::CALL ==> !(m.stack.last() is NativeFn && m.stack.last()->NativeFn_0
            < natives),
{
}

/// A landing is kept by the run: where every run from the shape of a
/// machine comes to `end` with a stack of one length, and the machine takes
/// one instruction without a trap, its call returned after any number of
/// pulls, then from its new shape every run still comes to `end` with that
/// length, within one instruction less.
pub proof fn lemma_landing_is_kept(
    bin: Seq<u8>,
    natives: int,
    lo: int,
    m: Machine,
    s: Shape,
    end: int,
    fuel: nat,
    k: nat,
    out: ValueView,
)
    requires
        shaped(m, s),
        lands(bin, lo, s, end, fuel).is_some(),
        m.pc != end,
        step(bin, natives, m).is_some(),
    ensures
        0 <= m.pc < bin.len(),
        fuel > 0,
        ({
            let next = step(bin, natives, m).unwrap();
            let after = if bin[m.pc] == ops::CALL {
                returned(pulled_n(next, k), out)
            } else {
                next
            };
            exists|s2: Shape|
                shaped(after, s2) && #[trigger] lands(bin, lo, s2, end, (fuel - 1) as nat)
                    == lands(bin, lo, s, end, fuel)
        }),
{
    let (a, b, d, z) = flow(bin, s).unwrap();
    lemma_step_follows_flow(bin, natives, m, s, k, out);
    let next = step(bin, natives, m).unwrap();
    let after = if bin[m.pc] == ops::CALL {
        returned(pulled_n(next, k), out)
    } else {
        next
    };
    let sa = Shape { pc: a, depth: d, zero: z };
    let sb = Shape { pc: b, depth: d, zero: z };
    if shaped(after, sa) {
        assert(lands(bin, lo, sa, end, (fuel - 1) as nat) == lands(bin, lo, s, end, fuel));
    } else {
        assert(shaped(after, sb));
        assert(lands(bin, lo, sb, end, (fuel - 1) as nat) == lands(bin, lo, s, end, fuel));
    }
}

/// More fuel changes nothing.
pub proof fn lemma_lands_more_fuel(bin: Seq<u8>, lo: int, s: Shape, end: int, f1: nat, f2: nat)
    requires
        lands(bin, lo, s, end, f1).is_some(),
        f1 <= f2,
    ensures
        lands(bin, lo, s, end, f2) == lands(bin, lo, s, end, f1),
    decreases f1,
{
    if s.pc != end {
        let (a, b, d, z) = flow(bin, s).unwrap();
        lemma_lands_more_fuel(bin, lo, Shape { pc: a, depth: d, zero: z }, end, (f1 - 1) as nat, (f2 - 1) as nat);
        lemma_lands_more_fuel(bin, lo, Shape { pc: b, depth: d, zero: z }, end, (f1 - 1) as nat, (f2 - 1) as nat);
    }
}

/// A wider range of code changes nothing.
pub proof fn lemma_lands_widen(bin: Seq<u8>, lo: int, lo2: int, s: Shape, end: int, fuel: nat)
    requires
        lands(bin, lo, s, end, fuel).is_some(),
        lo2 <= lo,
    ensures
        lands(bin, lo2, s, end, fuel) == lands(bin, lo, s, end, fuel),
    decreases fuel,
{
    if s.pc != end {
        let (a, b, d, z) = flow(bin, s).unwrap();
        lemma_lands_widen(bin, lo, lo2, Shape { pc: a, depth: d, zero: z }, end, (fuel - 1) as nat);
        lemma_lands_widen(bin, lo, lo2, Shape { pc: b, depth: d, zero: z }, end, (fuel - 1) as nat);
    }
}

/// Two pieces of code that agree from `lo` to `end`.
#[verifier::opaque]
pub open spec fn agree(bin1: Seq<u8>, bin2: Seq<u8>, lo: int, end: int) -> bool {
    &&& 0 <= lo
    &&& end <= bin1.len()
    &&& end <= bin2.len()
    &&& forall|i: int| lo <= i < end ==> bin1[i] == bin2[i]
}

/// What is outside the range of code from `lo` to `end` changes nothing.
pub proof fn lemma_lands_frame(
    bin1: Seq<u8>,
    bin2: Seq<u8>,
    lo: int,
    s: Shape,
    end: int,
    fuel: nat,
)
    requires
        lands(bin1, lo, s, end, fuel).is_some(),
        agree(bin1, bin2, lo, end),
    ensures
        lands(bin2, lo, s, end, fuel) == lands(bin1, lo, s, end, fuel),
    decreases fuel,
{
    reveal(agree);
    if s.pc != end {
        let (a, b, d, z) = flow(bin1, s).unwrap();
        let pc = s.pc;
        let op = bin1[pc];
        assert(lands(bin1, lo, Shape { pc: a, depth: d, zero: z }, end, (fuel - 1) as nat).is_some());
        assert(lands(bin1, lo, Shape { pc: b, depth: d, zero: z }, end, (fuel - 1) as nat).is_some());
        assert(a <= end && b <= end);
        if op == ops::JUMP || op == ops::LIT_INT || op == ops::LIT_FLT {
            assert(bin1.subrange(pc + 1, pc + 5) =~= bin2.subrange(pc + 1, pc + 5));
        }
        assert(flow(bin2, s) == flow(bin1, s));
        lemma_lands_frame(bin1, bin2, lo, Shape { pc: a, depth: d, zero: z }, end, (fuel - 1) as nat);
        lemma_lands_frame(bin1, bin2, lo, Shape { pc: b, depth: d, zero: z }, end, (fuel - 1) as nat);
    }
}

/// Code that lands at `mid`, followed by code that lands at `end` from there
/// whatever is known of the top, lands at `end`.
pub proof fn lemma_lands_then(
    bin: Seq<u8>,
    lo: int,
    s: Shape,
    mid: int,
    end: int,
    f1: nat,
    f2: nat,
    d2: int,
)
    requires
        lands(bin, lo, s, mid, f1).is_some(),
        mid <= end,
        s.pc <= mid,
        lands(
            bin,
            lo,
            Shape { pc: mid, depth: lands(bin, lo, s, mid, f1).unwrap(), zero: true },
            end,
            f2,
        ) == Some(d2),
        lands(
            bin,
            lo,
            Shape { pc: mid, depth: lands(bin, lo, s, mid, f1).unwrap(), zero: false },
            end,
            f2,
        ) == Some(d2),
    ensures
        lands(bin, lo, s, end, f1 + f2) == Some(d2),
    decreases f1,
{
    if s.pc == mid {
        assert(s == Shape { pc: mid, depth: s.depth, zero: s.zero });
        lemma_lands_more_fuel(bin, lo, s, end, f2, f1 + f2);
    } else {
        let (a, b, d, z) = flow(bin, s).unwrap();
        let sa = Shape { pc: a, depth: d, zero: z };
        let sb = Shape { pc: b, depth: d, zero: z };
        assert(lands(bin, lo, sa, mid, (f1 - 1) as nat) == lands(bin, lo, s, mid, f1));
        assert(lands(bin, lo, sb, mid, (f1 - 1) as nat) == lands(bin, lo, s, mid, f1));
        assert(a <= mid && b <= mid);
        lemma_lands_then(bin, lo, sa, mid, end, (f1 - 1) as nat, f2, d2);
        lemma_lands_then(bin, lo, sb, mid, end, (f1 - 1) as nat, f2, d2);
    }
}


/// The code from `start` to `end` takes a stack of length `d` to one of
/// length `d2`: every run from `start` first comes to `end` with that
/// length, within as many instructions as the code has bytes and without
/// leaving the code from `lo` to `end`, whatever is known of the top.
#[verifier::opaque]
pub open spec fn runs(bin: Seq<u8>, lo: int, start: int, d: int, end: int, d2: int) -> bool {
    &&& lo <= start <= end
    &&& lands(bin, lo, Shape { pc: start, depth: d, zero: true }, end, (end - start) as nat)
        == Some(d2)
    &&& lands(bin, lo, Shape { pc: start, depth: d, zero: false }, end, (end - start) as nat)
        == Some(d2)
}

/// Code that runs to `mid`, followed by code that runs on to `end`, runs to
/// `end`.
pub proof fn lemma_runs_then(
    bin: Seq<u8>,
    lo: int,
    start: int,
    d: int,
    mid: int,
    d1: int,
    end: int,
    d2: int,
)
    requires
        runs(bin, lo, start, d, mid, d1),
        runs(bin, lo, mid, d1, end, d2),
    ensures
        runs(bin, lo, start, d, end, d2),
{
    reveal(runs);
    lemma_lands_then(
        bin,
        lo,
        Shape { pc: start, depth: d, zero: true },
        mid,
        end,
        (mid - start) as nat,
        (end - mid) as nat,
        d2,
    );
    lemma_lands_then(
        bin,
        lo,
        Shape { pc: start, depth: d, zero: false },
        mid,
        end,
        (mid - start) as nat,
        (end - mid) as nat,
        d2,
    );
}

/// What is outside the code from `lo` to `end` changes nothing of how it
/// runs.
pub proof fn lemma_runs_frame(
    bin1: Seq<u8>,
    bin2: Seq<u8>,
    lo: int,
    start: int,
    d: int,
    end: int,
    d2: int,
)
    requires
        runs(bin1, lo, start, d, end, d2),
        agree(bin1, bin2, lo, end),
    ensures
        runs(bin2, lo, start, d, end, d2),
{
    reveal(runs);
    lemma_lands_frame(
        bin1,
        bin2,
        lo,
        Shape { pc: start, depth: d, zero: true },
        end,
        (end - start) as nat,
    );
    lemma_lands_frame(
        bin1,
        bin2,
        lo,
        Shape { pc: start, depth: d, zero: false },
        end,
        (end - start) as nat,
    );
}

/// Code that runs inside a range runs inside a wider one.
pub proof fn lemma_runs_widen(
    bin: Seq<u8>,
    lo: int,
    lo2: int,
    start: int,
    d: int,
    end: int,
    d2: int,
)
    requires
        runs(bin, lo, start, d, end, d2),
        lo2 <= lo,
    ensures
        runs(bin, lo2, start, d, end, d2),
{
    reveal(runs);
    lemma_lands_widen(
        bin,
        lo,
        lo2,
        Shape { pc: start, depth: d, zero: true },
        end,
        (end - start) as nat,
    );
    lemma_lands_widen(
        bin,
        lo,
        lo2,
        Shape { pc: start, depth: d, zero: false },
        end,
        (end - start) as nat,
    );
}

/// One instruction that is no `JUMP` runs to the instruction after it.
pub proof fn lemma_runs_one(bin: Seq<u8>, lo: int, pc: int, d: int, d2: int)
    requires
        0 <= lo <= pc < bin.len(),
        bin[pc] != ops::JUMP,
        flow(bin, Shape { pc, depth: d, zero: false }).is_some(),
        flow(bin, Shape { pc, depth: d, zero: false }).unwrap().2 == d2,
    ensures
        runs(bin, lo, pc, d, pc + width(bin[pc]), d2),
{
    reveal(runs);
    reveal_with_fuel(lands, 2);
    let end = pc + width(bin[pc]);
    let t = Shape { pc, depth: d, zero: true };
    let f = Shape { pc, depth: d, zero: false };
    assert(flow(bin, t).unwrap().0 == end);
    assert(flow(bin, f).unwrap().0 == end);
    assert(lands(bin, lo, t, end, 1) == Some(d2));
    assert(lands(bin, lo, f, end, 1) == Some(d2));
    lemma_lands_more_fuel(bin, lo, t, end, 1, (end - pc) as nat);
    lemma_lands_more_fuel(bin, lo, f, end, 1, (end - pc) as nat);
}

/// Code that runs nowhere leaves the stack as it is.
pub proof fn lemma_runs_none(bin: Seq<u8>, lo: int, pc: int, d: int)
    requires
        lo <= pc,
    ensures
        runs(bin, lo, pc, d, pc, d),
{
    reveal(runs);
}

/// Code that holds `first` at its start agrees with it there.
pub proof fn lemma_prefix_agrees(first: Seq<u8>, bin: Seq<u8>, lo: int)
    requires
        0 <= lo,
        first.len() <= bin.len(),
        bin.subrange(0, first.len() as int) == first,
    ensures
        agree(first, bin, lo, first.len() as int),
{
    reveal(agree);
    assert forall|i: int| lo <= i < first.len() implies first[i] == bin[i] by {
        assert(bin.subrange(0, first.len() as int)[i] == bin[i]);
    }
}

/// Where `x` starts `y` and `y` starts `z`, `x` starts `z`.
pub proof fn lemma_prefix_of_prefix(x: Seq<u8>, y: Seq<u8>, z: Seq<u8>)
    requires
        x.len() <= y.len() <= z.len(),
        y.subrange(0, x.len() as int) == x,
        z.subrange(0, y.len() as int) == y,
    ensures
        z.subrange(0, x.len() as int) == x,
{
    assert forall|i: int| 0 <= i < x.len() implies z.subrange(0, x.len() as int)[i] == x[i] by {
        assert(y.subrange(0, x.len() as int)[i] == y[i]);
        assert(z.subrange(0, y.len() as int)[i] == z[i]);
    }
    assert(z.subrange(0, x.len() as int) =~= x);
}


/// Code that runs from `start` to `end` inside a range has them in order.
pub proof fn lemma_runs_ordered(bin: Seq<u8>, lo: int, start: int, d: int, end: int, d2: int)
    requires
        runs(bin, lo, start, d, end, d2),
    ensures
        lo <= start <= end,
{
    reveal(runs);
}

/// Pieces of code that agree on a range agree on any range inside it.
pub proof fn lemma_agree_inside(
    bin1: Seq<u8>,
    bin2: Seq<u8>,
    lo: int,
    end: int,
    lo2: int,
    end2: int,
)
    requires
        agree(bin1, bin2, lo, end),
        lo <= lo2,
        end2 <= end,
    ensures
        agree(bin1, bin2, lo2, end2),
{
    reveal(agree);
}

/// Where two pieces of code agree from their start on, what starts the one
/// starts the other.
pub proof fn lemma_agree_prefix(first: Seq<u8>, bin1: Seq<u8>, bin2: Seq<u8>, end: int)
    requires
        agree(bin1, bin2, 0, end),
        first.len() <= end,
        bin1.subrange(0, first.len() as int) == first,
    ensures
        bin2.subrange(0, first.len() as int) == first,
{
    reveal(agree);
    assert forall|i: int| 0 <= i < first.len() implies bin2.subrange(0, first.len() as int)[i]
        == first[i] by {
        assert(bin1.subrange(0, first.len() as int)[i] == bin1[i]);
    }
    assert(bin2.subrange(0, first.len() as int) =~= first);
}

/// A piece of code without its last byte agrees with it up to there.
pub proof fn lemma_agree_drop_last(bin: Seq<u8>, lo: int)
    requires
        0 <= lo,
        bin.len() > 0,
    ensures
        agree(bin, bin.drop_last(), lo, bin.len() - 1),
{
    reveal(agree);
}


/// How a run ends: at the place it was to come to, in a trap, or out of
/// instructions before either.
pub enum Outcome {
    Reached(Machine),
    Trapped(Machine),
    Stuck,
}

/// The machine run from `m` until it first comes to `end`, for at most
/// `fuel` instructions. The native function of the call made at instruction
/// `i` of the run pulls `calls(i).0` times and returns `calls(i).1`.
pub open spec fn run_to(
    bin: Seq<u8>,
    natives: int,
    m: Machine,
    end: int,
    fuel: nat,
    calls: spec_fn(nat) -> (nat, ValueView),
    i: nat,
) -> Outcome
    decreases fuel,
{
    if m.pc == end {
        Outcome::Reached(m)
    } else if fuel == 0 {
        Outcome::Stuck
    } else {
        match step(bin, natives, m) {
            None => Outcome::Trapped(m),
            Some(next) => run_to(
                bin,
                natives,
                if 0 <= m.pc < bin.len() && bin[m.pc] == ops::CALL {
                    returned(pulled_n(next, calls(i).0), calls(i).1)
                } else {
                    next
                },
                end,
                (fuel - 1) as nat,
                calls,
                i + 1,
            ),
        }
    }
}

/// The machine lands where its code lands: where every run from the shape
/// of a machine comes to `end` with a stack of length `d`, the machine
/// itself, whatever its values are and whatever its native functions pull
/// and return, comes to `end` with a stack of that length, unless it traps
/// on the way; and it does not run out of instructions first.
pub proof fn lemma_machine_lands(
    bin: Seq<u8>,
    natives: int,
    lo: int,
    m: Machine,
    s: Shape,
    end: int,
    fuel: nat,
    calls: spec_fn(nat) -> (nat, ValueView),
    i: nat,
    d: int,
)
    requires
        shaped(m, s),
        lands(bin, lo, s, end, fuel) == Some(d),
    ensures
        match run_to(bin, natives, m, end, fuel, calls, i) {
            Outcome::Reached(last) => last.pc == end && last.stack.len() == d
                && last.call.is_none(),
            Outcome::Trapped(at) => step(bin, natives, at).is_none(),
            Outcome::Stuck => false,
        },
    decreases fuel,
{
    if m.pc != end {
        if step(bin, natives, m).is_some() {
            lemma_landing_is_kept(bin, natives, lo, m, s, end, fuel, calls(i).0, calls(i).1);
            let next = step(bin, natives, m).unwrap();
            let after = if bin[m.pc] == ops::CALL {
                returned(pulled_n(next, calls(i).0), calls(i).1)
            } else {
                next
            };
            let s2 = choose|s2: Shape|
                shaped(after, s2) && #[trigger] lands(bin, lo, s2, end, (fuel - 1) as nat)
                    == lands(bin, lo, s, end, fuel);
            lemma_machine_lands(
                bin,
                natives,
                lo,
                after,
                s2,
                end,
                (fuel - 1) as nat,
                calls,
                i + 1,
                d,
            );
        }
    }
}

} // verus!
