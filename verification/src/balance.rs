//! The compiler keeps the stack in step with its bindings: the code of an
//! expression, run from a stack that holds the bindings, ends with that
//! stack and the expression's value on top.

use crate::compile::ops;
use crate::compile::{
    advanced, block_items, conditional, count_byte, jump_target, lemma_primary_compound, list,
    list_args, primary, resolve, retracted, slot_byte, statement, unwound, Emit, Source,
};
use crate::flow::{
    agree, flow, lands, lemma_agree_drop_last, lemma_agree_inside, lemma_agree_prefix,
    lemma_lands_more_fuel, lemma_prefix_agrees, lemma_prefix_of_prefix, lemma_runs_frame,
    lemma_runs_none, lemma_runs_one, lemma_runs_ordered, lemma_runs_then, lemma_runs_widen,
    lemma_machine_lands, run_to, runs, width, Outcome, Shape,
};
use crate::interpret::Machine;
use crate::types::ValueView;
use crate::laws::{
    extends, lemma_arguments_advance, lemma_expression_advances, lemma_expression_keeps_bindings,
    lemma_statement_advances, lemma_statement_extends_bindings, scoped,
};
use crate::types::TokenKind;
use vstd::prelude::*;

verus! {

/// Whether the expression at `st` is compiled faithfully: no block in it is
/// empty, no call in it has more than 255 arguments, and no conditional in
/// it ends beyond what a jump can reach. Only then does every operand in the
/// code say what it stands for.
pub open spec fn faithful(src: Source, st: Emit, depth: int) -> bool
    decreases src.tokens.len() - st.pos, 0int,
{
    if !(0 <= st.pos < src.tokens.len()) {
        true
    } else {
        match src.tokens[st.pos].0 {
            TokenKind::LParen => faithful_call(src, st.step(), depth),
            TokenKind::LBrace => faithful_block(src, st.step(), depth + 1, true),
            TokenKind::If => faithful_conditional(src, st.step(), depth),
            _ => true,
        }
    }
}

/// Whether the call at `st`, after its `(`, is compiled faithfully.
pub open spec fn faithful_call(src: Source, st: Emit, depth: int) -> bool
    decreases src.tokens.len() - st.pos, 1int,
{
    match primary(src, st, depth) {
        Ok(callee) => faithful(src, st, depth) && (advanced(src, st, callee)
            ==> faithful_arguments(src, callee, depth, 0)),
        Err(_) => true,
    }
}

/// Whether the arguments of a call from `st` on are compiled faithfully,
/// `count` of them being compiled already.
pub open spec fn faithful_arguments(src: Source, st: Emit, depth: int, count: int) -> bool
    decreases src.tokens.len() - st.pos, 1int,
{
    if !(0 <= st.pos < src.tokens.len()) {
        true
    } else if src.tokens[st.pos].0 == TokenKind::RParen {
        count <= 255
    } else {
        match primary(src, st, depth) {
            Ok(arg) => faithful(src, st, depth) && (advanced(src, st, arg)
                ==> faithful_arguments(src, arg.emit(seq![ops::SWAP]), depth, count + 1)),
            Err(_) => true,
        }
    }
}

/// Whether the conditional at `st`, after its `if`, is compiled faithfully.
pub open spec fn faithful_conditional(src: Source, st: Emit, depth: int) -> bool
    decreases src.tokens.len() - st.pos, 1int,
{
    match primary(src, st, depth) {
        Ok(cond) => faithful(src, st, depth) && (advanced(src, st, cond) ==> {
            let jump = cond.emit(seq![ops::JUMP] + ops::be_bytes(0));
            match primary(src, jump, depth) {
                Ok(then) => faithful(src, jump, depth) && (advanced(src, cond, then)
                    && src.is_at(then.pos, TokenKind::Else) ==> {
                    let skip = then.step().emit(
                        seq![ops::LIT_INT] + ops::be_bytes(0) + seq![ops::JUMP] + ops::be_bytes(
                            0,
                        ),
                    );
                    match primary(src, skip, depth) {
                        Ok(other) => faithful(src, skip, depth) && other.bin.len()
                            < 0x1_0000_0000,
                        Err(_) => true,
                    }
                }),
                Err(_) => true,
            }
        }),
        Err(_) => true,
    }
}

/// Whether the statement at `st` is compiled faithfully.
pub open spec fn faithful_statement(src: Source, st: Emit, depth: int) -> bool
    decreases src.tokens.len() - st.pos, 1int,
{
    if (src.is_at(st.pos, TokenKind::Let) || src.is_at(st.pos, TokenKind::Assign)) {
        src.is_at(st.pos + 1, TokenKind::Ident) ==> faithful(src, st.step().step(), depth)
    } else {
        faithful(src, st, depth)
    }
}

/// Whether the statements of a block from `st` on are compiled faithfully;
/// `first` says that none of the block is compiled yet.
pub open spec fn faithful_block(src: Source, st: Emit, depth: int, first: bool) -> bool
    decreases src.tokens.len() - st.pos, 2int,
{
    if !(0 <= st.pos < src.tokens.len()) {
        true
    } else if src.tokens[st.pos].0 == TokenKind::RBrace {
        !first
    } else {
        match statement(src, st, depth) {
            Ok(done) => faithful_statement(src, st, depth) && (advanced(src, st, done)
                ==> faithful_block(src, done, depth, false)),
            Err(_) => true,
        }
    }
}

/// Where code that runs to `pc` is followed by an instruction that is no
/// `JUMP`, it runs to the instruction after.
pub proof fn lemma_runs_on(bin: Seq<u8>, lo: int, d0: int, pc: int, d1: int, d2: int)
    requires
        0 <= lo,
        runs(bin, lo, lo, d0, pc, d1),
        pc < bin.len(),
        bin[pc] != ops::JUMP,
        flow(bin, Shape { pc, depth: d1, zero: false }).is_some(),
        flow(bin, Shape { pc, depth: d1, zero: false }).unwrap().2 == d2,
    ensures
        runs(bin, lo, lo, d0, pc + width(bin[pc]), d2),
{
    lemma_runs_ordered(bin, lo, lo, d0, pc, d1);
    lemma_runs_one(bin, lo, pc, d1, d2);
    lemma_runs_then(bin, lo, lo, d0, pc, d1, pc + width(bin[pc]), d2);
}

/// Where code that runs to its end is followed by more code, which leaves
/// it as it is and runs from there to its own end, the whole runs to that
/// end.
pub proof fn lemma_runs_on_code(
    first: Seq<u8>,
    bin: Seq<u8>,
    lo: int,
    d0: int,
    d1: int,
    d2: int,
)
    requires
        0 <= lo,
        runs(first, lo, lo, d0, first.len() as int, d1),
        first.len() <= bin.len(),
        bin.subrange(0, first.len() as int) == first,
        runs(bin, first.len() as int, first.len() as int, d1, bin.len() as int, d2),
    ensures
        runs(bin, lo, lo, d0, bin.len() as int, d2),
{
    lemma_runs_ordered(first, lo, lo, d0, first.len() as int, d1);
    lemma_prefix_agrees(first, bin, lo);
    lemma_runs_frame(first, bin, lo, lo, d0, first.len() as int, d1);
    lemma_runs_widen(bin, first.len() as int, lo, first.len() as int, d1, bin.len() as int, d2);
    lemma_runs_then(bin, lo, lo, d0, first.len() as int, d1, bin.len() as int, d2);
}

/// A bound name has a slot among the bindings.
pub proof fn lemma_resolve_bounds(env: Seq<(Seq<char>, int)>, name: Seq<char>)
    requires
        resolve(env, name).is_some(),
    ensures
        0 <= resolve(env, name).unwrap() < env.len(),
    decreases env.len(),
{
    if env.len() > 0 && env.last().0 != name {
        lemma_resolve_bounds(env.drop_last(), name);
    }
}

/// The bytes of a patched piece of code.
pub proof fn lemma_patched(bin: Seq<u8>, at: int, w: Seq<u8>)
    requires
        0 <= at,
        at + 4 <= bin.len(),
        w.len() == 4,
    ensures
        ops::patched(bin, at, w).len() == bin.len(),
        ops::patched(bin, at, w).subrange(at, at + 4) == w,
        forall|i: int|
            0 <= i < bin.len() && !(at <= i < at + 4) ==> ops::patched(bin, at, w)[i] == bin[i],
{
    assert(ops::patched(bin, at, w).subrange(at, at + 4) =~= w);
}


/// Names bound at `depth` on top of names bound less deep are bound no
/// deeper than `depth`.
pub proof fn lemma_extends_scoped(
    env: Seq<(Seq<char>, int)>,
    base: Seq<(Seq<char>, int)>,
    depth: int,
)
    requires
        scoped(base, depth - 1),
        extends(env, base, depth),
    ensures
        scoped(env, depth),
{
    assert forall|i: int| 0 <= i < env.len() implies (#[trigger] env[i]).1 <= depth by {
        if i < base.len() {
            assert(env.subrange(0, base.len() as int)[i] == base[i]);
        }
    }
}

/// The code of an expression runs from a stack that holds the bindings to
/// that stack with one value more: the expression's value. It is written
/// behind the code that was there, which it leaves as it is, and it is not
/// empty.
pub proof fn lemma_expression_runs(src: Source, st: Emit, depth: int, d: int)
    requires
        primary(src, st, depth).is_ok(),
        faithful(src, st, depth),
        scoped(st.env, depth),
        st.env.len() <= d,
    ensures
        st.bin.len() < primary(src, st, depth).unwrap().bin.len(),
        primary(src, st, depth).unwrap().bin.subrange(0, st.bin.len() as int) == st.bin,
        runs(
            primary(src, st, depth).unwrap().bin,
            st.bin.len() as int,
            st.bin.len() as int,
            d,
            primary(src, st, depth).unwrap().bin.len() as int,
            d + 1,
        ),
    decreases src.tokens.len() - st.pos, 0int,
{
    let e = primary(src, st, depth).unwrap();
    let a = st.bin.len() as int;
    lemma_primary_compound(src, st, depth);
    match src.tokens[st.pos].0 {
        TokenKind::LParen => {
            lemma_call_runs(src, st.step(), depth, d);
        },
        TokenKind::LBrace => {
            assert(st.env.subrange(0, st.env.len() as int) =~= st.env);
            lemma_block_runs(src, st.step(), depth + 1, true, a, d, st.env);
            assert(st.bin.subrange(0, a) =~= st.bin);
        },
        TokenKind::If => {
            lemma_conditional_runs(src, st.step(), depth, d);
        },
        TokenKind::Nothing => {
            assert(e.bin.subrange(0, a) =~= st.bin);
            lemma_runs_none(e.bin, a, a, d);
            lemma_runs_on(e.bin, a, d, a, d, d + 1);
        },
        TokenKind::Int => {
            assert(e.bin.subrange(0, a) =~= st.bin);
            lemma_runs_none(e.bin, a, a, d);
            lemma_runs_on(e.bin, a, d, a, d, d + 1);
        },
        TokenKind::Flt => {
            assert(e.bin.subrange(0, a) =~= st.bin);
            lemma_runs_none(e.bin, a, a, d);
            lemma_runs_on(e.bin, a, d, a, d, d + 1);
        },
        TokenKind::Ident => {
            lemma_resolve_bounds(st.env, src.tokens[st.pos].1);
            assert(e.bin.subrange(0, a) =~= st.bin);
            lemma_runs_none(e.bin, a, a, d);
            lemma_runs_on(e.bin, a, d, a, d, d + 1);
        },
        _ => {},
    }
}

/// The code of a call runs as that of any expression.
pub proof fn lemma_call_runs(src: Source, st: Emit, depth: int, d: int)
    requires
        list(src, st, depth).is_ok(),
        faithful_call(src, st, depth),
        scoped(st.env, depth),
        st.env.len() <= d,
    ensures
        st.bin.len() < list(src, st, depth).unwrap().bin.len(),
        list(src, st, depth).unwrap().bin.subrange(0, st.bin.len() as int) == st.bin,
        runs(
            list(src, st, depth).unwrap().bin,
            st.bin.len() as int,
            st.bin.len() as int,
            d,
            list(src, st, depth).unwrap().bin.len() as int,
            d + 1,
        ),
    decreases src.tokens.len() - st.pos, 1int,
{
    reveal(list);
    reveal(list_args);
    let callee = primary(src, st, depth).unwrap();
    lemma_expression_runs(src, st, depth, d);
    lemma_expression_advances(src, st, depth);
    lemma_expression_keeps_bindings(src, st, depth);
    lemma_arguments_run(src, callee, depth, 0, st.bin.len() as int, d);
    lemma_prefix_of_prefix(st.bin, callee.bin, list(src, st, depth).unwrap().bin);
}

/// The arguments of a call, with its `CALL`, run on from the callee and the
/// `count` arguments before them to the result of the call.
pub proof fn lemma_arguments_run(src: Source, st: Emit, depth: int, count: int, a: int, d: int)
    requires
        list_args(src, st, depth, count).is_ok(),
        faithful_arguments(src, st, depth, count),
        scoped(st.env, depth),
        st.env.len() <= d,
        0 <= count,
        0 <= a < st.bin.len(),
        runs(st.bin, a, a, d, st.bin.len() as int, d + 1 + count),
    ensures
        st.bin.len() < list_args(src, st, depth, count).unwrap().bin.len(),
        list_args(src, st, depth, count).unwrap().bin.subrange(0, st.bin.len() as int)
            == st.bin,
        runs(
            list_args(src, st, depth, count).unwrap().bin,
            a,
            a,
            d,
            list_args(src, st, depth, count).unwrap().bin.len() as int,
            d + 1,
        ),
    decreases src.tokens.len() - st.pos, 1int,
{
    reveal(list_args);
    let e = list_args(src, st, depth, count).unwrap();
    let len = st.bin.len() as int;
    if src.tokens[st.pos].0 == TokenKind::RParen {
        assert(e.bin.subrange(0, len) =~= st.bin);
        lemma_prefix_agrees(st.bin, e.bin, a);
        lemma_runs_frame(st.bin, e.bin, a, a, d, len, d + 1 + count);
        assert(e.bin[len] == ops::CALL);
        assert(e.bin[len + 1] == count);
        lemma_runs_on(e.bin, a, d, len, d + 1 + count, d + 1);
    } else {
        let arg = primary(src, st, depth).unwrap();
        lemma_expression_runs(src, st, depth, d + 1 + count);
        lemma_expression_advances(src, st, depth);
        lemma_expression_keeps_bindings(src, st, depth);
        lemma_runs_on_code(st.bin, arg.bin, a, d, d + 1 + count, d + 2 + count);
        let next = arg.emit(seq![ops::SWAP]);
        assert(next.bin.subrange(0, arg.bin.len() as int) =~= arg.bin);
        lemma_prefix_agrees(arg.bin, next.bin, a);
        lemma_runs_frame(arg.bin, next.bin, a, a, d, arg.bin.len() as int, d + 2 + count);
        assert(next.bin[arg.bin.len() as int] == ops::SWAP);
        lemma_runs_on(next.bin, a, d, arg.bin.len() as int, d + 2 + count, d + 2 + count);
        lemma_arguments_run(src, next, depth, count + 1, a, d);
        lemma_prefix_of_prefix(st.bin, arg.bin, next.bin);
        lemma_prefix_of_prefix(st.bin, next.bin, e.bin);
    }
}

/// The code of a statement, but for the `POP` at its end, runs from a stack
/// that holds the bindings to a stack that holds the bindings after it and
/// one value more: the statement's value.
pub proof fn lemma_statement_runs(src: Source, st: Emit, depth: int, d: int)
    requires
        statement(src, st, depth).is_ok(),
        faithful_statement(src, st, depth),
        scoped(st.env, depth),
        st.env.len() <= d,
    ensures
        st.bin.len() + 1 < statement(src, st, depth).unwrap().bin.len(),
        statement(src, st, depth).unwrap().bin.subrange(0, st.bin.len() as int) == st.bin,
        statement(src, st, depth).unwrap().bin.last() == ops::POP,
        runs(
            statement(src, st, depth).unwrap().bin,
            st.bin.len() as int,
            st.bin.len() as int,
            d,
            statement(src, st, depth).unwrap().bin.len() - 1,
            d + 1 + (statement(src, st, depth).unwrap().env.len() - st.env.len()),
        ),
    decreases src.tokens.len() - st.pos, 1int,
{
    reveal(statement);
    let s = statement(src, st, depth).unwrap();
    let a = st.bin.len() as int;
    let from = if src.is_at(st.pos, TokenKind::Let) || src.is_at(st.pos, TokenKind::Assign) {
        st.step().step()
    } else {
        st
    };
    let value = primary(src, from, depth).unwrap();
    let v = value.bin.len() as int;
    lemma_expression_runs(src, from, depth, d);
    lemma_expression_keeps_bindings(src, from, depth);
    assert(s.bin.subrange(0, v) =~= value.bin);
    lemma_prefix_of_prefix(st.bin, value.bin, s.bin);
    lemma_prefix_agrees(value.bin, s.bin, a);
    lemma_runs_frame(value.bin, s.bin, a, a, d, v, d + 1);
    if src.is_at(st.pos, TokenKind::Let) {
        assert(s.bin[v] == ops::LIT_NONE);
        lemma_runs_on(s.bin, a, d, v, d + 1, d + 2);
    } else if src.is_at(st.pos, TokenKind::Assign) {
        lemma_resolve_bounds(value.env, src.tokens[st.pos + 1].1);
        assert(s.bin[v] == ops::SET);
        assert(s.bin[v + 1] == slot_byte(resolve(value.env, src.tokens[st.pos + 1].1).unwrap()));
        lemma_runs_on(s.bin, a, d, v, d + 1, d);
        assert(s.bin[v + 2] == ops::LIT_NONE);
        lemma_runs_on(s.bin, a, d, v + 2, d, d + 1);
    } else {
    }
}

/// A statement keeps the stack in step with the bindings: its code, with
/// the `POP` at its end, run from a stack that is as long as the bindings
/// are many, leaves a stack that is as long as the bindings after it.
pub proof fn lemma_statement_keeps_step(src: Source, st: Emit, depth: int)
    requires
        statement(src, st, depth).is_ok(),
        faithful_statement(src, st, depth),
        scoped(st.env, depth),
    ensures
        runs(
            statement(src, st, depth).unwrap().bin,
            st.bin.len() as int,
            st.bin.len() as int,
            st.env.len() as int,
            statement(src, st, depth).unwrap().bin.len() as int,
            statement(src, st, depth).unwrap().env.len() as int,
        ),
{
    let s = statement(src, st, depth).unwrap();
    let d = st.env.len() as int;
    lemma_statement_runs(src, st, depth, d);
    lemma_runs_on(
        s.bin,
        st.bin.len() as int,
        d,
        s.bin.len() - 1,
        d + 1 + (s.env.len() - st.env.len()),
        s.env.len() as int,
    );
}

/// The code that unwinds the names of a block runs from the stack with
/// those names and the block's value to the stack without them.
pub proof fn lemma_unwound_runs(
    st: Emit,
    depth: int,
    a: int,
    d: int,
    base: Seq<(Seq<char>, int)>,
)
    requires
        scoped(base, depth),
        extends(st.env, base, depth + 1),
        0 <= d,
        0 <= a < st.bin.len(),
        runs(st.bin, a, a, d, st.bin.len() as int, d + 1 + (st.env.len() - base.len())),
    ensures
        a < unwound(st, depth).bin.len(),
        unwound(st, depth).bin.subrange(0, a) == st.bin.subrange(0, a),
        runs(unwound(st, depth).bin, a, a, d, unwound(st, depth).bin.len() as int, d + 1),
    decreases st.env.len(),
{
    let len = st.bin.len() as int;
    let k = st.env.len() - base.len();
    if st.env.len() > 0 && st.env.last().1 > depth {
        if st.env.len() == base.len() {
            assert(st.env =~= base);
            assert(base[base.len() - 1].1 <= depth);
        }
        let next = Emit {
            env: st.env.drop_last(),
            bin: st.bin + seq![ops::SWAP, ops::POP],
            ..st
        };
        assert(next.env.subrange(0, base.len() as int) =~= st.env.subrange(
            0,
            base.len() as int,
        ));
        assert(next.bin.subrange(0, len) =~= st.bin);
        lemma_prefix_agrees(st.bin, next.bin, a);
        lemma_runs_frame(st.bin, next.bin, a, a, d, len, d + 1 + k);
        assert(next.bin[len] == ops::SWAP);
        lemma_runs_on(next.bin, a, d, len, d + 1 + k, d + 1 + k);
        assert(next.bin[len + 1] == ops::POP);
        lemma_runs_on(next.bin, a, d, len + 1, d + 1 + k, d + k);
        lemma_unwound_runs(next, depth, a, d, base);
        assert(next.bin.subrange(0, a) =~= st.bin.subrange(0, a));
    } else {
        if st.env.len() > base.len() {
            assert(st.env[st.env.len() - 1].1 == depth + 1);
        }
    }
}

/// The code of a block runs as that of any expression. Of a block that is
/// under way this holds of what is written of it and what is still to come,
/// taken together.
pub proof fn lemma_block_runs(
    src: Source,
    st: Emit,
    depth: int,
    first: bool,
    a: int,
    d: int,
    base: Seq<(Seq<char>, int)>,
)
    requires
        block_items(src, st, depth).is_ok(),
        faithful_block(src, st, depth, first),
        scoped(base, depth - 1),
        extends(st.env, base, depth),
        base.len() <= d,
        0 <= a,
        first ==> st.bin.len() == a && st.env == base,
        !first ==> a + 1 < st.bin.len() && st.bin.last() == ops::POP && runs(
            st.bin,
            a,
            a,
            d,
            st.bin.len() - 1,
            d + 1 + (st.env.len() - base.len()),
        ),
    ensures
        a < block_items(src, st, depth).unwrap().bin.len(),
        block_items(src, st, depth).unwrap().bin.subrange(0, a) == st.bin.subrange(0, a),
        runs(
            block_items(src, st, depth).unwrap().bin,
            a,
            a,
            d,
            block_items(src, st, depth).unwrap().bin.len() as int,
            d + 1,
        ),
    decreases src.tokens.len() - st.pos, 2int,
{
    reveal(block_items);
    reveal(statement);
    let e = block_items(src, st, depth).unwrap();
    let len = st.bin.len() as int;
    let k = st.env.len() - base.len();
    if src.tokens[st.pos].0 == TokenKind::RBrace {
        let closing = Emit { bin: retracted(st.bin), ..st.step() };
        lemma_agree_drop_last(st.bin, a);
        lemma_runs_frame(st.bin, closing.bin, a, a, d, len - 1, d + 1 + k);
        lemma_unwound_runs(closing, depth - 1, a, d, base);
        assert(closing.bin.subrange(0, a) =~= st.bin.subrange(0, a));
    } else {
        let done = statement(src, st, depth).unwrap();
        let m = done.bin.len() as int;
        lemma_extends_scoped(st.env, base, depth);
        lemma_statement_runs(src, st, depth, d + k);
        lemma_statement_advances(src, st, depth);
        lemma_statement_extends_bindings(src, st, depth, base);
        let x = done.env.len() - st.env.len();
        if !first {
            lemma_prefix_agrees(st.bin, done.bin, a);
            lemma_agree_inside(st.bin, done.bin, a, len, a, len - 1);
            lemma_runs_frame(st.bin, done.bin, a, a, d, len - 1, d + 1 + k);
            assert(done.bin.subrange(0, len)[len - 1] == done.bin[len - 1]);
            assert(done.bin[len - 1] == ops::POP);
            lemma_runs_on(done.bin, a, d, len - 1, d + 1 + k, d + k);
            lemma_runs_widen(done.bin, len, a, len, d + k, m - 1, d + k + 1 + x);
            lemma_runs_then(done.bin, a, a, d, len, d + k, m - 1, d + k + 1 + x);
        }
        lemma_block_runs(src, done, depth, false, a, d, base);
        assert(done.bin.subrange(0, a) =~= st.bin.subrange(0, a)) by {
            assert forall|i: int| 0 <= i < a implies done.bin[i] == st.bin[i] by {
                assert(done.bin.subrange(0, len)[i] == done.bin[i]);
            }
        }
    }
}


/// The code of a conditional once its jumps are patched: the three
/// expressions stand where they were written, the first jump stands behind
/// the condition with the start of the second branch as its target, and a
/// zero and the second jump stand behind the first branch with the end as
/// its target.
pub proof fn lemma_patch_layout(
    cond: Seq<u8>,
    then: Seq<u8>,
    other: Seq<u8>,
    to_else: u32,
    to_end: u32,
)
    requires
        cond.len() + 5 <= then.len(),
        then.len() + 10 <= other.len(),
        then.subrange(0, cond.len() as int + 5) == cond + (seq![ops::JUMP] + ops::be_bytes(0)),
        other.subrange(0, then.len() as int + 10) == then + (seq![ops::LIT_INT] + ops::be_bytes(0)
            + seq![ops::JUMP] + ops::be_bytes(0)),
    ensures
        ({
            let c = cond.len() as int;
            let t = then.len() as int;
            let b = other.len() as int;
            let e = ops::patched(
                ops::patched(other, c + 1, ops::be_bytes(to_else)),
                t + 6,
                ops::be_bytes(to_end),
            );
            &&& e.len() == b
            &&& agree(cond, e, 0, c)
            &&& agree(then, e, c + 5, t)
            &&& agree(other, e, t + 10, b)
            &&& e[c] == ops::JUMP
            &&& ops::be_word(e.subrange(c + 1, c + 5)) == to_else
            &&& e[t] == ops::LIT_INT
            &&& ops::be_word(e.subrange(t + 1, t + 5)) == 0
            &&& e[t + 5] == ops::JUMP
            &&& ops::be_word(e.subrange(t + 6, t + 10)) == to_end
        }),
{
    let c = cond.len() as int;
    let t = then.len() as int;
    let b = other.len() as int;
    let once = ops::patched(other, c + 1, ops::be_bytes(to_else));
    let e = ops::patched(once, t + 6, ops::be_bytes(to_end));
    lemma_patched(other, c + 1, ops::be_bytes(to_else));
    lemma_patched(once, t + 6, ops::be_bytes(to_end));
    ops::lemma_word_round_trip(to_else);
    ops::lemma_word_round_trip(to_end);
    ops::lemma_word_round_trip(0);
    let skip = seq![ops::LIT_INT] + ops::be_bytes(0) + seq![ops::JUMP] + ops::be_bytes(0);
    let jump = seq![ops::JUMP] + ops::be_bytes(0);
    assert forall|i: int| 0 <= i < t + 10 implies other[i] == (then + skip)[i] by {
        assert(other.subrange(0, t + 10)[i] == other[i]);
    }
    assert forall|i: int| 0 <= i < c + 5 implies then[i] == (cond + jump)[i] by {
        assert(then.subrange(0, c + 5)[i] == then[i]);
    }
    assert forall|i: int| 0 <= i < c implies e[i] == cond[i] by {
        assert(other[i] == (then + skip)[i]);
        assert(then[i] == (cond + jump)[i]);
    }
    assert(agree(cond, e, 0, c) && agree(then, e, c + 5, t) && agree(other, e, t + 10, b)) by {
        reveal(agree);
        assert forall|i: int| c + 5 <= i < t implies then[i] == e[i] by {
            assert(other[i] == (then + skip)[i]);
        }
    }
    assert(e[c] == ops::JUMP) by {
        assert(other[c] == (then + skip)[c]);
        assert(then[c] == (cond + jump)[c]);
    }
    assert(e.subrange(c + 1, c + 5) =~= ops::be_bytes(to_else)) by {
        assert forall|i: int| 0 <= i < 4 implies #[trigger] e.subrange(c + 1, c + 5)[i]
            == ops::be_bytes(to_else)[i] by {
            assert(e[c + 1 + i] == once[c + 1 + i]);
            assert(once.subrange(c + 1, c + 5)[i] == once[c + 1 + i]);
        }
    }
    assert(e[t] == ops::LIT_INT) by {
        assert(other[t] == (then + skip)[t]);
    }
    assert(e[t + 5] == ops::JUMP) by {
        assert(other[t + 5] == (then + skip)[t + 5]);
    }
    assert(e.subrange(t + 1, t + 5) =~= ops::be_bytes(0)) by {
        assert forall|i: int| 0 <= i < 4 implies #[trigger] e.subrange(t + 1, t + 5)[i]
            == ops::be_bytes(0)[i] by {
            assert(other[t + 1 + i] == (then + skip)[t + 1 + i]);
        }
    }
}

/// A condition, a jump to the second branch, the first branch, a zero and a
/// jump to the end, and the second branch: however the first jump goes, the
/// run comes to the end with the one value of the branch it took.
pub proof fn lemma_branches_run(e: Seq<u8>, a: int, c: int, t: int, b: int, d: int)
    requires
        0 <= a <= c,
        c + 5 <= t,
        t + 10 <= b,
        b == e.len(),
        0 <= d,
        runs(e, a, a, d, c, d + 1),
        runs(e, a, c + 5, d, t, d + 1),
        runs(e, a, t + 10, d, b, d + 1),
        e[c] == ops::JUMP,
        ops::be_word(e.subrange(c + 1, c + 5)) == t + 10,
        e[t] == ops::LIT_INT,
        ops::be_word(e.subrange(t + 1, t + 5)) == 0,
        e[t + 5] == ops::JUMP,
        ops::be_word(e.subrange(t + 6, t + 10)) == b,
    ensures
        runs(e, a, a, d, b, d + 1),
{
    reveal(runs);
    assert(runs(e, a, t, d + 1, b, d + 1)) by {
        reveal_with_fuel(lands, 3);
        let yes = Shape { pc: t, depth: d + 1, zero: true };
        let no = Shape { pc: t, depth: d + 1, zero: false };
        assert(lands(e, a, yes, b, 2) == Some(d + 1));
        assert(lands(e, a, no, b, 2) == Some(d + 1));
        lemma_lands_more_fuel(e, a, yes, b, 2, (b - t) as nat);
        lemma_lands_more_fuel(e, a, no, b, 2, (b - t) as nat);
    }
    lemma_runs_then(e, a, c + 5, d, t, d + 1, b, d + 1);
    assert(runs(e, a, c, d + 1, b, d + 1)) by {
        let first = Shape { pc: c + 5, depth: d, zero: false };
        let second = Shape { pc: t + 10, depth: d, zero: false };
        lemma_lands_more_fuel(e, a, first, b, (b - (c + 5)) as nat, (b - c - 1) as nat);
        lemma_lands_more_fuel(e, a, second, b, (b - (t + 10)) as nat, (b - c - 1) as nat);
    }
    lemma_runs_then(e, a, a, d, c, d + 1, b, d + 1);
}

/// The state after the condition of the conditional at `st`, with the first
/// jump written.
pub open spec fn after_condition(src: Source, st: Emit, depth: int) -> Emit {
    primary(src, st, depth).unwrap().emit(seq![ops::JUMP] + ops::be_bytes(0))
}

/// The state after the first branch of the conditional at `st`, with the
/// zero and the second jump written and `else` read.
pub open spec fn after_then(src: Source, st: Emit, depth: int) -> Emit {
    primary(src, after_condition(src, st, depth), depth).unwrap().step().emit(
        seq![ops::LIT_INT] + ops::be_bytes(0) + seq![ops::JUMP] + ops::be_bytes(0),
    )
}

/// A conditional that compiles is made of three expressions that compile,
/// and its code is that of the last with the two targets patched in.
pub proof fn lemma_conditional_parts(src: Source, st: Emit, depth: int)
    requires
        conditional(src, st, depth).is_ok(),
        faithful_conditional(src, st, depth),
    ensures
        primary(src, st, depth).is_ok(),
        primary(src, after_condition(src, st, depth), depth).is_ok(),
        primary(src, after_then(src, st, depth), depth).is_ok(),
        faithful(src, st, depth),
        faithful(src, after_condition(src, st, depth), depth),
        faithful(src, after_then(src, st, depth), depth),
        primary(src, after_then(src, st, depth), depth).unwrap().bin.len() < 0x1_0000_0000,
        after_condition(src, st, depth).env == primary(src, st, depth).unwrap().env,
        after_condition(src, st, depth).bin == primary(src, st, depth).unwrap().bin + (
        seq![ops::JUMP] + ops::be_bytes(0)),
        after_then(src, st, depth).env == primary(
            src,
            after_condition(src, st, depth),
            depth,
        ).unwrap().env,
        after_then(src, st, depth).bin == primary(
            src,
            after_condition(src, st, depth),
            depth,
        ).unwrap().bin + (seq![ops::LIT_INT] + ops::be_bytes(0) + seq![ops::JUMP]
            + ops::be_bytes(0)),
        src.tokens.len() - after_condition(src, st, depth).pos < src.tokens.len() - st.pos,
        src.tokens.len() - after_then(src, st, depth).pos < src.tokens.len() - st.pos,
        0 <= src.tokens.len() - after_then(src, st, depth).pos,
        conditional(src, st, depth).unwrap().bin == ops::patched(
            ops::patched(
                primary(src, after_then(src, st, depth), depth).unwrap().bin,
                primary(src, st, depth).unwrap().bin.len() as int + 1,
                ops::be_bytes(
                    jump_target(
                        primary(
                            src,
                            after_condition(src, st, depth),
                            depth,
                        ).unwrap().bin.len() as int + 10,
                    ),
                ),
            ),
            primary(src, after_condition(src, st, depth), depth).unwrap().bin.len() as int + 6,
            ops::be_bytes(
                jump_target(
                    primary(src, after_then(src, st, depth), depth).unwrap().bin.len() as int,
                ),
            ),
        ),
{
    reveal(conditional);
    lemma_expression_advances(src, st, depth);
    lemma_expression_advances(src, after_condition(src, st, depth), depth);
}

/// The code of a conditional runs as that of any expression: whichever
/// branch is taken, the run comes to the one end behind both with the one
/// value of that branch on top.
pub proof fn lemma_conditional_runs(src: Source, st: Emit, depth: int, d: int)
    requires
        conditional(src, st, depth).is_ok(),
        faithful_conditional(src, st, depth),
        scoped(st.env, depth),
        st.env.len() <= d,
    ensures
        st.bin.len() < conditional(src, st, depth).unwrap().bin.len(),
        conditional(src, st, depth).unwrap().bin.subrange(0, st.bin.len() as int) == st.bin,
        runs(
            conditional(src, st, depth).unwrap().bin,
            st.bin.len() as int,
            st.bin.len() as int,
            d,
            conditional(src, st, depth).unwrap().bin.len() as int,
            d + 1,
        ),
    decreases src.tokens.len() - st.pos, 1int,
{
    lemma_conditional_parts(src, st, depth);
    let a = st.bin.len() as int;
    let jump = after_condition(src, st, depth);
    let skip = after_then(src, st, depth);
    let cond = primary(src, st, depth).unwrap().bin;
    let then = primary(src, jump, depth).unwrap().bin;
    let other = primary(src, skip, depth).unwrap().bin;
    let c = cond.len() as int;
    let t = then.len() as int;
    let b = other.len() as int;
    lemma_expression_runs(src, st, depth, d);
    lemma_expression_keeps_bindings(src, st, depth);
    lemma_expression_runs(src, jump, depth, d);
    lemma_expression_keeps_bindings(src, jump, depth);
    lemma_expression_runs(src, skip, depth, d);
    let e = conditional(src, st, depth).unwrap().bin;
    lemma_patch_layout(cond, then, other, jump_target(t + 10), jump_target(b));
    lemma_agree_prefix(st.bin, cond, e, c);
    lemma_agree_inside(cond, e, 0, c, a, c);
    lemma_runs_frame(cond, e, a, a, d, c, d + 1);
    lemma_runs_frame(then, e, c + 5, c + 5, d, t, d + 1);
    lemma_runs_widen(e, c + 5, a, c + 5, d, t, d + 1);
    lemma_runs_frame(other, e, t + 10, t + 10, d, b, d + 1);
    lemma_runs_widen(e, t + 10, a, t + 10, d, b, d + 1);
    lemma_branches_run(e, a, c, t, b, d);
}

/// The stack of the machine keeps step with the compiler's bindings: where
/// a program compiles, and compiles faithfully, its code run from a stack
/// that holds the library's functions, one for each bound name, comes to its
/// end with one value more, the program's value, on every way through it
/// that does not trap.
pub proof fn lemma_program_balanced(src: Source, names: Seq<Seq<char>>)
    requires
        crate::compile::compiled(src, names).is_ok(),
        faithful(
            src,
            Emit { pos: 0, env: crate::compile::seeded(names), bin: Seq::empty() },
            0,
        ),
    ensures
        runs(
            crate::compile::compiled(src, names).unwrap(),
            0,
            0,
            names.len() as int,
            crate::compile::compiled(src, names).unwrap().len() as int,
            names.len() as int + 1,
        ),
{
    let st = Emit { pos: 0, env: crate::compile::seeded(names), bin: Seq::empty() };
    lemma_expression_runs(src, st, 0, names.len() as int);
}


/// A program that compiles faithfully, run on the machine as it is seeded
/// for the library that the program was compiled for, comes to the end of
/// its code with one value more than the library's functions on the stack:
/// the program's value. This holds whatever the native functions pull and
/// return; the run stops short of the end only in a trap.
pub proof fn lemma_program_runs_balanced(
    src: Source,
    names: Seq<Seq<char>>,
    natives: int,
    calls: spec_fn(nat) -> (nat, ValueView),
)
    requires
        crate::compile::compiled(src, names).is_ok(),
        faithful(
            src,
            Emit { pos: 0, env: crate::compile::seeded(names), bin: Seq::empty() },
            0,
        ),
    ensures
        ({
            let bin = crate::compile::compiled(src, names).unwrap();
            let start = Machine {
                pc: 0,
                stack: crate::interpret::seeded_stack(names.len() as int),
                call: None,
            };
            match run_to(bin, natives, start, bin.len() as int, bin.len(), calls, 0) {
                Outcome::Reached(last) => last.stack.len() == names.len() + 1,
                Outcome::Trapped(at) => crate::interpret::step(bin, natives, at).is_none(),
                Outcome::Stuck => false,
            }
        }),
{
    let bin = crate::compile::compiled(src, names).unwrap();
    let start = Machine {
        pc: 0,
        stack: crate::interpret::seeded_stack(names.len() as int),
        call: None,
    };
    lemma_program_balanced(src, names);
    reveal(runs);
    lemma_machine_lands(
        bin,
        natives,
        0,
        start,
        Shape { pc: 0, depth: names.len() as int, zero: false },
        bin.len() as int,
        bin.len(),
        calls,
        0,
        names.len() as int + 1,
    );
}

} // verus!
