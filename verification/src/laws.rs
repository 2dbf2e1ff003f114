//! What holds of the compiler and the machine together.

use crate::compile::ops;
use crate::compile::{
    advanced, block_items, conditional, lemma_primary_compound, list, list_args, primary,
    seeded, statement, unwound, Emit, Source,
};
use crate::interpret::{
    native_index, operand_word, pulled, pulled_n, returned, seeded_stack, step, Machine,
};
use crate::types::{TokenKind, ValueView};
use vstd::prelude::*;

verus! {

/// The compiler and the machine seed alike: for a library of `n` names the
/// compiler binds name `i` to slot `i`, at depth 0, and the machine starts
/// with `n` values on its stack, of which value `i` is the reference to
/// native function `i`; the reference holds `i` itself wherever 32 bits hold
/// it.
pub proof fn lemma_seeding_agrees(names: Seq<Seq<char>>)
    ensures
        seeded(names).len() == names.len(),
        seeded_stack(names.len() as int).len() == names.len(),
        forall|i: int|
            0 <= i < names.len() ==> (#[trigger] seeded(names)[i]) == (names[i], 0int),
        forall|i: int|
            0 <= i < names.len() ==> (#[trigger] seeded_stack(names.len() as int)[i])
                == ValueView::NativeFn(native_index(i)),
        forall|i: int| 0 <= i <= u32::MAX ==> #[trigger] native_index(i) == i,
{
}

/// A pull takes nothing from below the arguments on offer, and leaves the
/// call in order.
pub proof fn lemma_pull_keeps_rest(m: Machine, natives: int)
    requires
        m.wf(natives),
    ensures
        pulled(m).wf(natives),
        pulled(m).call.is_some() == m.call.is_some(),
        pulled(m).pc == m.pc,
        pulled(m).stack.len() - pulled(m).offered() == m.stack.len() - m.offered(),
        pulled(m).stack.subrange(0, pulled(m).stack.len() - pulled(m).offered())
            == m.stack.subrange(0, m.stack.len() - m.offered()),
{
    assert(pulled(m).stack.subrange(0, pulled(m).stack.len() - pulled(m).offered())
        =~= m.stack.subrange(0, m.stack.len() - m.offered()));
}

/// A call leaves the stack balanced, however many of its arguments the
/// native function pulls: after `k` pulls and the return of `out`, the stack
/// is what lay below the arguments on offer, with `out` on top. The
/// arguments that were not pulled are gone with those that were.
pub proof fn lemma_call_balanced(m: Machine, natives: int, k: nat, out: ValueView)
    requires
        m.wf(natives),
    ensures
        returned(pulled_n(m, k), out).stack == m.stack.subrange(
            0,
            m.stack.len() - m.offered(),
        ).push(out),
        returned(pulled_n(m, k), out).stack.len() == m.stack.len() - m.offered() + 1,
        returned(pulled_n(m, k), out).call.is_none(),
        returned(pulled_n(m, k), out).pc == m.pc,
    decreases k,
{
    if k > 0 {
        lemma_pull_keeps_rest(m, natives);
        lemma_call_balanced(pulled(m), natives, (k - 1) as nat, out);
    }
}

/// A `CALL` with `argc` arguments on a stack of `n` values, run to its
/// return, leaves `n - argc` values: the callee and all its arguments are
/// gone, pulled or not, and the result is there.
pub proof fn lemma_call_step_balanced(
    bin: Seq<u8>,
    natives: int,
    m: Machine,
    k: nat,
    out: ValueView,
)
    requires
        0 <= m.pc < bin.len(),
        bin[m.pc] == ops::CALL,
        m.call.is_none(),
        step(bin, natives, m).is_some(),
    ensures
        m.pc + 2 <= bin.len(),
        returned(pulled_n(step(bin, natives, m).unwrap(), k), out).stack.len() == m.stack.len()
            - bin[m.pc + 1],
        returned(pulled_n(step(bin, natives, m).unwrap(), k), out).stack == m.stack.subrange(
            0,
            m.stack.len() - 1 - bin[m.pc + 1],
        ).push(out),
{
    let after = step(bin, natives, m).unwrap();
    lemma_call_balanced(after, natives, k, out);
    assert(after.stack.subrange(0, after.stack.len() - after.offered()) =~= m.stack.subrange(
        0,
        m.stack.len() - 1 - bin[m.pc + 1],
    ));
}

/// By how much the instruction with opcode `op` and first operand byte
/// `operand` moves the length of the stack, a call taken with its return.
pub open spec fn depth_change(op: u8, operand: u8) -> int {
    if op == ops::GET || op == ops::LIT_INT || op == ops::LIT_FLT || op == ops::LIT_NONE {
        1
    } else if op == ops::POP || op == ops::SET || op == ops::JUMP {
        -1
    } else if op == ops::CALL {
        -operand
    } else {
        0
    }
}

/// An instruction that does not trap moves the length of the stack by what
/// its opcode and operand fix, whatever the values on the stack are: this is
/// what lets the compiler count slots ahead of the run. For a `CALL` the
/// count is taken after `k` pulls and the return, for any `k`.
pub proof fn lemma_step_depth(bin: Seq<u8>, natives: int, m: Machine, k: nat, out: ValueView)
    requires
        0 <= m.pc < bin.len(),
        m.call.is_none(),
        step(bin, natives, m).is_some(),
    ensures
        bin[m.pc] != ops::CALL ==> step(bin, natives, m).unwrap().call.is_none() && step(
            bin,
            natives,
            m,
        ).unwrap().stack.len() == m.stack.len() + depth_change(bin[m.pc], 0),
        bin[m.pc] == ops::CALL ==> m.pc + 2 <= bin.len() && returned(
            pulled_n(step(bin, natives, m).unwrap(), k),
            out,
        ).stack.len() == m.stack.len() + depth_change(bin[m.pc], bin[m.pc + 1]),
{
    if bin[m.pc] == ops::CALL {
        lemma_call_step_balanced(bin, natives, m, k, out);
    }
}

/// A `JUMP` goes one of two ways and no other: on `Int(0)` to its target, on
/// any other `Int` to the instruction after it; on a condition that is no
/// `Int`, or on an empty stack, it traps. Either way that does not trap
/// takes the condition off the stack and nothing else.
pub proof fn lemma_jump_selects(bin: Seq<u8>, natives: int, m: Machine)
    requires
        0 <= m.pc < bin.len(),
        bin[m.pc] == ops::JUMP,
        m.pc + 5 <= bin.len(),
    ensures
        m.stack.len() > 0 && m.stack.last() == ValueView::Int(0) ==> step(bin, natives, m)
            == Some(m.with(operand_word(bin, m.pc).unwrap() as int, m.stack.drop_last())),
        forall|x: i32|
            x != 0 && m.stack.len() > 0 && m.stack.last() == ValueView::Int(x) ==> step(
                bin,
                natives,
                m,
            ) == Some(m.with(m.pc + 5, m.stack.drop_last())),
        m.stack.len() == 0 || !(m.stack.last() is Int) ==> step(bin, natives, m).is_none(),
{
}


/// Unwinding reads no token.
pub proof fn lemma_unwound_pos(st: Emit, depth: int)
    ensures
        unwound(st, depth).pos == st.pos,
    decreases st.env.len(),
{
    if st.env.len() > 0 && st.env.last().1 > depth {
        lemma_unwound_pos(
            Emit { env: st.env.drop_last(), bin: st.bin + seq![ops::SWAP, ops::POP], ..st },
            depth,
        );
    }
}

/// Every expression that compiles takes at least one token, and none beyond
/// the last.
pub proof fn lemma_expression_advances(src: Source, st: Emit, depth: int)
    requires
        primary(src, st, depth).is_ok(),
    ensures
        advanced(src, st, primary(src, st, depth).unwrap()),
    decreases src.tokens.len() - st.pos, 0int,
{
    lemma_primary_compound(src, st, depth);
    match src.tokens[st.pos].0 {
        TokenKind::LParen => {
            lemma_call_advances(src, st.step(), depth);
        },
        TokenKind::LBrace => {
            lemma_block_advances(src, st.step(), depth + 1);
        },
        TokenKind::If => {
            lemma_conditional_advances(src, st.step(), depth);
        },
        _ => {},
    }
}

/// A call that compiles takes at least its callee.
pub proof fn lemma_call_advances(src: Source, st: Emit, depth: int)
    requires
        list(src, st, depth).is_ok(),
    ensures
        advanced(src, st, list(src, st, depth).unwrap()),
    decreases src.tokens.len() - st.pos, 1int,
{
    reveal(list);
    reveal(list_args);
    lemma_expression_advances(src, st, depth);
    lemma_arguments_advance(src, primary(src, st, depth).unwrap(), depth, 0);
}

/// The arguments of a call that compiles take at least its `)`.
pub proof fn lemma_arguments_advance(src: Source, st: Emit, depth: int, count: int)
    requires
        list_args(src, st, depth, count).is_ok(),
    ensures
        advanced(src, st, list_args(src, st, depth, count).unwrap()),
    decreases src.tokens.len() - st.pos, 1int,
{
    reveal(list_args);
    if src.tokens[st.pos].0 != TokenKind::RParen {
        lemma_expression_advances(src, st, depth);
        lemma_arguments_advance(
            src,
            primary(src, st, depth).unwrap().emit(seq![ops::SWAP]),
            depth,
            count + 1,
        );
    }
}

/// A conditional that compiles takes at least its condition.
pub proof fn lemma_conditional_advances(src: Source, st: Emit, depth: int)
    requires
        conditional(src, st, depth).is_ok(),
    ensures
        advanced(src, st, conditional(src, st, depth).unwrap()),
    decreases src.tokens.len() - st.pos, 1int,
{
    reveal(conditional);
    lemma_expression_advances(src, st, depth);
    let cond = primary(src, st, depth).unwrap();
    let jump = cond.emit(seq![ops::JUMP] + ops::be_bytes(0));
    lemma_expression_advances(src, jump, depth);
    let then = primary(src, jump, depth).unwrap();
    let skip = then.step().emit(
        seq![ops::LIT_INT] + ops::be_bytes(0) + seq![ops::JUMP] + ops::be_bytes(0),
    );
    lemma_expression_advances(src, skip, depth);
}

/// A statement that compiles takes at least one token.
pub proof fn lemma_statement_advances(src: Source, st: Emit, depth: int)
    requires
        statement(src, st, depth).is_ok(),
    ensures
        advanced(src, st, statement(src, st, depth).unwrap()),
    decreases src.tokens.len() - st.pos, 1int,
{
    reveal(statement);
    if src.is_at(st.pos, TokenKind::Let) || src.is_at(st.pos, TokenKind::Assign) {
        lemma_expression_advances(src, st.step().step(), depth);
    } else {
        lemma_expression_advances(src, st, depth);
    }
}

/// A block that compiles takes at least its `}`.
pub proof fn lemma_block_advances(src: Source, st: Emit, depth: int)
    requires
        block_items(src, st, depth).is_ok(),
    ensures
        advanced(src, st, block_items(src, st, depth).unwrap()),
    decreases src.tokens.len() - st.pos, 2int,
{
    reveal(block_items);
    reveal(statement);
    if src.tokens[st.pos].0 == TokenKind::RBrace {
        lemma_unwound_pos(
            Emit { bin: crate::compile::retracted(st.bin), ..st.step() },
            depth - 1,
        );
    } else {
        lemma_statement_advances(src, st, depth);
        lemma_block_advances(src, statement(src, st, depth).unwrap(), depth);
    }
}

/// No name in `env` is bound deeper than `depth`.
pub open spec fn scoped(env: Seq<(Seq<char>, int)>, depth: int) -> bool {
    forall|i: int| 0 <= i < env.len() ==> (#[trigger] env[i]).1 <= depth
}

/// `env` is `base` followed by names that are all bound at `depth`.
pub open spec fn extends(env: Seq<(Seq<char>, int)>, base: Seq<(Seq<char>, int)>, depth: int)
    -> bool {
    &&& base.len() <= env.len()
    &&& env.subrange(0, base.len() as int) == base
    &&& forall|i: int| base.len() <= i < env.len() ==> (#[trigger] env[i]).1 == depth
}

/// Unwinding to `depth` removes the names bound one deeper and leaves the
/// rest.
pub proof fn lemma_unwound_env(st: Emit, base: Seq<(Seq<char>, int)>, depth: int)
    requires
        scoped(base, depth),
        extends(st.env, base, depth + 1),
    ensures
        unwound(st, depth).env == base,
    decreases st.env.len(),
{
    if st.env.len() > 0 && st.env.last().1 > depth {
        if st.env.len() == base.len() {
            assert(st.env =~= base);
            assert(base[base.len() - 1].1 <= depth);
        }
        let next = Emit {
            env: st.env.drop_last(),
            bin: st.bin + seq![ops::SWAP, ops::POP],
            ..st
        };
        assert(next.env.subrange(0, base.len() as int) =~= st.env.subrange(
            0,
            base.len() as int,
        ));
        lemma_unwound_env(next, base, depth);
    } else {
        if st.env.len() > base.len() {
            assert(st.env[st.env.len() - 1].1 == depth + 1);
        }
        assert(st.env =~= base);
    }
}

/// An expression leaves the bound names as it found them: whatever a block
/// inside it binds is unwound where that block ends.
pub proof fn lemma_expression_keeps_bindings(src: Source, st: Emit, depth: int)
    requires
        scoped(st.env, depth),
        primary(src, st, depth).is_ok(),
    ensures
        primary(src, st, depth).unwrap().env == st.env,
    decreases src.tokens.len() - st.pos, 0int,
{
    lemma_primary_compound(src, st, depth);
    match src.tokens[st.pos].0 {
        TokenKind::LParen => {
            lemma_call_keeps_bindings(src, st.step(), depth);
        },
        TokenKind::LBrace => {
            assert(st.env.subrange(0, st.env.len() as int) =~= st.env);
            lemma_block_unwinds_bindings(src, st.step(), depth + 1, st.env);
        },
        TokenKind::If => {
            lemma_conditional_keeps_bindings(src, st.step(), depth);
        },
        _ => {},
    }
}

/// A call leaves the bound names as it found them.
pub proof fn lemma_call_keeps_bindings(src: Source, st: Emit, depth: int)
    requires
        scoped(st.env, depth),
        list(src, st, depth).is_ok(),
    ensures
        list(src, st, depth).unwrap().env == st.env,
    decreases src.tokens.len() - st.pos, 1int,
{
    reveal(list);
    reveal(list_args);
    lemma_expression_keeps_bindings(src, st, depth);
    let callee = primary(src, st, depth).unwrap();
    if advanced(src, st, callee) {
        lemma_arguments_keep_bindings(src, callee, depth, 0);
    }
}

/// The arguments of a call leave the bound names as they found them.
pub proof fn lemma_arguments_keep_bindings(src: Source, st: Emit, depth: int, count: int)
    requires
        scoped(st.env, depth),
        list_args(src, st, depth, count).is_ok(),
    ensures
        list_args(src, st, depth, count).unwrap().env == st.env,
    decreases src.tokens.len() - st.pos, 1int,
{
    reveal(list_args);
    if src.tokens[st.pos].0 != TokenKind::RParen {
        lemma_expression_keeps_bindings(src, st, depth);
        let arg = primary(src, st, depth).unwrap();
        if advanced(src, st, arg) {
            lemma_arguments_keep_bindings(src, arg.emit(seq![ops::SWAP]), depth, count + 1);
        }
    }
}

/// A conditional leaves the bound names as it found them.
pub proof fn lemma_conditional_keeps_bindings(src: Source, st: Emit, depth: int)
    requires
        scoped(st.env, depth),
        conditional(src, st, depth).is_ok(),
    ensures
        conditional(src, st, depth).unwrap().env == st.env,
    decreases src.tokens.len() - st.pos, 1int,
{
    reveal(conditional);
    lemma_expression_keeps_bindings(src, st, depth);
    let cond = primary(src, st, depth).unwrap();
    if advanced(src, st, cond) {
        let jump = cond.emit(seq![ops::JUMP] + ops::be_bytes(0));
        lemma_expression_keeps_bindings(src, jump, depth);
        let then = primary(src, jump, depth).unwrap();
        if advanced(src, cond, then) {
            let skip = then.step().emit(
                seq![ops::LIT_INT] + ops::be_bytes(0) + seq![ops::JUMP] + ops::be_bytes(0),
            );
            lemma_expression_keeps_bindings(src, skip, depth);
        }
    }
}

/// A statement of a block at `depth` binds at most one name, at `depth`, and
/// leaves the others.
pub proof fn lemma_statement_extends_bindings(
    src: Source,
    st: Emit,
    depth: int,
    base: Seq<(Seq<char>, int)>,
)
    requires
        scoped(base, depth - 1),
        extends(st.env, base, depth),
        statement(src, st, depth).is_ok(),
    ensures
        extends(statement(src, st, depth).unwrap().env, base, depth),
    decreases src.tokens.len() - st.pos, 1int,
{
    reveal(statement);
    assert(scoped(st.env, depth)) by {
        assert forall|i: int| 0 <= i < st.env.len() implies (#[trigger] st.env[i]).1 <= depth by {
            if i < base.len() {
                assert(st.env.subrange(0, base.len() as int)[i] == base[i]);
            }
        }
    }
    if src.is_at(st.pos, TokenKind::Let) {
        let from = st.step().step();
        lemma_expression_keeps_bindings(src, from, depth);
        let done = statement(src, st, depth).unwrap();
        assert(done.env == st.env.push((src.tokens[st.pos + 1].1, depth)));
        assert(done.env.subrange(0, base.len() as int) =~= st.env.subrange(
            0,
            base.len() as int,
        ));
    } else if src.is_at(st.pos, TokenKind::Assign) {
        lemma_expression_keeps_bindings(src, st.step().step(), depth);
    } else {
        lemma_expression_keeps_bindings(src, st, depth);
    }
}

/// A block unwinds what it bound: where the names at its start, or after
/// one of its statements, are `base` and names that the block itself bound,
/// the names at its end are `base`.
pub proof fn lemma_block_unwinds_bindings(
    src: Source,
    st: Emit,
    depth: int,
    base: Seq<(Seq<char>, int)>,
)
    requires
        scoped(base, depth - 1),
        extends(st.env, base, depth),
        block_items(src, st, depth).is_ok(),
    ensures
        block_items(src, st, depth).unwrap().env == base,
    decreases src.tokens.len() - st.pos, 2int,
{
    reveal(block_items);
    reveal(statement);
    if src.tokens[st.pos].0 == TokenKind::RBrace {
        lemma_unwound_env(
            Emit { bin: crate::compile::retracted(st.bin), ..st.step() },
            base,
            depth - 1,
        );
    } else {
        lemma_statement_extends_bindings(src, st, depth, base);
        let done = statement(src, st, depth).unwrap();
        if advanced(src, st, done) {
            lemma_block_unwinds_bindings(src, done, depth, base);
        } else {
            lemma_statement_advances(src, st, depth);
        }
    }
}

} // verus!
