//! The compiler: tokens to bytecode, in one pass. Variables become stack
//! slots, and the two forward jumps of a conditional are patched once their
//! targets are known.

pub mod ops;

use crate::chars::{parse_int, parsed_int, quote, quoted};
use crate::token::{same_text, token_views};
use crate::types::{Token, TokenError, TokenKind};
use vstd::prelude::*;

verus! {

/// Why a program does not compile. Where a token is to blame, the error
/// holds its place among the tokens.
#[derive(Debug, Clone, Copy, PartialEq, Eq, Structural)]
pub enum CompileError {
    /// `let` or `set` is not followed by a name.
    MissingVarName,
    /// The name at this place is not bound.
    UnknownVariable(usize),
    /// The first branch of an `if` is not followed by `else`.
    MissingElse,
    /// A number literal does not read as a number.
    NumberParse,
    /// No expression starts with the token at this place.
    UnexpectedToken(usize),
    /// The tokens end where an expression should start: the unexpected
    /// token is none at all.
    UnexpectedEnd,
    /// The tokens end inside a block or a call.
    MissingDelimiter,
    /// An empty block stands where a branch of an `if` should leave a value,
    /// so that nothing is left of a jump to patch.
    EmptyBranch,
}

/// The text of the token at `at`, or no text where there is none.
pub open spec fn text_at(tokens: Seq<(TokenKind, Seq<char>)>, at: int) -> Seq<char> {
    if 0 <= at < tokens.len() {
        tokens[at].1
    } else {
        Seq::empty()
    }
}

/// The name of a kind of token, as an error prints it: a keyword goes by
/// its own word.
pub open spec fn kind_name(k: TokenKind) -> Seq<char> {
    match k {
        TokenKind::Eof => "Eof"@,
        TokenKind::Error(TokenError::UnknownChar) => "Error(UnknownChar)"@,
        TokenKind::Whitespace => "Whitespace"@,
        TokenKind::LParen => "LParen"@,
        TokenKind::RParen => "RParen"@,
        TokenKind::LBrace => "LBrace"@,
        TokenKind::RBrace => "RBrace"@,
        TokenKind::Let => "Let"@,
        TokenKind::Assign => "Set"@,
        TokenKind::If => "If"@,
        TokenKind::Else => "Else"@,
        TokenKind::Loop => "Loop"@,
        TokenKind::Break => "Break"@,
        TokenKind::Continue => "Continue"@,
        TokenKind::Nothing => "None"@,
        TokenKind::Int => "Int"@,
        TokenKind::Flt => "Flt"@,
        TokenKind::Ident => "Ident"@,
    }
}

/// The token at `at` as an error prints it: its kind and its text in
/// quotes, or `None` where the tokens end before `at`.
pub open spec fn token_shown(tokens: Seq<(TokenKind, Seq<char>)>, at: int) -> Seq<char> {
    if 0 <= at < tokens.len() {
        "Some(Token { kind: "@ + kind_name(tokens[at].0) + ", data: "@ + quoted(tokens[at].1)
            + " })"@
    } else {
        "None"@
    }
}

/// What an error says, given the tokens that were compiled. Where the
/// tokens end in place of an expression, the unexpected token is `None`.
pub open spec fn message_text(e: CompileError, tokens: Seq<(TokenKind, Seq<char>)>) -> Seq<char> {
    match e {
        CompileError::MissingVarName => "missing var name"@,
        CompileError::UnknownVariable(at) => "unknown variable "@ + text_at(tokens, at as int),
        CompileError::MissingElse => "missing 'else' branch"@,
        CompileError::NumberParse => "number parse error"@,
        CompileError::UnexpectedToken(at) => "unexpected token: "@ + token_shown(
            tokens,
            at as int,
        ),
        CompileError::UnexpectedEnd => "unexpected token: None"@,
        CompileError::MissingDelimiter => "missing block delimiter"@,
        CompileError::EmptyBranch => "empty branch"@,
    }
}

/// The name of a kind of token, as an error prints it.
pub fn name_of(k: TokenKind) -> (r: &'static str)
    ensures
        r@ == kind_name(k),
{
    match k {
        TokenKind::Eof => "Eof",
        TokenKind::Error(TokenError::UnknownChar) => "Error(UnknownChar)",
        TokenKind::Whitespace => "Whitespace",
        TokenKind::LParen => "LParen",
        TokenKind::RParen => "RParen",
        TokenKind::LBrace => "LBrace",
        TokenKind::RBrace => "RBrace",
        TokenKind::Let => "Let",
        TokenKind::Assign => "Set",
        TokenKind::If => "If",
        TokenKind::Else => "Else",
        TokenKind::Loop => "Loop",
        TokenKind::Break => "Break",
        TokenKind::Continue => "Continue",
        TokenKind::Nothing => "None",
        TokenKind::Int => "Int",
        TokenKind::Flt => "Flt",
        TokenKind::Ident => "Ident",
    }
}

impl CompileError {
    /// The error as text. `tokens` are the tokens that were compiled: an
    /// error that blames one of them quotes it.
    pub fn message(&self, tokens: &[Token<'_>]) -> (r: String)
        ensures
            r@ == message_text(*self, token_views(tokens@)),
    {
        match self {
            CompileError::MissingVarName => String::from_str("missing var name"),
            CompileError::UnknownVariable(at) => {
                let mut r = String::from_str("unknown variable ");
                if *at < tokens.len() {
                    r.append(tokens[*at].src());
                } else {
                    assert(r@ + Seq::<char>::empty() =~= r@);
                }
                r
            },
            CompileError::MissingElse => String::from_str("missing 'else' branch"),
            CompileError::NumberParse => String::from_str("number parse error"),
            CompileError::UnexpectedToken(at) => {
                let mut r = String::from_str("unexpected token: ");
                if *at < tokens.len() {
                    let text = quote(tokens[*at].src());
                    r.append("Some(Token { kind: ");
                    r.append(name_of(tokens[*at].kind()));
                    r.append(", data: ");
                    r.append(text.as_str());
                    r.append(" })");
                    assert(r@ =~= "unexpected token: "@ + token_shown(
                        token_views(tokens@),
                        *at as int,
                    ));
                } else {
                    r.append("None");
                }
                r
            },
            CompileError::UnexpectedEnd => String::from_str("unexpected token: None"),
            CompileError::MissingDelimiter => String::from_str("missing block delimiter"),
            CompileError::EmptyBranch => String::from_str("empty branch"),
        }
    }
}

/// What the compiler reads: the tokens, each as its kind and text, and for
/// each place the bits of the float literal there, where it reads as one.
pub struct Source {
    pub tokens: Seq<(TokenKind, Seq<char>)>,
    pub floats: Seq<Option<u32>>,
}

/// Where the compiler stands: the next token, the bound names with the
/// depth of the block that bound each, and the bytes written so far. The
/// place of a name in `env` is its stack slot.
pub struct Emit {
    pub pos: int,
    pub env: Seq<(Seq<char>, int)>,
    pub bin: Seq<u8>,
}

impl Source {
    /// The bits of the float literal at `pos`, if it reads as a number.
    pub open spec fn float_at(self, pos: int) -> Option<u32> {
        if 0 <= pos < self.floats.len() {
            self.floats[pos]
        } else {
            None
        }
    }

    /// Whether the token at `pos` is there and of kind `kind`.
    pub open spec fn is_at(self, pos: int, kind: TokenKind) -> bool {
        0 <= pos < self.tokens.len() && self.tokens[pos].0 == kind
    }
}

impl Emit {
    /// One token further.
    pub open spec fn step(self) -> Emit {
        Emit { pos: self.pos + 1, ..self }
    }

    /// With `code` appended.
    pub open spec fn emit(self, code: Seq<u8>) -> Emit {
        Emit { bin: self.bin + code, ..self }
    }

    /// With one more name bound at `depth`.
    pub open spec fn bind(self, name: Seq<char>, depth: int) -> Emit {
        Emit { env: self.env.push((name, depth)), ..self }
    }
}

/// A slot as the operand of `GET` and `SET`: its low eight bits.
pub open spec fn slot_byte(i: int) -> u8 {
    (i % 0x100) as u8
}

/// A number of arguments as the operand of `CALL`: capped at 255.
pub open spec fn count_byte(n: int) -> u8 {
    if n < 255 {
        n as u8
    } else {
        255
    }
}

/// A place in the bytecode as the operand of `JUMP`: its low 32 bits.
pub open spec fn jump_target(len: int) -> u32 {
    (len % 0x1_0000_0000) as u32
}

/// The slot of `name`: the last binding of that name, so that an inner
/// binding hides an outer one.
pub open spec fn resolve(env: Seq<(Seq<char>, int)>, name: Seq<char>) -> Option<int>
    decreases env.len(),
{
    if env.len() == 0 {
        None
    } else if env.last().0 == name {
        Some(env.len() - 1)
    } else {
        resolve(env.drop_last(), name)
    }
}

/// `bin` without its last byte, if it has one.
pub open spec fn retracted(bin: Seq<u8>) -> Seq<u8> {
    if bin.len() > 0 {
        bin.drop_last()
    } else {
        bin
    }
}

/// Leaving a block: each name bound deeper than `depth` is removed again,
/// last first, by a `SWAP` and a `POP` that take its value from under the
/// block's result.
pub open spec fn unwound(st: Emit, depth: int) -> Emit
    decreases st.env.len(),
{
    if st.env.len() > 0 && st.env.last().1 > depth {
        unwound(
            Emit { env: st.env.drop_last(), bin: st.bin + seq![ops::SWAP, ops::POP], ..st },
            depth,
        )
    } else {
        st
    }
}

/// Whether a step of the compiler went forward and stayed among the tokens.
/// Every expression and every statement takes at least one token.
pub open spec fn advanced(src: Source, from: Emit, to: Emit) -> bool {
    from.pos < to.pos <= src.tokens.len()
}

/// One expression, compiled at `st`: a call, a block, a conditional, a
/// literal or a variable.
pub open spec fn primary(src: Source, st: Emit, depth: int) -> Result<Emit, CompileError>
    decreases src.tokens.len() - st.pos, 0int,
{
    if !(0 <= st.pos < src.tokens.len()) {
        Err(CompileError::UnexpectedEnd)
    } else {
        let text = src.tokens[st.pos].1;
        match src.tokens[st.pos].0 {
            TokenKind::LParen => list(src, st.step(), depth),
            TokenKind::LBrace => block_items(src, st.step(), depth + 1),
            TokenKind::If => conditional(src, st.step(), depth),
            TokenKind::Nothing => Ok(st.step().emit(seq![ops::LIT_NONE])),
            TokenKind::Int => match parsed_int(text) {
                Some(a) => Ok(
                    st.step().emit(seq![ops::LIT_INT] + ops::be_bytes(ops::int_bits(a))),
                ),
                None => Err(CompileError::NumberParse),
            },
            TokenKind::Flt => match src.float_at(st.pos) {
                Some(bits) => Ok(st.step().emit(seq![ops::LIT_FLT] + ops::be_bytes(bits))),
                None => Err(CompileError::NumberParse),
            },
            TokenKind::Ident => match resolve(st.env, text) {
                Some(i) => Ok(st.step().emit(seq![ops::GET, slot_byte(i)])),
                None => Err(CompileError::UnknownVariable(st.pos as usize)),
            },
            _ => Err(CompileError::UnexpectedToken(st.pos as usize)),
        }
    }
}

/// A call, after its `(`: the callee, then the arguments.
#[verifier::opaque]
pub open spec fn list(src: Source, st: Emit, depth: int) -> Result<Emit, CompileError>
    decreases src.tokens.len() - st.pos, 1int,
{
    match primary(src, st, depth) {
        Ok(callee) => if advanced(src, st, callee) {
            list_args(src, callee, depth, 0)
        } else {
            Ok(callee)
        },
        Err(e) => Err(e),
    }
}

/// The arguments of a call, `count` of them compiled already: each is
/// followed by a `SWAP` that brings the callee back on top, and `)` ends
/// them with the `CALL`.
#[verifier::opaque]
pub open spec fn list_args(src: Source, st: Emit, depth: int, count: int) -> Result<
    Emit,
    CompileError,
>
    decreases src.tokens.len() - st.pos, 1int,
{
    if !(0 <= st.pos < src.tokens.len()) {
        Err(CompileError::MissingDelimiter)
    } else if src.tokens[st.pos].0 == TokenKind::RParen {
        Ok(st.step().emit(seq![ops::CALL, count_byte(count)]))
    } else {
        match primary(src, st, depth) {
            Ok(arg) => if advanced(src, st, arg) {
                list_args(src, arg.emit(seq![ops::SWAP]), depth, count + 1)
            } else {
                Ok(arg)
            },
            Err(e) => Err(e),
        }
    }
}

/// A conditional, after its `if`: the condition, a jump over the first
/// branch, the first branch, a jump that is always taken over the second,
/// `else`, and the second branch. Both jumps are written with a target of
/// zero and patched at the end; where a branch has taken bytes of a jump
/// back, there is nothing to patch and the conditional is refused.
#[verifier::opaque]
pub open spec fn conditional(src: Source, st: Emit, depth: int) -> Result<Emit, CompileError>
    decreases src.tokens.len() - st.pos, 1int,
{
    match primary(src, st, depth) {
        Err(e) => Err(e),
        Ok(cond) => if !advanced(src, st, cond) {
            Ok(cond)
        } else {
            let else_slot = cond.bin.len() as int + 1;
            match primary(src, cond.emit(seq![ops::JUMP] + ops::be_bytes(0)), depth) {
                Err(e) => Err(e),
                Ok(then) => if !advanced(src, cond, then) {
                    Ok(then)
                } else if !src.is_at(then.pos, TokenKind::Else) {
                    Err(CompileError::MissingElse)
                } else {
                    let end_slot = then.bin.len() as int + 6;
                    let skip = then.step().emit(
                        seq![ops::LIT_INT] + ops::be_bytes(0) + seq![ops::JUMP] + ops::be_bytes(0),
                    );
                    let else_target = jump_target(skip.bin.len() as int);
                    match primary(src, skip, depth) {
                        Err(e) => Err(e),
                        Ok(other) => if end_slot + 4 > other.bin.len() || else_slot + 4
                            > other.bin.len() {
                            Err(CompileError::EmptyBranch)
                        } else {
                            let end_target = jump_target(other.bin.len() as int);
                            Ok(
                                Emit {
                                    bin: ops::patched(
                                        ops::patched(
                                            other.bin,
                                            else_slot,
                                            ops::be_bytes(else_target),
                                        ),
                                        end_slot,
                                        ops::be_bytes(end_target),
                                    ),
                                    ..other
                                },
                            )
                        },
                    }
                },
            }
        },
    }
}

/// One statement of a block at `depth`, with the `POP` that discards its
/// value: a `let`, which binds a new slot to the value of its expression; a
/// `set`, which stores that value in the slot of a bound name; or an
/// expression. The first two leave `Nothing` as their value.
#[verifier::opaque]
pub open spec fn statement(src: Source, st: Emit, depth: int) -> Result<Emit, CompileError>
    decreases src.tokens.len() - st.pos, 1int,
{
    if src.is_at(st.pos, TokenKind::Let) {
        if !src.is_at(st.pos + 1, TokenKind::Ident) {
            Err(CompileError::MissingVarName)
        } else {
            match primary(src, st.step().step(), depth) {
                Ok(value) => Ok(
                    value.bind(src.tokens[st.pos + 1].1, depth).emit(
                        seq![ops::LIT_NONE, ops::POP],
                    ),
                ),
                Err(e) => Err(e),
            }
        }
    } else if src.is_at(st.pos, TokenKind::Assign) {
        if !src.is_at(st.pos + 1, TokenKind::Ident) {
            Err(CompileError::MissingVarName)
        } else {
            match primary(src, st.step().step(), depth) {
                Ok(value) => match resolve(value.env, src.tokens[st.pos + 1].1) {
                    Some(i) => Ok(
                        value.emit(seq![ops::SET, slot_byte(i), ops::LIT_NONE, ops::POP]),
                    ),
                    None => Err(CompileError::UnknownVariable((st.pos + 1) as usize)),
                },
                Err(e) => Err(e),
            }
        }
    } else {
        match primary(src, st, depth) {
            Ok(value) => Ok(value.emit(seq![ops::POP])),
            Err(e) => Err(e),
        }
    }
}

/// The statements of a block at `depth`, after its `{` or after one of its
/// statements. At `}` the last byte written is taken back, so that the value
/// of the last statement stays, and the names that the block bound are
/// unwound.
#[verifier::opaque]
pub open spec fn block_items(src: Source, st: Emit, depth: int) -> Result<Emit, CompileError>
    decreases src.tokens.len() - st.pos, 2int,
{
    if !(0 <= st.pos < src.tokens.len()) {
        Err(CompileError::MissingDelimiter)
    } else if src.tokens[st.pos].0 == TokenKind::RBrace {
        Ok(unwound(Emit { bin: retracted(st.bin), ..st.step() }, depth - 1))
    } else {
        match statement(src, st, depth) {
            Ok(done) => if advanced(src, st, done) {
                block_items(src, done, depth)
            } else {
                Ok(done)
            },
            Err(e) => Err(e),
        }
    }
}

/// The names of a library, each bound at depth 0 to the slot of its place.
pub open spec fn seeded(names: Seq<Seq<char>>) -> Seq<(Seq<char>, int)> {
    Seq::new(names.len(), |i: int| (names[i], 0int))
}

/// The bytecode of a program: its first expression, compiled with the
/// library's names bound. Tokens after that expression are not read.
pub open spec fn compiled(src: Source, names: Seq<Seq<char>>) -> Result<Seq<u8>, CompileError> {
    match primary(src, Emit { pos: 0, env: seeded(names), bin: Seq::empty() }, 0) {
        Ok(end) => Ok(end.bin),
        Err(e) => Err(e),
    }
}

/// What each string of a sequence holds.
pub open spec fn texts(names: Seq<&str>) -> Seq<Seq<char>> {
    Seq::new(names.len(), |i: int| names[i]@)
}


/// Writes the instruction that pushes the integer `a`.
pub fn emit_int(bin: &mut Vec<u8>, a: i32)
    ensures
        final(bin)@ == old(bin)@ + (seq![ops::LIT_INT] + ops::be_bytes(ops::int_bits(a))),
{
    bin.push(ops::LIT_INT);
    ops::push_word(bin, ops::to_bits(a));
    assert(bin@ =~= old(bin)@ + (seq![ops::LIT_INT] + ops::be_bytes(ops::int_bits(a))));
}

/// Writes the instruction that pushes the float with the bits `bits`.
pub fn emit_flt(bin: &mut Vec<u8>, bits: u32)
    ensures
        final(bin)@ == old(bin)@ + (seq![ops::LIT_FLT] + ops::be_bytes(bits)),
{
    bin.push(ops::LIT_FLT);
    ops::push_word(bin, bits);
    assert(bin@ =~= old(bin)@ + (seq![ops::LIT_FLT] + ops::be_bytes(bits)));
}

/// Writes the instruction that pushes a copy of the value in `slot`.
pub fn emit_get(bin: &mut Vec<u8>, slot: usize)
    ensures
        final(bin)@ == old(bin)@ + seq![ops::GET, slot_byte(slot as int)],
{
    bin.push(ops::GET);
    bin.push((slot % 0x100) as u8);
    assert(bin@ =~= old(bin)@ + seq![ops::GET, slot_byte(slot as int)]);
}

/// Writes a jump with a target of zero, to be patched, and says where its
/// target stands.
pub fn emit_jump(bin: &mut Vec<u8>) -> (at: usize)
    ensures
        final(bin)@ == old(bin)@ + (seq![ops::JUMP] + ops::be_bytes(0)),
        at == old(bin)@.len() + 1,
{
    bin.push(ops::JUMP);
    let at = bin.len();
    ops::push_word(bin, 0);
    assert(bin@ =~= old(bin)@ + (seq![ops::JUMP] + ops::be_bytes(0)));
    at
}

/// An expression that starts with `(`, `{` or `if` is the call, the block
/// or the conditional that follows.
pub proof fn lemma_primary_compound(src: Source, st: Emit, depth: int)
    requires
        0 <= st.pos < src.tokens.len(),
    ensures
        src.tokens[st.pos].0 == TokenKind::LParen ==> primary(src, st, depth) == list(
            src,
            st.step(),
            depth,
        ),
        src.tokens[st.pos].0 == TokenKind::LBrace ==> primary(src, st, depth) == block_items(
            src,
            st.step(),
            depth + 1,
        ),
        src.tokens[st.pos].0 == TokenKind::If ==> primary(src, st, depth) == conditional(
            src,
            st.step(),
            depth,
        ),
{
    reveal(list);
    reveal(block_items);
    reveal(conditional);
}

/// A compiler over the tokens of one program.
pub struct Compile<'a> {
    tokens: Vec<Token<'a>>,
    floats: Vec<Option<u32>>,
    pos: usize,
    env: Vec<(&'a str, usize)>,
    scope_depth: usize,
}

impl<'a> Compile<'a> {
    /// What the compiler reads.
    pub closed spec fn source(&self) -> Source {
        Source { tokens: token_views(self.tokens@), floats: self.floats@ }
    }

    /// The place of the next token.
    pub closed spec fn position(&self) -> int {
        self.pos as int
    }

    /// The bound names, each with the depth of the block that bound it.
    pub closed spec fn bindings(&self) -> Seq<(Seq<char>, int)> {
        Seq::new(self.env@.len(), |i: int| (self.env@[i].0@, self.env@[i].1 as int))
    }

    /// The number of blocks that are open.
    pub closed spec fn depth(&self) -> int {
        self.scope_depth as int
    }

    /// The compiler is among its tokens, and each open block has had its
    /// `{` read.
    pub closed spec fn wf(&self) -> bool {
        self.pos <= self.tokens.len() && self.scope_depth <= self.pos
    }

    /// Where the compiler stands when `bin` is what it has written.
    pub open spec fn state(&self, bin: Seq<u8>) -> Emit {
        Emit { pos: self.position(), env: self.bindings(), bin }
    }

    /// Whether the compiler, having written `bin` and answered `r`, did what
    /// `expected` asks of a step that began at `from` with `depth` blocks
    /// open: on success it stands where `expected` says, further on than
    /// `from` and with the same blocks open; on failure it gives the same
    /// error.
    pub open spec fn delivers(
        &self,
        bin: Seq<u8>,
        r: Result<(), CompileError>,
        expected: Result<Emit, CompileError>,
        from: int,
        depth: int,
    ) -> bool {
        match expected {
            Ok(e) => r.is_ok() && self.wf() && self.state(bin) == e && self.depth() == depth
                && from < self.position() <= self.source().tokens.len(),
            Err(x) => r == Err::<(), CompileError>(x),
        }
    }

    /// A compiler at the first of `tokens`, with the names of `globals`
    /// bound to the first slots, in their order. `floats` holds, for the
    /// place of each float literal that reads as a number, its bits; a place
    /// beyond its end counts as unreadable.
    pub fn new(tokens: Vec<Token<'a>>, floats: Vec<Option<u32>>, globals: &[&'a str]) -> (r:
        Self)
        ensures
            r.wf(),
            r.source() == (Source { tokens: token_views(tokens@), floats: floats@ }),
            r.position() == 0,
            r.depth() == 0,
            r.bindings() == seeded(texts(globals@)),
    {
        let mut env: Vec<(&'a str, usize)> = Vec::new();
        let mut i: usize = 0;
        while i < globals.len()
            invariant
                i <= globals.len(),
                env@.len() == i,
                forall|j: int| 0 <= j < i ==> (#[trigger] env@[j]).0@ == globals@[j]@ && env@[j].1 == 0,
            decreases globals.len() - i,
        {
            env.push((globals[i], 0));
            i += 1;
        }
        let r = Self { tokens, floats, pos: 0, env, scope_depth: 0 };
        assert(r.bindings() =~= seeded(texts(globals@)));
        r
    }

    /// Takes the next token if its kind is among `kinds`.
    fn check(&mut self, kinds: &[TokenKind]) -> (r: Option<Token<'a>>)
        requires
            old(self).wf(),
        ensures
            final(self).wf(),
            final(self).source() == old(self).source(),
            final(self).bindings() == old(self).bindings(),
            final(self).depth() == old(self).depth(),
            old(self).position() < old(self).source().tokens.len() && kinds@.contains(
                old(self).source().tokens[old(self).position()].0,
            ) ==> r.is_some() && r.unwrap()@ == old(self).source().tokens[old(self).position()]
                && final(self).position() == old(self).position() + 1,
            !(old(self).position() < old(self).source().tokens.len() && kinds@.contains(
                old(self).source().tokens[old(self).position()].0,
            )) ==> r.is_none() && final(self).position() == old(self).position(),
    {
        if self.pos >= self.tokens.len() {
            return None;
        }
        let kind = self.tokens[self.pos].kind();
        let mut i: usize = 0;
        while i < kinds.len()
            invariant
                i <= kinds.len(),
                *self == *old(self),
                self.wf(),
                self.pos < self.tokens.len(),
                kind == self.tokens@[self.pos as int]@.0,
                forall|j: int| 0 <= j < i ==> kinds@[j] != kind,
            decreases kinds.len() - i,
        {
            if kinds[i] == kind {
                let t = Token::new(kind, self.tokens[self.pos].src());
                self.pos += 1;
                return Some(t);
            }
            i += 1;
        }
        None
    }

    /// Takes the next token if `predicate` accepts it.
    pub fn crack<F: Fn(&Token<'a>) -> bool>(&mut self, predicate: F) -> (r: Option<Token<'a>>)
        requires
            old(self).wf(),
            forall|t: Token<'a>| call_requires(predicate, (&t,)),
        ensures
            final(self).wf(),
            final(self).source() == old(self).source(),
            final(self).bindings() == old(self).bindings(),
            final(self).depth() == old(self).depth(),
            old(self).position() >= old(self).source().tokens.len() ==> r.is_none(),
            r.is_some() ==> r.unwrap()@ == old(self).source().tokens[old(self).position()]
                && final(self).position() == old(self).position() + 1 && exists|t: Token<'a>|
                t@ == r.unwrap()@ && call_ensures(predicate, (&t,), true),
            r.is_none() ==> final(self).position() == old(self).position() && (old(
                self,
            ).position() < old(self).source().tokens.len() ==> exists|t: Token<'a>|
                t@ == old(self).source().tokens[old(self).position()] && call_ensures(
                    predicate,
                    (&t,),
                    false,
                )),
    {
        if self.pos >= self.tokens.len() {
            return None;
        }
        if predicate(&self.tokens[self.pos]) {
            let t = Token::new(self.tokens[self.pos].kind(), self.tokens[self.pos].src());
            self.pos += 1;
            Some(t)
        } else {
            None
        }
    }

    /// Takes the next token if it is of kind `kind`.
    fn take(&mut self, kind: TokenKind) -> (r: Option<Token<'a>>)
        requires
            old(self).wf(),
        ensures
            final(self).wf(),
            final(self).source() == old(self).source(),
            final(self).bindings() == old(self).bindings(),
            final(self).depth() == old(self).depth(),
            old(self).source().is_at(old(self).position(), kind) ==> r.is_some() && r.unwrap()@
                == old(self).source().tokens[old(self).position()] && final(self).position()
                == old(self).position() + 1,
            !old(self).source().is_at(old(self).position(), kind) ==> r.is_none()
                && final(self).position() == old(self).position(),
    {
        let kinds = [kind];
        assert(kinds@[0] == kind);
        self.check(kinds.as_slice())
    }

    /// Whether all tokens are read.
    fn at_end(&self) -> (r: bool)
        requires
            self.wf(),
        ensures
            r == (self.position() == self.source().tokens.len()),
    {
        self.pos >= self.tokens.len()
    }

    /// The slot of `name`, if it is bound.
    fn lookup(&self, name: &str) -> (r: Option<usize>)
        ensures
            r.is_some() ==> resolve(self.bindings(), name@) == Some(r.unwrap() as int),
            r.is_none() ==> resolve(self.bindings(), name@).is_none(),
    {
        let mut i: usize = self.env.len();
        assert(self.bindings().subrange(0, i as int) =~= self.bindings());
        while i > 0
            invariant
                i <= self.env.len(),
                resolve(self.bindings(), name@) == resolve(
                    self.bindings().subrange(0, i as int),
                    name@,
                ),
            decreases i,
        {
            let ghost part = self.bindings().subrange(0, i as int);
            assert(part.drop_last() =~= self.bindings().subrange(0, i - 1));
            if same_text(self.env[i - 1].0, name) {
                return Some(i - 1);
            }
            i -= 1;
        }
        assert(self.bindings().subrange(0, 0).len() == 0);
        None
    }

    /// Compiles the program that `tokens` spell for the library with the
    /// names `globals`; `floats` is as for `new`.
    pub fn compile(tokens: Vec<Token<'a>>, floats: Vec<Option<u32>>, globals: &[&'a str]) -> (r:
        Result<Vec<u8>, CompileError>)
        ensures
            match compiled(
                Source { tokens: token_views(tokens@), floats: floats@ },
                texts(globals@),
            ) {
                Ok(bin) => r.is_ok() && r.unwrap()@ == bin,
                Err(e) => r == Err::<Vec<u8>, CompileError>(e),
            },
    {
        Self::new(tokens, floats, globals).parse()
    }

    /// Compiles the program: its first expression.
    pub fn parse(self) -> (r: Result<Vec<u8>, CompileError>)
        requires
            self.wf(),
        ensures
            match primary(self.source(), self.state(Seq::empty()), self.depth()) {
                Ok(end) => r.is_ok() && r.unwrap()@ == end.bin,
                Err(e) => r == Err::<Vec<u8>, CompileError>(e),
            },
    {
        let mut this = self;
        let mut bin: Vec<u8> = Vec::new();
        match this.module(&mut bin) {
            Ok(()) => Ok(bin),
            Err(e) => Err(e),
        }
    }

    fn module(&mut self, bin: &mut Vec<u8>) -> (r: Result<(), CompileError>)
        requires
            old(self).wf(),
        ensures
            final(self).source() == old(self).source(),
            final(self).delivers(
                final(bin)@,
                r,
                primary(old(self).source(), old(self).state(old(bin)@), old(self).depth()),
                old(self).position(),
                old(self).depth(),
            ),
    {
        self.primary(bin)
    }

    fn block(&mut self, bin: &mut Vec<u8>) -> (r: Result<(), CompileError>)
        requires
            old(self).wf(),
            old(self).depth() < old(self).position(),
        ensures
            final(self).source() == old(self).source(),
            final(self).delivers(
                final(bin)@,
                r,
                block_items(
                    old(self).source(),
                    old(self).state(old(bin)@),
                    old(self).depth() + 1,
                ),
                old(self).position() - 1,
                old(self).depth(),
            ),
        decreases old(self).source().tokens.len() - old(self).position(), 2int,
    {
        let ghost src = self.source();
        let ghost goal = block_items(src, self.state(bin@), self.depth() + 1);
        self.scope_depth += 1;
        loop
            invariant
                self.wf(),
                self.source() == src,
                src == old(self).source(),
                self.depth() == old(self).depth() + 1,
                old(self).position() <= self.position(),
                self.depth() <= self.position(),
                block_items(src, self.state(bin@), self.depth()) == goal,
                goal == block_items(
                    old(self).source(),
                    old(self).state(old(bin)@),
                    old(self).depth() + 1,
                ),
            decreases src.tokens.len() - self.position(),
        {
            reveal(block_items);
            reveal(statement);
            let ghost here = self.state(bin@);
            if self.at_end() {
                return Err(CompileError::MissingDelimiter);
            }
            if self.take(TokenKind::RBrace).is_some() {
                bin.pop();
                self.scope_depth -= 1;
                let ghost mut st = Emit { bin: retracted(here.bin), ..here.step() };
                assert(self.state(bin@) == st);
                while self.env.len() > 0 && self.env[self.env.len() - 1].1 > self.scope_depth
                    invariant
                        self.wf(),
                        self.source() == src,
                        self.depth() == old(self).depth(),
                        self.position() == here.pos + 1,
                        self.state(bin@) == st,
                        unwound(st, self.depth()) == unwound(
                            Emit { bin: retracted(here.bin), ..here.step() },
                            self.depth(),
                        ),
                    decreases self.env.len(),
                {
                    bin.push(ops::SWAP);
                    bin.push(ops::POP);
                    self.env.pop();
                    proof {
                        let next = Emit {
                            env: st.env.drop_last(),
                            bin: st.bin + seq![ops::SWAP, ops::POP],
                            ..st
                        };
                        assert(bin@ =~= next.bin);
                        assert(self.bindings() =~= next.env);
                        st = next;
                    }
                }
                return Ok(());
            }
            assert(goal == match statement(src, here, self.depth()) {
                Ok(done) => if advanced(src, here, done) {
                    block_items(src, done, self.depth())
                } else {
                    Ok(done)
                },
                Err(e) => Err(e),
            });
            if self.take(TokenKind::Let).is_some() {
                let name = match self.take(TokenKind::Ident) {
                    Some(t) => t,
                    None => {
                        assert(statement(src, here, self.depth()) == Err::<Emit, CompileError>(
                            CompileError::MissingVarName,
                        ));
                        return Err(CompileError::MissingVarName);
                    },
                };
                assert(statement(src, here, self.depth()) == match primary(
                    src,
                    here.step().step(),
                    self.depth(),
                ) {
                    Ok(value) => Ok(
                        value.bind(src.tokens[here.pos + 1].1, self.depth()).emit(
                            seq![ops::LIT_NONE, ops::POP],
                        ),
                    ),
                    Err(e) => Err(e),
                });
                match self.primary(bin) {
                    Ok(()) => {},
                    Err(e) => {
                        return Err(e);
                    },
                }
                let ghost value = self.state(bin@);
                self.env.push((name.src(), self.scope_depth));
                bin.push(ops::LIT_NONE);
                bin.push(ops::POP);
                proof {
                    let done = value.bind(src.tokens[here.pos + 1].1, self.depth()).emit(
                        seq![ops::LIT_NONE, ops::POP],
                    );
                    assert(bin@ =~= done.bin);
                    assert(self.bindings() =~= done.env);
                }
            } else if self.take(TokenKind::Assign).is_some() {
                let name = match self.take(TokenKind::Ident) {
                    Some(t) => t,
                    None => {
                        return Err(CompileError::MissingVarName);
                    },
                };
                let at = self.pos - 1;
                match self.primary(bin) {
                    Ok(()) => {},
                    Err(e) => {
                        return Err(e);
                    },
                }
                let ghost value = self.state(bin@);
                let slot = match self.lookup(name.src()) {
                    Some(i) => i,
                    None => {
                        return Err(CompileError::UnknownVariable(at));
                    },
                };
                bin.push(ops::SET);
                bin.push((slot % 0x100) as u8);
                bin.push(ops::LIT_NONE);
                bin.push(ops::POP);
                assert(bin@ =~= value.bin + seq![
                    ops::SET,
                    slot_byte(slot as int),
                    ops::LIT_NONE,
                    ops::POP,
                ]);
            } else {
                match self.primary(bin) {
                    Ok(()) => {},
                    Err(e) => {
                        return Err(e);
                    },
                }
                let ghost value = self.state(bin@);
                bin.push(ops::POP);
                assert(bin@ =~= value.bin + seq![ops::POP]);
            }
        }
    }

    fn list(&mut self, bin: &mut Vec<u8>) -> (r: Result<(), CompileError>)
        requires
            old(self).wf(),
        ensures
            final(self).source() == old(self).source(),
            final(self).delivers(
                final(bin)@,
                r,
                list(old(self).source(), old(self).state(old(bin)@), old(self).depth()),
                old(self).position() - 1,
                old(self).depth(),
            ),
        decreases old(self).source().tokens.len() - old(self).position(), 1int,
    {
        let ghost src = self.source();
        let ghost goal = list(src, self.state(bin@), self.depth());
        reveal(list);
        reveal(list_args);
        match self.primary(bin) {
            Ok(()) => {},
            Err(e) => {
                return Err(e);
            },
        }
        let mut count: u8 = 0;
        let ghost mut n: int = 0;
        loop
            invariant
                self.wf(),
                self.source() == src,
                src == old(self).source(),
                self.depth() == old(self).depth(),
                old(self).position() < self.position(),
                0 <= n,
                count == count_byte(n),
                list_args(src, self.state(bin@), self.depth(), n) == goal,
                goal == list(old(self).source(), old(self).state(old(bin)@), old(self).depth()),
            decreases src.tokens.len() - self.position(),
        {
            reveal(list_args);
            let ghost here = self.state(bin@);
            if self.at_end() {
                return Err(CompileError::MissingDelimiter);
            }
            if self.take(TokenKind::RParen).is_some() {
                bin.push(ops::CALL);
                bin.push(count);
                assert(bin@ =~= here.bin + seq![ops::CALL, count_byte(n)]);
                return Ok(());
            }
            match self.primary(bin) {
                Ok(()) => {},
                Err(e) => {
                    return Err(e);
                },
            }
            let ghost arg = self.state(bin@);
            bin.push(ops::SWAP);
            assert(bin@ =~= arg.bin + seq![ops::SWAP]);
            if count < 255 {
                count += 1;
            }
            proof {
                n = n + 1;
            }
        }
    }

    fn conditional(&mut self, bin: &mut Vec<u8>) -> (r: Result<(), CompileError>)
        requires
            old(self).wf(),
        ensures
            final(self).source() == old(self).source(),
            final(self).delivers(
                final(bin)@,
                r,
                conditional(old(self).source(), old(self).state(old(bin)@), old(self).depth()),
                old(self).position() - 1,
                old(self).depth(),
            ),
        decreases old(self).source().tokens.len() - old(self).position(), 1int,
    {
        let ghost src = self.source();
        let ghost start = self.state(bin@);
        let ghost depth = self.depth();
        reveal(conditional);
        match self.primary(bin) {
            Ok(()) => {},
            Err(e) => {
                return Err(e);
            },
        }
        let ghost cond = self.state(bin@);
        let offset_else = emit_jump(bin);
        match self.primary(bin) {
            Ok(()) => {},
            Err(e) => {
                return Err(e);
            },
        }
        let ghost then = self.state(bin@);
        emit_int(bin, 0);
        let offset_complete = emit_jump(bin);
        assert(bin@ =~= then.bin + (seq![ops::LIT_INT] + ops::be_bytes(0) + seq![ops::JUMP]
            + ops::be_bytes(0)));
        if self.take(TokenKind::Else).is_none() {
            return Err(CompileError::MissingElse);
        }
        let target_else = ((bin.len() as u64) % 0x1_0000_0000) as u32;
        match self.primary(bin) {
            Ok(()) => {},
            Err(e) => {
                return Err(e);
            },
        }
        let target_complete = ((bin.len() as u64) % 0x1_0000_0000) as u32;
        if bin.len() < 4 {
            return Err(CompileError::EmptyBranch);
        }
        if offset_complete > bin.len() - 4 || offset_else > bin.len() - 4 {
            return Err(CompileError::EmptyBranch);
        }
        ops::patch_word(bin, offset_else, target_else);
        ops::patch_word(bin, offset_complete, target_complete);
        Ok(())
    }

    fn primary(&mut self, bin: &mut Vec<u8>) -> (r: Result<(), CompileError>)
        requires
            old(self).wf(),
        ensures
            final(self).source() == old(self).source(),
            final(self).delivers(
                final(bin)@,
                r,
                primary(old(self).source(), old(self).state(old(bin)@), old(self).depth()),
                old(self).position(),
                old(self).depth(),
            ),
        decreases old(self).source().tokens.len() - old(self).position(), 0int,
    {
        let ghost start = self.state(bin@);
        let ghost src = self.source();
        let ghost depth = self.depth();
        if self.at_end() {
            return Err(CompileError::UnexpectedEnd);
        }
        let at = self.pos;
        let kind = self.tokens[at].kind();
        proof {
            lemma_primary_compound(src, start, depth);
        }
        match kind {
            TokenKind::LParen => {
                self.pos += 1;
                assert(self.state(bin@) == start.step());
                self.list(bin)
            },
            TokenKind::LBrace => {
                self.pos += 1;
                assert(self.state(bin@) == start.step());
                self.block(bin)
            },
            TokenKind::If => {
                self.pos += 1;
                assert(self.state(bin@) == start.step());
                self.conditional(bin)
            },
            TokenKind::Nothing => {
                self.pos += 1;
                bin.push(ops::LIT_NONE);
                assert(bin@ =~= start.bin + seq![ops::LIT_NONE]);
                assert(self.state(bin@) == start.step().emit(seq![ops::LIT_NONE]));
                Ok(())
            },
            TokenKind::Int => {
                let a = match parse_int(self.tokens[at].src()) {
                    Some(a) => a,
                    None => {
                        return Err(CompileError::NumberParse);
                    },
                };
                self.pos += 1;
                emit_int(bin, a);
                assert(self.state(bin@) == start.step().emit(
                    seq![ops::LIT_INT] + ops::be_bytes(ops::int_bits(a)),
                ));
                Ok(())
            },
            TokenKind::Flt => {
                let bits = if at < self.floats.len() {
                    self.floats[at]
                } else {
                    None
                };
                let bits = match bits {
                    Some(b) => b,
                    None => {
                        return Err(CompileError::NumberParse);
                    },
                };
                self.pos += 1;
                emit_flt(bin, bits);
                assert(self.state(bin@) == start.step().emit(
                    seq![ops::LIT_FLT] + ops::be_bytes(bits),
                ));
                Ok(())
            },
            TokenKind::Ident => {
                let slot = match self.lookup(self.tokens[at].src()) {
                    Some(i) => i,
                    None => {
                        return Err(CompileError::UnknownVariable(at));
                    },
                };
                self.pos += 1;
                emit_get(bin, slot);
                assert(self.state(bin@) == start.step().emit(
                    seq![ops::GET, slot_byte(slot as int)],
                ));
                Ok(())
            },
            _ => Err(CompileError::UnexpectedToken(at)),
        }
    }
}

} // verus!
