//! Tokens and run-time values.

use vstd::prelude::*;

verus! {

/// Why a piece of source text is no token.
#[derive(Debug, Clone, Copy, PartialEq, Eq, Structural)]
pub enum TokenError {
    UnknownChar,
}

/// The class of a token.
#[derive(Debug, Clone, Copy, PartialEq, Eq, Structural)]
pub enum TokenKind {
    Eof,
    Error(TokenError),
    Whitespace,
    LParen,
    RParen,
    LBrace,
    RBrace,
    Let,
    Assign,
    If,
    Else,
    Loop,
    Break,
    Continue,
    Nothing,
    Int,
    Flt,
    Ident,
}

/// A classified slice of the source text.
#[derive(Debug, PartialEq)]
pub struct Token<'a> {
    kind: TokenKind,
    data: &'a str,
}

impl<'a> View for Token<'a> {
    type V = (TokenKind, Seq<char>);

    closed spec fn view(&self) -> (TokenKind, Seq<char>) {
        (self.kind, self.data@)
    }
}

impl<'a> Token<'a> {
    pub fn new(kind: TokenKind, src: &'a str) -> (r: Self)
        ensures
            r@ == (kind, src@),
    {
        Self { kind, data: src }
    }

    pub fn kind(&self) -> (r: TokenKind)
        ensures
            r == self@.0,
    {
        self.kind
    }

    pub fn src(&self) -> (r: &'a str)
        ensures
            r@ == self@.1,
    {
        self.data
    }
}

/// The place of a native function in the library table in use.
#[derive(Debug, Clone)]
pub struct NativeFnIndex(pub u32);

/// A value on the operand stack. A `Flt` holds the IEEE-754 bits of a
/// single-precision number.
#[derive(Debug)]
pub enum Value {
    Nothing,
    Int(i32),
    Flt(u32),
    List(Vec<Value>),
    Fn(u32),
    NativeFn(NativeFnIndex),
}

/// What a value is: the same shape, with each list as a sequence.
pub enum ValueView {
    Nothing,
    Int(i32),
    Flt(u32),
    List(Seq<ValueView>),
    Fn(u32),
    NativeFn(u32),
}

impl View for Value {
    type V = ValueView;

    open spec fn view(&self) -> ValueView {
        value_view(*self)
    }
}

/// What `v` is, list by list.
pub open spec fn value_view(v: Value) -> ValueView
    decreases v,
{
    match v {
        Value::Nothing => ValueView::Nothing,
        Value::Int(x) => ValueView::Int(x),
        Value::Flt(x) => ValueView::Flt(x),
        Value::List(x) => ValueView::List(
            Seq::new(
                x@.len(),
                |i: int|
                    if 0 <= i < x@.len() {
                        value_view(x@[i])
                    } else {
                        ValueView::Nothing
                    },
            ),
        ),
        Value::Fn(x) => ValueView::Fn(x),
        Value::NativeFn(x) => ValueView::NativeFn(x.0),
    }
}

/// The values of a sequence, each as what it is.
pub open spec fn views(s: Seq<Value>) -> Seq<ValueView> {
    Seq::new(s.len(), |i: int| s[i]@)
}

/// A list is the sequence of what its elements are.
pub proof fn lemma_list_view(x: Vec<Value>)
    ensures
        Value::List(x)@ == ValueView::List(views(x@)),
{
    assert(Value::List(x)@->List_0 =~= views(x@));
}

/// Whether the bits are those of a NaN.
pub open spec fn flt_is_nan(bits: u32) -> bool {
    bits % 0x8000_0000 > 0x7f80_0000
}

/// IEEE-754 equality on the bits of two numbers: a NaN equals nothing, the
/// two zeros equal each other, and any other number equals only itself.
pub open spec fn flt_eq(a: u32, b: u32) -> bool {
    !flt_is_nan(a) && !flt_is_nan(b) && (a == b || (a % 0x8000_0000 == 0 && b % 0x8000_0000
        == 0))
}

/// Equality of values: `Nothing` equals itself, numbers compare by value,
/// lists element by element, and a function equals nothing, not even itself.
pub open spec fn value_eq(a: ValueView, b: ValueView) -> bool
    decreases a,
{
    match (a, b) {
        (ValueView::Nothing, ValueView::Nothing) => true,
        (ValueView::Int(x), ValueView::Int(y)) => x == y,
        (ValueView::Flt(x), ValueView::Flt(y)) => flt_eq(x, y),
        (ValueView::List(x), ValueView::List(y)) => x.len() == y.len() && forall|i: int|
            0 <= i < x.len() ==> value_eq(#[trigger] x[i], y[i]),
        _ => false,
    }
}

/// Compares the bits of two single-precision numbers as IEEE-754 does.
pub fn flt_bits_eq(a: u32, b: u32) -> (r: bool)
    ensures
        r == flt_eq(a, b),
{
    let ma: u32 = a % 0x8000_0000;
    let mb: u32 = b % 0x8000_0000;
    ma <= 0x7f80_0000 && mb <= 0x7f80_0000 && (a == b || (ma == 0 && mb == 0))
}

impl Clone for Value {
    /// A deep copy: a list is copied with all its elements.
    fn clone(&self) -> (r: Self)
        ensures
            r@ == self@,
        decreases *self,
    {
        match self {
            Value::Nothing => Value::Nothing,
            Value::Int(x) => Value::Int(*x),
            Value::Flt(x) => Value::Flt(*x),
            Value::List(x) => {
                let mut out: Vec<Value> = Vec::new();
                let mut i: usize = 0;
                while i < x.len()
                    invariant
                        i <= x.len(),
                        out@.len() == i,
                        forall|j: int| 0 <= j < i ==> (#[trigger] out@[j])@ == x@[j]@,
                        *self == Value::List(*x),
                    decreases x.len() - i,
                {
                    proof {
                        vstd::std_specs::vec::axiom_vec_index_decreases(*x, i as int);
                        assert(*x == self->List_0);
                        assert(decreases_to!(*self => self->List_0));
                    }
                    let item = x[i].clone();
                    out.push(item);
                    i += 1;
                }
                let r = Value::List(out);
                proof {
                    lemma_list_view(out);
                    lemma_list_view(*x);
                    assert(views(out@) =~= views(x@));
                }
                r
            },
            Value::Fn(x) => Value::Fn(*x),
            Value::NativeFn(x) => Value::NativeFn(NativeFnIndex(x.0)),
        }
    }
}

impl PartialEq for Value {
    fn eq(&self, other: &Self) -> (r: bool)
        decreases *self,
    {
        match (self, other) {
            (Value::Nothing, Value::Nothing) => true,
            (Value::Int(x), Value::Int(y)) => *x == *y,
            (Value::Flt(x), Value::Flt(y)) => flt_bits_eq(*x, *y),
            (Value::List(x), Value::List(y)) => {
                proof {
                    lemma_list_view(*x);
                    lemma_list_view(*y);
                }
                if x.len() != y.len() {
                    return false;
                }
                let mut i: usize = 0;
                while i < x.len()
                    invariant
                        i <= x.len(),
                        x.len() == y.len(),
                        *self == Value::List(*x),
                        *other == Value::List(*y),
                        self@ == ValueView::List(views(x@)),
                        other@ == ValueView::List(views(y@)),
                        forall|j: int| 0 <= j < i ==> value_eq(#[trigger] x@[j]@, y@[j]@),
                    decreases x.len() - i,
                {
                    proof {
                        vstd::std_specs::vec::axiom_vec_index_decreases(*x, i as int);
                        assert(*x == self->List_0);
                        assert(decreases_to!(*self => self->List_0));
                    }
                    if !x[i].eq(&y[i]) {
                        assert(views(x@)[i as int] == x@[i as int]@);
                        assert(views(y@)[i as int] == y@[i as int]@);
                        return false;
                    }
                    i += 1;
                }
                assert forall|j: int| 0 <= j < views(x@).len() implies value_eq(
                    #[trigger] views(x@)[j],
                    views(y@)[j],
                ) by {
                    assert(value_eq(x@[j]@, y@[j]@));
                }
                true
            },
            _ => false,
        }
    }
}

impl vstd::std_specs::cmp::PartialEqSpecImpl for Value {
    open spec fn obeys_eq_spec() -> bool {
        true
    }

    open spec fn eq_spec(&self, other: &Self) -> bool {
        value_eq(self@, other@)
    }
}


/// A piece of a value's text: fixed text, or a number that is still to be
/// written out.
#[derive(Debug, Clone, Copy, PartialEq, Eq)]
pub enum Piece {
    Text(&'static str),
    Int(i32),
    Flt(u32),
}

/// What a piece is.
pub enum PieceView {
    Text(Seq<char>),
    Int(i32),
    Flt(u32),
}

impl View for Piece {
    type V = PieceView;

    open spec fn view(&self) -> PieceView {
        match self {
            Piece::Text(t) => PieceView::Text(t@),
            Piece::Int(x) => PieceView::Int(*x),
            Piece::Flt(x) => PieceView::Flt(*x),
        }
    }
}

/// What each piece of a sequence is.
pub open spec fn piece_views(s: Seq<Piece>) -> Seq<PieceView> {
    Seq::new(s.len(), |i: int| s[i]@)
}

/// The text of a value, in pieces: a number is itself, `Nothing` is `none`,
/// a list is its elements between brackets, each followed by a space, and a
/// function is a placeholder.
pub open spec fn shown(v: ValueView) -> Seq<PieceView>
    decreases v, 0nat,
{
    match v {
        ValueView::Nothing => seq![PieceView::Text("none"@)],
        ValueView::Int(x) => seq![PieceView::Int(x)],
        ValueView::Flt(x) => seq![PieceView::Flt(x)],
        ValueView::List(xs) => seq![PieceView::Text("[ "@)] + shown_items(xs, xs.len())
            + seq![PieceView::Text("]"@)],
        ValueView::Fn(_) => seq![PieceView::Text("<function>"@)],
        ValueView::NativeFn(_) => seq![PieceView::Text("<native function>"@)],
    }
}

/// The text of the first `n` elements of a list, each followed by a space.
pub open spec fn shown_items(xs: Seq<ValueView>, n: nat) -> Seq<PieceView>
    decreases xs, n,
{
    if n == 0 || n > xs.len() {
        Seq::empty()
    } else {
        shown_items(xs, (n - 1) as nat) + shown(xs[n - 1]) + seq![PieceView::Text(" "@)]
    }
}

impl Value {
    /// Appends the text of the value to `out`.
    pub fn render(&self, out: &mut Vec<Piece>)
        ensures
            piece_views(final(out)@) == piece_views(old(out)@) + shown(self@),
        decreases *self,
    {
        let ghost before = piece_views(out@);
        match self {
            Value::Nothing => {
                out.push(Piece::Text("none"));
                assert(piece_views(out@) =~= before + shown(self@));
            },
            Value::Int(x) => {
                out.push(Piece::Int(*x));
                assert(piece_views(out@) =~= before + shown(self@));
            },
            Value::Flt(x) => {
                out.push(Piece::Flt(*x));
                assert(piece_views(out@) =~= before + shown(self@));
            },
            Value::List(x) => {
                proof {
                    lemma_list_view(*x);
                }
                out.push(Piece::Text("[ "));
                assert(piece_views(out@) =~= before + seq![PieceView::Text("[ "@)]);
                let mut i: usize = 0;
                while i < x.len()
                    invariant
                        i <= x.len(),
                        *self == Value::List(*x),
                        piece_views(out@) == before + seq![PieceView::Text("[ "@)] + shown_items(
                            views(x@),
                            i as nat,
                        ),
                    decreases x.len() - i,
                {
                    proof {
                        vstd::std_specs::vec::axiom_vec_index_decreases(*x, i as int);
                        assert(*x == self->List_0);
                        assert(decreases_to!(*self => self->List_0));
                    }
                    let ghost so_far = piece_views(out@);
                    x[i].render(out);
                    let ghost with_item = piece_views(out@);
                    out.push(Piece::Text(" "));
                    assert(piece_views(out@) =~= with_item + seq![PieceView::Text(" "@)]);
                    i += 1;
                    assert(views(x@)[i - 1] == x@[i - 1]@);
                    assert(piece_views(out@) =~= before + seq![PieceView::Text("[ "@)]
                        + shown_items(views(x@), i as nat));
                }
                let ghost items = piece_views(out@);
                out.push(Piece::Text("]"));
                assert(piece_views(out@) =~= items + seq![PieceView::Text("]"@)]);
                assert(piece_views(out@) =~= before + shown(self@));
            },
            Value::Fn(_) => {
                out.push(Piece::Text("<function>"));
                assert(piece_views(out@) =~= before + shown(self@));
            },
            Value::NativeFn(_) => {
                out.push(Piece::Text("<native function>"));
                assert(piece_views(out@) =~= before + shown(self@));
            },
        }
    }

    /// The text of the value, in pieces.
    pub fn pieces(&self) -> (r: Vec<Piece>)
        ensures
            piece_views(r@) == shown(self@),
    {
        let mut out: Vec<Piece> = Vec::new();
        self.render(&mut out);
        assert(piece_views(Seq::<Piece>::empty()) + shown(self@) =~= shown(self@));
        out
    }
}

} // verus!
