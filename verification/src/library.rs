//! The libraries of native functions: a table of names and functions, in
//! the order of their slots. The compiler and the machine see the names; what
//! a function is, is the business of whoever calls it.

use crate::compile::texts;
use crate::types::NativeFnIndex;
use vstd::prelude::*;

verus! {

/// What a native function is handed besides its arguments.
pub trait Environment {

}

/// The names that every library starts with.
pub open spec fn base_names() -> Seq<Seq<char>> {
    seq![
        "int"@,
        "flt"@,
        "list"@,
        "cmp"@,
        "not"@,
        "neg"@,
        "eq"@,
        "add"@,
        "sub"@,
        "mul"@,
        "div"@,
        "pi"@,
    ]
}

fn lib_base() -> (r: Vec<&'static str>)
    ensures
        texts(r@) == base_names(),
{
    let mut r: Vec<&'static str> = Vec::new();
    r.push("int");
    r.push("flt");
    r.push("list");
    r.push("cmp");
    r.push("not");
    r.push("neg");
    r.push("eq");
    r.push("add");
    r.push("sub");
    r.push("mul");
    r.push("div");
    r.push("pi");
    assert(texts(r@) =~= base_names());
    r
}

/// The library of a program that runs on its own: the base, and `print`.
pub fn lib_standalone() -> (r: Vec<&'static str>)
    ensures
        texts(r@) == base_names() + seq!["print"@],
{
    let mut r = lib_base();
    r.push("print");
    assert(texts(r@) =~= base_names() + seq!["print"@]);
    r
}

/// The library of a program that computes a pixel: the base, and what tells
/// the pixel's place and the canvas's size.
pub fn lib_draw() -> (r: Vec<&'static str>)
    ensures
        texts(r@) == base_names() + seq![
            "uv_x"@,
            "uv_y"@,
            "px_x"@,
            "px_y"@,
            "width"@,
            "height"@,
        ],
{
    let mut r = lib_base();
    r.push("uv_x");
    r.push("uv_y");
    r.push("px_x");
    r.push("px_y");
    r.push("width");
    r.push("height");
    assert(texts(r@) =~= base_names() + seq![
        "uv_x"@,
        "uv_y"@,
        "px_x"@,
        "px_y"@,
        "width"@,
        "height"@,
    ]);
    r
}


/// A library: names, each with its function. The place of a pair is its
/// slot, and the index by which the machine refers to the function.
pub struct Library<F> {
    names: Vec<&'static str>,
    functions: Vec<F>,
}

impl<F> Library<F> {
    /// The names, in the order of their slots.
    pub closed spec fn names_view(&self) -> Seq<Seq<char>> {
        texts(self.names@)
    }

    /// The functions, in the order of their slots.
    pub closed spec fn functions_view(&self) -> Seq<F> {
        self.functions@
    }

    /// Every name has its function.
    pub closed spec fn wf(&self) -> bool {
        self.names@.len() == self.functions@.len()
    }

    /// The library of `names` and `functions`, paired in their order, where
    /// there are as many of the one as of the other.
    pub fn new(names: Vec<&'static str>, functions: Vec<F>) -> (r: Option<Self>)
        ensures
            r.is_some() == (names@.len() == functions@.len()),
            r.is_some() ==> r.unwrap().wf() && r.unwrap().names_view() == texts(names@)
                && r.unwrap().functions_view() == functions@,
    {
        if names.len() == functions.len() {
            Some(Self { names, functions })
        } else {
            None
        }
    }

    /// The number of pairs.
    pub fn len(&self) -> (r: usize)
        requires
            self.wf(),
        ensures
            r == self.names_view().len(),
            r == self.functions_view().len(),
    {
        self.names.len()
    }

    /// The names, in the order of their slots: what the compiler binds and
    /// the machine is seeded by.
    pub fn names(&self) -> (r: &[&'static str])
        ensures
            texts(r@) == self.names_view(),
    {
        self.names.as_slice()
    }

    /// The function that `index` refers to, if the library has one there.
    pub fn function(&self, index: &NativeFnIndex) -> (r: Option<&F>)
        ensures
            r.is_some() == (index.0 < self.functions_view().len()),
            r.is_some() ==> *r.unwrap() == self.functions_view()[index.0 as int],
    {
        let i = index.0 as usize;
        if i < self.functions.len() {
            Some(&self.functions[i])
        } else {
            None
        }
    }
}

} // verus!
