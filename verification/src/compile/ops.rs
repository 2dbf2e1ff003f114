//! The opcodes. Each is one byte; its operand, if any, follows it.

use vstd::prelude::*;

verus! {

/// Does nothing.
pub const NOP: u8 = 0x00;

/// Discards the top value.
pub const POP: u8 = 0x01;

/// Operand: a slot, one byte. Pushes a copy of the value in that slot.
pub const GET: u8 = 0x02;

/// Operand: a slot, one byte. Pops a value and stores it in that slot.
pub const SET: u8 = 0x03;

/// Exchanges the top two values.
pub const SWAP: u8 = 0x04;

/// Operand: a target, four bytes, big-endian. Pops a condition, which must
/// be an `Int`; where it is zero, execution goes on at the target.
pub const JUMP: u8 = 0x05;

/// Operand: a number of arguments, one byte. Pops the callee, which must be
/// a native function, and calls it with that many arguments on offer.
pub const CALL: u8 = 0x06;

/// Operand: four bytes, big-endian. Pushes them as an `Int`.
pub const LIT_INT: u8 = 0x10;

/// Operand: four bytes, big-endian. Pushes them as a `Flt`.
pub const LIT_FLT: u8 = 0x11;

/// Pushes `Nothing`.
pub const LIT_NONE: u8 = 0x12;

/// The four bytes of a word, most significant first.
pub open spec fn be_bytes(w: u32) -> Seq<u8> {
    seq![
        (w / 0x100_0000) as u8,
        ((w / 0x1_0000) % 0x100) as u8,
        ((w / 0x100) % 0x100) as u8,
        (w % 0x100) as u8,
    ]
}

/// The word that four bytes spell, most significant first.
pub open spec fn be_word(b: Seq<u8>) -> u32
    recommends
        b.len() == 4,
{
    (b[0] * 0x100_0000 + b[1] * 0x1_0000 + b[2] * 0x100 + b[3]) as u32
}

/// The bits of a signed number, in two's complement.
pub open spec fn int_bits(a: i32) -> u32 {
    if a >= 0 {
        a as u32
    } else {
        (a + 0x1_0000_0000) as u32
    }
}

/// The signed number that the bits spell, in two's complement.
pub open spec fn bits_int(w: u32) -> i32 {
    if w < 0x8000_0000 {
        w as i32
    } else {
        (w - 0x1_0000_0000) as i32
    }
}

/// Reading a word back from its bytes gives the word.
pub proof fn lemma_word_round_trip(w: u32)
    ensures
        be_bytes(w).len() == 4,
        be_word(be_bytes(w)) == w,
{
}

/// Reading a signed number back from its bits gives the number.
pub proof fn lemma_int_round_trip(a: i32)
    ensures
        bits_int(int_bits(a)) == a,
{
}

/// The bits of a signed number.
pub fn to_bits(a: i32) -> (r: u32)
    ensures
        r == int_bits(a),
{
    if a >= 0 {
        a as u32
    } else {
        ((a as i64) + 0x1_0000_0000) as u32
    }
}

/// The signed number of some bits.
pub fn from_bits(w: u32) -> (r: i32)
    ensures
        r == bits_int(w),
{
    if w < 0x8000_0000 {
        w as i32
    } else {
        ((w as i64) - 0x1_0000_0000) as i32
    }
}

/// Appends a word, most significant byte first.
pub fn push_word(bin: &mut Vec<u8>, w: u32)
    ensures
        final(bin)@ == old(bin)@ + be_bytes(w),
{
    bin.push((w / 0x100_0000) as u8);
    bin.push(((w / 0x1_0000) % 0x100) as u8);
    bin.push(((w / 0x100) % 0x100) as u8);
    bin.push((w % 0x100) as u8);
    assert(bin@ =~= old(bin)@ + be_bytes(w));
}

/// `bin` with the four bytes at `at` replaced by `w`.
pub open spec fn patched(bin: Seq<u8>, at: int, w: Seq<u8>) -> Seq<u8> {
    bin.subrange(0, at) + w + bin.subrange(at + 4, bin.len() as int)
}

/// Overwrites the four bytes at `at` with a word, most significant byte
/// first.
pub fn patch_word(bin: &mut Vec<u8>, at: usize, w: u32)
    requires
        at + 4 <= old(bin).len(),
    ensures
        final(bin)@ == patched(old(bin)@, at as int, be_bytes(w)),
{
    bin.set(at, (w / 0x100_0000) as u8);
    bin.set(at + 1, ((w / 0x1_0000) % 0x100) as u8);
    bin.set(at + 2, ((w / 0x100) % 0x100) as u8);
    bin.set(at + 3, (w % 0x100) as u8);
    assert(bin@ =~= patched(old(bin)@, at as int, be_bytes(w)));
}

/// Reads the word at `at`, most significant byte first.
pub fn read_word(bin: &Vec<u8>, at: usize) -> (r: u32)
    requires
        at + 4 <= bin.len(),
    ensures
        r == be_word(bin@.subrange(at as int, at + 4)),
{
    let b0: u32 = bin[at] as u32;
    let b1: u32 = bin[at + 1] as u32;
    let b2: u32 = bin[at + 2] as u32;
    let b3: u32 = bin[at + 3] as u32;
    b0 * 0x100_0000 + b1 * 0x1_0000 + b2 * 0x100 + b3
}

} // verus!
