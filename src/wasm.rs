//! The WebAssembly binary format: primitive encodings shared by every part of a module.
mod instruction;
mod module;
pub mod section;
mod value;

pub use instruction::{block_type, Instruction};
pub use module::{header, Module};
pub use value::ValueType;

use vstd::prelude::*;

verus! {

/// Unsigned LEB128: seven data bits per byte, least significant group first,
/// the high bit set on every byte but the last.
pub open spec fn uleb(n: nat) -> Seq<u8>
    decreases n,
{
    if n < 128 {
        seq![n as u8]
    } else {
        seq![(n % 128 + 128) as u8] + uleb(n / 128)
    }
}

/// Signed LEB128: like `uleb`, but it stops at the first group after which the
/// remaining bits all equal the sign bit of that group.
pub open spec fn sleb(v: int) -> Seq<u8>
    decreases (if v >= 0 { v } else { -v }),
{
    if -64 <= v < 64 {
        seq![(v % 128) as u8]
    } else {
        seq![(v % 128 + 128) as u8] + sleb(v / 128)
    }
}

/// The number that unsigned LEB128 bytes stand for, read up to the first byte
/// without the continuation bit.
pub open spec fn uleb_value(bytes: Seq<u8>) -> nat
    decreases bytes.len(),
{
    if bytes.len() == 0 {
        0
    } else if bytes[0] < 128 {
        bytes[0] as nat
    } else {
        (bytes[0] - 128) as nat + 128 * uleb_value(bytes.drop_first())
    }
}

/// The number that signed LEB128 bytes stand for: bit 6 of the last byte read
/// is the sign.
pub open spec fn sleb_value(bytes: Seq<u8>) -> int
    decreases bytes.len(),
{
    if bytes.len() == 0 {
        0
    } else if bytes[0] < 64 {
        bytes[0] as int
    } else if bytes[0] < 128 {
        bytes[0] - 128
    } else {
        (bytes[0] - 128) + 128 * sleb_value(bytes.drop_first())
    }
}

/// Decoding the unsigned LEB128 encoding of any number gives that number back.
pub proof fn lemma_uleb_round_trip(n: nat)
    ensures
        uleb_value(uleb(n)) == n,
    decreases n,
{
    if n >= 128 {
        lemma_uleb_round_trip(n / 128);
        assert(uleb(n).drop_first() == uleb(n / 128));
        assert(n == n % 128 + 128 * (n / 128)) by (nonlinear_arith);
    }
}

/// Decoding the signed LEB128 encoding of any integer gives that integer back.
pub proof fn lemma_sleb_round_trip(v: int)
    ensures
        sleb_value(sleb(v)) == v,
    decreases (if v >= 0 { v } else { -v }),
{
    if !(-64 <= v < 64) {
        lemma_sleb_round_trip(v / 128);
        assert(sleb(v).drop_first() == sleb(v / 128));
        assert(v == v % 128 + 128 * (v / 128)) by (nonlinear_arith);
    }
}

/// A number below 128 takes exactly one byte, itself.
pub proof fn lemma_uleb_small(n: nat)
    requires
        n < 128,
    ensures
        uleb(n) == seq![n as u8],
        uleb(n).len() == 1,
{
}

/// Relies on `leb128::write::unsigned`, which writes `uleb(n)`; writing into a
/// `Vec<u8>` never fails.
#[verifier::external_body]
fn write_unsigned(n: u64) -> (r: Vec<u8>)
    ensures
        r@ == uleb(n as nat),
{
    let mut buffer = Vec::new();
    let _ = leb128::write::unsigned(&mut buffer, n);
    buffer
}

/// Relies on `leb128::write::signed`, which writes `sleb(v)`; writing into a
/// `Vec<u8>` never fails.
#[verifier::external_body]
fn write_signed(v: i64) -> (r: Vec<u8>)
    ensures
        r@ == sleb(v as int),
{
    let mut buffer = Vec::new();
    let _ = leb128::write::signed(&mut buffer, v);
    buffer
}

/// A value with a WebAssembly binary encoding.
pub trait WasmEncodable {
    spec fn encoding(&self) -> Seq<u8>;

    fn wasm_encode(&self) -> (r: Vec<u8>)
        ensures
            r@ == self.encoding(),
    ;
}

impl WasmEncodable for usize {
    open spec fn encoding(&self) -> Seq<u8> {
        uleb(*self as nat)
    }

    fn wasm_encode(&self) -> (r: Vec<u8>) {
        write_unsigned(*self as u64)
    }
}

impl WasmEncodable for u32 {
    open spec fn encoding(&self) -> Seq<u8> {
        uleb(*self as nat)
    }

    fn wasm_encode(&self) -> (r: Vec<u8>) {
        write_unsigned(*self as u64)
    }
}

impl WasmEncodable for u8 {
    open spec fn encoding(&self) -> Seq<u8> {
        seq![*self]
    }

    fn wasm_encode(&self) -> (r: Vec<u8>) {
        vec![*self]
    }
}

impl WasmEncodable for i32 {
    open spec fn encoding(&self) -> Seq<u8> {
        sleb(*self as int)
    }

    fn wasm_encode(&self) -> (r: Vec<u8>) {
        let value: i64 = *self as i64;
        assert(value as int == *self as int);
        let r = write_signed(value);
        assert(r@ == sleb(*self as int));
        assert(r@ == self.encoding());
        r
    }
}

/// The encodings of the elements of `s`, one after another.
pub open spec fn concat_encodings<T: WasmEncodable>(s: Seq<T>) -> Seq<u8>
    decreases s.len(),
{
    if s.len() == 0 {
        Seq::empty()
    } else {
        concat_encodings(s.drop_last()) + s.last().encoding()
    }
}

impl<T: WasmEncodable> WasmEncodable for Vec<T> {
    open spec fn encoding(&self) -> Seq<u8> {
        uleb(self@.len()) + concat_encodings(self@)
    }

    fn wasm_encode(&self) -> (r: Vec<u8>) {
        let mut result = write_unsigned(self.len() as u64);
        let mut i: usize = 0;
        while i < self.len()
            invariant
                i <= self@.len(),
                result@ == uleb(self@.len()) + concat_encodings(self@.subrange(0, i as int)),
            decreases self@.len() - i,
        {
            let mut item = self[i].wasm_encode();
            result.append(&mut item);
            proof {
                let s = self@.subrange(0, i + 1);
                assert(s.drop_last() == self@.subrange(0, i as int));
            }
            i = i + 1;
        }
        assert(self@.subrange(0, self@.len() as int) == self@);
        result
    }
}

impl WasmEncodable for String {
    open spec fn encoding(&self) -> Seq<u8> {
        uleb(vstd::utf8::encode_utf8(self@).len()) + vstd::utf8::encode_utf8(self@)
    }

    fn wasm_encode(&self) -> (r: Vec<u8>) {
        let mut bytes = self.as_str().as_bytes_vec();
        let mut result = write_unsigned(bytes.len() as u64);
        result.append(&mut bytes);
        result
    }
}

impl<A: WasmEncodable, B: WasmEncodable> WasmEncodable for (A, B) {
    open spec fn encoding(&self) -> Seq<u8> {
        self.0.encoding() + self.1.encoding()
    }

    fn wasm_encode(&self) -> (r: Vec<u8>) {
        let mut result = self.0.wasm_encode();
        let mut second = self.1.wasm_encode();
        result.append(&mut second);
        result
    }
}

} // verus!
