//! Variable-length integers and length-prefixed strings.
//!
//! Unsigned integers travel in a prefix-continuation byte scheme: each
//! byte contributes its low seven bits, least-significant group first,
//! and the high bit flags a continuation. Every field of the format is
//! specified twice: once as a total spec-level encoder/decoder over byte
//! sequences, and once as executable code proved to match it.

use vstd::arithmetic::div_mod::lemma_fundamental_div_mod;
use vstd::prelude::*;
use vstd::utf8::{decode_utf8, encode_utf8, encode_utf8_decode_utf8, encode_utf8_valid_utf8,
    valid_utf8};

use crate::io::{readable, Error, Read, Write};

verus! {

/// Spec-level outcome of decoding one field from the front of a byte
/// sequence: the decoded value with the remaining bytes, or the error
/// the decoder stops with.
pub enum Decoded<T> {
    Found { value: T, rest: Seq<u8> },
    Fail { err: Error },
}

/// Both readers describe the same stream and the same reliability; a
/// decoder may move the mark but never rewrites history.
pub open spec fn preserves_reader<R: Read>(r0: &R, r1: &R) -> bool {
    &&& r1.stream() == r0.stream()
    &&& r1.reliable() == r0.reliable()
}

/// The reader's mark has not been moved past the end of its stream.
pub open spec fn reader_ok<R: Read>(r: &R) -> bool {
    r.mark() <= r.stream().len()
}

/// 128 raised to `n`: the number of values that fit in `n` seven-bit
/// groups.
pub open spec fn pow128(n: nat) -> nat
    decreases n,
{
    if n == 0 {
        1
    } else {
        128 * pow128((n - 1) as nat)
    }
}

proof fn lemma_pow128_values()
    ensures
        pow128(4) == 0x1000_0000,
        pow128(5) == 0x8_0000_0000,
        pow128(9) == 0x8000_0000_0000_0000,
        pow128(10) > u64::MAX,
{
    assert(pow128(0) == 1);
    assert(pow128(1) == 128);
    assert(pow128(2) == 0x4000);
    assert(pow128(3) == 0x20_0000);
    assert(pow128(4) == 0x1000_0000);
    assert(pow128(5) == 0x8_0000_0000);
    assert(pow128(6) == 0x400_0000_0000);
    assert(pow128(7) == 0x2_0000_0000_0000);
    assert(pow128(8) == 0x100_0000_0000_0000);
    assert(pow128(9) == 0x8000_0000_0000_0000);
    assert(pow128(10) == 128 * pow128(9));
}

proof fn lemma_pow128_le(a: nat, b: nat)
    requires
        a <= b,
    ensures
        pow128(a) <= pow128(b),
    decreases b,
{
    if a < b {
        lemma_pow128_le(a, (b - 1) as nat);
        assert(pow128(b) == 128 * pow128((b - 1) as nat));
        assert(pow128((b - 1) as nat) <= 128 * pow128((b - 1) as nat)) by (nonlinear_arith)
            requires
                pow128((b - 1) as nat) >= 0,
        ;
    }
}

/// Decode an unsigned varint that may occupy at most `max` bytes.
/// A continuation chain longer than `max` is invalid; running out of
/// bytes first is an end-of-file condition.
pub open spec fn dec_varuint(s: Seq<u8>, max: nat) -> Decoded<nat>
    decreases max,
{
    if max == 0 {
        Decoded::Fail { err: Error::InvalidData }
    } else if s.len() == 0 {
        Decoded::Fail { err: Error::UnexpectedEof }
    } else if s[0] < 128 {
        Decoded::Found { value: s[0] as nat, rest: s.skip(1) }
    } else {
        match dec_varuint(s.skip(1), (max - 1) as nat) {
            Decoded::Found { value, rest } => Decoded::Found {
                value: (s[0] - 128) as nat + 128 * value,
                rest,
            },
            Decoded::Fail { err } => Decoded::Fail { err },
        }
    }
}

/// Decode a 32-bit unsigned varint: at most five bytes, and magnitude
/// bits beyond the 32nd are discarded.
pub open spec fn dec_varuint32(s: Seq<u8>) -> Decoded<u32> {
    match dec_varuint(s, 5) {
        Decoded::Found { value, rest } => Decoded::Found {
            value: (value % 0x1_0000_0000) as u32,
            rest,
        },
        Decoded::Fail { err } => Decoded::Fail { err },
    }
}

/// Canonical encoding of an unsigned integer: seven bits per byte,
/// least-significant group first, high bit set on every byte but the
/// last.
pub open spec fn enc_varuint32(v: nat) -> Seq<u8>
    decreases v,
{
    if v < 128 {
        seq![v as u8]
    } else {
        seq![(128 + v % 128) as u8] + enc_varuint32(v / 128)
    }
}

/// A decoded varint leaves a strictly shorter remainder.
pub proof fn lemma_dec_varuint_shrinks(s: Seq<u8>, max: nat)
    ensures
        dec_varuint(s, max) matches Decoded::Found { rest, .. } ==> rest.len() < s.len(),
    decreases max,
{
    if max > 0 && s.len() > 0 && s[0] >= 128 {
        lemma_dec_varuint_shrinks(s.skip(1), (max - 1) as nat);
    }
}

/// Decoding inverts encoding: the canonical bytes of any value that
/// fits in `max` groups decode to that value, leaving the appended
/// remainder untouched.
pub proof fn lemma_varuint_round_trip(v: nat, rest: Seq<u8>, max: nat)
    requires
        1 <= max,
        v < pow128(max),
    ensures
        dec_varuint(enc_varuint32(v) + rest, max) == (Decoded::Found { value: v, rest }),
    decreases max,
{
    let s = enc_varuint32(v) + rest;
    if v < 128 {
        assert(s[0] == v as u8);
        assert(s.skip(1) =~= rest);
    } else {
        let b: u8 = (128 + v % 128) as u8;
        assert(s[0] == b);
        assert(v / 128 < pow128((max - 1) as nat)) by (nonlinear_arith)
            requires
                v < pow128(max),
                max >= 1,
                pow128(max) == 128 * pow128((max - 1) as nat),
        ;
        assert(s.skip(1) =~= enc_varuint32(v / 128) + rest);
        assert(v / 128 >= 1) by (nonlinear_arith)
            requires
                v >= 128,
        ;
        assert(max >= 2) by {
            if max == 1 {
                assert(pow128((max - 1) as nat) == 1);
            }
        }
        lemma_varuint_round_trip(v / 128, rest, (max - 1) as nat);
        lemma_fundamental_div_mod(v as int, 128);
        assert((b - 128) as nat + 128 * (v / 128) == v);
    }
}

/// Decoding the canonical bytes of a 32-bit value gives it back.
pub proof fn lemma_varuint32_round_trip(v: u32, rest: Seq<u8>)
    ensures
        dec_varuint32(enc_varuint32(v as nat) + rest) == (Decoded::Found { value: v, rest }),
{
    lemma_pow128_values();
    lemma_varuint_round_trip(v as nat, rest, 5);
}

/// A 32-bit unsigned varint must terminate within five bytes: five
/// consecutive continuation flags make the encoding invalid, whatever
/// follows.
pub proof fn lemma_varuint32_overlong_rejected(s: Seq<u8>)
    requires
        s.len() >= 5,
        forall|i: int| 0 <= i < 5 ==> s[i] >= 128,
    ensures
        dec_varuint32(s) == (Decoded::Fail::<u32> { err: Error::InvalidData }),
{
    let fail = Decoded::Fail::<nat> { err: Error::InvalidData };
    assert(s.skip(1).skip(1) =~= s.skip(2));
    assert(s.skip(2).skip(1) =~= s.skip(3));
    assert(s.skip(3).skip(1) =~= s.skip(4));
    assert(s.skip(4).skip(1) =~= s.skip(5));
    assert(s.skip(1)[0] == s[1]);
    assert(s.skip(2)[0] == s[2]);
    assert(s.skip(3)[0] == s[3]);
    assert(s.skip(4)[0] == s[4]);
    assert(dec_varuint(s.skip(5), 0) == fail);
    assert(dec_varuint(s.skip(4), 1) == fail);
    assert(dec_varuint(s.skip(3), 2) == fail);
    assert(dec_varuint(s.skip(2), 3) == fail);
    assert(dec_varuint(s.skip(1), 4) == fail);
    assert(dec_varuint(s, 5) == fail);
}

/// Read one byte from the stream.
pub fn read_byte<R: Read>(rdr: &mut R) -> (r: Result<u8, Error>)
    ensures
        preserves_reader(old(rdr), final(rdr)),
        r matches Ok(b) ==> {
            &&& reader_ok(old(rdr))
            &&& reader_ok(final(rdr))
            &&& readable(old(rdr)).len() >= 1
            &&& b == readable(old(rdr))[0]
            &&& readable(final(rdr)) == readable(old(rdr)).skip(1)
        },
        r is Err ==> final(rdr).mark() == old(rdr).mark(),
        old(rdr).reliable() ==> (r is Ok <==> readable(old(rdr)).len() >= 1),
        old(rdr).reliable() && r is Err ==> r == Err::<u8, Error>(Error::UnexpectedEof),
{
    let buf = match rdr.read(1) {
        Ok(buf) => buf,
        Err(e) => {
            return Err(e);
        },
    };
    proof {
        assert(readable(final(rdr)) =~= readable(old(rdr)).skip(1));
    }
    Ok(buf[0])
}

/// Read an unsigned varint of at most `max` bytes, mirroring
/// [`dec_varuint`] step for step.
fn read_varuint<R: Read>(rdr: &mut R, max: u8) -> (r: Result<u128, Error>)
    requires
        max <= 10,
    ensures
        preserves_reader(old(rdr), final(rdr)),
        r matches Ok(v) ==> {
            &&& reader_ok(old(rdr))
            &&& reader_ok(final(rdr))
            &&& dec_varuint(readable(old(rdr)), max as nat) == (Decoded::Found {
                value: v as nat,
                rest: readable(final(rdr)),
            })
            &&& (v as nat) < pow128(max as nat)
        },
        old(rdr).reliable() ==> (r matches Err(e) ==> dec_varuint(readable(old(rdr)), max as nat)
            == (Decoded::Fail::<nat> { err: e })),
    decreases max,
{
    if max == 0 {
        return Err(Error::InvalidData);
    }
    let b = match read_byte(rdr) {
        Ok(b) => b,
        Err(e) => {
            return Err(e);
        },
    };
    if b < 128 {
        proof {
            lemma_pow128_le(1, max as nat);
            assert(pow128(0) == 1);
            assert(pow128(1) == 128);
        }
        Ok(b as u128)
    } else {
        let v = match read_varuint(rdr, max - 1) {
            Ok(v) => v,
            Err(e) => {
                return Err(e);
            },
        };
        proof {
            lemma_pow128_le((max - 1) as nat, 9);
            lemma_pow128_values();
            assert(128 * (v as nat) <= 128 * (pow128((max - 1) as nat) - 1)) by (nonlinear_arith)
                requires
                    (v as nat) < pow128((max - 1) as nat),
            ;
            assert(pow128(max as nat) == 128 * pow128((max - 1) as nat));
            let s0 = readable(old(rdr));
            assert(s0.len() >= 1 && s0[0] == b && b >= 128);
            assert(dec_varuint(s0, max as nat) == (Decoded::Found {
                value: (b - 128) as nat + 128 * (v as nat),
                rest: readable(rdr),
            }));
        }
        Ok((b - 128) as u128 + 128 * v)
    }
}

/// A 32-bit unsigned integer carried in variable-length form.
#[derive(Debug, Clone, Copy, PartialEq, Eq, Structural)]
pub struct VarUint32(pub u32);

impl From<u32> for VarUint32 {
    fn from(v: u32) -> (r: VarUint32) {
        VarUint32(v)
    }
}

impl vstd::std_specs::convert::FromSpecImpl<u32> for VarUint32 {
    open spec fn obeys_from_spec() -> bool {
        true
    }

    open spec fn from_spec(v: u32) -> VarUint32 {
        VarUint32(v)
    }
}

impl VarUint32 {
    /// The carried value.
    pub fn value(&self) -> (v: u32)
        ensures
            v == self.0,
    {
        self.0
    }

    /// Write the canonical variable-length encoding of the value.
    pub fn serialize<W: Write>(&self, wtr: &mut W) -> (r: Result<(), Error>)
        ensures
            final(wtr).infallible() == old(wtr).infallible(),
            r is Ok ==> final(wtr).sink() == old(wtr).sink() + enc_varuint32(self.0 as nat),
            old(wtr).infallible() ==> r is Ok,
    {
        let mut v = self.0;
        let mut out: Vec<u8> = Vec::new();
        while v >= 128
            invariant
                out@ + enc_varuint32(v as nat) == enc_varuint32(self.0 as nat),
            decreases v,
        {
            out.push((v % 128 + 128) as u8);
            proof {
                assert(out@ + enc_varuint32((v / 128) as nat) =~= enc_varuint32(self.0 as nat));
            }
            v = v / 128;
        }
        out.push(v as u8);
        proof {
            assert(out@ =~= enc_varuint32(self.0 as nat));
        }
        wtr.write(out.as_slice())
    }

    /// Read a 32-bit unsigned varint: at most five bytes, magnitude
    /// bits beyond the 32nd discarded.
    pub fn deserialize<R: Read>(rdr: &mut R) -> (r: Result<VarUint32, Error>)
        ensures
            preserves_reader(old(rdr), final(rdr)),
            r matches Ok(v) ==> {
                &&& reader_ok(old(rdr))
                &&& reader_ok(final(rdr))
                &&& dec_varuint32(readable(old(rdr))) == (Decoded::Found {
                    value: v.0,
                    rest: readable(final(rdr)),
                })
            },
            old(rdr).reliable() ==> (r matches Err(e) ==> dec_varuint32(readable(old(rdr)))
                == (Decoded::Fail::<u32> { err: e })),
    {
        let v = match read_varuint(rdr, 5) {
            Ok(v) => v,
            Err(e) => {
                return Err(e);
            },
        };
        Ok(VarUint32((v % 0x1_0000_0000) as u32))
    }
}

/// Decode a 64-bit unsigned varint: at most ten bytes, and magnitude
/// bits beyond the 64th are discarded.
pub open spec fn dec_varuint64(s: Seq<u8>) -> Decoded<u64> {
    match dec_varuint(s, 10) {
        Decoded::Found { value, rest } => Decoded::Found {
            value: (value % 0x1_0000_0000_0000_0000) as u64,
            rest,
        },
        Decoded::Fail { err } => Decoded::Fail { err },
    }
}

/// Decoding the canonical bytes of a 64-bit value gives it back.
pub proof fn lemma_varuint64_round_trip(v: u64, rest: Seq<u8>)
    ensures
        dec_varuint64(enc_varuint32(v as nat) + rest) == (Decoded::Found { value: v, rest }),
{
    lemma_pow128_values();
    lemma_varuint_round_trip(v as nat, rest, 10);
}

/// A 64-bit unsigned integer carried in variable-length form.
#[derive(Debug, Clone, Copy, PartialEq, Eq, Structural)]
pub struct VarUint64(pub u64);

impl From<u64> for VarUint64 {
    fn from(v: u64) -> (r: VarUint64) {
        VarUint64(v)
    }
}

impl vstd::std_specs::convert::FromSpecImpl<u64> for VarUint64 {
    open spec fn obeys_from_spec() -> bool {
        true
    }

    open spec fn from_spec(v: u64) -> VarUint64 {
        VarUint64(v)
    }
}

impl VarUint64 {
    /// The carried value.
    pub fn value(&self) -> (v: u64)
        ensures
            v == self.0,
    {
        self.0
    }

    /// Write the canonical variable-length encoding of the value.
    pub fn serialize<W: Write>(&self, wtr: &mut W) -> (r: Result<(), Error>)
        ensures
            final(wtr).infallible() == old(wtr).infallible(),
            r is Ok ==> final(wtr).sink() == old(wtr).sink() + enc_varuint32(self.0 as nat),
            old(wtr).infallible() ==> r is Ok,
    {
        let mut v = self.0;
        let mut out: Vec<u8> = Vec::new();
        while v >= 128
            invariant
                out@ + enc_varuint32(v as nat) == enc_varuint32(self.0 as nat),
            decreases v,
        {
            out.push((v % 128 + 128) as u8);
            proof {
                assert(out@ + enc_varuint32((v / 128) as nat) =~= enc_varuint32(self.0 as nat));
            }
            v = v / 128;
        }
        out.push(v as u8);
        proof {
            assert(out@ =~= enc_varuint32(self.0 as nat));
        }
        wtr.write(out.as_slice())
    }

    /// Read a 64-bit unsigned varint: at most ten bytes, magnitude bits
    /// beyond the 64th discarded.
    pub fn deserialize<R: Read>(rdr: &mut R) -> (r: Result<VarUint64, Error>)
        ensures
            preserves_reader(old(rdr), final(rdr)),
            r matches Ok(v) ==> {
                &&& reader_ok(old(rdr))
                &&& reader_ok(final(rdr))
                &&& dec_varuint64(readable(old(rdr))) == (Decoded::Found {
                    value: v.0,
                    rest: readable(final(rdr)),
                })
            },
            old(rdr).reliable() ==> (r matches Err(e) ==> dec_varuint64(readable(old(rdr)))
                == (Decoded::Fail::<u64> { err: e })),
    {
        let v = match read_varuint(rdr, 10) {
            Ok(v) => v,
            Err(e) => {
                return Err(e);
            },
        };
        Ok(VarUint64((v % 0x1_0000_0000_0000_0000) as u64))
    }
}

/// A single-byte field restricted to seven bits of magnitude.
#[derive(Debug, Clone, Copy, PartialEq, Eq, Structural)]
pub struct VarUint7(pub u8);

impl From<u8> for VarUint7 {
    fn from(v: u8) -> (r: VarUint7) {
        VarUint7(v)
    }
}

impl vstd::std_specs::convert::FromSpecImpl<u8> for VarUint7 {
    open spec fn obeys_from_spec() -> bool {
        true
    }

    open spec fn from_spec(v: u8) -> VarUint7 {
        VarUint7(v)
    }
}

/// Decode a seven-bit field: a single byte whose continuation bit must
/// be clear.
pub open spec fn dec_varuint7(s: Seq<u8>) -> Decoded<u8> {
    if s.len() == 0 {
        Decoded::Fail { err: Error::UnexpectedEof }
    } else if s[0] >= 128 {
        Decoded::Fail { err: Error::InvalidData }
    } else {
        Decoded::Found { value: s[0], rest: s.skip(1) }
    }
}

impl VarUint7 {
    /// The carried byte.
    pub fn value(&self) -> (v: u8)
        ensures
            v == self.0,
    {
        self.0
    }

    /// Write the byte as it stands.
    pub fn serialize<W: Write>(&self, wtr: &mut W) -> (r: Result<(), Error>)
        ensures
            final(wtr).infallible() == old(wtr).infallible(),
            r is Ok ==> final(wtr).sink() == old(wtr).sink() + seq![self.0],
            old(wtr).infallible() ==> r is Ok,
    {
        let mut out: Vec<u8> = Vec::new();
        out.push(self.0);
        proof {
            assert(out@ =~= seq![self.0]);
        }
        wtr.write(out.as_slice())
    }

    /// Read one byte, rejecting a set continuation bit.
    pub fn deserialize<R: Read>(rdr: &mut R) -> (r: Result<VarUint7, Error>)
        ensures
            preserves_reader(old(rdr), final(rdr)),
            r matches Ok(v) ==> {
                &&& reader_ok(old(rdr))
                &&& reader_ok(final(rdr))
                &&& dec_varuint7(readable(old(rdr))) == (Decoded::Found {
                    value: v.0,
                    rest: readable(final(rdr)),
                })
            },
            old(rdr).reliable() ==> (r matches Err(e) ==> dec_varuint7(readable(old(rdr)))
                == (Decoded::Fail::<u8> { err: e })),
    {
        let b = match read_byte(rdr) {
            Ok(b) => b,
            Err(e) => {
                return Err(e);
            },
        };
        if b >= 128 {
            return Err(Error::InvalidData);
        }
        Ok(VarUint7(b))
    }
}

/// Encoding of a string: its byte length as a varint, then its UTF-8
/// bytes.
pub open spec fn enc_string(s: Seq<char>) -> Seq<u8> {
    enc_varuint32(encode_utf8(s).len()) + encode_utf8(s)
}

/// Decode a length-prefixed UTF-8 string.
pub open spec fn dec_string(s: Seq<u8>) -> Decoded<Seq<char>> {
    match dec_varuint32(s) {
        Decoded::Found { value: n, rest } => {
            if rest.len() < n as nat {
                Decoded::Fail { err: Error::UnexpectedEof }
            } else if valid_utf8(rest.take(n as int)) {
                Decoded::Found { value: decode_utf8(rest.take(n as int)), rest: rest.skip(n as int) }
            } else {
                Decoded::Fail { err: Error::InvalidData }
            }
        },
        Decoded::Fail { err } => Decoded::Fail { err },
    }
}

/// A decoded string leaves a strictly shorter remainder.
pub proof fn lemma_dec_string_shrinks(s: Seq<u8>)
    ensures
        dec_string(s) matches Decoded::Found { rest, .. } ==> rest.len() < s.len(),
{
    lemma_dec_varuint_shrinks(s, 5);
}

/// Decoding inverts encoding for strings whose UTF-8 form fits a
/// 32-bit length.
pub proof fn lemma_string_round_trip(s: Seq<char>, rest: Seq<u8>)
    requires
        encode_utf8(s).len() <= u32::MAX,
    ensures
        dec_string(enc_string(s) + rest) == (Decoded::Found { value: s, rest }),
{
    let bytes = encode_utf8(s);
    let n = bytes.len() as u32;
    assert(enc_string(s) + rest =~= enc_varuint32(n as nat) + (bytes + rest));
    lemma_varuint32_round_trip(n, bytes + rest);
    assert((bytes + rest).take(n as int) =~= bytes);
    assert((bytes + rest).skip(n as int) =~= rest);
    encode_utf8_valid_utf8(s);
    encode_utf8_decode_utf8(s);
}

/// Relies on `String::from_utf8`: it succeeds exactly on valid UTF-8
/// and returns the character sequence that the bytes encode.
#[verifier::external_body]
fn string_from_utf8(bytes: Vec<u8>) -> (r: Result<String, Error>)
    ensures
        match r {
            Ok(s) => valid_utf8(bytes@) && s@ == decode_utf8(bytes@),
            Err(e) => !valid_utf8(bytes@) && e == Error::InvalidData,
        },
{
    match String::from_utf8(bytes) {
        Ok(s) => Ok(s),
        Err(_) => Err(Error::InvalidData),
    }
}

/// Write a string as its varint byte length followed by its UTF-8
/// bytes; a string longer than a 32-bit length can carry is rejected.
pub fn serialize_string<W: Write>(s: &str, wtr: &mut W) -> (r: Result<(), Error>)
    ensures
        final(wtr).infallible() == old(wtr).infallible(),
        r is Ok ==> final(wtr).sink() == old(wtr).sink() + enc_string(s@),
        old(wtr).infallible() ==> (r is Ok <==> encode_utf8(s@).len() <= u32::MAX),
        old(wtr).infallible() && r is Err ==> r == Err::<(), Error>(Error::InvalidData),
{
    let bytes = s.as_bytes();
    if bytes.len() > u32::MAX as usize {
        return Err(Error::InvalidData);
    }
    let ghost sink0 = wtr.sink();
    let len = VarUint32(bytes.len() as u32);
    match len.serialize(wtr) {
        Ok(_) => {},
        Err(e) => {
            return Err(e);
        },
    }
    match wtr.write(bytes) {
        Ok(_) => {},
        Err(e) => {
            return Err(e);
        },
    }
    proof {
        assert(final(wtr).sink() =~= sink0 + enc_string(s@));
    }
    Ok(())
}

/// Read a varint byte length, then that many bytes, decoded as UTF-8.
pub fn deserialize_string<R: Read>(rdr: &mut R) -> (r: Result<String, Error>)
    ensures
        preserves_reader(old(rdr), final(rdr)),
        r matches Ok(s) ==> {
            &&& reader_ok(old(rdr))
            &&& reader_ok(final(rdr))
            &&& dec_string(readable(old(rdr))) == (Decoded::Found {
                value: s@,
                rest: readable(final(rdr)),
            })
        },
        old(rdr).reliable() ==> (r matches Err(e) ==> dec_string(readable(old(rdr)))
            == (Decoded::Fail::<Seq<char>> { err: e })),
{
    let n = match VarUint32::deserialize(rdr) {
        Ok(n) => n,
        Err(e) => {
            return Err(e);
        },
    };
    let ghost mid = readable(rdr);
    let bytes = match rdr.read(n.0 as usize) {
        Ok(bytes) => bytes,
        Err(e) => {
            return Err(e);
        },
    };
    proof {
        assert(bytes@ =~= mid.take(n.0 as int));
        assert(readable(final(rdr)) =~= mid.skip(n.0 as int));
    }
    string_from_utf8(bytes)
}

} // verus!
