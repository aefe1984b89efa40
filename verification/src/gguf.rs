//! GGUF header reader: magic, version, key/value metadata and the tensor table, read from the
//! leading bytes of a file.
//!
//! Per-tensor byte sizes are derived from the offsets of consecutive tensors in the data section
//! (plus the file length for the last one), so no quant-type table is needed. The reader works on
//! a prefix of the file: when the header runs past the bytes given, it answers `NeedBytes` and the
//! caller reads more.
use vstd::prelude::*;
use vstd::string::*;
use crate::text::{chars_of, dec, is_digit, upper_seq, upper_chars, string_of, push_dec, find_chars, first_index, occurs_at, parse_uint, parse_uint_chars, starts_with, starts_with_at};


verus! {

/// A metadata value. Floats are kept as their IEEE-754 bit patterns; arrays only as their element
/// type and length (a 150k-token vocabulary is never pulled into memory).
#[derive(Debug)]
pub enum Value {
    U8(u8),
    I8(i8),
    U16(u16),
    I16(i16),
    U32(u32),
    I32(i32),
    /// Bit pattern of an `f32`.
    F32(u32),
    Bool(bool),
    Str(String),
    U64(u64),
    I64(i64),
    /// Bit pattern of an `f64`.
    F64(u64),
    Array { elem_type: u32, len: u64 },
}

/// The mathematical form of a [`Value`].
pub enum ValueV {
    U8(u8),
    I8(i8),
    U16(u16),
    I16(i16),
    U32(u32),
    I32(i32),
    F32(u32),
    Bool(bool),
    Str(Seq<char>),
    U64(u64),
    I64(i64),
    F64(u64),
    Array { elem_type: u32, len: u64 },
}

impl View for Value {
    type V = ValueV;

    open spec fn view(&self) -> ValueV {
        match self {
            Value::U8(x) => ValueV::U8(*x),
            Value::I8(x) => ValueV::I8(*x),
            Value::U16(x) => ValueV::U16(*x),
            Value::I16(x) => ValueV::I16(*x),
            Value::U32(x) => ValueV::U32(*x),
            Value::I32(x) => ValueV::I32(*x),
            Value::F32(x) => ValueV::F32(*x),
            Value::Bool(x) => ValueV::Bool(*x),
            Value::Str(s) => ValueV::Str(s@),
            Value::U64(x) => ValueV::U64(*x),
            Value::I64(x) => ValueV::I64(*x),
            Value::F64(x) => ValueV::F64(*x),
            Value::Array { elem_type, len } => ValueV::Array { elem_type: *elem_type, len: *len },
        }
    }
}

/// A non-negative integer value, whatever its width.
pub open spec fn value_as_u64(v: ValueV) -> Option<u64> {
    match v {
        ValueV::U8(x) => Some(x as u64),
        ValueV::U16(x) => Some(x as u64),
        ValueV::U32(x) => Some(x as u64),
        ValueV::U64(x) => Some(x),
        ValueV::I8(x) => if x >= 0 { Some(x as u64) } else { None },
        ValueV::I16(x) => if x >= 0 { Some(x as u64) } else { None },
        ValueV::I32(x) => if x >= 0 { Some(x as u64) } else { None },
        ValueV::I64(x) => if x >= 0 { Some(x as u64) } else { None },
        _ => None,
    }
}

/// The text of a string value.
pub open spec fn value_as_str(v: ValueV) -> Option<Seq<char>> {
    match v {
        ValueV::Str(s) => Some(s),
        _ => None,
    }
}

impl Value {
    /// The value as a `u64` when it is a non-negative integer.
    pub fn as_u64(&self) -> (r: Option<u64>)
        ensures
            r == value_as_u64(self@),
    {
        match self {
            Value::U8(v) => Some(*v as u64),
            Value::U16(v) => Some(*v as u64),
            Value::U32(v) => Some(*v as u64),
            Value::U64(v) => Some(*v),
            Value::I8(v) => if *v >= 0 { Some(*v as u64) } else { None },
            Value::I16(v) => if *v >= 0 { Some(*v as u64) } else { None },
            Value::I32(v) => if *v >= 0 { Some(*v as u64) } else { None },
            Value::I64(v) => if *v >= 0 { Some(*v as u64) } else { None },
            _ => None,
        }
    }

    /// The value as text when it is a string.
    pub fn as_str(&self) -> (r: Option<&str>)
        ensures
            r is Some <==> value_as_str(self@) is Some,
            r matches Some(s) ==> s@ == value_as_str(self@)->0,
    {
        match self {
            Value::Str(s) => Some(s.as_str()),
            _ => None,
        }
    }
}

/// Why a header could not be read.
#[derive(Debug)]
pub enum GgufError {
    /// Not a GGUF file (bad magic).
    BadMagic,
    /// Unsupported GGUF version.
    Version(u32),
    /// Unknown value type.
    ValueType(u32),
    /// The header runs past the end of the file.
    Eof,
    /// The header runs past the bytes given; the file has more.
    NeedBytes,
    /// Malformed header.
    Malformed(&'static str),
}

// ------------------------------------------------------------------------------------------------
// Reading primitive values at a position. `fl` is the file's length, `s` the bytes read so far
// (a prefix of the file); positions never pass `fl`.

/// What stops reading `n` bytes at `p`, if anything.
pub open spec fn need(s: Seq<u8>, fl: u64, p: u64, n: u64) -> Option<GgufError> {
    if n > fl - p {
        Some(GgufError::Eof)
    } else if p + n > s.len() {
        Some(GgufError::NeedBytes)
    } else {
        None
    }
}

/// Little-endian `u16` at `p`.
pub open spec fn le2(s: Seq<u8>, p: int) -> u16 {
    (s[p] + s[p + 1] * 256) as u16
}

/// Little-endian `u32` at `p`.
pub open spec fn le4(s: Seq<u8>, p: int) -> u32 {
    (s[p] + s[p + 1] * 256 + s[p + 2] * 65536 + s[p + 3] * 16777216) as u32
}

/// Little-endian `u64` at `p`.
pub open spec fn le8(s: Seq<u8>, p: int) -> u64 {
    (le4(s, p) + le4(s, p + 4) * 4294967296) as u64
}

pub open spec fn spec_u8(s: Seq<u8>, fl: u64, p: u64) -> Result<(u8, u64), GgufError> {
    match need(s, fl, p, 1) {
        Some(e) => Err(e),
        None => Ok((s[p as int], (p + 1) as u64)),
    }
}

pub open spec fn spec_u16(s: Seq<u8>, fl: u64, p: u64) -> Result<(u16, u64), GgufError> {
    match need(s, fl, p, 2) {
        Some(e) => Err(e),
        None => Ok((le2(s, p as int), (p + 2) as u64)),
    }
}

pub open spec fn spec_u32(s: Seq<u8>, fl: u64, p: u64) -> Result<(u32, u64), GgufError> {
    match need(s, fl, p, 4) {
        Some(e) => Err(e),
        None => Ok((le4(s, p as int), (p + 4) as u64)),
    }
}

pub open spec fn spec_u64(s: Seq<u8>, fl: u64, p: u64) -> Result<(u64, u64), GgufError> {
    match need(s, fl, p, 8) {
        Some(e) => Err(e),
        None => Ok((le8(s, p as int), (p + 8) as u64)),
    }
}

/// The text `String::from_utf8_lossy` makes of some bytes.
pub uninterp spec fn lossy_utf8(bytes: Seq<u8>) -> Seq<char>;

/// Longest string the reader accepts, in bytes.
pub const MAX_STRING_BYTES: u64 = 0x100_0000;

/// A length-prefixed string at `p`.
pub open spec fn spec_str(s: Seq<u8>, fl: u64, p: u64) -> Result<(Seq<char>, u64), GgufError> {
    match spec_u64(s, fl, p) {
        Err(e) => Err(e),
        Ok((n, q)) => if n > MAX_STRING_BYTES {
            Err(GgufError::Malformed("string too long"))
        } else {
            match need(s, fl, q, n) {
                Some(e) => Err(e),
                None => Ok((lossy_utf8(s.subrange(q as int, q + n)), (q + n) as u64)),
            }
        },
    }
}

/// Position after skipping `n` bytes at `p` (skipping stops at the end of the file).
pub open spec fn skip_to(fl: u64, p: u64, n: u64) -> u64 {
    if n > fl - p { fl } else { (p + n) as u64 }
}

/// Skips `k` length-prefixed strings starting at `p`.
pub open spec fn spec_skip_strings(s: Seq<u8>, fl: u64, p: u64, k: nat) -> Result<u64, GgufError>
    decreases k,
{
    if k == 0 {
        Ok(p)
    } else {
        match spec_skip_strings(s, fl, p, (k - 1) as nat) {
            Err(e) => Err(e),
            Ok(q) => match spec_u64(s, fl, q) {
                Err(e) => Err(e),
                Ok((n, r)) => Ok(skip_to(fl, r, n)),
            },
        }
    }
}

/// Byte size of a scalar value type.
pub open spec fn spec_scalar_size(t: u32) -> Option<u64> {
    if t == 0 || t == 1 || t == 7 {
        Some(1)
    } else if t == 2 || t == 3 {
        Some(2)
    } else if t == 4 || t == 5 || t == 6 {
        Some(4)
    } else if t == 10 || t == 11 || t == 12 {
        Some(8)
    } else {
        None
    }
}

/// An array value at `p` (element type and length, then the skipped elements).
pub open spec fn spec_array(s: Seq<u8>, fl: u64, p: u64) -> Result<(ValueV, u64), GgufError> {
    match spec_u32(s, fl, p) {
        Err(e) => Err(e),
        Ok((et, q)) => match spec_u64(s, fl, q) {
            Err(e) => Err(e),
            Ok((len, r)) => if et == 8 {
                match spec_skip_strings(s, fl, r, len as nat) {
                    Err(e) => Err(e),
                    Ok(e) => Ok((ValueV::Array { elem_type: et, len }, e)),
                }
            } else if et == 9 {
                Err(GgufError::Malformed("nested arrays unsupported"))
            } else {
                match spec_scalar_size(et) {
                    None => Err(GgufError::ValueType(et)),
                    Some(sz) => Ok((ValueV::Array { elem_type: et, len }, skip_to(fl, r, sz.wrapping_mul(len)))),
                }
            },
        },
    }
}

/// A value of type `t` at `p`.
pub open spec fn spec_value(s: Seq<u8>, fl: u64, p: u64, t: u32) -> Result<(ValueV, u64), GgufError> {
    if t == 0 {
        match spec_u8(s, fl, p) { Err(e) => Err(e), Ok((x, q)) => Ok((ValueV::U8(x), q)) }
    } else if t == 1 {
        match spec_u8(s, fl, p) { Err(e) => Err(e), Ok((x, q)) => Ok((ValueV::I8(x as i8), q)) }
    } else if t == 2 {
        match spec_u16(s, fl, p) { Err(e) => Err(e), Ok((x, q)) => Ok((ValueV::U16(x), q)) }
    } else if t == 3 {
        match spec_u16(s, fl, p) { Err(e) => Err(e), Ok((x, q)) => Ok((ValueV::I16(x as i16), q)) }
    } else if t == 4 {
        match spec_u32(s, fl, p) { Err(e) => Err(e), Ok((x, q)) => Ok((ValueV::U32(x), q)) }
    } else if t == 5 {
        match spec_u32(s, fl, p) { Err(e) => Err(e), Ok((x, q)) => Ok((ValueV::I32(x as i32), q)) }
    } else if t == 6 {
        match spec_u32(s, fl, p) { Err(e) => Err(e), Ok((x, q)) => Ok((ValueV::F32(x), q)) }
    } else if t == 7 {
        match spec_u8(s, fl, p) { Err(e) => Err(e), Ok((x, q)) => Ok((ValueV::Bool(x != 0), q)) }
    } else if t == 8 {
        match spec_str(s, fl, p) { Err(e) => Err(e), Ok((x, q)) => Ok((ValueV::Str(x), q)) }
    } else if t == 9 {
        spec_array(s, fl, p)
    } else if t == 10 {
        match spec_u64(s, fl, p) { Err(e) => Err(e), Ok((x, q)) => Ok((ValueV::U64(x), q)) }
    } else if t == 11 {
        match spec_u64(s, fl, p) { Err(e) => Err(e), Ok((x, q)) => Ok((ValueV::I64(x as i64), q)) }
    } else if t == 12 {
        match spec_u64(s, fl, p) { Err(e) => Err(e), Ok((x, q)) => Ok((ValueV::F64(x), q)) }
    } else {
        Err(GgufError::ValueType(t))
    }
}

// ------------------------------------------------------------------------------------------------
// Executable readers, each equal to its spec.

fn rd_need(buf: &[u8], fl: u64, p: u64, n: u64) -> (r: Option<GgufError>)
    requires
        p <= fl,
        buf@.len() <= fl,
    ensures
        r == need(buf@, fl, p, n),
        buf@.len() <= usize::MAX,
{
    let blen = buf.len();
    if n > fl - p {
        Some(GgufError::Eof)
    } else if p + n > blen as u64 {
        Some(GgufError::NeedBytes)
    } else {
        None
    }
}

fn rd_u8(buf: &[u8], fl: u64, p: u64) -> (r: Result<(u8, u64), GgufError>)
    requires
        p <= fl,
        buf@.len() <= fl,
    ensures
        r == spec_u8(buf@, fl, p),
        r matches Ok((_, q)) ==> q <= fl,
{
    if let Some(e) = rd_need(buf, fl, p, 1) {
        return Err(e);
    }
    let i = p as usize;
    Ok((buf[i], p + 1))
}

fn rd_u16(buf: &[u8], fl: u64, p: u64) -> (r: Result<(u16, u64), GgufError>)
    requires
        p <= fl,
        buf@.len() <= fl,
    ensures
        r == spec_u16(buf@, fl, p),
        r matches Ok((_, q)) ==> q <= fl,
{
    if let Some(e) = rd_need(buf, fl, p, 2) {
        return Err(e);
    }
    let i = p as usize;
    let v: u16 = buf[i] as u16 + buf[i + 1] as u16 * 256;
    Ok((v, p + 2))
}

fn le4_at(buf: &[u8], i: usize) -> (v: u32)
    requires
        i + 4 <= buf@.len(),
    ensures
        v == le4(buf@, i as int),
{
    buf[i] as u32 + buf[i + 1] as u32 * 256 + buf[i + 2] as u32 * 65536 + buf[i + 3] as u32 * 16777216
}

fn rd_u32(buf: &[u8], fl: u64, p: u64) -> (r: Result<(u32, u64), GgufError>)
    requires
        p <= fl,
        buf@.len() <= fl,
    ensures
        r == spec_u32(buf@, fl, p),
        r matches Ok((_, q)) ==> q <= fl,
{
    if let Some(e) = rd_need(buf, fl, p, 4) {
        return Err(e);
    }
    let i = p as usize;
    Ok((le4_at(buf, i), p + 4))
}

fn rd_u64(buf: &[u8], fl: u64, p: u64) -> (r: Result<(u64, u64), GgufError>)
    requires
        p <= fl,
        buf@.len() <= fl,
    ensures
        r == spec_u64(buf@, fl, p),
        r matches Ok((_, q)) ==> q <= fl,
{
    if let Some(e) = rd_need(buf, fl, p, 8) {
        return Err(e);
    }
    let i = p as usize;
    let lo = le4_at(buf, i);
    let hi = le4_at(buf, i + 4);
    Ok((lo as u64 + hi as u64 * 4294967296, p + 8))
}

/// The text of some bytes, invalid UTF-8 replaced (`String::from_utf8_lossy`).
#[verifier::external_body]
pub(crate) fn utf8_lossy(bytes: &[u8]) -> (s: String)
    ensures
        s@ == lossy_utf8(bytes@),
{
    String::from_utf8_lossy(bytes).into_owned()
}

fn rd_str(buf: &[u8], fl: u64, p: u64) -> (r: Result<(String, u64), GgufError>)
    requires
        p <= fl,
        buf@.len() <= fl,
    ensures
        match r {
            Ok((t, q)) => spec_str(buf@, fl, p) == Ok::<(Seq<char>, u64), GgufError>((t@, q)) && q <= fl,
            Err(e) => spec_str(buf@, fl, p) == Err::<(Seq<char>, u64), GgufError>(e),
        },
{
    let (n, q) = match rd_u64(buf, fl, p) {
        Ok(x) => x,
        Err(e) => return Err(e),
    };
    if n > MAX_STRING_BYTES {
        return Err(GgufError::Malformed("string too long"));
    }
    if let Some(e) = rd_need(buf, fl, q, n) {
        return Err(e);
    }
    let a = q as usize;
    let b = (q + n) as usize;
    let t = utf8_lossy(&buf[a..b]);
    Ok((t, q + n))
}

fn skip(fl: u64, p: u64, n: u64) -> (r: u64)
    requires
        p <= fl,
    ensures
        r == skip_to(fl, p, n),
        r <= fl,
{
    if n > fl - p { fl } else { p + n }
}

/// Once a left-to-right reading fails, every longer reading fails the same way.
proof fn lemma_skip_strings_err(s: Seq<u8>, fl: u64, p: u64, i: nat, k: nat, e: GgufError)
    requires
        i <= k,
        spec_skip_strings(s, fl, p, i) == Err::<u64, GgufError>(e),
    ensures
        spec_skip_strings(s, fl, p, k) == Err::<u64, GgufError>(e),
    decreases k - i,
{
    if i < k {
        lemma_skip_strings_err(s, fl, p, i, (k - 1) as nat, e);
    }
}

fn rd_skip_strings(buf: &[u8], fl: u64, p: u64, k: u64) -> (r: Result<u64, GgufError>)
    requires
        p <= fl,
        buf@.len() <= fl,
    ensures
        r == spec_skip_strings(buf@, fl, p, k as nat),
        r matches Ok(q) ==> q <= fl,
{
    let mut q = p;
    let mut i: u64 = 0;
    while i < k
        invariant
            i <= k,
            p <= fl,
            buf@.len() <= fl,
            q <= fl,
            spec_skip_strings(buf@, fl, p, i as nat) == Ok::<u64, GgufError>(q),
        decreases k - i,
    {
        match rd_u64(buf, fl, q) {
            Err(e) => {
                proof {
                    lemma_skip_strings_err(buf@, fl, p, (i + 1) as nat, k as nat, e);
                }
                return Err(e);
            }
            Ok((n, r)) => {
                q = skip(fl, r, n);
            }
        }
        i = i + 1;
    }
    Ok(q)
}

fn scalar_size(t: u32) -> (r: Option<u64>)
    ensures
        r == spec_scalar_size(t),
{
    if t == 0 || t == 1 || t == 7 {
        Some(1)
    } else if t == 2 || t == 3 {
        Some(2)
    } else if t == 4 || t == 5 || t == 6 {
        Some(4)
    } else if t == 10 || t == 11 || t == 12 {
        Some(8)
    } else {
        None
    }
}

fn rd_array(buf: &[u8], fl: u64, p: u64) -> (r: Result<(Value, u64), GgufError>)
    requires
        p <= fl,
        buf@.len() <= fl,
    ensures
        match r {
            Ok((v, q)) => spec_array(buf@, fl, p) == Ok::<(ValueV, u64), GgufError>((v@, q)) && q <= fl,
            Err(e) => spec_array(buf@, fl, p) == Err::<(ValueV, u64), GgufError>(e),
        },
{
    let (et, q) = match rd_u32(buf, fl, p) {
        Ok(x) => x,
        Err(e) => return Err(e),
    };
    let (len, r) = match rd_u64(buf, fl, q) {
        Ok(x) => x,
        Err(e) => return Err(e),
    };
    if et == 8 {
        match rd_skip_strings(buf, fl, r, len) {
            Ok(e) => Ok((Value::Array { elem_type: et, len }, e)),
            Err(e) => Err(e),
        }
    } else if et == 9 {
        Err(GgufError::Malformed("nested arrays unsupported"))
    } else {
        match scalar_size(et) {
            None => Err(GgufError::ValueType(et)),
            Some(sz) => Ok((Value::Array { elem_type: et, len }, skip(fl, r, sz.wrapping_mul(len)))),
        }
    }
}

fn rd_value(buf: &[u8], fl: u64, p: u64, t: u32) -> (r: Result<(Value, u64), GgufError>)
    requires
        p <= fl,
        buf@.len() <= fl,
    ensures
        match r {
            Ok((v, q)) => spec_value(buf@, fl, p, t) == Ok::<(ValueV, u64), GgufError>((v@, q)) && q <= fl,
            Err(e) => spec_value(buf@, fl, p, t) == Err::<(ValueV, u64), GgufError>(e),
        },
{
    if t == 0 {
        match rd_u8(buf, fl, p) { Err(e) => Err(e), Ok((x, q)) => Ok((Value::U8(x), q)) }
    } else if t == 1 {
        match rd_u8(buf, fl, p) { Err(e) => Err(e), Ok((x, q)) => Ok((Value::I8(x as i8), q)) }
    } else if t == 2 {
        match rd_u16(buf, fl, p) { Err(e) => Err(e), Ok((x, q)) => Ok((Value::U16(x), q)) }
    } else if t == 3 {
        match rd_u16(buf, fl, p) { Err(e) => Err(e), Ok((x, q)) => Ok((Value::I16(x as i16), q)) }
    } else if t == 4 {
        match rd_u32(buf, fl, p) { Err(e) => Err(e), Ok((x, q)) => Ok((Value::U32(x), q)) }
    } else if t == 5 {
        match rd_u32(buf, fl, p) { Err(e) => Err(e), Ok((x, q)) => Ok((Value::I32(x as i32), q)) }
    } else if t == 6 {
        match rd_u32(buf, fl, p) { Err(e) => Err(e), Ok((x, q)) => Ok((Value::F32(x), q)) }
    } else if t == 7 {
        match rd_u8(buf, fl, p) { Err(e) => Err(e), Ok((x, q)) => Ok((Value::Bool(x != 0), q)) }
    } else if t == 8 {
        match rd_str(buf, fl, p) { Err(e) => Err(e), Ok((x, q)) => Ok((Value::Str(x), q)) }
    } else if t == 9 {
        rd_array(buf, fl, p)
    } else if t == 10 {
        match rd_u64(buf, fl, p) { Err(e) => Err(e), Ok((x, q)) => Ok((Value::U64(x), q)) }
    } else if t == 11 {
        match rd_u64(buf, fl, p) { Err(e) => Err(e), Ok((x, q)) => Ok((Value::I64(x as i64), q)) }
    } else if t == 12 {
        match rd_u64(buf, fl, p) { Err(e) => Err(e), Ok((x, q)) => Ok((Value::F64(x), q)) }
    } else {
        Err(GgufError::ValueType(t))
    }
}

// ------------------------------------------------------------------------------------------------
// Key/value metadata: later keys replace earlier ones.

/// The metadata table, in file order.
pub struct KvMap {
    pub entries: Vec<(String, Value)>,
}

/// The map a sequence of entries stands for: a later entry for a key replaces an earlier one.
pub open spec fn kv_view(e: Seq<(String, Value)>) -> Map<Seq<char>, ValueV>
    decreases e.len(),
{
    if e.len() == 0 {
        Map::empty()
    } else {
        kv_view(e.drop_last()).insert(e.last().0@, e.last().1@)
    }
}

impl View for KvMap {
    type V = Map<Seq<char>, ValueV>;

    open spec fn view(&self) -> Map<Seq<char>, ValueV> {
        kv_view(self.entries@)
    }
}

/// The value stored under `k`, if any.
pub open spec fn kv_get(m: Map<Seq<char>, ValueV>, k: Seq<char>) -> Option<ValueV> {
    if m.contains_key(k) { Some(m[k]) } else { None }
}

proof fn lemma_kv_found(e: Seq<(String, Value)>, k: Seq<char>, i: int)
    requires
        0 <= i < e.len(),
        e[i].0@ == k,
        forall|j: int| i < j < e.len() ==> e[j].0@ != k,
    ensures
        kv_view(e).contains_key(k),
        kv_view(e)[k] == e[i].1@,
    decreases e.len(),
{
    if i < e.len() - 1 {
        lemma_kv_found(e.drop_last(), k, i);
    }
}

proof fn lemma_kv_absent(e: Seq<(String, Value)>, k: Seq<char>)
    requires
        forall|j: int| 0 <= j < e.len() ==> e[j].0@ != k,
    ensures
        !kv_view(e).contains_key(k),
    decreases e.len(),
{
    if e.len() > 0 {
        lemma_kv_absent(e.drop_last(), k);
    }
}

impl KvMap {
    /// An empty table.
    pub fn new() -> (m: KvMap)
        ensures
            m@ == Map::<Seq<char>, ValueV>::empty(),
    {
        KvMap { entries: Vec::new() }
    }

    /// Stores `v` under `k`, replacing what was there.
    pub fn insert(&mut self, k: String, v: Value)
        ensures
            final(self)@ == old(self)@.insert(k@, v@),
    {
        self.entries.push((k, v));
        assert(self.entries@.drop_last() =~= old(self).entries@);
    }

    /// The value stored under `k`.
    pub fn get(&self, k: &String) -> (r: Option<&Value>)
        ensures
            r is Some <==> self@.contains_key(k@),
            r matches Some(v) ==> v@ == self@[k@],
            kv_get(self@, k@) == (match r { Some(v) => Some(v@), None => None::<ValueV> }),
    {
        let mut i = self.entries.len();
        while i > 0
            invariant
                i <= self.entries@.len(),
                forall|j: int| i <= j < self.entries@.len() ==> self.entries@[j].0@ != k@,
            decreases i,
        {
            i = i - 1;
            if self.entries[i].0 == *k {
                proof {
                    lemma_kv_found(self.entries@, k@, i as int);
                }
                return Some(&self.entries[i].1);
            }
        }
        proof {
            lemma_kv_absent(self.entries@, k@);
        }
        None
    }
}

/// Reads one key/value entry at `p`.
pub open spec fn spec_kv_entry(s: Seq<u8>, fl: u64, p: u64) -> Result<(Seq<char>, ValueV, u64), GgufError> {
    match spec_str(s, fl, p) {
        Err(e) => Err(e),
        Ok((key, q)) => match spec_u32(s, fl, q) {
            Err(e) => Err(e),
            Ok((t, r)) => match spec_value(s, fl, r, t) {
                Err(e) => Err(e),
                Ok((v, w)) => Ok((key, v, w)),
            },
        },
    }
}

/// Reads `k` key/value entries at `p`.
pub open spec fn spec_kvs(s: Seq<u8>, fl: u64, p: u64, k: nat) -> Result<(Map<Seq<char>, ValueV>, u64), GgufError>
    decreases k,
{
    if k == 0 {
        Ok((Map::empty(), p))
    } else {
        match spec_kvs(s, fl, p, (k - 1) as nat) {
            Err(e) => Err(e),
            Ok((m, q)) => match spec_kv_entry(s, fl, q) {
                Err(e) => Err(e),
                Ok((key, v, r)) => Ok((m.insert(key, v), r)),
            },
        }
    }
}

proof fn lemma_kvs_err(s: Seq<u8>, fl: u64, p: u64, i: nat, k: nat, e: GgufError)
    requires
        i <= k,
        spec_kvs(s, fl, p, i) == Err::<(Map<Seq<char>, ValueV>, u64), GgufError>(e),
    ensures
        spec_kvs(s, fl, p, k) == Err::<(Map<Seq<char>, ValueV>, u64), GgufError>(e),
    decreases k - i,
{
    if i < k {
        lemma_kvs_err(s, fl, p, i, (k - 1) as nat, e);
    }
}

fn rd_kvs(buf: &[u8], fl: u64, p: u64, k: u64) -> (r: Result<(KvMap, u64), GgufError>)
    requires
        p <= fl,
        buf@.len() <= fl,
    ensures
        match r {
            Ok((m, q)) => spec_kvs(buf@, fl, p, k as nat) == Ok::<(Map<Seq<char>, ValueV>, u64), GgufError>((m@, q)) && q <= fl,
            Err(e) => spec_kvs(buf@, fl, p, k as nat) == Err::<(Map<Seq<char>, ValueV>, u64), GgufError>(e),
        },
{
    let mut m = KvMap::new();
    let mut q = p;
    let mut i: u64 = 0;
    while i < k
        invariant
            i <= k,
            p <= fl,
            buf@.len() <= fl,
            q <= fl,
            spec_kvs(buf@, fl, p, i as nat) == Ok::<(Map<Seq<char>, ValueV>, u64), GgufError>((m@, q)),
        decreases k - i,
    {
        let (key, q1) = match rd_str(buf, fl, q) {
            Ok(x) => x,
            Err(e) => {
                proof { lemma_kvs_err(buf@, fl, p, (i + 1) as nat, k as nat, e); }
                return Err(e);
            }
        };
        let (t, q2) = match rd_u32(buf, fl, q1) {
            Ok(x) => x,
            Err(e) => {
                proof { lemma_kvs_err(buf@, fl, p, (i + 1) as nat, k as nat, e); }
                return Err(e);
            }
        };
        let (v, q3) = match rd_value(buf, fl, q2, t) {
            Ok(x) => x,
            Err(e) => {
                proof { lemma_kvs_err(buf@, fl, p, (i + 1) as nat, k as nat, e); }
                return Err(e);
            }
        };
        m.insert(key, v);
        q = q3;
        i = i + 1;
    }
    Ok((m, q))
}

// ------------------------------------------------------------------------------------------------
// The tensor table.

/// One row of the tensor table; `bytes` is derived from the offsets.
#[derive(Debug)]
pub struct TensorInfo {
    pub name: String,
    pub dims: Vec<u64>,
    pub ggml_type: u32,
    pub offset: u64,
    pub bytes: u64,
}

/// The mathematical form of a [`TensorInfo`].
pub struct TensorV {
    pub name: Seq<char>,
    pub dims: Seq<u64>,
    pub ggml_type: u32,
    pub offset: u64,
    pub bytes: u64,
}

impl View for TensorInfo {
    type V = TensorV;

    open spec fn view(&self) -> TensorV {
        TensorV { name: self.name@, dims: self.dims@, ggml_type: self.ggml_type, offset: self.offset, bytes: self.bytes }
    }
}

/// The views of a sequence of tensors.
pub open spec fn tensors_view(ts: Seq<TensorInfo>) -> Seq<TensorV> {
    Seq::new(ts.len(), |i: int| ts[i]@)
}

/// Reads `k` little-endian `u64` dimensions at `p`.
pub open spec fn spec_dims(s: Seq<u8>, fl: u64, p: u64, k: nat) -> Result<(Seq<u64>, u64), GgufError>
    decreases k,
{
    if k == 0 {
        Ok((Seq::empty(), p))
    } else {
        match spec_dims(s, fl, p, (k - 1) as nat) {
            Err(e) => Err(e),
            Ok((d, q)) => match spec_u64(s, fl, q) {
                Err(e) => Err(e),
                Ok((x, r)) => Ok((d.push(x), r)),
            },
        }
    }
}

proof fn lemma_dims_err(s: Seq<u8>, fl: u64, p: u64, i: nat, k: nat, e: GgufError)
    requires
        i <= k,
        spec_dims(s, fl, p, i) == Err::<(Seq<u64>, u64), GgufError>(e),
    ensures
        spec_dims(s, fl, p, k) == Err::<(Seq<u64>, u64), GgufError>(e),
    decreases k - i,
{
    if i < k {
        lemma_dims_err(s, fl, p, i, (k - 1) as nat, e);
    }
}

/// Most dimensions a tensor may have.
pub const MAX_DIMS: u32 = 8;

/// Reads one tensor-table row at `p` (its size is not known yet: 0).
pub open spec fn spec_tensor(s: Seq<u8>, fl: u64, p: u64) -> Result<(TensorV, u64), GgufError> {
    match spec_str(s, fl, p) {
        Err(e) => Err(e),
        Ok((name, q)) => match spec_u32(s, fl, q) {
            Err(e) => Err(e),
            Ok((n_dims, q1)) => if n_dims > MAX_DIMS {
                Err(GgufError::Malformed("n_dims > 8"))
            } else {
                match spec_dims(s, fl, q1, n_dims as nat) {
                    Err(e) => Err(e),
                    Ok((dims, q2)) => match spec_u32(s, fl, q2) {
                        Err(e) => Err(e),
                        Ok((ggml_type, q3)) => match spec_u64(s, fl, q3) {
                            Err(e) => Err(e),
                            Ok((offset, q4)) => Ok((TensorV { name, dims, ggml_type, offset, bytes: 0 }, q4)),
                        },
                    },
                }
            },
        },
    }
}

/// Reads `k` tensor-table rows at `p`.
pub open spec fn spec_tensors(s: Seq<u8>, fl: u64, p: u64, k: nat) -> Result<(Seq<TensorV>, u64), GgufError>
    decreases k,
{
    if k == 0 {
        Ok((Seq::empty(), p))
    } else {
        match spec_tensors(s, fl, p, (k - 1) as nat) {
            Err(e) => Err(e),
            Ok((ts, q)) => match spec_tensor(s, fl, q) {
                Err(e) => Err(e),
                Ok((t, r)) => Ok((ts.push(t), r)),
            },
        }
    }
}

proof fn lemma_tensors_err(s: Seq<u8>, fl: u64, p: u64, i: nat, k: nat, e: GgufError)
    requires
        i <= k,
        spec_tensors(s, fl, p, i) == Err::<(Seq<TensorV>, u64), GgufError>(e),
    ensures
        spec_tensors(s, fl, p, k) == Err::<(Seq<TensorV>, u64), GgufError>(e),
    decreases k - i,
{
    if i < k {
        lemma_tensors_err(s, fl, p, i, (k - 1) as nat, e);
    }
}

fn rd_tensor(buf: &[u8], fl: u64, p: u64) -> (r: Result<(TensorInfo, u64), GgufError>)
    requires
        p <= fl,
        buf@.len() <= fl,
    ensures
        match r {
            Ok((t, q)) => spec_tensor(buf@, fl, p) == Ok::<(TensorV, u64), GgufError>((t@, q)) && q <= fl,
            Err(e) => spec_tensor(buf@, fl, p) == Err::<(TensorV, u64), GgufError>(e),
        },
{
    let (name, q) = match rd_str(buf, fl, p) {
        Ok(x) => x,
        Err(e) => return Err(e),
    };
    let (n_dims, q1) = match rd_u32(buf, fl, q) {
        Ok(x) => x,
        Err(e) => return Err(e),
    };
    if n_dims > MAX_DIMS {
        return Err(GgufError::Malformed("n_dims > 8"));
    }
    let mut dims: Vec<u64> = Vec::new();
    let mut q2 = q1;
    let mut i: u32 = 0;
    while i < n_dims
        invariant
            i <= n_dims,
            p <= fl,
            buf@.len() <= fl,
            q2 <= fl,
            q <= fl,
            q1 <= fl,
            n_dims <= MAX_DIMS,
            spec_str(buf@, fl, p) == Ok::<(Seq<char>, u64), GgufError>((name@, q)),
            spec_u32(buf@, fl, q) == Ok::<(u32, u64), GgufError>((n_dims, q1)),
            spec_dims(buf@, fl, q1, i as nat) == Ok::<(Seq<u64>, u64), GgufError>((dims@, q2)),
        decreases n_dims - i,
    {
        match rd_u64(buf, fl, q2) {
            Ok((x, r)) => {
                dims.push(x);
                q2 = r;
            }
            Err(e) => {
                proof { lemma_dims_err(buf@, fl, q1, (i + 1) as nat, n_dims as nat, e); }
                return Err(e);
            }
        }
        i = i + 1;
    }
    let (ggml_type, q3) = match rd_u32(buf, fl, q2) {
        Ok(x) => x,
        Err(e) => return Err(e),
    };
    let (offset, q4) = match rd_u64(buf, fl, q3) {
        Ok(x) => x,
        Err(e) => return Err(e),
    };
    Ok((TensorInfo { name, dims, ggml_type, offset, bytes: 0 }, q4))
}

fn rd_tensors(buf: &[u8], fl: u64, p: u64, k: u64) -> (r: Result<(Vec<TensorInfo>, u64), GgufError>)
    requires
        p <= fl,
        buf@.len() <= fl,
    ensures
        match r {
            Ok((ts, q)) => spec_tensors(buf@, fl, p, k as nat) == Ok::<(Seq<TensorV>, u64), GgufError>((tensors_view(ts@), q)) && q <= fl,
            Err(e) => spec_tensors(buf@, fl, p, k as nat) == Err::<(Seq<TensorV>, u64), GgufError>(e),
        },
{
    let mut ts: Vec<TensorInfo> = Vec::new();
    assert(tensors_view(ts@) =~= Seq::<TensorV>::empty());
    let mut q = p;
    let mut i: u64 = 0;
    while i < k
        invariant
            i <= k,
            p <= fl,
            buf@.len() <= fl,
            q <= fl,
            spec_tensors(buf@, fl, p, i as nat) == Ok::<(Seq<TensorV>, u64), GgufError>((tensors_view(ts@), q)),
        decreases k - i,
    {
        match rd_tensor(buf, fl, q) {
            Ok((t, r)) => {
                let ghost before = ts@;
                ts.push(t);
                assert(tensors_view(ts@) =~= tensors_view(before).push(ts@.last()@));
                q = r;
            }
            Err(e) => {
                proof { lemma_tensors_err(buf@, fl, p, (i + 1) as nat, k as nat, e); }
                return Err(e);
            }
        }
        i = i + 1;
    }
    Ok((ts, q))
}

// ------------------------------------------------------------------------------------------------
// The header as a whole.

/// What the header holds before sizes are derived.
pub struct HeaderV {
    pub version: u32,
    pub n_tensors: u64,
    pub kv: Map<Seq<char>, ValueV>,
    pub tensors: Seq<TensorV>,
    /// Position just past the tensor table.
    pub end: u64,
}

/// Whether the first four bytes are `GGUF`.
pub open spec fn magic_ok(s: Seq<u8>) -> bool {
    s[0] == 0x47 && s[1] == 0x47 && s[2] == 0x55 && s[3] == 0x46
}

/// Reads the whole header: magic, version (2 or 3), counts, metadata and tensor table.
pub open spec fn spec_header(s: Seq<u8>, fl: u64) -> Result<HeaderV, GgufError> {
    match need(s, fl, 0, 4) {
        Some(e) => Err(e),
        None => if !magic_ok(s) {
            Err(GgufError::BadMagic)
        } else {
            match spec_u32(s, fl, 4) {
                Err(e) => Err(e),
                Ok((version, q)) => if !(2 <= version && version <= 3) {
                    Err(GgufError::Version(version))
                } else {
                    match spec_u64(s, fl, q) {
                        Err(e) => Err(e),
                        Ok((n_tensors, q1)) => match spec_u64(s, fl, q1) {
                            Err(e) => Err(e),
                            Ok((n_kv, q2)) => match spec_kvs(s, fl, q2, n_kv as nat) {
                                Err(e) => Err(e),
                                Ok((kv, q3)) => match spec_tensors(s, fl, q3, n_tensors as nat) {
                                    Err(e) => Err(e),
                                    Ok((tensors, q4)) => Ok(HeaderV { version, n_tensors, kv, tensors, end: q4 }),
                                },
                            },
                        },
                    }
                },
            }
        },
    }
}

/// The header, read.
pub struct Header {
    pub version: u32,
    pub n_tensors: u64,
    pub kv: KvMap,
    pub tensors: Vec<TensorInfo>,
    pub end: u64,
}

impl Header {
    pub open spec fn matches(&self, h: HeaderV) -> bool {
        &&& self.version == h.version
        &&& self.n_tensors == h.n_tensors
        &&& self.kv@ == h.kv
        &&& tensors_view(self.tensors@) == h.tensors
        &&& self.end == h.end
    }
}

/// Reads the header from the leading bytes `buf` of a file of `fl` bytes.
pub fn read_header(buf: &[u8], fl: u64) -> (r: Result<Header, GgufError>)
    requires
        buf@.len() <= fl,
    ensures
        match r {
            Ok(h) => spec_header(buf@, fl) matches Ok(hv) && h.matches(hv) && h.end <= fl,
            Err(e) => spec_header(buf@, fl) == Err::<HeaderV, GgufError>(e),
        },
{
    if let Some(e) = rd_need(buf, fl, 0, 4) {
        return Err(e);
    }
    if !(buf[0] == 0x47 && buf[1] == 0x47 && buf[2] == 0x55 && buf[3] == 0x46) {
        return Err(GgufError::BadMagic);
    }
    let (version, q) = match rd_u32(buf, fl, 4) {
        Ok(x) => x,
        Err(e) => return Err(e),
    };
    if !(2 <= version && version <= 3) {
        return Err(GgufError::Version(version));
    }
    let (n_tensors, q1) = match rd_u64(buf, fl, q) {
        Ok(x) => x,
        Err(e) => return Err(e),
    };
    let (n_kv, q2) = match rd_u64(buf, fl, q1) {
        Ok(x) => x,
        Err(e) => return Err(e),
    };
    let (kv, q3) = match rd_kvs(buf, fl, q2, n_kv) {
        Ok(x) => x,
        Err(e) => return Err(e),
    };
    let (tensors, q4) = match rd_tensors(buf, fl, q3, n_tensors) {
        Ok(x) => x,
        Err(e) => return Err(e),
    };
    Ok(Header { version, n_tensors, kv, tensors, end: q4 })
}

// ------------------------------------------------------------------------------------------------
// Tensor sizes: the distance from a tensor's offset to the next offset in (offset, index) order,
// or to the end of the data section for the last tensor.

/// Whether tensor `j` comes after tensor `i` in (offset, index) order.
pub open spec fn after(ts: Seq<TensorV>, i: int, j: int) -> bool {
    0 <= j < ts.len() && j != i && (ts[j].offset > ts[i].offset || (ts[j].offset == ts[i].offset && j > i))
}

/// Whether `o` is the offset of the tensor that follows tensor `i`.
pub open spec fn is_next_offset(ts: Seq<TensorV>, i: int, o: u64) -> bool {
    &&& exists|j: int| after(ts, i, j) && ts[j].offset == o
    &&& forall|j: int| after(ts, i, j) ==> o <= ts[j].offset
}

/// Where tensor `i`'s bytes end.
pub open spec fn tensor_end(ts: Seq<TensorV>, i: int, data_len: u64) -> u64 {
    if exists|j: int| after(ts, i, j) {
        choose|o: u64| is_next_offset(ts, i, o)
    } else {
        data_len
    }
}

/// Byte size of tensor `i` (0 when the end lies before its offset).
pub open spec fn tensor_size(ts: Seq<TensorV>, i: int, data_len: u64) -> u64 {
    let e = tensor_end(ts, i, data_len);
    if e >= ts[i].offset { (e - ts[i].offset) as u64 } else { 0 }
}

/// The tensors with their sizes filled in.
pub open spec fn sized(ts: Seq<TensorV>, data_len: u64) -> Seq<TensorV> {
    Seq::new(
        ts.len(),
        |i: int| TensorV { name: ts[i].name, dims: ts[i].dims, ggml_type: ts[i].ggml_type, offset: ts[i].offset, bytes: tensor_size(ts, i, data_len) },
    )
}

fn size_of_tensor(ts: &Vec<TensorInfo>, i: usize, data_len: u64) -> (b: u64)
    requires
        i < ts@.len(),
    ensures
        b == tensor_size(tensors_view(ts@), i as int, data_len),
{
    let ghost tv = tensors_view(ts@);
    let oi = ts[i].offset;
    let mut best: Option<u64> = None;
    let mut j: usize = 0;
    while j < ts.len()
        invariant
            i < ts@.len(),
            tv == tensors_view(ts@),
            oi == tv[i as int].offset,
            j <= ts@.len(),
            best is None ==> forall|k: int| 0 <= k < j ==> !after(tv, i as int, k),
            best matches Some(o) ==> (exists|k: int| 0 <= k < j && after(tv, i as int, k) && tv[k].offset == o)
                && forall|k: int| 0 <= k < j && after(tv, i as int, k) ==> o <= tv[k].offset,
        decreases ts@.len() - j,
    {
        let oj = ts[j].offset;
        assert(tv[j as int].offset == oj);
        if j != i && (oj > oi || (oj == oi && j > i)) {
            assert(after(tv, i as int, j as int));
            match best {
                None => {
                    best = Some(oj);
                }
                Some(o) => {
                    if oj < o {
                        best = Some(oj);
                    }
                }
            }
        }
        j = j + 1;
    }
    let end = match best {
        None => data_len,
        Some(o) => {
            proof {
                assert(is_next_offset(tv, i as int, o));
                let c = choose|c: u64| is_next_offset(tv, i as int, c);
                let k1 = choose|k: int| after(tv, i as int, k) && tv[k].offset == c;
                let k2 = choose|k: int| 0 <= k < j && after(tv, i as int, k) && tv[k].offset == o;
                assert(c <= tv[k2].offset);
                assert(o <= tv[k1].offset);
            }
            o
        }
    };
    if end >= oi { end - oi } else { 0 }
}

/// Fills in every tensor's size.
fn fill_sizes(ts: &mut Vec<TensorInfo>, data_len: u64)
    ensures
        tensors_view(final(ts)@) == sized(tensors_view(old(ts)@), data_len),
{
    let ghost tv = tensors_view(ts@);
    let n = ts.len();
    let mut sizes: Vec<u64> = Vec::new();
    let mut i: usize = 0;
    while i < n
        invariant
            n == ts@.len(),
            tv == tensors_view(ts@),
            i <= n,
            sizes@.len() == i,
            forall|k: int| 0 <= k < i ==> sizes@[k] == tensor_size(tv, k, data_len),
        decreases n - i,
    {
        let b = size_of_tensor(ts, i, data_len);
        sizes.push(b);
        i = i + 1;
    }
    let mut k: usize = 0;
    while k < n
        invariant
            n == ts@.len(),
            n == tv.len(),
            sizes@.len() == n,
            k <= n,
            forall|m: int| 0 <= m < n ==> sizes@[m] == tensor_size(tv, m, data_len),
            forall|m: int| 0 <= m < k ==> #[trigger] tensors_view(ts@)[m] == sized(tv, data_len)[m],
            forall|m: int| k <= m < n ==> #[trigger] tensors_view(ts@)[m] == tv[m],
        decreases n - k,
    {
        let ghost before = ts@;
        let b = sizes[k];
        ts[k].bytes = b;
        proof {
            assert(ts@[k as int].bytes == b);
            assert(ts@[k as int].name == before[k as int].name);
            assert(ts@[k as int].dims == before[k as int].dims);
            assert(ts@[k as int].offset == before[k as int].offset);
            assert(ts@[k as int].ggml_type == before[k as int].ggml_type);
            assert forall|m: int| 0 <= m < n implies #[trigger] tensors_view(ts@)[m] == (if m <= k { sized(tv, data_len)[m] } else { tv[m] }) by {
                assert(tensors_view(ts@)[m] == ts@[m]@);
                assert(tensors_view(before)[m] == before[m]@);
                if m != k {
                    assert(ts@[m] == before[m]);
                }
            }
        }
        k = k + 1;
    }
    assert(tensors_view(ts@) =~= sized(tv, data_len));
}

// ------------------------------------------------------------------------------------------------
// Which block a tensor belongs to.

/// `blk.17.attn_q.weight` → `Some(17)`: the digits between `blk.` and the next `.`, as `u32`.
pub open spec fn spec_layer_index(name: Seq<char>) -> Option<u32> {
    let prefix = seq!['b', 'l', 'k', '.'];
    if starts_with(name, prefix) {
        let rest = name.subrange(4, name.len() as int);
        match first_index(rest, seq!['.']) {
            None => None,
            Some(end) => match parse_uint(rest.subrange(0, end), u32::MAX as nat) {
                Some(v) => Some(v as u32),
                None => None,
            },
        }
    } else {
        None
    }
}

/// `blk.17.attn_q.weight` → `Some(17)`; any name outside a block → `None`.
pub fn layer_index(name: &str) -> (r: Option<u32>)
    ensures
        r == spec_layer_index(name@),
{
    let chars = chars_of(name);
    layer_index_chars(&chars)
}

/// [`layer_index`] on characters.
pub fn layer_index_chars(chars: &Vec<char>) -> (r: Option<u32>)
    ensures
        r == spec_layer_index(chars@),
{
    let prefix = vec!['b', 'l', 'k', '.'];
    assert(prefix@ =~= seq!['b', 'l', 'k', '.']);
    if !starts_with_at(chars.as_slice(), 0, prefix.as_slice()) {
        assert(!starts_with(chars@, seq!['b', 'l', 'k', '.'])) by {
            if starts_with(chars@, seq!['b', 'l', 'k', '.']) {
                assert(occurs_at(chars@, prefix@, 0));
            }
        }
        return None;
    }
    let rest = &chars.as_slice()[4..chars.len()];
    assert(rest@ =~= chars@.subrange(4, chars@.len() as int));
    let dot = vec!['.'];
    assert(dot@ =~= seq!['.']);
    match find_chars(rest, dot.as_slice()) {
        None => None,
        Some(end) => {
            match parse_uint_chars(rest, 0, end, 0xffff_ffff) {
                Some(v) => Some(v as u32),
                None => None,
            }
        },
    }
}

// ------------------------------------------------------------------------------------------------
// Bytes per block and outside blocks (sums wrap at 2^64, as `+=` on `u64` does in a release build).

/// Per-block bytes and non-block bytes after the first `k` tensors.
pub open spec fn acc_layers(ts: Seq<TensorV>, n_layer: nat, k: nat) -> (Seq<u64>, u64)
    decreases k,
{
    if k == 0 {
        (Seq::new(n_layer, |i: int| 0u64), 0u64)
    } else {
        let (lb, nl) = acc_layers(ts, n_layer, (k - 1) as nat);
        let t = ts[k - 1];
        match spec_layer_index(t.name) {
            Some(i) => if (i as nat) < n_layer {
                (lb.update(i as int, lb[i as int].wrapping_add(t.bytes)), nl)
            } else {
                (lb, nl.wrapping_add(t.bytes))
            },
            None => (lb, nl.wrapping_add(t.bytes)),
        }
    }
}

proof fn lemma_acc_len(ts: Seq<TensorV>, n_layer: nat, k: nat)
    ensures
        acc_layers(ts, n_layer, k).0.len() == n_layer,
    decreases k,
{
    if k > 0 {
        lemma_acc_len(ts, n_layer, (k - 1) as nat);
    }
}

#[verifier::spinoff_prover]
#[verifier::rlimit(40)]
fn layer_sums(ts: &Vec<TensorInfo>, n_layer: u32) -> (r: (Vec<u64>, u64))
    ensures
        (r.0@, r.1) == acc_layers(tensors_view(ts@), n_layer as nat, ts@.len()),
{
    let ghost tv = tensors_view(ts@);
    let mut lb: Vec<u64> = Vec::new();
    let mut z: u32 = 0;
    while z < n_layer
        invariant
            z <= n_layer,
            lb@ =~= Seq::new(z as nat, |i: int| 0u64),
        decreases n_layer - z,
    {
        lb.push(0);
        z = z + 1;
    }
    let mut nl: u64 = 0;
    let mut k: usize = 0;
    while k < ts.len()
        invariant
            tv == tensors_view(ts@),
            k <= ts@.len(),
            lb@.len() == n_layer,
            (lb@, nl) == acc_layers(tv, n_layer as nat, k as nat),
        decreases ts@.len() - k,
    {
        proof { lemma_acc_len(tv, n_layer as nat, (k + 1) as nat); }
        let t = &ts[k];
        assert(tv[k as int] == t@);
        match layer_index(t.name.as_str()) {
            Some(i) => {
                if i < n_layer {
                    let cur = lb[i as usize];
                    lb.set(i as usize, cur.wrapping_add(t.bytes));
                } else {
                    nl = nl.wrapping_add(t.bytes);
                }
            }
            None => {
                nl = nl.wrapping_add(t.bytes);
            }
        }
        k = k + 1;
    }
    (lb, nl)
}

// ------------------------------------------------------------------------------------------------
// Quantisation label: the file-name convention (Q4_K_M, MXFP4, Q8_0…), else `general.file_type`.

/// Separators of the pieces of a file stem.
pub open spec fn is_sep(c: char) -> bool {
    c == '-' || c == '_' || c == '.'
}

/// The pieces of `s` between separators, left to right (at least one, possibly empty).
pub open spec fn pieces(s: Seq<char>) -> Seq<Seq<char>>
    decreases s.len(),
{
    if s.len() == 0 {
        seq![Seq::<char>::empty()]
    } else {
        let p = pieces(s.drop_last());
        if is_sep(s.last()) {
            p.push(Seq::<char>::empty())
        } else {
            p.update(p.len() - 1, p.last().push(s.last()))
        }
    }
}

proof fn lemma_pieces_len(s: Seq<char>)
    ensures
        pieces(s).len() >= 1,
    decreases s.len(),
{
    if s.len() > 0 {
        lemma_pieces_len(s.drop_last());
    }
}

/// A label read straight from a piece of the name.
pub open spec fn named_label(up: Seq<char>) -> bool {
    up == seq!['M', 'X', 'F', 'P', '4'] || starts_with(up, seq!['I', 'Q']) || up == seq!['B', 'F', '1', '6']
        || up == seq!['F', '1', '6']
}

/// Looks at the last three pieces of `stem`, right to left, from the `i`-th.
pub open spec fn quant_from_pieces(stem: Seq<char>, ps: Seq<Seq<char>>, i: nat) -> Option<Seq<char>>
    decreases 3 - i,
{
    if i >= 3 || i >= ps.len() {
        None
    } else {
        let up = upper_seq(ps[ps.len() - 1 - i]);
        let qx = up.len() >= 2 && up[0] == 'Q' && is_digit(up[1]);
        if qx && first_index(upper_seq(stem), up) is Some {
            Some(stem.subrange(first_index(upper_seq(stem), up)->0, stem.len() as int))
        } else if named_label(up) {
            Some(up)
        } else {
            quant_from_pieces(stem, ps, i + 1)
        }
    }
}

/// The label `general.file_type` gives.
pub open spec fn file_type_label(kv: Map<Seq<char>, ValueV>) -> Seq<char> {
    match kv_get(kv, "general.file_type"@) {
        Some(v) => match value_as_u64(v) {
            Some(t) => if t == 1 {
                "F16"@
            } else if t == 2 {
                "Q4_0"@
            } else if t == 7 {
                "Q8_0"@
            } else if t == 15 {
                "Q4_K_M"@
            } else {
                "ftype"@ + dec(t as nat)
            },
            None => "unknown"@,
        },
        None => "unknown"@,
    }
}

/// The quantisation label of a model from its file stem and metadata.
pub open spec fn quant_label(stem: Seq<char>, kv: Map<Seq<char>, ValueV>) -> Seq<char> {
    match quant_from_pieces(stem, pieces(stem), 0) {
        Some(l) => l,
        None => file_type_label(kv),
    }
}

/// The view of `(start, end)` ranges of `s`.
pub open spec fn ranges_view(s: Seq<char>, rs: Seq<(usize, usize)>) -> Seq<Seq<char>> {
    Seq::new(rs.len(), |k: int| s.subrange(rs[k].0 as int, rs[k].1 as int))
}

fn piece_ranges(s: &Vec<char>) -> (rs: Vec<(usize, usize)>)
    ensures
        ranges_view(s@, rs@) == pieces(s@),
        forall|k: int| 0 <= k < rs@.len() ==> (#[trigger] rs@[k]).0 <= rs@[k].1 <= s@.len(),
{
    let n = s.len();
    let mut closed: Vec<(usize, usize)> = Vec::new();
    let mut start: usize = 0;
    let mut i: usize = 0;
    assert(s@.subrange(0, 0) =~= Seq::<char>::empty());
    assert(ranges_view(s@, closed@) =~= Seq::<Seq<char>>::empty());
    assert(pieces(s@.subrange(0, 0)) =~= ranges_view(s@, closed@).push(s@.subrange(0, 0)));
    while i < n
        invariant
            n == s@.len(),
            start <= i <= n,
            forall|k: int| 0 <= k < closed@.len() ==> (#[trigger] closed@[k]).0 <= closed@[k].1 <= i,
            pieces(s@.subrange(0, i as int)) =~= ranges_view(s@, closed@).push(s@.subrange(start as int, i as int)),
        decreases n - i,
    {
        let c = s[i];
        let ghost pre = s@.subrange(0, i as int);
        let ghost cur = s@.subrange(0, i + 1);
        let ghost old_closed = closed@;
        let ghost old_start = start;
        assert(cur.drop_last() =~= pre);
        assert(cur.last() == c);
        if c == '-' || c == '_' || c == '.' {
            closed.push((start, i));
            start = i + 1;
            assert(ranges_view(s@, closed@) =~= ranges_view(s@, old_closed).push(s@.subrange(old_start as int, i as int)));
            assert(s@.subrange(start as int, i + 1) =~= Seq::<char>::empty());
        } else {
            assert(s@.subrange(start as int, i + 1) =~= s@.subrange(start as int, i as int).push(c));
        }
        i = i + 1;
    }
    assert(s@.subrange(0, n as int) =~= s@);
    let ghost old_closed = closed@;
    closed.push((start, n));
    assert(ranges_view(s@, closed@) =~= ranges_view(s@, old_closed).push(s@.subrange(start as int, n as int)));
    closed
}

/// Whether two character sequences are equal.
pub fn chars_eq(a: &[char], b: &[char]) -> (r: bool)
    ensures
        r == (a@ == b@),
{
    if a.len() != b.len() {
        return false;
    }
    let r = starts_with_at(a, 0, b);
    proof {
        assert(a@.subrange(0, b@.len() as int) =~= a@);
    }
    r
}

fn is_named_label(up: &Vec<char>) -> (r: bool)
    ensures
        r == named_label(up@),
{
    let mx = vec!['M', 'X', 'F', 'P', '4'];
    let iq = vec!['I', 'Q'];
    let bf = vec!['B', 'F', '1', '6'];
    let half = vec!['F', '1', '6'];
    assert(mx@ =~= seq!['M', 'X', 'F', 'P', '4']);
    assert(iq@ =~= seq!['I', 'Q']);
    assert(bf@ =~= seq!['B', 'F', '1', '6']);
    assert(half@ =~= seq!['F', '1', '6']);
    let a = chars_eq(up.as_slice(), mx.as_slice());
    let b = up.len() >= 2 && starts_with_at(up.as_slice(), 0, iq.as_slice());
    let c = chars_eq(up.as_slice(), bf.as_slice());
    let d = chars_eq(up.as_slice(), half.as_slice());
    assert(starts_with(up@, iq@) == (up@.len() >= 2 && occurs_at(up@, iq@, 0)));
    a || b || c || d
}

fn file_type_label_of(kv: &KvMap) -> (r: String)
    ensures
        r@ == file_type_label(kv@),
{
    let key = String::from_str("general.file_type");
    match kv.get(&key) {
        Some(v) => match v.as_u64() {
            Some(t) => if t == 1 {
                String::from_str("F16")
            } else if t == 2 {
                String::from_str("Q4_0")
            } else if t == 7 {
                String::from_str("Q8_0")
            } else if t == 15 {
                String::from_str("Q4_K_M")
            } else {
                let mut r = String::from_str("ftype");
                push_dec(&mut r, t);
                r
            },
            None => String::from_str("unknown"),
        },
        None => String::from_str("unknown"),
    }
}

/// The quantisation label of a model from its file stem and metadata.
pub fn quant_label_of(stem: &Vec<char>, kv: &KvMap) -> (r: String)
    ensures
        r@ == quant_label(stem@, kv@),
{
    let rs = piece_ranges(stem);
    proof { lemma_pieces_len(stem@); }
    let ghost ps = pieces(stem@);
    let n = rs.len();
    let ustem = upper_chars(stem.as_slice());
    let mut i: usize = 0;
    while i < 3 && i < n
        invariant
            n == rs@.len(),
            n == ps.len(),
            ps == pieces(stem@),
            ranges_view(stem@, rs@) == ps,
            forall|k: int| 0 <= k < rs@.len() ==> (#[trigger] rs@[k]).0 <= rs@[k].1 <= stem@.len(),
            ustem@ == upper_seq(stem@),
            i <= 3,
            quant_from_pieces(stem@, ps, 0) == quant_from_pieces(stem@, ps, i as nat),
        decreases 3 - i,
    {
        let (a, b) = rs[n - 1 - i];
        assert(ps[n - 1 - i] == stem@.subrange(a as int, b as int));
        let piece = &stem.as_slice()[a..b];
        let up = upper_chars(piece);
        let qx = up.len() >= 2 && up[0] == 'Q' && '0' <= up[1] && up[1] <= '9';
        if qx {
            match find_chars(ustem.as_slice(), up.as_slice()) {
                Some(pos) => {
                    return string_of(stem.as_slice(), pos, stem.len());
                }
                None => {}
            }
        }
        if is_named_label(&up) {
            return string_of(up.as_slice(), 0, up.len());
        }
        i = i + 1;
    }
    file_type_label_of(kv)
}

// ------------------------------------------------------------------------------------------------
// The model.

/// What a GGUF header says about a model.
#[derive(Debug, Clone)]
pub struct ModelInfo {
    pub path: String,
    pub file_bytes: u64,
    pub version: u32,
    pub arch: String,
    pub name: String,
    pub quant_label: String,
    pub n_layer: u32,
    pub n_embd: u32,
    pub n_head: u32,
    pub n_head_kv: u32,
    pub n_ctx_train: u32,
    pub n_expert: u32,
    pub n_expert_used: u32,
    /// Bytes of tensors that live outside any `blk.N.` group (token embeddings, output head, norms).
    pub non_layer_bytes: u64,
    /// Bytes per transformer block, index = layer.
    pub layer_bytes: Vec<u64>,
    /// Approximate KV-cache bytes per context token at half (both K and V, all layers).
    pub kv_bytes_per_token: u64,
    pub tensor_count: u64,
}

/// The mathematical form of a [`ModelInfo`].
pub struct ModelInfoV {
    pub path: Seq<char>,
    pub file_bytes: u64,
    pub version: u32,
    pub arch: Seq<char>,
    pub name: Seq<char>,
    pub quant_label: Seq<char>,
    pub n_layer: u32,
    pub n_embd: u32,
    pub n_head: u32,
    pub n_head_kv: u32,
    pub n_ctx_train: u32,
    pub n_expert: u32,
    pub n_expert_used: u32,
    pub non_layer_bytes: u64,
    pub layer_bytes: Seq<u64>,
    pub kv_bytes_per_token: u64,
    pub tensor_count: u64,
}

impl View for ModelInfo {
    type V = ModelInfoV;

    open spec fn view(&self) -> ModelInfoV {
        ModelInfoV {
            path: self.path@,
            file_bytes: self.file_bytes,
            version: self.version,
            arch: self.arch@,
            name: self.name@,
            quant_label: self.quant_label@,
            n_layer: self.n_layer,
            n_embd: self.n_embd,
            n_head: self.n_head,
            n_head_kv: self.n_head_kv,
            n_ctx_train: self.n_ctx_train,
            n_expert: self.n_expert,
            n_expert_used: self.n_expert_used,
            non_layer_bytes: self.non_layer_bytes,
            layer_bytes: self.layer_bytes@,
            kv_bytes_per_token: self.kv_bytes_per_token,
            tensor_count: self.tensor_count,
        }
    }
}

/// Sum of a sequence of byte counts.
pub open spec fn sum(s: Seq<u64>) -> nat
    decreases s.len(),
{
    if s.len() == 0 { 0 } else { sum(s.drop_last()) + s.last() as nat }
}

/// Total weight bytes of a model.
pub open spec fn weight_bytes_of(m: ModelInfoV) -> nat {
    m.non_layer_bytes as nat + sum(m.layer_bytes)
}

impl ModelInfo {
    /// Bytes of all weights: the non-layer tensors plus every block.
    pub fn weight_bytes(&self) -> (r: u64)
        requires
            weight_bytes_of(self@) <= u64::MAX,
        ensures
            r == weight_bytes_of(self@),
    {
        let mut t: u64 = 0;
        let mut i: usize = 0;
        while i < self.layer_bytes.len()
            invariant
                i <= self.layer_bytes@.len(),
                weight_bytes_of(self@) <= u64::MAX,
                t == sum(self.layer_bytes@.subrange(0, i as int)),
            decreases self.layer_bytes@.len() - i,
        {
            proof {
                lemma_sum_prefix_le(self.layer_bytes@, i + 1);
                assert(self.layer_bytes@.subrange(0, i + 1).drop_last() =~= self.layer_bytes@.subrange(0, i as int));
            }
            t = t + self.layer_bytes[i];
            i = i + 1;
        }
        assert(self.layer_bytes@.subrange(0, i as int) =~= self.layer_bytes@);
        self.non_layer_bytes + t
    }

    /// KV-cache bytes at `n_ctx` tokens of context.
    pub fn kv_bytes(&self, n_ctx: u32) -> (r: u64)
        requires
            self.kv_bytes_per_token * n_ctx <= u64::MAX,
        ensures
            r == self.kv_bytes_per_token * n_ctx,
    {
        self.kv_bytes_per_token * n_ctx as u64
    }

    /// Whether the model is a mixture of experts.
    pub fn is_moe(&self) -> (r: bool)
        ensures
            r == (self.n_expert > 1),
    {
        self.n_expert > 1
    }
}

/// A prefix of a sequence never sums to more than the whole.
pub proof fn lemma_sum_prefix_le(s: Seq<u64>, k: int)
    requires
        0 <= k <= s.len(),
    ensures
        sum(s.subrange(0, k)) <= sum(s),
    decreases s.len() - k,
{
    if k < s.len() {
        lemma_sum_prefix_le(s.drop_last(), k);
        assert(s.drop_last().subrange(0, k) =~= s.subrange(0, k));
    } else {
        assert(s.subrange(0, k) =~= s);
    }
}

/// A header fully read: model facts, metadata and tensor table.
pub struct Gguf {
    pub info: ModelInfo,
    pub kv: KvMap,
    pub tensors: Vec<TensorInfo>,
}

/// The file stem of a path (`Path::file_stem`, `""` when there is none or it is not UTF-8).
pub uninterp spec fn path_file_stem(path: Seq<char>) -> Seq<char>;

/// The file stem of a path (`Path::file_stem`).
#[verifier::external_body]
fn file_stem(path: &str) -> (r: String)
    ensures
        r@ == path_file_stem(path@),
{
    std::path::Path::new(path).file_stem().and_then(|s| s.to_str()).unwrap_or("").to_string()
}

/// A text value, or a default.
pub open spec fn kv_str_or(kv: Map<Seq<char>, ValueV>, k: Seq<char>, d: Seq<char>) -> Seq<char> {
    match kv_get(kv, k) {
        Some(v) => match value_as_str(v) {
            Some(x) => x,
            None => d,
        },
        None => d,
    }
}

/// An integer value cut to 32 bits (`as u32`), or 0.
pub open spec fn kv_u32(kv: Map<Seq<char>, ValueV>, k: Seq<char>) -> u32 {
    match kv_get(kv, k) {
        Some(v) => match value_as_u64(v) {
            Some(x) => x as u32,
            None => 0,
        },
        None => 0,
    }
}

/// `{arch}.{k}`.
pub open spec fn arch_key(arch: Seq<char>, k: Seq<char>) -> Seq<char> {
    arch + seq!['.'] + k
}

/// Data-section alignment (`general.alignment`, default 32, at least 1).
pub open spec fn alignment(kv: Map<Seq<char>, ValueV>) -> u64 {
    let a = match kv_get(kv, "general.alignment"@) {
        Some(v) => match value_as_u64(v) {
            Some(x) => x,
            None => 32u64,
        },
        None => 32u64,
    };
    if a >= 1 { a } else { 1 }
}

/// Start of the data section: the header end rounded up to the alignment.
pub open spec fn data_start(end: u64, a: u64) -> int {
    (end / a + (if end % a == 0 { 0int } else { 1int })) * a
}

/// Bytes from the start of the data section to the end of the file.
pub open spec fn data_len(fl: u64, end: u64, a: u64) -> u64 {
    if fl >= data_start(end, a) { (fl - data_start(end, a)) as u64 } else { 0 }
}

/// The model facts a header gives.
pub open spec fn spec_info(h: HeaderV, fl: u64, path: Seq<char>) -> ModelInfoV {
    let kv = h.kv;
    let arch = kv_str_or(kv, "general.architecture"@, "unknown"@);
    let n_layer = kv_u32(kv, arch_key(arch, "block_count"@));
    let n_embd = kv_u32(kv, arch_key(arch, "embedding_length"@));
    let n_head = kv_u32(kv, arch_key(arch, "attention.head_count"@));
    let hkv = kv_u32(kv, arch_key(arch, "attention.head_count_kv"@));
    let n_head_kv = if hkv == 0 { n_head } else { hkv };
    let kl = kv_u32(kv, arch_key(arch, "attention.key_length"@));
    let hk = if kl == 0 && n_head > 0 { (n_embd / n_head) as u32 } else { kl };
    let vl = kv_u32(kv, arch_key(arch, "attention.value_length"@));
    let hv = if vl == 0 { hk } else { vl };
    let ts = sized(h.tensors, data_len(fl, h.end, alignment(kv)));
    let (lb, nl) = acc_layers(ts, n_layer as nat, ts.len());
    ModelInfoV {
        path,
        file_bytes: fl,
        version: h.version,
        arch,
        name: kv_str_or(kv, "general.name"@, Seq::empty()),
        quant_label: quant_label(path_file_stem(path), kv),
        n_layer,
        n_embd,
        n_head,
        n_head_kv,
        n_ctx_train: kv_u32(kv, arch_key(arch, "context_length"@)),
        n_expert: kv_u32(kv, arch_key(arch, "expert_count"@)),
        n_expert_used: kv_u32(kv, arch_key(arch, "expert_used_count"@)),
        non_layer_bytes: nl,
        layer_bytes: lb,
        kv_bytes_per_token: (n_layer as u64).wrapping_mul(n_head_kv as u64).wrapping_mul((hk + hv) as u64).wrapping_mul(2),
        tensor_count: h.n_tensors,
    }
}

fn str_or(kv: &KvMap, key: &String, d: &str) -> (r: String)
    ensures
        r@ == kv_str_or(kv@, key@, d@),
{
    match kv.get(key) {
        Some(v) => match v.as_str() {
            Some(x) => String::from_str(x),
            None => String::from_str(d),
        },
        None => String::from_str(d),
    }
}

fn u32_at(kv: &KvMap, arch: &String, k: &str) -> (r: u32)
    ensures
        r == kv_u32(kv@, arch_key(arch@, k@)),
{
    let mut key = arch.clone();
    key.append(".");
    key.append(k);
    proof {
        reveal_strlit(".");
        assert(key@ =~= arch_key(arch@, k@));
    }
    match kv.get(&key) {
        Some(v) => match v.as_u64() {
            Some(x) => x as u32,
            None => 0,
        },
        None => 0,
    }
}

fn data_len_of(fl: u64, end: u64, a: u64) -> (r: u64)
    requires
        a >= 1,
    ensures
        r == data_len(fl, end, a),
{
    let q: u128 = (end / a) as u128 + if end % a == 0 { 0 } else { 1 };
    assert(end / a <= end) by (nonlinear_arith)
        requires
            a >= 1,
    ;
    assert((q as int) * (a as int) < 0x1_0000_0000_0000_0000 * 0x1_0000_0000_0000_0000) by (nonlinear_arith)
        requires
            0 <= q <= 0x1_0000_0000_0000_0000,
            0 <= a < 0x1_0000_0000_0000_0000,
    ;
    let ds: u128 = q * a as u128;
    if fl as u128 >= ds {
        fl - ds as u64
    } else {
        0
    }
}

/// What reading a header gives: the model facts, metadata and sized tensor table.
pub open spec fn spec_read_full(s: Seq<u8>, fl: u64, path: Seq<char>) -> Result<(ModelInfoV, Map<Seq<char>, ValueV>, Seq<TensorV>), GgufError> {
    match spec_header(s, fl) {
        Err(e) => Err(e),
        Ok(h) => Ok((spec_info(h, fl, path), h.kv, sized(h.tensors, data_len(fl, h.end, alignment(h.kv))))),
    }
}

/// Reads a GGUF header from the leading bytes `buf` of the file at `path`, `fl` bytes long.
/// Touches only the header; `NeedBytes` asks for a longer prefix.
pub fn read_full(buf: &[u8], fl: u64, path: &str) -> (r: Result<Gguf, GgufError>)
    requires
        buf@.len() <= fl,
    ensures
        match r {
            Ok(g) => spec_read_full(buf@, fl, path@) == Ok::<(ModelInfoV, Map<Seq<char>, ValueV>, Seq<TensorV>), GgufError>((g.info@, g.kv@, tensors_view(g.tensors@))),
            Err(e) => spec_read_full(buf@, fl, path@) == Err::<(ModelInfoV, Map<Seq<char>, ValueV>, Seq<TensorV>), GgufError>(e),
        },
{
    let h = match read_header(buf, fl) {
        Ok(h) => h,
        Err(e) => return Err(e),
    };
    let ghost hdr = spec_header(buf@, fl)->Ok_0;
    let Header { version, n_tensors, kv, tensors, end } = h;
    let mut tensors = tensors;
    let align_key = String::from_str("general.alignment");
    let a0: u64 = match kv.get(&align_key) {
        Some(v) => match v.as_u64() {
            Some(x) => x,
            None => 32,
        },
        None => 32,
    };
    let a = if a0 >= 1 { a0 } else { 1 };
    let dl = data_len_of(fl, end, a);
    fill_sizes(&mut tensors, dl);
    let arch_key_s = String::from_str("general.architecture");
    let arch = str_or(&kv, &arch_key_s, "unknown");
    let n_layer = u32_at(&kv, &arch, "block_count");
    let n_embd = u32_at(&kv, &arch, "embedding_length");
    let n_head = u32_at(&kv, &arch, "attention.head_count");
    let hkv = u32_at(&kv, &arch, "attention.head_count_kv");
    let n_head_kv = if hkv == 0 { n_head } else { hkv };
    let kl = u32_at(&kv, &arch, "attention.key_length");
    let hk = if kl == 0 && n_head > 0 { n_embd / n_head } else { kl };
    let vl = u32_at(&kv, &arch, "attention.value_length");
    let hv = if vl == 0 { hk } else { vl };
    let kvb = (n_layer as u64).wrapping_mul(n_head_kv as u64).wrapping_mul(hk as u64 + hv as u64).wrapping_mul(2);
    let (layer_bytes, non_layer_bytes) = layer_sums(&tensors, n_layer);
    let name_key = String::from_str("general.name");
    let name = str_or(&kv, &name_key, "");
    proof {
        reveal_strlit("");
    }
    let stem = file_stem(path);
    let stem_chars = chars_of(stem.as_str());
    let quant = quant_label_of(&stem_chars, &kv);
    let n_ctx_train = u32_at(&kv, &arch, "context_length");
    let n_expert = u32_at(&kv, &arch, "expert_count");
    let n_expert_used = u32_at(&kv, &arch, "expert_used_count");
    let info = ModelInfo {
        path: String::from_str(path),
        file_bytes: fl,
        version,
        arch,
        name,
        quant_label: quant,
        n_layer,
        n_embd,
        n_head,
        n_head_kv,
        n_ctx_train,
        n_expert,
        n_expert_used,
        non_layer_bytes,
        layer_bytes,
        kv_bytes_per_token: kvb,
        tensor_count: n_tensors,
    };
    proof {
        let sp = spec_info(hdr, fl, path@);
        assert(info@.arch == sp.arch);
        assert(info@.n_layer == sp.n_layer);
        assert(info@.n_head_kv == sp.n_head_kv);
        assert(info@.name == sp.name);
        assert(info@.quant_label == sp.quant_label);
        assert(info@.kv_bytes_per_token == sp.kv_bytes_per_token);
        assert(info@.layer_bytes == sp.layer_bytes);
        assert(info@.non_layer_bytes == sp.non_layer_bytes);
        assert(info@ == sp);
    }
    Ok(Gguf { info, kv, tensors })
}

/// Reads a GGUF header's model facts (see [`read_full`]).
pub fn read(buf: &[u8], fl: u64, path: &str) -> (r: Result<ModelInfo, GgufError>)
    requires
        buf@.len() <= fl,
    ensures
        match r {
            Ok(m) => spec_read_full(buf@, fl, path@) matches Ok(t) && t.0 == m@,
            Err(e) => spec_read_full(buf@, fl, path@) == Err::<(ModelInfoV, Map<Seq<char>, ValueV>, Seq<TensorV>), GgufError>(e),
        },
{
    match read_full(buf, fl, path) {
        Ok(g) => Ok(g.info),
        Err(e) => Err(e),
    }
}

// ------------------------------------------------------------------------------------------------
// Reading more of the file changes nothing that was read; the whole file always suffices.

/// `t` holds `s` at its start.
pub open spec fn extends(s: Seq<u8>, t: Seq<u8>) -> bool {
    s.len() <= t.len() && forall|i: int| 0 <= i < s.len() ==> s[i] == t[i]
}

/// What was read from `s` and did not ask for more is read the same from a longer head `t`.
proof fn lemma_need_ext(s: Seq<u8>, t: Seq<u8>, fl: u64, p: u64, n: u64)
    requires
        extends(s, t),
        need(s, fl, p, n) != Some(GgufError::NeedBytes),
    ensures
        need(t, fl, p, n) == need(s, fl, p, n),
        need(s, fl, p, n) is None ==> forall|i: int| p <= i < p + n ==> s[i] == t[i],
{
}

proof fn lemma_u8_ext(s: Seq<u8>, t: Seq<u8>, fl: u64, p: u64)
    requires
        extends(s, t),
        spec_u8(s, fl, p) != Err::<(u8, u64), GgufError>(GgufError::NeedBytes),
    ensures
        spec_u8(t, fl, p) == spec_u8(s, fl, p),
{
    lemma_need_ext(s, t, fl, p, 1);
}

proof fn lemma_u16_ext(s: Seq<u8>, t: Seq<u8>, fl: u64, p: u64)
    requires
        extends(s, t),
        spec_u16(s, fl, p) != Err::<(u16, u64), GgufError>(GgufError::NeedBytes),
    ensures
        spec_u16(t, fl, p) == spec_u16(s, fl, p),
{
    lemma_need_ext(s, t, fl, p, 2);
    if need(s, fl, p, 2) is None {
        assert(s[p + 1] == t[p + 1]);
    }
}

proof fn lemma_u32_ext(s: Seq<u8>, t: Seq<u8>, fl: u64, p: u64)
    requires
        extends(s, t),
        spec_u32(s, fl, p) != Err::<(u32, u64), GgufError>(GgufError::NeedBytes),
    ensures
        spec_u32(t, fl, p) == spec_u32(s, fl, p),
{
    lemma_need_ext(s, t, fl, p, 4);
    if need(s, fl, p, 4) is None {
        assert(s[p + 1] == t[p + 1] && s[p + 2] == t[p + 2] && s[p + 3] == t[p + 3]);
    }
}

proof fn lemma_u64_ext(s: Seq<u8>, t: Seq<u8>, fl: u64, p: u64)
    requires
        extends(s, t),
        spec_u64(s, fl, p) != Err::<(u64, u64), GgufError>(GgufError::NeedBytes),
    ensures
        spec_u64(t, fl, p) == spec_u64(s, fl, p),
{
    lemma_need_ext(s, t, fl, p, 8);
    if need(s, fl, p, 8) is None {
        assert(s[p + 1] == t[p + 1] && s[p + 2] == t[p + 2] && s[p + 3] == t[p + 3]);
        assert(s[p + 4] == t[p + 4] && s[p + 5] == t[p + 5] && s[p + 6] == t[p + 6] && s[p + 7] == t[p + 7]);
        assert(le4(s, p as int) == le4(t, p as int));
        assert(le4(s, p + 4) == le4(t, p + 4));
    }
}

proof fn lemma_str_ext(s: Seq<u8>, t: Seq<u8>, fl: u64, p: u64)
    requires
        extends(s, t),
        spec_str(s, fl, p) != Err::<(Seq<char>, u64), GgufError>(GgufError::NeedBytes),
    ensures
        spec_str(t, fl, p) == spec_str(s, fl, p),
{
    lemma_u64_ext(s, t, fl, p);
    if let Ok((n, q)) = spec_u64(s, fl, p) {
        if n <= MAX_STRING_BYTES {
            lemma_need_ext(s, t, fl, q, n);
            if need(s, fl, q, n) is None {
                assert(s.subrange(q as int, q + n) =~= t.subrange(q as int, q + n));
            }
        }
    }
}

proof fn lemma_skip_strings_ext(s: Seq<u8>, t: Seq<u8>, fl: u64, p: u64, k: nat)
    requires
        extends(s, t),
        spec_skip_strings(s, fl, p, k) != Err::<u64, GgufError>(GgufError::NeedBytes),
    ensures
        spec_skip_strings(t, fl, p, k) == spec_skip_strings(s, fl, p, k),
    decreases k,
{
    if k > 0 {
        lemma_skip_strings_ext(s, t, fl, p, (k - 1) as nat);
        if let Ok(q) = spec_skip_strings(s, fl, p, (k - 1) as nat) {
            lemma_u64_ext(s, t, fl, q);
        }
    }
}

proof fn lemma_array_ext(s: Seq<u8>, t: Seq<u8>, fl: u64, p: u64)
    requires
        extends(s, t),
        spec_array(s, fl, p) != Err::<(ValueV, u64), GgufError>(GgufError::NeedBytes),
    ensures
        spec_array(t, fl, p) == spec_array(s, fl, p),
{
    lemma_u32_ext(s, t, fl, p);
    if let Ok((et, q)) = spec_u32(s, fl, p) {
        lemma_u64_ext(s, t, fl, q);
        if let Ok((len, r)) = spec_u64(s, fl, q) {
            if et == 8 {
                lemma_skip_strings_ext(s, t, fl, r, len as nat);
            }
        }
    }
}

proof fn lemma_value_ext(s: Seq<u8>, t: Seq<u8>, fl: u64, p: u64, ty: u32)
    requires
        extends(s, t),
        spec_value(s, fl, p, ty) != Err::<(ValueV, u64), GgufError>(GgufError::NeedBytes),
    ensures
        spec_value(t, fl, p, ty) == spec_value(s, fl, p, ty),
{
    if ty == 0 || ty == 1 || ty == 7 {
        lemma_u8_ext(s, t, fl, p);
    } else if ty == 2 || ty == 3 {
        lemma_u16_ext(s, t, fl, p);
    } else if ty == 4 || ty == 5 || ty == 6 {
        lemma_u32_ext(s, t, fl, p);
    } else if ty == 8 {
        lemma_str_ext(s, t, fl, p);
    } else if ty == 9 {
        lemma_array_ext(s, t, fl, p);
    } else if ty == 10 || ty == 11 || ty == 12 {
        lemma_u64_ext(s, t, fl, p);
    }
}

proof fn lemma_kv_entry_ext(s: Seq<u8>, t: Seq<u8>, fl: u64, p: u64)
    requires
        extends(s, t),
        spec_kv_entry(s, fl, p) != Err::<(Seq<char>, ValueV, u64), GgufError>(GgufError::NeedBytes),
    ensures
        spec_kv_entry(t, fl, p) == spec_kv_entry(s, fl, p),
{
    lemma_str_ext(s, t, fl, p);
    if let Ok((key, q)) = spec_str(s, fl, p) {
        lemma_u32_ext(s, t, fl, q);
        if let Ok((ty, r)) = spec_u32(s, fl, q) {
            lemma_value_ext(s, t, fl, r, ty);
        }
    }
}

proof fn lemma_kvs_ext(s: Seq<u8>, t: Seq<u8>, fl: u64, p: u64, k: nat)
    requires
        extends(s, t),
        spec_kvs(s, fl, p, k) != Err::<(Map<Seq<char>, ValueV>, u64), GgufError>(GgufError::NeedBytes),
    ensures
        spec_kvs(t, fl, p, k) == spec_kvs(s, fl, p, k),
    decreases k,
{
    if k > 0 {
        lemma_kvs_ext(s, t, fl, p, (k - 1) as nat);
        if let Ok((m, q)) = spec_kvs(s, fl, p, (k - 1) as nat) {
            lemma_kv_entry_ext(s, t, fl, q);
        }
    }
}

proof fn lemma_dims_ext(s: Seq<u8>, t: Seq<u8>, fl: u64, p: u64, k: nat)
    requires
        extends(s, t),
        spec_dims(s, fl, p, k) != Err::<(Seq<u64>, u64), GgufError>(GgufError::NeedBytes),
    ensures
        spec_dims(t, fl, p, k) == spec_dims(s, fl, p, k),
    decreases k,
{
    if k > 0 {
        lemma_dims_ext(s, t, fl, p, (k - 1) as nat);
        if let Ok((d, q)) = spec_dims(s, fl, p, (k - 1) as nat) {
            lemma_u64_ext(s, t, fl, q);
        }
    }
}

proof fn lemma_tensor_ext(s: Seq<u8>, t: Seq<u8>, fl: u64, p: u64)
    requires
        extends(s, t),
        spec_tensor(s, fl, p) != Err::<(TensorV, u64), GgufError>(GgufError::NeedBytes),
    ensures
        spec_tensor(t, fl, p) == spec_tensor(s, fl, p),
{
    lemma_str_ext(s, t, fl, p);
    if let Ok((name, q)) = spec_str(s, fl, p) {
        lemma_u32_ext(s, t, fl, q);
        if let Ok((nd, q1)) = spec_u32(s, fl, q) {
            if nd <= MAX_DIMS {
                lemma_dims_ext(s, t, fl, q1, nd as nat);
                if let Ok((dims, q2)) = spec_dims(s, fl, q1, nd as nat) {
                    lemma_u32_ext(s, t, fl, q2);
                    if let Ok((gt, q3)) = spec_u32(s, fl, q2) {
                        lemma_u64_ext(s, t, fl, q3);
                    }
                }
            }
        }
    }
}

proof fn lemma_tensors_ext(s: Seq<u8>, t: Seq<u8>, fl: u64, p: u64, k: nat)
    requires
        extends(s, t),
        spec_tensors(s, fl, p, k) != Err::<(Seq<TensorV>, u64), GgufError>(GgufError::NeedBytes),
    ensures
        spec_tensors(t, fl, p, k) == spec_tensors(s, fl, p, k),
    decreases k,
{
    if k > 0 {
        lemma_tensors_ext(s, t, fl, p, (k - 1) as nat);
        if let Ok((ts, q)) = spec_tensors(s, fl, p, (k - 1) as nat) {
            lemma_tensor_ext(s, t, fl, q);
        }
    }
}

/// A head of the file that did not ask for more reads what any longer head reads: the model
/// facts, the metadata and the tensor table.
pub proof fn law_longer_head_reads_the_same(s: Seq<u8>, t: Seq<u8>, fl: u64, path: Seq<char>)
    requires
        extends(s, t),
        spec_read_full(s, fl, path) != Err::<(ModelInfoV, Map<Seq<char>, ValueV>, Seq<TensorV>), GgufError>(GgufError::NeedBytes),
    ensures
        spec_read_full(t, fl, path) == spec_read_full(s, fl, path),
{
    lemma_need_ext(s, t, fl, 0, 4);
    if need(s, fl, 0, 4) is None {
        assert(s[1] == t[1] && s[2] == t[2] && s[3] == t[3]);
        if magic_ok(s) {
            lemma_u32_ext(s, t, fl, 4);
            if let Ok((v, q)) = spec_u32(s, fl, 4) {
                if 2 <= v && v <= 3 {
                    lemma_u64_ext(s, t, fl, q);
                    if let Ok((nt, q1)) = spec_u64(s, fl, q) {
                        lemma_u64_ext(s, t, fl, q1);
                        if let Ok((nk, q2)) = spec_u64(s, fl, q1) {
                            lemma_kvs_ext(s, t, fl, q2, nk as nat);
                            if let Ok((kv, q3)) = spec_kvs(s, fl, q2, nk as nat) {
                                lemma_tensors_ext(s, t, fl, q3, nt as nat);
                            }
                        }
                    }
                }
            }
        }
    }
}

/// The whole file.
pub open spec fn whole(s: Seq<u8>, fl: u64) -> bool {
    s.len() == fl
}

proof fn lemma_strings_whole(s: Seq<u8>, fl: u64, p: u64, k: nat)
    requires
        whole(s, fl),
    ensures
        spec_skip_strings(s, fl, p, k) != Err::<u64, GgufError>(GgufError::NeedBytes),
    decreases k,
{
    if k > 0 {
        lemma_strings_whole(s, fl, p, (k - 1) as nat);
    }
}

proof fn lemma_value_whole(s: Seq<u8>, fl: u64, p: u64, ty: u32)
    requires
        whole(s, fl),
    ensures
        spec_value(s, fl, p, ty) != Err::<(ValueV, u64), GgufError>(GgufError::NeedBytes),
{
    if ty == 9 {
        if let Ok((et, q)) = spec_u32(s, fl, p) {
            if let Ok((len, r)) = spec_u64(s, fl, q) {
                lemma_strings_whole(s, fl, r, len as nat);
            }
        }
    }
}

proof fn lemma_kvs_whole(s: Seq<u8>, fl: u64, p: u64, k: nat)
    requires
        whole(s, fl),
    ensures
        spec_kvs(s, fl, p, k) != Err::<(Map<Seq<char>, ValueV>, u64), GgufError>(GgufError::NeedBytes),
    decreases k,
{
    if k > 0 {
        lemma_kvs_whole(s, fl, p, (k - 1) as nat);
        if let Ok((m, q)) = spec_kvs(s, fl, p, (k - 1) as nat) {
            if let Ok((key, q1)) = spec_str(s, fl, q) {
                if let Ok((ty, r)) = spec_u32(s, fl, q1) {
                    lemma_value_whole(s, fl, r, ty);
                }
            }
        }
    }
}

proof fn lemma_dims_whole(s: Seq<u8>, fl: u64, p: u64, k: nat)
    requires
        whole(s, fl),
    ensures
        spec_dims(s, fl, p, k) != Err::<(Seq<u64>, u64), GgufError>(GgufError::NeedBytes),
    decreases k,
{
    if k > 0 {
        lemma_dims_whole(s, fl, p, (k - 1) as nat);
    }
}

proof fn lemma_tensors_whole(s: Seq<u8>, fl: u64, p: u64, k: nat)
    requires
        whole(s, fl),
    ensures
        spec_tensors(s, fl, p, k) != Err::<(Seq<TensorV>, u64), GgufError>(GgufError::NeedBytes),
    decreases k,
{
    if k > 0 {
        lemma_tensors_whole(s, fl, p, (k - 1) as nat);
        if let Ok((ts, q)) = spec_tensors(s, fl, p, (k - 1) as nat) {
            if let Ok((name, q1)) = spec_str(s, fl, q) {
                if let Ok((nd, q2)) = spec_u32(s, fl, q1) {
                    lemma_dims_whole(s, fl, q2, nd as nat);
                }
            }
        }
    }
}

/// Given the whole file, the reader never asks for more: it reads the header or says what is
/// wrong with it.
pub proof fn law_whole_file_suffices(s: Seq<u8>, path: Seq<char>)
    requires
        s.len() <= u64::MAX,
    ensures
        spec_read_full(s, s.len() as u64, path) != Err::<(ModelInfoV, Map<Seq<char>, ValueV>, Seq<TensorV>), GgufError>(GgufError::NeedBytes),
{
    let fl = s.len() as u64;
    if need(s, fl, 0, 4) is None && magic_ok(s) {
        if let Ok((v, q)) = spec_u32(s, fl, 4) {
            if 2 <= v && v <= 3 {
                if let Ok((nt, q1)) = spec_u64(s, fl, q) {
                    if let Ok((nk, q2)) = spec_u64(s, fl, q1) {
                        lemma_kvs_whole(s, fl, q2, nk as nat);
                        if let Ok((kv, q3)) = spec_kvs(s, fl, q2, nk as nat) {
                            lemma_tensors_whole(s, fl, q3, nt as nat);
                        }
                    }
                }
            }
        }
    }
}

/// Three wrapping products of 64-bit values give the plain product when that fits.
proof fn lemma_wrapping_product(a: u64, b: u64, c: u64)
    requires
        (a as nat) * (b as nat) * (c as nat) * 2 <= u64::MAX,
    ensures
        (a.wrapping_mul(b)).wrapping_mul(c).wrapping_mul(2) as nat == (a as nat) * (b as nat) * (c as nat) * 2,
{
    let ab: nat = (a as nat) * (b as nat);
    if c == 0 {
        assert(((a.wrapping_mul(b)) as nat * 0) % 0x1_0000_0000_0000_0000 == 0);
        assert(ab * 0 * 2 == 0) by (nonlinear_arith);
    } else {
        assert(ab <= ab * (c as nat) * 2) by (nonlinear_arith)
            requires
                c >= 1,
        ;
        assert(ab % 0x1_0000_0000_0000_0000 == ab);
        let w1 = a.wrapping_mul(b);
        assert(w1 as nat == ab);
        assert(ab * (c as nat) <= ab * (c as nat) * 2) by (nonlinear_arith);
        let abc: nat = ab * (c as nat);
        assert(abc % 0x1_0000_0000_0000_0000 == abc);
        let w2 = w1.wrapping_mul(c);
        assert(w2 as nat == abc);
        assert((abc * 2) % 0x1_0000_0000_0000_0000 == abc * 2);
    }
}

/// The KV cache per token is what grouped-query attention keeps: per layer, the KV heads the file
/// declares (`<arch>.attention.head_count_kv`; the attention heads only when that is absent or 0)
/// times the key and value widths (declared, else the embedding width over the heads) times two
/// bytes. When that product fits in 64 bits it is the figure read.
pub proof fn law_kv_heads(s: Seq<u8>, fl: u64, path: Seq<char>)
    requires
        spec_read_full(s, fl, path) is Ok,
    ensures
        ({
            let (i, kv, _) = spec_read_full(s, fl, path)->Ok_0;
            let hkv = kv_u32(kv, arch_key(i.arch, "attention.head_count_kv"@));
            let n_head = kv_u32(kv, arch_key(i.arch, "attention.head_count"@));
            let n_embd = kv_u32(kv, arch_key(i.arch, "embedding_length"@));
            let kl = kv_u32(kv, arch_key(i.arch, "attention.key_length"@));
            let vl = kv_u32(kv, arch_key(i.arch, "attention.value_length"@));
            let hk: nat = if kl != 0 { kl as nat } else if n_head > 0 { (n_embd / n_head) as nat } else { 0 };
            let hv: nat = if vl != 0 { vl as nat } else { hk };
            &&& i.n_layer == kv_u32(kv, arch_key(i.arch, "block_count"@))
            &&& i.n_head == n_head
            &&& (hkv != 0 ==> i.n_head_kv == hkv)
            &&& (hkv == 0 ==> i.n_head_kv == n_head)
            &&& ((i.n_layer as nat) * (i.n_head_kv as nat) * (hk + hv) * 2 <= u64::MAX ==>
                i.kv_bytes_per_token == (i.n_layer as nat) * (i.n_head_kv as nat) * (hk + hv) * 2)
        }),
{
    let h = spec_header(s, fl)->Ok_0;
    let i = spec_info(h, fl, path);
    let kv = h.kv;
    let arch = i.arch;
    let n_head = kv_u32(kv, arch_key(arch, "attention.head_count"@));
    let n_embd = kv_u32(kv, arch_key(arch, "embedding_length"@));
    let kl = kv_u32(kv, arch_key(arch, "attention.key_length"@));
    let vl = kv_u32(kv, arch_key(arch, "attention.value_length"@));
    let hk32: u32 = if kl == 0 && n_head > 0 { (n_embd / n_head) as u32 } else { kl };
    let hv32: u32 = if vl == 0 { hk32 } else { vl };
    let hk: nat = if kl != 0 { kl as nat } else if n_head > 0 { (n_embd / n_head) as nat } else { 0 };
    let hv: nat = if vl != 0 { vl as nat } else { hk };
    assert(hk32 as nat == hk);
    assert(hv32 as nat == hv);
    if (i.n_layer as nat) * (i.n_head_kv as nat) * (hk + hv) * 2 <= u64::MAX {
        lemma_wrapping_product(i.n_layer as u64, i.n_head_kv as u64, (hk32 + hv32) as u64);
    }
}

} // verus!
