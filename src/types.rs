//! The registry of numeric encodings: a type name gives a byte width and a
//! little-endian decoder.
use vstd::prelude::*;
use vstd::string::StrSliceExecFns;

use crate::error::PlotError;

verus! {

/// The numeric encodings a trace column can have.
#[derive(Debug, Clone, Copy, PartialEq, Eq, Structural)]
pub enum TypeTag {
    /// Seconds since the epoch, stored as an `i32`.
    Datetime,
    Byte,
    Short,
    Int,
    Long,
    UShort,
    UInt,
    ULong,
    Float,
    Double,
}

/// One decoded sample value. Floating-point encodings keep their IEEE-754
/// bit pattern; the host turns it into a float when it draws.
#[derive(Debug, Clone, Copy, PartialEq, Eq, Structural)]
pub enum Value {
    Int(i128),
    F32Bits(u32),
    F64Bits(u64),
}

impl TypeTag {
    pub open spec fn spec_width(self) -> nat {
        match self {
            TypeTag::Byte => 1,
            TypeTag::Short | TypeTag::UShort => 2,
            TypeTag::Datetime | TypeTag::Int | TypeTag::UInt | TypeTag::Float => 4,
            TypeTag::Long | TypeTag::ULong | TypeTag::Double => 8,
        }
    }

    /// Integer encodings; only these can serve as an x coordinate.
    pub open spec fn spec_is_integer(self) -> bool {
        !(self is Float || self is Double)
    }

    pub open spec fn spec_is_signed(self) -> bool {
        self is Datetime || self is Short || self is Int || self is Long
    }

    /// Size in bytes of one encoded value.
    pub fn width(&self) -> (r: usize)
        ensures
            r == self.spec_width(),
    {
        match self {
            TypeTag::Byte => 1,
            TypeTag::Short | TypeTag::UShort => 2,
            TypeTag::Datetime | TypeTag::Int | TypeTag::UInt | TypeTag::Float => 4,
            TypeTag::Long | TypeTag::ULong | TypeTag::Double => 8,
        }
    }

    pub fn is_signed(&self) -> (r: bool)
        ensures
            r == self.spec_is_signed(),
    {
        matches!(self, TypeTag::Datetime | TypeTag::Short | TypeTag::Int | TypeTag::Long)
    }

    pub fn is_integer(&self) -> (r: bool)
        ensures
            r == self.spec_is_integer(),
    {
        !matches!(self, TypeTag::Float | TypeTag::Double)
    }
}

/// The encoding a type name stands for, if any.
pub open spec fn tag_of_name(s: Seq<char>) -> Option<TypeTag> {
    if s == "datetime"@ {
        Some(TypeTag::Datetime)
    } else if s == "byte"@ {
        Some(TypeTag::Byte)
    } else if s == "short"@ {
        Some(TypeTag::Short)
    } else if s == "int"@ {
        Some(TypeTag::Int)
    } else if s == "long"@ {
        Some(TypeTag::Long)
    } else if s == "ushort"@ {
        Some(TypeTag::UShort)
    } else if s == "uint"@ {
        Some(TypeTag::UInt)
    } else if s == "ulong"@ {
        Some(TypeTag::ULong)
    } else if s == "float"@ {
        Some(TypeTag::Float)
    } else if s == "double"@ {
        Some(TypeTag::Double)
    } else {
        None
    }
}

/// `256^n`.
pub open spec fn pow256(n: nat) -> nat
    decreases n,
{
    if n == 0 {
        1
    } else {
        256 * pow256((n - 1) as nat)
    }
}

/// The unsigned number that `b` spells, least significant byte first.
pub open spec fn le_value(b: Seq<u8>) -> nat
    decreases b.len(),
{
    if b.len() == 0 {
        0
    } else {
        b[0] as nat + 256 * le_value(b.drop_first())
    }
}

/// The number an integer encoding stores in `b`: two's complement for the
/// signed ones.
pub open spec fn int_of_bytes(tag: TypeTag, b: Seq<u8>) -> int {
    let v = le_value(b);
    if tag.spec_is_signed() && v >= pow256(b.len()) / 2 {
        v - pow256(b.len())
    } else {
        v as int
    }
}

/// The value that `b` holds under `tag`.
pub open spec fn value_of_bytes(tag: TypeTag, b: Seq<u8>) -> Value {
    match tag {
        TypeTag::Float => Value::F32Bits(le_value(b) as u32),
        TypeTag::Double => Value::F64Bits(le_value(b) as u64),
        _ => Value::Int(int_of_bytes(tag, b) as i128),
    }
}

proof fn lemma_pow256_pos(n: nat)
    ensures
        pow256(n) >= 1,
    decreases n,
{
    if n > 0 {
        lemma_pow256_pos((n - 1) as nat);
    }
}

proof fn lemma_le_value_bound(b: Seq<u8>)
    ensures
        le_value(b) < pow256(b.len()),
    decreases b.len(),
{
    if b.len() > 0 {
        lemma_le_value_bound(b.drop_first());
        let r = le_value(b.drop_first());
        let p = pow256(b.drop_first().len());
        assert(b[0] as nat + 256 * r < 256 * p) by (nonlinear_arith)
            requires
                r < p,
                b[0] < 256,
        ;
    }
}

proof fn lemma_le_value_step(b: Seq<u8>, i: int)
    requires
        0 <= i < b.len(),
    ensures
        le_value(b.subrange(i, b.len() as int)) == b[i] as nat + 256 * le_value(
            b.subrange(i + 1, b.len() as int),
        ),
{
    assert(b.subrange(i, b.len() as int).drop_first() =~= b.subrange(i + 1, b.len() as int));
}

/// Whether two strings hold the same characters.
fn same_text(s: &str, t: &str) -> (r: bool)
    ensures
        r == (s@ == t@),
{
    let n = s.unicode_len();
    if n != t.unicode_len() {
        return false;
    }
    let mut i: usize = 0;
    while i < n
        invariant
            n == s@.len(),
            n == t@.len(),
            i <= n,
            forall|k: int| 0 <= k < i ==> s@[k] == t@[k],
        decreases n - i,
    {
        if s.get_char(i) != t.get_char(i) {
            return false;
        }
        i += 1;
    }
    assert(s@ =~= t@);
    true
}

/// Looks a type name up in the registry.
pub fn type_from_name(name: &str) -> (r: Result<TypeTag, PlotError>)
    ensures
        r == match tag_of_name(name@) {
            Some(t) => Ok::<TypeTag, PlotError>(t),
            None => Err(PlotError::UnknownType),
        },
{
    if same_text(name, "datetime") {
        Ok(TypeTag::Datetime)
    } else if same_text(name, "byte") {
        Ok(TypeTag::Byte)
    } else if same_text(name, "short") {
        Ok(TypeTag::Short)
    } else if same_text(name, "int") {
        Ok(TypeTag::Int)
    } else if same_text(name, "long") {
        Ok(TypeTag::Long)
    } else if same_text(name, "ushort") {
        Ok(TypeTag::UShort)
    } else if same_text(name, "uint") {
        Ok(TypeTag::UInt)
    } else if same_text(name, "ulong") {
        Ok(TypeTag::ULong)
    } else if same_text(name, "float") {
        Ok(TypeTag::Float)
    } else if same_text(name, "double") {
        Ok(TypeTag::Double)
    } else {
        Err(PlotError::UnknownType)
    }
}

/// The unsigned little-endian number in `b[start..start + len]`.
fn read_le(b: &[u8], start: usize, len: usize) -> (r: u64)
    requires
        start + len <= b@.len(),
        len <= 8,
    ensures
        r == le_value(b@.subrange(start as int, start + len)),
{
    let ghost s = b@.subrange(start as int, start + len);
    let total = b.len();
    let mut acc: u64 = 0;
    let mut i: usize = len;
    while i > 0
        invariant
            i <= len,
            len <= 8,
            start + len <= b@.len(),
            total == b@.len(),
            s == b@.subrange(start as int, start + len),
            acc == le_value(s.subrange(i as int, len as int)),
        decreases i,
    {
        proof {
            lemma_le_value_step(s, i - 1);
            lemma_le_value_bound(s.subrange(i as int, len as int));
            lemma_pow256_mono((len - i) as nat, 7);
            lemma_pow256_widths();
            assert(acc * 256 + 255 < 18446744073709551616) by (nonlinear_arith)
                requires
                    acc < 72057594037927936,
            ;
        }
        acc = acc * 256 + b[start + (i - 1)] as u64;
        i -= 1;
    }
    assert(s.subrange(0, len as int) =~= s);
    acc
}

/// A decoded integer fits the widest encodings' range.
pub proof fn lemma_int_of_bytes_bound(tag: TypeTag, b: Seq<u8>)
    requires
        b.len() == tag.spec_width(),
    ensures
        -0x8000_0000_0000_0000 <= int_of_bytes(tag, b) < 0x1_0000_0000_0000_0000,
{
    lemma_le_value_bound(b);
    lemma_pow256_widths();
}

pub proof fn lemma_pow256_widths()
    ensures
        pow256(7) == 0x100_0000_0000_0000,
        pow256(1) == 256,
        pow256(2) == 65536,
        pow256(4) == 4294967296,
        pow256(8) == 18446744073709551616,
{
    assert(pow256(0) == 1);
    assert(pow256(1) == 256);
    assert(pow256(2) == 65536);
    assert(pow256(3) == 16777216);
    assert(pow256(4) == 4294967296);
    assert(pow256(5) == 1099511627776);
    assert(pow256(6) == 281474976710656);
    assert(pow256(7) == 72057594037927936);
    assert(pow256(8) == 18446744073709551616);
}

pub proof fn lemma_pow256_mono(n: nat, m: nat)
    requires
        n <= m,
    ensures
        pow256(n) <= pow256(m),
    decreases m,
{
    lemma_pow256_pos(m);
    if n < m {
        lemma_pow256_mono(n, (m - 1) as nat);
    }
}

/// Decodes one value of encoding `tag` from `b[start..start + width]`.
pub fn decode_at(tag: TypeTag, b: &[u8], start: usize) -> (r: Value)
    requires
        start + tag.spec_width() <= b@.len(),
    ensures
        r == value_of_bytes(tag, b@.subrange(start as int, start + tag.spec_width())),
        tag.spec_is_integer() ==> r is Int && -0x8000_0000_0000_0000 <= r->Int_0
            < 0x1_0000_0000_0000_0000,
{
    let w = tag.width();
    let ghost s = b@.subrange(start as int, start + w);
    let v = read_le(b, start, w);
    proof {
        lemma_le_value_bound(s);
        lemma_pow256_widths();
    }
    match tag {
        TypeTag::Float => Value::F32Bits(v as u32),
        TypeTag::Double => Value::F64Bits(v),
        _ => {
            let half: u64 = if w == 1 { 128 } else if w == 2 { 32768 } else if w == 4 { 2147483648 } else { 9223372036854775808 };
            proof {
                lemma_pow256_widths();
            }
            if tag.is_signed() && v >= half {
                Value::Int(v as i128 - 2 * half as i128)
            } else {
                Value::Int(v as i128)
            }
        },
    }
}

/// Decodes a buffer that holds exactly one value of encoding `tag`.
pub fn decode(tag: TypeTag, b: &[u8]) -> (r: Result<Value, PlotError>)
    ensures
        b@.len() == tag.spec_width() ==> r == Ok::<Value, PlotError>(value_of_bytes(tag, b@)),
        b@.len() != tag.spec_width() ==> r == Err::<Value, PlotError>(PlotError::MalformedRow),
{
    if b.len() != tag.width() {
        return Err(PlotError::MalformedRow);
    }
    let v = decode_at(tag, b, 0);
    assert(b@.subrange(0, b@.len() as int) =~= b@);
    Ok(v)
}

/// A registry entry: the byte width of an encoding and the encoding that
/// decodes it.
#[derive(Debug, Clone, Copy, PartialEq, Eq, Structural)]
pub struct TypeDescriptor {
    pub size: usize,
    pub tag: TypeTag,
}

impl TypeDescriptor {
    pub fn new(tag: TypeTag) -> (r: TypeDescriptor)
        ensures
            r.size == tag.spec_width(),
            r.tag == tag,
    {
        TypeDescriptor { size: tag.width(), tag }
    }

    /// Looks a type name up: its width and decoder, or `UnknownType`.
    pub fn lookup(name: &str) -> (r: Result<TypeDescriptor, PlotError>)
        ensures
            r == match tag_of_name(name@) {
                Some(t) => Ok::<TypeDescriptor, PlotError>(
                    TypeDescriptor { size: t.spec_width() as usize, tag: t },
                ),
                None => Err(PlotError::UnknownType),
            },
    {
        match type_from_name(name) {
            Ok(t) => Ok(TypeDescriptor::new(t)),
            Err(e) => Err(e),
        }
    }

    /// Decodes one value; the buffer must hold exactly `size` bytes.
    pub fn parse(&self, b: &[u8]) -> (r: Result<Value, PlotError>)
        requires
            self.size == self.tag.spec_width(),
        ensures
            b@.len() == self.size ==> r == Ok::<Value, PlotError>(value_of_bytes(self.tag, b@)),
            b@.len() != self.size ==> r == Err::<Value, PlotError>(PlotError::MalformedRow),
    {
        decode(self.tag, b)
    }
}

} // verus!
