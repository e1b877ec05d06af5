//! Constant-pool entries: the tagged values of the pool, and the decoder of
//! one entry for each kind of tag.
//!
//! Text entries are decoded as standard UTF-8. The class-file format writes
//! text in a modified UTF-8 (a two-byte form of the null character, and
//! surrogate pairs for characters above U+FFFF); such bytes are rejected here
//! as `InvalidEncoding` rather than decoded.

use crate::error::{fail, yields_view, DecodeError, ErrorKind, Outcome};
use crate::reader::{
    consume_u16, consume_u32, consume_u64, consume_u8, in_bounds, spec_u16, spec_u32, spec_u64,
    spec_u8,
};
use vstd::prelude::*;
use vstd::slice::slice_subrange;
use vstd::utf8::{decode_utf8, valid_utf8};

verus! {

/// One entry of the constant pool. Indices refer to pool entries and start at
/// one. `Float` and `Double` hold the bits of the IEEE-754 number.
#[derive(Debug, Clone, PartialEq, Eq)]
pub enum Const {
    Class { name_index: u16 },
    Fieldref { class_index: u16, nameandtype_index: u16 },
    Methodref { class_index: u16, nameandtype_index: u16 },
    InterfaceMethodref { class_index: u16, nameandtype_index: u16 },
    String { string_index: u16 },
    Integer(u32),
    Float(u32),
    Long(u64),
    Double(u64),
    NameAndType { name_index: u16, descriptor_index: u16 },
    Utf8(std::string::String),
    MethodHandle { reference_kind: u8, reference_index: u16 },
    MethodType { descriptor_index: u16 },
    InvokeDynamic { bootstrap_method_attr_index: u16, name_and_type_index: u16 },
}

/// The mathematical form of a pool entry: as `Const`, with the text of a
/// `Utf8` entry as a sequence of characters.
pub enum ConstView {
    Class { name_index: u16 },
    Fieldref { class_index: u16, nameandtype_index: u16 },
    Methodref { class_index: u16, nameandtype_index: u16 },
    InterfaceMethodref { class_index: u16, nameandtype_index: u16 },
    String { string_index: u16 },
    Integer(u32),
    Float(u32),
    Long(u64),
    Double(u64),
    NameAndType { name_index: u16, descriptor_index: u16 },
    Utf8(Seq<char>),
    MethodHandle { reference_kind: u8, reference_index: u16 },
    MethodType { descriptor_index: u16 },
    InvokeDynamic { bootstrap_method_attr_index: u16, name_and_type_index: u16 },
}

impl View for Const {
    type V = ConstView;

    open spec fn view(&self) -> ConstView {
        match *self {
            Const::Class { name_index } => ConstView::Class { name_index },
            Const::Fieldref { class_index, nameandtype_index } => ConstView::Fieldref {
                class_index,
                nameandtype_index,
            },
            Const::Methodref { class_index, nameandtype_index } => ConstView::Methodref {
                class_index,
                nameandtype_index,
            },
            Const::InterfaceMethodref {
                class_index,
                nameandtype_index,
            } => ConstView::InterfaceMethodref { class_index, nameandtype_index },
            Const::String { string_index } => ConstView::String { string_index },
            Const::Integer(bits) => ConstView::Integer(bits),
            Const::Float(bits) => ConstView::Float(bits),
            Const::Long(bits) => ConstView::Long(bits),
            Const::Double(bits) => ConstView::Double(bits),
            Const::NameAndType { name_index, descriptor_index } => ConstView::NameAndType {
                name_index,
                descriptor_index,
            },
            Const::Utf8(text) => ConstView::Utf8(text@),
            Const::MethodHandle { reference_kind, reference_index } => ConstView::MethodHandle {
                reference_kind,
                reference_index,
            },
            Const::MethodType { descriptor_index } => ConstView::MethodType { descriptor_index },
            Const::InvokeDynamic {
                bootstrap_method_attr_index,
                name_and_type_index,
            } => ConstView::InvokeDynamic { bootstrap_method_attr_index, name_and_type_index },
        }
    }
}

impl DeepView for Const {
    type V = ConstView;

    open spec fn deep_view(&self) -> ConstView {
        self@
    }
}

/// The kind of a pool entry, as the tag byte in front of it names it.
#[derive(Debug, Clone, Copy, PartialEq, Eq, Structural)]
pub enum ConstType {
    Class,
    Fieldref,
    Methodref,
    InterfaceMethodref,
    String,
    Integer,
    Float,
    Long,
    Double,
    NameAndType,
    Utf8,
    MethodHandle,
    MethodType,
    InvokeDynamic,
}

/// The kind that the tag byte `tag` names, if any.
pub open spec fn spec_from_tag(tag: u8) -> Option<ConstType> {
    if tag == 1 {
        Some(ConstType::Utf8)
    } else if tag == 3 {
        Some(ConstType::Integer)
    } else if tag == 4 {
        Some(ConstType::Float)
    } else if tag == 5 {
        Some(ConstType::Long)
    } else if tag == 6 {
        Some(ConstType::Double)
    } else if tag == 7 {
        Some(ConstType::Class)
    } else if tag == 8 {
        Some(ConstType::String)
    } else if tag == 9 {
        Some(ConstType::Fieldref)
    } else if tag == 10 {
        Some(ConstType::Methodref)
    } else if tag == 11 {
        Some(ConstType::InterfaceMethodref)
    } else if tag == 12 {
        Some(ConstType::NameAndType)
    } else if tag == 15 {
        Some(ConstType::MethodHandle)
    } else if tag == 16 {
        Some(ConstType::MethodType)
    } else if tag == 18 {
        Some(ConstType::InvokeDynamic)
    } else {
        None
    }
}

impl ConstType {
    /// The tag byte of this kind.
    pub open spec fn spec_tag(self) -> u8 {
        match self {
            ConstType::Utf8 => 1,
            ConstType::Integer => 3,
            ConstType::Float => 4,
            ConstType::Long => 5,
            ConstType::Double => 6,
            ConstType::Class => 7,
            ConstType::String => 8,
            ConstType::Fieldref => 9,
            ConstType::Methodref => 10,
            ConstType::InterfaceMethodref => 11,
            ConstType::NameAndType => 12,
            ConstType::MethodHandle => 15,
            ConstType::MethodType => 16,
            ConstType::InvokeDynamic => 18,
        }
    }

    /// The tag byte of this kind.
    pub fn tag(&self) -> (t: u8)
        ensures
            t == self.spec_tag(),
    {
        match self {
            ConstType::Utf8 => 1,
            ConstType::Integer => 3,
            ConstType::Float => 4,
            ConstType::Long => 5,
            ConstType::Double => 6,
            ConstType::Class => 7,
            ConstType::String => 8,
            ConstType::Fieldref => 9,
            ConstType::Methodref => 10,
            ConstType::InterfaceMethodref => 11,
            ConstType::NameAndType => 12,
            ConstType::MethodHandle => 15,
            ConstType::MethodType => 16,
            ConstType::InvokeDynamic => 18,
        }
    }

    /// The kind that `tag` names, or `None` for a byte that names none.
    pub fn from_tag(tag: u8) -> (kind: Option<ConstType>)
        ensures
            kind == spec_from_tag(tag),
    {
        match tag {
            1 => Some(ConstType::Utf8),
            3 => Some(ConstType::Integer),
            4 => Some(ConstType::Float),
            5 => Some(ConstType::Long),
            6 => Some(ConstType::Double),
            7 => Some(ConstType::Class),
            8 => Some(ConstType::String),
            9 => Some(ConstType::Fieldref),
            10 => Some(ConstType::Methodref),
            11 => Some(ConstType::InterfaceMethodref),
            12 => Some(ConstType::NameAndType),
            15 => Some(ConstType::MethodHandle),
            16 => Some(ConstType::MethodType),
            18 => Some(ConstType::InvokeDynamic),
            _ => None,
        }
    }
}

/// A byte names a kind exactly when it is that kind's tag.
pub proof fn lemma_tag_round_trip(tag: u8, kind: ConstType)
    ensures
        spec_from_tag(kind.spec_tag()) == Some(kind),
        spec_from_tag(tag) == Some(kind) <==> tag == kind.spec_tag(),
{
}

/// Two consecutive two-byte fields.
pub open spec fn spec_u16_pair(b: Seq<u8>, at: int) -> Outcome<(u16, u16)> {
    match spec_u16(b, at) {
        Err(f) => Err(f),
        Ok((first, middle)) => match spec_u16(b, middle) {
            Err(f) => Err(f),
            Ok((second, next)) => Ok(((first, second), next)),
        },
    }
}

/// The payload of a text entry: a two-byte length, then that many bytes of
/// UTF-8. Fails with `OutOfBounds` where the length or the text does not fit,
/// and with `InvalidEncoding`, at the first byte of the text, where the text
/// is not well-formed.
pub open spec fn spec_utf8(b: Seq<u8>, at: int) -> Outcome<ConstView> {
    match spec_u16(b, at) {
        Err(f) => Err(f),
        Ok((length, start)) => {
            let text = b.subrange(start, start + length);
            if !in_bounds(b, start, length as int) {
                fail(ErrorKind::OutOfBounds, start)
            } else if !valid_utf8(text) {
                fail(ErrorKind::InvalidEncoding, start)
            } else {
                Ok((ConstView::Utf8(decode_utf8(text)), start + length))
            }
        },
    }
}

/// The payload of a method handle: a one-byte kind, then a two-byte index.
pub open spec fn spec_method_handle(b: Seq<u8>, at: int) -> Outcome<ConstView> {
    match spec_u8(b, at) {
        Err(f) => Err(f),
        Ok((reference_kind, middle)) => match spec_u16(b, middle) {
            Err(f) => Err(f),
            Ok((reference_index, next)) => Ok(
                (ConstView::MethodHandle { reference_kind, reference_index }, next),
            ),
        },
    }
}

/// The entry of kind `kind` whose payload starts at `at`, with the offset
/// behind the payload.
pub open spec fn spec_constant(kind: ConstType, b: Seq<u8>, at: int) -> Outcome<ConstView> {
    match kind {
        ConstType::Class => match spec_u16(b, at) {
            Err(f) => Err(f),
            Ok((name_index, next)) => Ok((ConstView::Class { name_index }, next)),
        },
        ConstType::String => match spec_u16(b, at) {
            Err(f) => Err(f),
            Ok((string_index, next)) => Ok((ConstView::String { string_index }, next)),
        },
        ConstType::MethodType => match spec_u16(b, at) {
            Err(f) => Err(f),
            Ok((descriptor_index, next)) => Ok((ConstView::MethodType { descriptor_index }, next)),
        },
        ConstType::Fieldref => match spec_u16_pair(b, at) {
            Err(f) => Err(f),
            Ok((pair, next)) => Ok(
                (ConstView::Fieldref { class_index: pair.0, nameandtype_index: pair.1 }, next),
            ),
        },
        ConstType::Methodref => match spec_u16_pair(b, at) {
            Err(f) => Err(f),
            Ok((pair, next)) => Ok(
                (ConstView::Methodref { class_index: pair.0, nameandtype_index: pair.1 }, next),
            ),
        },
        ConstType::InterfaceMethodref => match spec_u16_pair(b, at) {
            Err(f) => Err(f),
            Ok((pair, next)) => Ok(
                (
                    ConstView::InterfaceMethodref {
                        class_index: pair.0,
                        nameandtype_index: pair.1,
                    },
                    next,
                ),
            ),
        },
        ConstType::NameAndType => match spec_u16_pair(b, at) {
            Err(f) => Err(f),
            Ok((pair, next)) => Ok(
                (ConstView::NameAndType { name_index: pair.0, descriptor_index: pair.1 }, next),
            ),
        },
        ConstType::InvokeDynamic => match spec_u16_pair(b, at) {
            Err(f) => Err(f),
            Ok((pair, next)) => Ok(
                (
                    ConstView::InvokeDynamic {
                        bootstrap_method_attr_index: pair.0,
                        name_and_type_index: pair.1,
                    },
                    next,
                ),
            ),
        },
        ConstType::Integer => match spec_u32(b, at) {
            Err(f) => Err(f),
            Ok((bits, next)) => Ok((ConstView::Integer(bits), next)),
        },
        ConstType::Float => match spec_u32(b, at) {
            Err(f) => Err(f),
            Ok((bits, next)) => Ok((ConstView::Float(bits), next)),
        },
        ConstType::Long => match spec_u64(b, at) {
            Err(f) => Err(f),
            Ok((bits, next)) => Ok((ConstView::Long(bits), next)),
        },
        ConstType::Double => match spec_u64(b, at) {
            Err(f) => Err(f),
            Ok((bits, next)) => Ok((ConstView::Double(bits), next)),
        },
        ConstType::Utf8 => spec_utf8(b, at),
        ConstType::MethodHandle => spec_method_handle(b, at),
    }
}

/// Decodes the payload of a class entry: one two-byte index.
pub fn consume_class_constant(b: &Vec<u8>, cursor: usize) -> (r: Result<(Const, usize), DecodeError>)
    ensures
        yields_view(r, spec_constant(ConstType::Class, b@, cursor as int)),
{
    match consume_u16(b, cursor) {
        Ok((name_index, cursor)) => Ok((Const::Class { name_index }, cursor)),
        Err(e) => Err(e),
    }
}

/// Decodes the payload of a field reference: two two-byte indices.
pub fn consume_fieldref_constant(b: &Vec<u8>, cursor: usize) -> (r: Result<(Const, usize), DecodeError>)
    ensures
        yields_view(r, spec_constant(ConstType::Fieldref, b@, cursor as int)),
{
    let (class_index, cursor) = match consume_u16(b, cursor) {
        Ok(read) => read,
        Err(e) => {
            return Err(e);
        },
    };
    let (nameandtype_index, cursor) = match consume_u16(b, cursor) {
        Ok(read) => read,
        Err(e) => {
            return Err(e);
        },
    };
    Ok((Const::Fieldref { class_index, nameandtype_index }, cursor))
}

/// Decodes the payload of a method reference: two two-byte indices.
pub fn consume_methodref_constant(b: &Vec<u8>, cursor: usize) -> (r: Result<(Const, usize), DecodeError>)
    ensures
        yields_view(r, spec_constant(ConstType::Methodref, b@, cursor as int)),
{
    let (class_index, cursor) = match consume_u16(b, cursor) {
        Ok(read) => read,
        Err(e) => {
            return Err(e);
        },
    };
    let (nameandtype_index, cursor) = match consume_u16(b, cursor) {
        Ok(read) => read,
        Err(e) => {
            return Err(e);
        },
    };
    Ok((Const::Methodref { class_index, nameandtype_index }, cursor))
}

/// Decodes the payload of an interface method reference: two two-byte indices.
pub fn consume_interfacemethodref_constant(b: &Vec<u8>, cursor: usize) -> (r: Result<(Const, usize), DecodeError>)
    ensures
        yields_view(r, spec_constant(ConstType::InterfaceMethodref, b@, cursor as int)),
{
    let (class_index, cursor) = match consume_u16(b, cursor) {
        Ok(read) => read,
        Err(e) => {
            return Err(e);
        },
    };
    let (nameandtype_index, cursor) = match consume_u16(b, cursor) {
        Ok(read) => read,
        Err(e) => {
            return Err(e);
        },
    };
    Ok((Const::InterfaceMethodref { class_index, nameandtype_index }, cursor))
}

/// Decodes the payload of a string entry: one two-byte index.
pub fn consume_string_constant(b: &Vec<u8>, cursor: usize) -> (r: Result<(Const, usize), DecodeError>)
    ensures
        yields_view(r, spec_constant(ConstType::String, b@, cursor as int)),
{
    match consume_u16(b, cursor) {
        Ok((string_index, cursor)) => Ok((Const::String { string_index }, cursor)),
        Err(e) => Err(e),
    }
}

/// Decodes the payload of an integer entry: four bytes, kept as their big-endian value.
pub fn consume_integer_constant(b: &Vec<u8>, cursor: usize) -> (r: Result<(Const, usize), DecodeError>)
    ensures
        yields_view(r, spec_constant(ConstType::Integer, b@, cursor as int)),
{
    match consume_u32(b, cursor) {
        Ok((bits, cursor)) => Ok((Const::Integer(bits), cursor)),
        Err(e) => Err(e),
    }
}

/// Decodes the payload of a float entry: four bytes, kept as the bits of the number.
pub fn consume_float_constant(b: &Vec<u8>, cursor: usize) -> (r: Result<(Const, usize), DecodeError>)
    ensures
        yields_view(r, spec_constant(ConstType::Float, b@, cursor as int)),
{
    match consume_u32(b, cursor) {
        Ok((bits, cursor)) => Ok((Const::Float(bits), cursor)),
        Err(e) => Err(e),
    }
}

/// Decodes the payload of a long entry: eight bytes, kept as their big-endian value.
pub fn consume_long_constant(b: &Vec<u8>, cursor: usize) -> (r: Result<(Const, usize), DecodeError>)
    ensures
        yields_view(r, spec_constant(ConstType::Long, b@, cursor as int)),
{
    match consume_u64(b, cursor) {
        Ok((bits, cursor)) => Ok((Const::Long(bits), cursor)),
        Err(e) => Err(e),
    }
}

/// Decodes the payload of a double entry: eight bytes, kept as the bits of the number.
pub fn consume_double_constant(b: &Vec<u8>, cursor: usize) -> (r: Result<(Const, usize), DecodeError>)
    ensures
        yields_view(r, spec_constant(ConstType::Double, b@, cursor as int)),
{
    match consume_u64(b, cursor) {
        Ok((bits, cursor)) => Ok((Const::Double(bits), cursor)),
        Err(e) => Err(e),
    }
}

/// Decodes the payload of a name-and-type entry: two two-byte indices.
pub fn consume_nameandtype_constant(b: &Vec<u8>, cursor: usize) -> (r: Result<(Const, usize), DecodeError>)
    ensures
        yields_view(r, spec_constant(ConstType::NameAndType, b@, cursor as int)),
{
    let (name_index, cursor) = match consume_u16(b, cursor) {
        Ok(read) => read,
        Err(e) => {
            return Err(e);
        },
    };
    let (descriptor_index, cursor) = match consume_u16(b, cursor) {
        Ok(read) => read,
        Err(e) => {
            return Err(e);
        },
    };
    Ok((Const::NameAndType { name_index, descriptor_index }, cursor))
}

/// Calls `std::str::from_utf8`. Taken on trust, not proved: it accepts
/// exactly the bytes that are well-formed UTF-8, and the string slice that it
/// gives for them is the text that they encode.
#[verifier::external_body]
fn str_from_utf8(bytes: &[u8]) -> (text: Option<&str>)
    ensures
        text is Some <==> valid_utf8(bytes@),
        text matches Some(s) ==> s@ == decode_utf8(bytes@),
{
    match std::str::from_utf8(bytes) {
        Ok(s) => Some(s),
        Err(_) => None,
    }
}

/// Decodes the payload of a text entry: a two-byte length, then that many
/// bytes of UTF-8.
pub fn consume_utf8_constant(b: &Vec<u8>, cursor: usize) -> (r: Result<(Const, usize), DecodeError>)
    ensures
        yields_view(r, spec_constant(ConstType::Utf8, b@, cursor as int)),
{
    let (length, cursor) = match consume_u16(b, cursor) {
        Ok(read) => read,
        Err(e) => {
            return Err(e);
        },
    };
    if b.len() - cursor < length as usize {
        return Err(DecodeError { kind: ErrorKind::OutOfBounds, offset: cursor });
    }
    let offset: usize = cursor + length as usize;
    match str_from_utf8(slice_subrange(b.as_slice(), cursor, offset)) {
        Some(text) => Ok((Const::Utf8(text.to_string()), offset)),
        None => Err(DecodeError { kind: ErrorKind::InvalidEncoding, offset: cursor }),
    }
}

/// Decodes the payload of a method handle: a one-byte kind, then a two-byte
/// index.
pub fn consume_methodhandle_constant(b: &Vec<u8>, cursor: usize) -> (r: Result<
    (Const, usize),
    DecodeError,
>)
    ensures
        yields_view(r, spec_constant(ConstType::MethodHandle, b@, cursor as int)),
{
    let (reference_kind, cursor) = match consume_u8(b, cursor) {
        Ok(read) => read,
        Err(e) => {
            return Err(e);
        },
    };
    let (reference_index, cursor) = match consume_u16(b, cursor) {
        Ok(read) => read,
        Err(e) => {
            return Err(e);
        },
    };
    Ok((Const::MethodHandle { reference_kind, reference_index }, cursor))
}

/// Decodes the payload of a method type: one two-byte index.
pub fn consume_methodtype_constant(b: &Vec<u8>, cursor: usize) -> (r: Result<(Const, usize), DecodeError>)
    ensures
        yields_view(r, spec_constant(ConstType::MethodType, b@, cursor as int)),
{
    match consume_u16(b, cursor) {
        Ok((descriptor_index, cursor)) => Ok((Const::MethodType { descriptor_index }, cursor)),
        Err(e) => Err(e),
    }
}

/// Decodes the payload of a dynamic call site: two two-byte indices.
pub fn consume_invokedynamic_constant(b: &Vec<u8>, cursor: usize) -> (r: Result<(Const, usize), DecodeError>)
    ensures
        yields_view(r, spec_constant(ConstType::InvokeDynamic, b@, cursor as int)),
{
    let (bootstrap_method_attr_index, cursor) = match consume_u16(b, cursor) {
        Ok(read) => read,
        Err(e) => {
            return Err(e);
        },
    };
    let (name_and_type_index, cursor) = match consume_u16(b, cursor) {
        Ok(read) => read,
        Err(e) => {
            return Err(e);
        },
    };
    Ok((Const::InvokeDynamic { bootstrap_method_attr_index, name_and_type_index }, cursor))
}

impl ConstType {
    /// Decodes the payload, starting at `cursor`, of one entry of this kind.
    pub fn consume_constant(&self, b: &Vec<u8>, cursor: usize) -> (r: Result<
        (Const, usize),
        DecodeError,
    >)
        ensures
            yields_view(r, spec_constant(*self, b@, cursor as int)),
    {
        match self {
            ConstType::Class => consume_class_constant(b, cursor),
            ConstType::Fieldref => consume_fieldref_constant(b, cursor),
            ConstType::Methodref => consume_methodref_constant(b, cursor),
            ConstType::InterfaceMethodref => consume_interfacemethodref_constant(b, cursor),
            ConstType::String => consume_string_constant(b, cursor),
            ConstType::Integer => consume_integer_constant(b, cursor),
            ConstType::Float => consume_float_constant(b, cursor),
            ConstType::Long => consume_long_constant(b, cursor),
            ConstType::Double => consume_double_constant(b, cursor),
            ConstType::NameAndType => consume_nameandtype_constant(b, cursor),
            ConstType::Utf8 => consume_utf8_constant(b, cursor),
            ConstType::MethodHandle => consume_methodhandle_constant(b, cursor),
            ConstType::MethodType => consume_methodtype_constant(b, cursor),
            ConstType::InvokeDynamic => consume_invokedynamic_constant(b, cursor),
        }
    }
}

/// Every entry that decodes ends inside the buffer, behind the offset at
/// which its payload began; every failure lies at or behind that offset and
/// is a read past the end or, for a text entry, text that is not well-formed.
pub proof fn lemma_constant_advances(kind: ConstType, b: Seq<u8>, at: int)
    ensures
        spec_constant(kind, b, at) matches Ok((_, next)) ==> 0 <= at < next <= b.len(),
        spec_constant(kind, b, at) matches Err(f) ==> at <= f.offset && (f.kind
            == ErrorKind::OutOfBounds || (kind == ConstType::Utf8 && f.kind
            == ErrorKind::InvalidEncoding)),
{
}

} // verus!
