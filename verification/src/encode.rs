//! The layout of a class file written forwards: for each decoded value, the
//! bytes that spell it.
//!
//! Nothing here runs. The functions that build bytes are specifications: they
//! say what the decoders are the inverse of.

use crate::attribute::AttributeView;
use crate::class::{ClassView, MAGIC};
use crate::constant::{ConstType, ConstView};
use crate::member::{Interface, MemberView};
use crate::reader::{be_at, be_value, radix_pow};
use vstd::prelude::*;
use vstd::utf8::encode_utf8;

verus! {

/// The lowest `width` digits of `value` in base 256, the highest first.
pub open spec fn be_bytes(value: nat, width: nat) -> Seq<u8>
    decreases width,
{
    if width == 0 {
        Seq::empty()
    } else {
        be_bytes(value / 256, (width - 1) as nat).push((value % 256) as u8)
    }
}

/// A numeral of `width` digits has `width` bytes.
pub proof fn lemma_be_bytes_len(value: nat, width: nat)
    ensures
        be_bytes(value, width).len() == width,
    decreases width,
{
    if width > 0 {
        lemma_be_bytes_len(value / 256, (width - 1) as nat);
    }
}

/// A number that fits in `width` digits is the value of its numeral.
pub proof fn lemma_be_bytes_value(value: nat, width: nat)
    requires
        value < radix_pow(width),
    ensures
        be_value(be_bytes(value, width)) == value,
    decreases width,
{
    if width > 0 {
        let high = be_bytes(value / 256, (width - 1) as nat);
        let digits = be_bytes(value, width);
        assert(value / 256 < radix_pow((width - 1) as nat)) by (nonlinear_arith)
            requires
                value < 256 * radix_pow((width - 1) as nat),
        ;
        lemma_be_bytes_value(value / 256, (width - 1) as nat);
        assert(digits.drop_last() =~= high);
        assert(digits.last() == (value % 256) as u8);
    }
}

/// The numeral of the value of `width` bytes is those bytes.
pub proof fn lemma_be_value_bytes(bytes: Seq<u8>)
    ensures
        be_bytes(be_value(bytes), bytes.len()) == bytes,
    decreases bytes.len(),
{
    if bytes.len() > 0 {
        let high = bytes.drop_last();
        let value = be_value(bytes);
        lemma_be_value_bytes(high);
        assert(value / 256 == be_value(high) && value % 256 == bytes.last()) by (nonlinear_arith)
            requires
                value == be_value(high) * 256 + bytes.last() as nat,
                0 <= bytes.last() < 256,
        ;
        assert(be_bytes(value, bytes.len()) =~= bytes);
    } else {
        assert(be_bytes(be_value(bytes), 0) =~= bytes);
    }
}

/// Whether the buffer `b` holds `bytes` at the offset `at`.
pub open spec fn holds_at(b: Seq<u8>, at: int, bytes: Seq<u8>) -> bool {
    &&& 0 <= at
    &&& at + bytes.len() <= b.len()
    &&& b.subrange(at, at + bytes.len()) == bytes
}

/// A buffer holds two runs of bytes one behind the other exactly when it
/// holds their concatenation.
pub proof fn lemma_holds_at_concat(b: Seq<u8>, at: int, first: Seq<u8>, second: Seq<u8>)
    ensures
        holds_at(b, at, first + second) <==> holds_at(b, at, first) && holds_at(
            b,
            at + first.len(),
            second,
        ),
{
    let both = first + second;
    if holds_at(b, at, both) {
        assert(b.subrange(at, at + first.len()) =~= both.subrange(0, first.len() as int));
        assert(both.subrange(0, first.len() as int) =~= first);
        assert(b.subrange(at + first.len(), at + first.len() + second.len()) =~= both.subrange(
            first.len() as int,
            both.len() as int,
        ));
        assert(both.subrange(first.len() as int, both.len() as int) =~= second);
    }
    if holds_at(b, at, first) && holds_at(b, at + first.len(), second) {
        assert(b.subrange(at, at + both.len()) =~= b.subrange(at, at + first.len()) + b.subrange(
            at + first.len(),
            at + first.len() + second.len(),
        ));
    }
}

/// A buffer holds at its start whatever it begins with.
pub proof fn lemma_holds_in_front(bytes: Seq<u8>, trailing: Seq<u8>)
    ensures
        holds_at(bytes + trailing, 0, bytes),
{
    assert((bytes + trailing).subrange(0, bytes.len() as int) =~= bytes);
}

/// The specification of an encoder of one record: the bytes that spell it.
pub type Encoder<T> = spec_fn(T) -> Seq<u8>;

/// The records of `items` written one behind the other.
pub open spec fn encode_list<T>(encode: Encoder<T>, items: Seq<T>) -> Seq<u8>
    decreases items.len(),
{
    if items.len() == 0 {
        Seq::empty()
    } else {
        encode(items[0]) + encode_list(encode, items.drop_first())
    }
}

/// The kind of the entry `c`.
pub open spec fn kind_of(c: ConstView) -> ConstType {
    match c {
        ConstView::Class { .. } => ConstType::Class,
        ConstView::Fieldref { .. } => ConstType::Fieldref,
        ConstView::Methodref { .. } => ConstType::Methodref,
        ConstView::InterfaceMethodref { .. } => ConstType::InterfaceMethodref,
        ConstView::String { .. } => ConstType::String,
        ConstView::Integer(_) => ConstType::Integer,
        ConstView::Float(_) => ConstType::Float,
        ConstView::Long(_) => ConstType::Long,
        ConstView::Double(_) => ConstType::Double,
        ConstView::NameAndType { .. } => ConstType::NameAndType,
        ConstView::Utf8(_) => ConstType::Utf8,
        ConstView::MethodHandle { .. } => ConstType::MethodHandle,
        ConstView::MethodType { .. } => ConstType::MethodType,
        ConstView::InvokeDynamic { .. } => ConstType::InvokeDynamic,
    }
}

/// Two two-byte numbers, one behind the other.
pub open spec fn encode_u16_pair(first: u16, second: u16) -> Seq<u8> {
    be_bytes(first as nat, 2) + be_bytes(second as nat, 2)
}

/// The payload of the entry `c`: its fields as big-endian numbers, in their
/// order; for text, the length of its UTF-8 in two bytes, then the UTF-8.
pub open spec fn encode_constant(c: ConstView) -> Seq<u8> {
    match c {
        ConstView::Class { name_index } => be_bytes(name_index as nat, 2),
        ConstView::String { string_index } => be_bytes(string_index as nat, 2),
        ConstView::MethodType { descriptor_index } => be_bytes(descriptor_index as nat, 2),
        ConstView::Fieldref { class_index, nameandtype_index } => encode_u16_pair(
            class_index,
            nameandtype_index,
        ),
        ConstView::Methodref { class_index, nameandtype_index } => encode_u16_pair(
            class_index,
            nameandtype_index,
        ),
        ConstView::InterfaceMethodref { class_index, nameandtype_index } => encode_u16_pair(
            class_index,
            nameandtype_index,
        ),
        ConstView::NameAndType { name_index, descriptor_index } => encode_u16_pair(
            name_index,
            descriptor_index,
        ),
        ConstView::InvokeDynamic {
            bootstrap_method_attr_index,
            name_and_type_index,
        } => encode_u16_pair(bootstrap_method_attr_index, name_and_type_index),
        ConstView::Integer(bits) => be_bytes(bits as nat, 4),
        ConstView::Float(bits) => be_bytes(bits as nat, 4),
        ConstView::Long(bits) => be_bytes(bits as nat, 8),
        ConstView::Double(bits) => be_bytes(bits as nat, 8),
        ConstView::Utf8(text) => be_bytes(encode_utf8(text).len(), 2) + encode_utf8(text),
        ConstView::MethodHandle { reference_kind, reference_index } => be_bytes(
            reference_kind as nat,
            1,
        ) + be_bytes(reference_index as nat, 2),
    }
}

/// Whether the entry `c` can be written: text must take no more bytes than
/// two bytes can count.
pub open spec fn constant_fits(c: ConstView) -> bool {
    c matches ConstView::Utf8(text) ==> encode_utf8(text).len() <= 0xFFFF
}

/// The entry `c` with its tag in front.
pub open spec fn encode_entry(c: ConstView) -> Seq<u8> {
    seq![kind_of(c).spec_tag()] + encode_constant(c)
}

/// `encode_entry` as the encoder of a list's records.
pub open spec fn entry_encoder() -> Encoder<ConstView> {
    |c: ConstView| encode_entry(c)
}

/// The attribute `a`: its name index in two bytes, the length of its
/// payload in four, then the payload.
pub open spec fn encode_attribute(a: AttributeView) -> Seq<u8> {
    be_bytes(a.name_index as nat, 2) + (be_bytes(a.info.len(), 4) + a.info)
}

/// Whether the attribute `a` can be written: its payload must take no more
/// bytes than four bytes can count.
pub open spec fn attribute_fits(a: AttributeView) -> bool {
    a.info.len() <= 0xFFFF_FFFF
}

/// `encode_attribute` as the encoder of a list's records.
pub open spec fn attribute_encoder() -> Encoder<AttributeView> {
    |a: AttributeView| encode_attribute(a)
}

/// Whether the attributes `items` can be written behind a two-byte count.
pub open spec fn attributes_fit(items: Seq<AttributeView>) -> bool {
    &&& items.len() <= 0xFFFF
    &&& forall|i: int| 0 <= i < items.len() ==> attribute_fits(#[trigger] items[i])
}

/// A list of attributes with their number in front.
pub open spec fn encode_counted_attributes(items: Seq<AttributeView>) -> Seq<u8> {
    be_bytes(items.len(), 2) + encode_list(attribute_encoder(), items)
}

/// The interface `i`: its index in two bytes.
pub open spec fn encode_interface(i: Interface) -> Seq<u8> {
    be_bytes(i.index as nat, 2)
}

/// `encode_interface` as the encoder of a list's records.
pub open spec fn interface_encoder() -> Encoder<Interface> {
    |i: Interface| encode_interface(i)
}

/// A list of interfaces with their number in front.
pub open spec fn encode_counted_interfaces(items: Seq<Interface>) -> Seq<u8> {
    be_bytes(items.len(), 2) + encode_list(interface_encoder(), items)
}

/// The field or method `m`: access flags, name index and descriptor index
/// in two bytes each, then its attributes with their number in front.
pub open spec fn encode_member(m: MemberView) -> Seq<u8> {
    be_bytes(m.access_flags as nat, 2) + (be_bytes(m.name_index as nat, 2) + (be_bytes(
        m.descriptor_index as nat,
        2,
    ) + encode_counted_attributes(m.attributes)))
}

/// Whether the field or method `m` can be written.
pub open spec fn member_fits(m: MemberView) -> bool {
    attributes_fit(m.attributes)
}

/// `encode_member` as the encoder of a list's records.
pub open spec fn member_encoder() -> Encoder<MemberView> {
    |m: MemberView| encode_member(m)
}

/// Whether the fields or methods `items` can be written behind a two-byte
/// count.
pub open spec fn members_fit(items: Seq<MemberView>) -> bool {
    &&& items.len() <= 0xFFFF
    &&& forall|i: int| 0 <= i < items.len() ==> member_fits(#[trigger] items[i])
}

/// A list of fields or methods with their number in front.
pub open spec fn encode_counted_members(items: Seq<MemberView>) -> Seq<u8> {
    be_bytes(items.len(), 2) + encode_list(member_encoder(), items)
}

/// Whether the pool `entries` can be written behind a two-byte count that is
/// one more than their number.
pub open spec fn pool_fits(entries: Seq<ConstView>) -> bool {
    &&& entries.len() < 0xFFFF
    &&& forall|i: int| 0 <= i < entries.len() ==> constant_fits(#[trigger] entries[i])
}

/// Whether `count` is a count that a pool of `entries` can declare: one more
/// than the number of its entries, or zero for a pool without entries.
pub open spec fn declares(count: nat, entries: Seq<ConstView>) -> bool {
    count == entries.len() + 1 || (count == 0 && entries.len() == 0)
}

/// The pool `entries` with the declared count `count` in front.
pub open spec fn encode_pool_declaring(count: nat, entries: Seq<ConstView>) -> Seq<u8> {
    be_bytes(count, 2) + encode_list(entry_encoder(), entries)
}

/// A pool with its declared count in front: one more than the number of its
/// entries.
pub open spec fn encode_counted_pool(entries: Seq<ConstView>) -> Seq<u8> {
    encode_pool_declaring(entries.len() + 1, entries)
}

/// Whether the class `c` can be written: each of its lists must be short
/// enough for its two-byte count, and each record must fit its own length
/// field.
pub open spec fn class_fits(c: ClassView) -> bool {
    &&& pool_fits(c.constant_pool)
    &&& c.interfaces.len() <= 0xFFFF
    &&& members_fit(c.fields)
    &&& members_fit(c.methods)
    &&& attributes_fit(c.attributes)
}

/// What follows the pool in the class `c`: access flags, the indices of the
/// class and its superclass, then interfaces, fields, methods and
/// attributes, each list with its number in front.
pub open spec fn encode_body(c: ClassView) -> Seq<u8> {
    be_bytes(c.access_flags as nat, 2) + (encode_u16_pair(c.this_class, c.super_class) + (
    encode_counted_interfaces(c.interfaces) + (encode_counted_members(c.fields) + (
    encode_counted_members(c.methods) + encode_counted_attributes(c.attributes)))))
}

/// The class file of the class `c` with the declared pool count `count`:
/// the signature, the two versions, the pool behind its count, and the body.
pub open spec fn encode_class_declaring(count: nat, c: ClassView) -> Seq<u8> {
    be_bytes(MAGIC as nat, 4) + (encode_u16_pair(c.minor_version, c.major_version) + (
    encode_pool_declaring(count, c.constant_pool) + encode_body(c)))
}

/// The class file of the class `c`: the signature, the two versions, the
/// pool with its count, and the body.
pub open spec fn encode_class(c: ClassView) -> Seq<u8> {
    encode_class_declaring(c.constant_pool.len() + 1, c)
}

/// The signature is written as the bytes `CA FE BA BE`.
pub proof fn lemma_magic_bytes()
    ensures
        be_bytes(MAGIC as nat, 4) == seq![0xCAu8, 0xFEu8, 0xBAu8, 0xBEu8],
{
    reveal_with_fuel(be_bytes, 5);
    assert(be_bytes(MAGIC as nat, 4) =~= seq![0xCAu8, 0xFEu8, 0xBAu8, 0xBEu8]);
}

/// Whether the buffer `b` begins with a class file of the class `c`: `c`
/// can be written, and `b` holds its class file from offset zero, with the
/// pool count that stands in `b`.
pub open spec fn begins_with_class(b: Seq<u8>, c: ClassView) -> bool {
    let declared = be_at(b, 8, 2);
    &&& class_fits(c)
    &&& declares(declared, c.constant_pool)
    &&& holds_at(b, 0, encode_class_declaring(declared, c))
}

} // verus!
