//! Decoding is the inverse of writing: a value that is written decodes to
//! itself, and what decodes is what a buffer holds written.

use crate::attribute::{attribute_decoder, spec_attribute, AttributeView};
use crate::class::{
    decodes, spec_class, spec_counted_attributes, spec_counted_interfaces, spec_counted_members,
    spec_counted_pool, spec_magic, Class, ClassView, MAGIC,
};
use crate::constant::{
    lemma_tag_round_trip, spec_constant, spec_from_tag, spec_u16_pair, ConstType, ConstView,
};
use crate::encode::{
    attribute_encoder, attribute_fits, attributes_fit, be_bytes, begins_with_class, class_fits,
    constant_fits,
    declares, encode_attribute, encode_body, encode_class, encode_class_declaring,
    encode_constant, encode_counted_attributes, encode_counted_interfaces,
    encode_counted_members, encode_entry, encode_list, encode_member, encode_pool_declaring,
    encode_u16_pair, entry_encoder, holds_at, interface_encoder, kind_of, lemma_be_bytes_len,
    lemma_be_bytes_value, lemma_be_value_bytes, lemma_holds_at_concat, lemma_holds_in_front,
    member_encoder, member_fits, members_fit, pool_fits, Encoder,
};
use crate::error::{DecodeError, ErrorKind, Failure};
use crate::list::{spec_list, Decoder, Partial};
use crate::member::{interface_decoder, member_decoder, spec_member, Interface, MemberView};
use crate::pool::{entry_decoder, pool_entries, spec_entry};
use crate::reader::{
    be_at, be_value, in_bounds, lemma_be_at_byte, lemma_be_value_bound, radix_pow, spec_u16,
    spec_u32, spec_u64, spec_u8,
};
use vstd::prelude::*;
use vstd::utf8::{
    decode_utf8_encode_utf8, encode_utf8, encode_utf8_decode_utf8, encode_utf8_valid_utf8,
};

verus! {

/// A buffer that holds the numeral of a byte, of two, of four or of eight
/// bytes reads back the number.
pub proof fn lemma_read_back(b: Seq<u8>, at: int)
    ensures
        forall|v: u8| #[trigger]
            holds_at(b, at, be_bytes(v as nat, 1)) ==> spec_u8(b, at) == Ok::<(u8, int), Failure>(
                (v, at + 1),
            ),
        forall|v: u16| #[trigger]
            holds_at(b, at, be_bytes(v as nat, 2)) ==> spec_u16(b, at) == Ok::<
                (u16, int),
                Failure,
            >((v, at + 2)),
        forall|v: u32| #[trigger]
            holds_at(b, at, be_bytes(v as nat, 4)) ==> spec_u32(b, at) == Ok::<
                (u32, int),
                Failure,
            >((v, at + 4)),
        forall|v: u64| #[trigger]
            holds_at(b, at, be_bytes(v as nat, 8)) ==> spec_u64(b, at) == Ok::<
                (u64, int),
                Failure,
            >((v, at + 8)),
{
    reveal_with_fuel(radix_pow, 9);
    assert forall|v: u8| #[trigger] holds_at(b, at, be_bytes(v as nat, 1)) implies spec_u8(b, at)
        == Ok::<(u8, int), Failure>((v, at + 1)) by {
        lemma_be_bytes_len(v as nat, 1);
        lemma_be_bytes_value(v as nat, 1);
        let one = b.subrange(at, at + 1);
        assert(one.drop_last().len() == 0);
        assert(be_value(one) == one.last());
    }
    assert forall|v: u16| #[trigger] holds_at(b, at, be_bytes(v as nat, 2)) implies spec_u16(b, at)
        == Ok::<(u16, int), Failure>((v, at + 2)) by {
        lemma_be_bytes_len(v as nat, 2);
        lemma_be_bytes_value(v as nat, 2);
    }
    assert forall|v: u32| #[trigger] holds_at(b, at, be_bytes(v as nat, 4)) implies spec_u32(b, at)
        == Ok::<(u32, int), Failure>((v, at + 4)) by {
        lemma_be_bytes_len(v as nat, 4);
        lemma_be_bytes_value(v as nat, 4);
    }
    assert forall|v: u64| #[trigger] holds_at(b, at, be_bytes(v as nat, 8)) implies spec_u64(b, at)
        == Ok::<(u64, int), Failure>((v, at + 8)) by {
        lemma_be_bytes_len(v as nat, 8);
        lemma_be_bytes_value(v as nat, 8);
    }
}

/// Whether `item` decodes the record `x` from the bytes that `encode` spells
/// it with, wherever a buffer holds them, and ends behind them.
pub open spec fn inverts<T>(item: Decoder<T>, encode: Encoder<T>, x: T) -> bool {
    forall|b: Seq<u8>, at: int| #[trigger]
        holds_at(b, at, encode(x)) ==> item(b, at) == Ok::<(T, int), Failure>(
            (x, at + encode(x).len()),
        )
}

/// A list whose every record decodes from its own bytes decodes from the
/// bytes of the list: all records, in order, ending behind the last.
pub proof fn lemma_list_round_trip<T>(
    item: Decoder<T>,
    encode: Encoder<T>,
    cut: ErrorKind,
    b: Seq<u8>,
    at: int,
    items: Seq<T>,
)
    requires
        forall|i: int| 0 <= i < items.len() ==> inverts(item, encode, #[trigger] items[i]),
        holds_at(b, at, encode_list(encode, items)),
    ensures
        spec_list(item, cut, b, at, items.len()) == Ok::<(Seq<T>, int), Partial<T>>(
            (items, at + encode_list(encode, items).len()),
        ),
    decreases items.len(),
{
    if items.len() == 0 {
        assert(items =~= Seq::<T>::empty());
    } else {
        let head = items[0];
        let tail = items.drop_first();
        assert(inverts(item, encode, head));
        lemma_holds_at_concat(b, at, encode(head), encode_list(encode, tail));
        let next = at + encode(head).len();
        assert(item(b, at) == Ok::<(T, int), Failure>((head, next)));
        assert forall|i: int| 0 <= i < tail.len() implies inverts(
            item,
            encode,
            #[trigger] tail[i],
        ) by {
            assert(tail[i] == items[i + 1]);
        }
        lemma_list_round_trip(item, encode, cut, b, next, tail);
        assert(seq![head] + tail =~= items);
    }
}

/// A buffer that holds two two-byte numbers reads them back as a pair.
pub proof fn lemma_pair_round_trip(b: Seq<u8>, at: int, first: u16, second: u16)
    requires
        holds_at(b, at, encode_u16_pair(first, second)),
    ensures
        spec_u16_pair(b, at) == Ok::<((u16, u16), int), Failure>(((first, second), at + 4)),
        encode_u16_pair(first, second).len() == 4,
{
    lemma_be_bytes_len(first as nat, 2);
    lemma_be_bytes_len(second as nat, 2);
    lemma_holds_at_concat(b, at, be_bytes(first as nat, 2), be_bytes(second as nat, 2));
    lemma_read_back(b, at);
    lemma_read_back(b, at + 2);
}

/// Decoding the payload of an entry that can be written gives the entry
/// back, and ends behind the payload.
pub proof fn lemma_constant_round_trip(b: Seq<u8>, at: int, c: ConstView)
    requires
        constant_fits(c),
        holds_at(b, at, encode_constant(c)),
    ensures
        spec_constant(kind_of(c), b, at) == Ok::<(ConstView, int), Failure>(
            (c, at + encode_constant(c).len()),
        ),
{
    lemma_read_back(b, at);
    match c {
        ConstView::Class { name_index } => {
            lemma_be_bytes_len(name_index as nat, 2);
        },
        ConstView::String { string_index } => {
            lemma_be_bytes_len(string_index as nat, 2);
        },
        ConstView::MethodType { descriptor_index } => {
            lemma_be_bytes_len(descriptor_index as nat, 2);
        },
        ConstView::Fieldref { class_index, nameandtype_index } => {
            lemma_pair_round_trip(b, at, class_index, nameandtype_index);
        },
        ConstView::Methodref { class_index, nameandtype_index } => {
            lemma_pair_round_trip(b, at, class_index, nameandtype_index);
        },
        ConstView::InterfaceMethodref { class_index, nameandtype_index } => {
            lemma_pair_round_trip(b, at, class_index, nameandtype_index);
        },
        ConstView::NameAndType { name_index, descriptor_index } => {
            lemma_pair_round_trip(b, at, name_index, descriptor_index);
        },
        ConstView::InvokeDynamic { bootstrap_method_attr_index, name_and_type_index } => {
            lemma_pair_round_trip(b, at, bootstrap_method_attr_index, name_and_type_index);
        },
        ConstView::Integer(bits) => {
            lemma_be_bytes_len(bits as nat, 4);
        },
        ConstView::Float(bits) => {
            lemma_be_bytes_len(bits as nat, 4);
        },
        ConstView::Long(bits) => {
            lemma_be_bytes_len(bits as nat, 8);
        },
        ConstView::Double(bits) => {
            lemma_be_bytes_len(bits as nat, 8);
        },
        ConstView::Utf8(text) => {
            let bytes = encode_utf8(text);
            let length = bytes.len() as u16;
            lemma_be_bytes_len(bytes.len(), 2);
            lemma_holds_at_concat(b, at, be_bytes(bytes.len(), 2), bytes);
            assert(holds_at(b, at, be_bytes(length as nat, 2)));
            encode_utf8_valid_utf8(text);
            encode_utf8_decode_utf8(text);
        },
        ConstView::MethodHandle { reference_kind, reference_index } => {
            lemma_be_bytes_len(reference_kind as nat, 1);
            lemma_be_bytes_len(reference_index as nat, 2);
            lemma_holds_at_concat(
                b,
                at,
                be_bytes(reference_kind as nat, 1),
                be_bytes(reference_index as nat, 2),
            );
            lemma_read_back(b, at + 1);
        },
    }
}

/// Decoding a tagged entry that can be written gives the entry back, and
/// ends behind it.
pub proof fn lemma_entry_round_trip(b: Seq<u8>, at: int, c: ConstView)
    requires
        constant_fits(c),
        holds_at(b, at, encode_entry(c)),
    ensures
        spec_entry(b, at) == Ok::<(ConstView, int), Failure>((c, at + encode_entry(c).len())),
{
    let tag = kind_of(c).spec_tag();
    lemma_holds_at_concat(b, at, seq![tag], encode_constant(c));
    assert(b.subrange(at, at + 1)[0] == tag);
    lemma_tag_round_trip(tag, kind_of(c));
    lemma_constant_round_trip(b, at + 1, c);
}

/// Decoding an attribute that can be written gives the attribute back, and
/// ends behind it.
pub proof fn lemma_attribute_round_trip(b: Seq<u8>, at: int, a: AttributeView)
    requires
        attribute_fits(a),
        holds_at(b, at, encode_attribute(a)),
    ensures
        spec_attribute(b, at) == Ok::<(AttributeView, int), Failure>(
            (a, at + encode_attribute(a).len()),
        ),
        encode_attribute(a).len() == 6 + a.info.len(),
{
    let length = a.info.len() as u32;
    lemma_be_bytes_len(a.name_index as nat, 2);
    lemma_be_bytes_len(a.info.len(), 4);
    lemma_holds_at_concat(b, at, be_bytes(a.name_index as nat, 2), be_bytes(a.info.len(), 4) + a.info);
    lemma_holds_at_concat(b, at + 2, be_bytes(a.info.len(), 4), a.info);
    assert(holds_at(b, at + 2, be_bytes(length as nat, 4)));
    lemma_read_back(b, at);
    lemma_read_back(b, at + 2);
}

/// Decoding a counted list of attributes that can be written gives the
/// attributes back, and ends behind them.
pub proof fn lemma_attributes_round_trip(b: Seq<u8>, at: int, items: Seq<AttributeView>)
    requires
        attributes_fit(items),
        holds_at(b, at, encode_counted_attributes(items)),
    ensures
        spec_counted_attributes(b, at) == Ok::<(Seq<AttributeView>, int), Failure>(
            (items, at + encode_counted_attributes(items).len()),
        ),
{
    let count = items.len() as u16;
    let item = attribute_decoder();
    let encode = attribute_encoder();
    lemma_be_bytes_len(items.len(), 2);
    lemma_holds_at_concat(b, at, be_bytes(items.len(), 2), encode_list(encode, items));
    assert(holds_at(b, at, be_bytes(count as nat, 2)));
    lemma_read_back(b, at);
    assert forall|i: int| 0 <= i < items.len() implies inverts(item, encode, #[trigger] items[i]) by {
        let a = items[i];
        assert forall|b: Seq<u8>, at: int| #[trigger]
            holds_at(b, at, encode(a)) implies item(b, at) == Ok::<(AttributeView, int), Failure>(
            (a, at + encode(a).len()),
        ) by {
            lemma_attribute_round_trip(b, at, a);
        }
    }
    lemma_list_round_trip(item, encode, ErrorKind::TruncatedList, b, at + 2, items);
}

/// Decoding a counted list of interfaces gives the interfaces back, and
/// ends behind them.
pub proof fn lemma_interfaces_round_trip(b: Seq<u8>, at: int, items: Seq<Interface>)
    requires
        items.len() <= 0xFFFF,
        holds_at(b, at, encode_counted_interfaces(items)),
    ensures
        spec_counted_interfaces(b, at) == Ok::<(Seq<Interface>, int), Failure>(
            (items, at + encode_counted_interfaces(items).len()),
        ),
{
    let count = items.len() as u16;
    let item = interface_decoder();
    let encode = interface_encoder();
    lemma_be_bytes_len(items.len(), 2);
    lemma_holds_at_concat(b, at, be_bytes(items.len(), 2), encode_list(encode, items));
    assert(holds_at(b, at, be_bytes(count as nat, 2)));
    lemma_read_back(b, at);
    assert forall|i: int| 0 <= i < items.len() implies inverts(item, encode, #[trigger] items[i]) by {
        let x = items[i];
        assert forall|b: Seq<u8>, at: int| #[trigger]
            holds_at(b, at, encode(x)) implies item(b, at) == Ok::<(Interface, int), Failure>(
            (x, at + encode(x).len()),
        ) by {
            lemma_be_bytes_len(x.index as nat, 2);
            lemma_read_back(b, at);
        }
    }
    lemma_list_round_trip(item, encode, ErrorKind::TruncatedList, b, at + 2, items);
}

/// Decoding a field or method that can be written gives it back, and ends
/// behind it.
pub proof fn lemma_member_round_trip(b: Seq<u8>, at: int, m: MemberView)
    requires
        member_fits(m),
        holds_at(b, at, encode_member(m)),
    ensures
        spec_member(b, at) == Ok::<(MemberView, int), Failure>((m, at + encode_member(m).len())),
{
    let flags = be_bytes(m.access_flags as nat, 2);
    let name = be_bytes(m.name_index as nat, 2);
    let descriptor = be_bytes(m.descriptor_index as nat, 2);
    let attributes = encode_counted_attributes(m.attributes);
    lemma_be_bytes_len(m.access_flags as nat, 2);
    lemma_be_bytes_len(m.name_index as nat, 2);
    lemma_be_bytes_len(m.descriptor_index as nat, 2);
    lemma_be_bytes_len(m.attributes.len(), 2);
    lemma_holds_at_concat(b, at, flags, name + (descriptor + attributes));
    lemma_holds_at_concat(b, at + 2, name, descriptor + attributes);
    lemma_holds_at_concat(b, at + 4, descriptor, attributes);
    lemma_read_back(b, at);
    lemma_read_back(b, at + 2);
    lemma_read_back(b, at + 4);
    lemma_attributes_round_trip(b, at + 6, m.attributes);
    lemma_holds_at_concat(
        b,
        at + 6,
        be_bytes(m.attributes.len(), 2),
        encode_list(attribute_encoder(), m.attributes),
    );
    let count = m.attributes.len() as u16;
    assert(holds_at(b, at + 6, be_bytes(count as nat, 2)));
    lemma_read_back(b, at + 6);
}

/// Decoding a counted list of fields or methods that can be written gives
/// them back, and ends behind them.
pub proof fn lemma_members_round_trip(b: Seq<u8>, at: int, items: Seq<MemberView>)
    requires
        members_fit(items),
        holds_at(b, at, encode_counted_members(items)),
    ensures
        spec_counted_members(b, at) == Ok::<(Seq<MemberView>, int), Failure>(
            (items, at + encode_counted_members(items).len()),
        ),
{
    let count = items.len() as u16;
    let item = member_decoder();
    let encode = member_encoder();
    lemma_be_bytes_len(items.len(), 2);
    lemma_holds_at_concat(b, at, be_bytes(items.len(), 2), encode_list(encode, items));
    assert(holds_at(b, at, be_bytes(count as nat, 2)));
    lemma_read_back(b, at);
    assert forall|i: int| 0 <= i < items.len() implies inverts(item, encode, #[trigger] items[i]) by {
        let m = items[i];
        assert forall|b: Seq<u8>, at: int| #[trigger]
            holds_at(b, at, encode(m)) implies item(b, at) == Ok::<(MemberView, int), Failure>(
            (m, at + encode(m).len()),
        ) by {
            lemma_member_round_trip(b, at, m);
        }
    }
    lemma_list_round_trip(item, encode, ErrorKind::TruncatedList, b, at + 2, items);
}

/// Decoding a pool that can be written, behind a count that it can declare,
/// gives its entries back, and ends behind them.
pub proof fn lemma_pool_round_trip(b: Seq<u8>, at: int, declared: nat, entries: Seq<ConstView>)
    requires
        pool_fits(entries),
        declares(declared, entries),
        holds_at(b, at, encode_pool_declaring(declared, entries)),
    ensures
        spec_counted_pool(b, at) == Ok::<(Seq<ConstView>, int), Failure>(
            (entries, at + encode_pool_declaring(declared, entries).len()),
        ),
{
    let count = declared as u16;
    let item = entry_decoder();
    let encode = entry_encoder();
    lemma_be_bytes_len(declared, 2);
    lemma_holds_at_concat(b, at, be_bytes(declared, 2), encode_list(encode, entries));
    assert(holds_at(b, at, be_bytes(count as nat, 2)));
    lemma_read_back(b, at);
    assert forall|i: int| 0 <= i < entries.len() implies inverts(
        item,
        encode,
        #[trigger] entries[i],
    ) by {
        let c = entries[i];
        assert forall|b: Seq<u8>, at: int| #[trigger]
            holds_at(b, at, encode(c)) implies item(b, at) == Ok::<(ConstView, int), Failure>(
            (c, at + encode(c).len()),
        ) by {
            lemma_entry_round_trip(b, at, c);
        }
    }
    lemma_list_round_trip(item, encode, ErrorKind::TruncatedPool, b, at + 2, entries);
}

/// Writing a class and decoding it again gives the class back.
///
/// For every class `c` that can be written, every buffer that begins with
/// the class file of `c` decodes to `c`, and decoding ends behind that class
/// file, whatever the buffer holds behind it. The same holds of a class
/// without pool entries whose file declares a pool count of zero.
pub proof fn lemma_class_round_trip(b: Seq<u8>, declared: nat, c: ClassView)
    requires
        class_fits(c),
        declares(declared, c.constant_pool),
        holds_at(b, 0, encode_class_declaring(declared, c)),
    ensures
        spec_class(b) == Ok::<(ClassView, int), Failure>(
            (c, encode_class_declaring(declared, c).len() as int),
        ),
{
    let magic = be_bytes(MAGIC as nat, 4);
    let versions = encode_u16_pair(c.minor_version, c.major_version);
    let pool = encode_pool_declaring(declared, c.constant_pool);
    let flags = be_bytes(c.access_flags as nat, 2);
    let classes = encode_u16_pair(c.this_class, c.super_class);
    let interfaces = encode_counted_interfaces(c.interfaces);
    let fields = encode_counted_members(c.fields);
    let methods = encode_counted_members(c.methods);
    let attributes = encode_counted_attributes(c.attributes);
    let body = encode_body(c);
    let at_flags: int = 8int + pool.len();
    let at_interfaces: int = at_flags + 6;
    let at_fields: int = at_interfaces + interfaces.len();
    let at_methods: int = at_fields + fields.len();
    let at_attributes: int = at_methods + methods.len();
    let end: int = at_attributes + attributes.len();
    assert(magic.len() == 4 && versions.len() == 4 && flags.len() == 2 && classes.len() == 4) by {
        lemma_be_bytes_len(MAGIC as nat, 4);
        lemma_be_bytes_len(c.minor_version as nat, 2);
        lemma_be_bytes_len(c.major_version as nat, 2);
        lemma_be_bytes_len(c.access_flags as nat, 2);
        lemma_be_bytes_len(c.this_class as nat, 2);
        lemma_be_bytes_len(c.super_class as nat, 2);
    }
    assert(holds_at(b, 0, magic) && holds_at(b, 4, versions) && holds_at(b, 8, pool) && holds_at(
        b,
        at_flags,
        body,
    )) by {
        lemma_holds_at_concat(b, 0, magic, versions + (pool + body));
        lemma_holds_at_concat(b, 4, versions, pool + body);
        lemma_holds_at_concat(b, 8, pool, body);
    }
    assert(holds_at(b, at_flags, flags) && holds_at(b, at_flags + 2, classes) && holds_at(
        b,
        at_interfaces,
        interfaces,
    ) && holds_at(b, at_fields, fields) && holds_at(b, at_methods, methods) && holds_at(
        b,
        at_attributes,
        attributes,
    )) by {
        lemma_holds_at_concat(
            b,
            at_flags,
            flags,
            classes + (interfaces + (fields + (methods + attributes))),
        );
        lemma_holds_at_concat(
            b,
            at_flags + 2,
            classes,
            interfaces + (fields + (methods + attributes)),
        );
        lemma_holds_at_concat(b, at_interfaces, interfaces, fields + (methods + attributes));
        lemma_holds_at_concat(b, at_fields, fields, methods + attributes);
        lemma_holds_at_concat(b, at_methods, methods, attributes);
    }
    assert(encode_class_declaring(declared, c).len() == end);
    assert(spec_magic(b) == Ok::<((), int), Failure>(((), 4))) by {
        lemma_read_back(b, 0);
    }
    assert(spec_u16_pair(b, 4) == Ok::<((u16, u16), int), Failure>(
        ((c.minor_version, c.major_version), 8),
    )) by {
        lemma_pair_round_trip(b, 4, c.minor_version, c.major_version);
    }
    assert(spec_counted_pool(b, 8) == Ok::<(Seq<ConstView>, int), Failure>(
        (c.constant_pool, at_flags),
    )) by {
        lemma_pool_round_trip(b, 8, declared, c.constant_pool);
    }
    assert(spec_u16(b, at_flags) == Ok::<(u16, int), Failure>((c.access_flags, at_flags + 2))) by {
        lemma_read_back(b, at_flags);
    }
    assert(spec_u16_pair(b, at_flags + 2) == Ok::<((u16, u16), int), Failure>(
        ((c.this_class, c.super_class), at_interfaces),
    )) by {
        lemma_pair_round_trip(b, at_flags + 2, c.this_class, c.super_class);
    }
    assert(spec_counted_interfaces(b, at_interfaces) == Ok::<(Seq<Interface>, int), Failure>(
        (c.interfaces, at_fields),
    )) by {
        lemma_interfaces_round_trip(b, at_interfaces, c.interfaces);
    }
    assert(spec_counted_members(b, at_fields) == Ok::<(Seq<MemberView>, int), Failure>(
        (c.fields, at_methods),
    )) by {
        lemma_members_round_trip(b, at_fields, c.fields);
    }
    assert(spec_counted_members(b, at_methods) == Ok::<(Seq<MemberView>, int), Failure>(
        (c.methods, at_attributes),
    )) by {
        lemma_members_round_trip(b, at_methods, c.methods);
    }
    assert(spec_counted_attributes(b, at_attributes) == Ok::<(Seq<AttributeView>, int), Failure>(
        (c.attributes, end),
    )) by {
        lemma_attributes_round_trip(b, at_attributes, c.attributes);
    }
}

/// The decoder gives back every class that can be written: on a buffer that
/// is the class file of `c`, with anything or nothing behind it, a result of
/// the decoder is a class whose view is `c`.
pub proof fn lemma_decoder_inverts_encoder(
    data: Seq<u8>,
    c: ClassView,
    trailing: Seq<u8>,
    r: Result<Class, DecodeError>,
)
    requires
        class_fits(c),
        data == encode_class(c) + trailing,
        decodes(r, spec_class(data)),
    ensures
        r is Ok,
        r->Ok_0@ == c,
{
    lemma_holds_in_front(encode_class(c), trailing);
    lemma_class_round_trip(data, c.constant_pool.len() + 1, c);
}

/// What a read gives is what the buffer holds written at its offset.
pub proof fn lemma_read_written(b: Seq<u8>, at: int)
    ensures
        spec_u8(b, at) matches Ok((v, _)) ==> holds_at(b, at, be_bytes(v as nat, 1)),
        spec_u16(b, at) matches Ok((v, _)) ==> holds_at(b, at, be_bytes(v as nat, 2)),
        spec_u32(b, at) matches Ok((v, _)) ==> holds_at(b, at, be_bytes(v as nat, 4)),
        spec_u64(b, at) matches Ok((v, _)) ==> holds_at(b, at, be_bytes(v as nat, 8)),
        spec_u16_pair(b, at) matches Ok((pair, _)) ==> holds_at(
            b,
            at,
            encode_u16_pair(pair.0, pair.1),
        ),
{
    reveal_with_fuel(radix_pow, 9);
    if in_bounds(b, at, 1) {
        let bytes = b.subrange(at, at + 1);
        lemma_be_value_bytes(bytes);
        lemma_be_at_byte(b, at);
    }
    if in_bounds(b, at, 2) {
        let bytes = b.subrange(at, at + 2);
        lemma_be_value_bytes(bytes);
        lemma_be_value_bound(bytes);
    }
    if in_bounds(b, at, 4) {
        let bytes = b.subrange(at, at + 4);
        lemma_be_value_bytes(bytes);
        lemma_be_value_bound(bytes);
        let high = b.subrange(at + 2, at + 4);
        lemma_be_value_bytes(high);
        lemma_be_value_bound(high);
        match spec_u16_pair(b, at) {
            Ok((pair, _)) => {
                lemma_be_bytes_len(pair.0 as nat, 2);
                lemma_holds_at_concat(b, at, be_bytes(pair.0 as nat, 2), be_bytes(pair.1 as nat, 2));
            },
            Err(_) => {},
        }
    }
    if in_bounds(b, at, 8) {
        let bytes = b.subrange(at, at + 8);
        lemma_be_value_bytes(bytes);
        lemma_be_value_bound(bytes);
    }
}

/// Whether every record that `item` decodes can be written, and is held
/// written by the buffer where it was decoded, up to where decoding ended.
pub open spec fn reverts<T>(item: Decoder<T>, encode: Encoder<T>, fits: spec_fn(T) -> bool) -> bool {
    forall|b: Seq<u8>, at: int|
        (#[trigger] item(b, at)) matches Ok((x, next)) ==> fits(x) && holds_at(b, at, encode(x))
            && next == at + encode(x).len()
}

/// A list that decodes is held written by the buffer, record behind record,
/// up to where decoding ended, and each of its records can be written.
pub proof fn lemma_list_written<T>(
    item: Decoder<T>,
    encode: Encoder<T>,
    fits: spec_fn(T) -> bool,
    cut: ErrorKind,
    b: Seq<u8>,
    at: int,
    count: nat,
)
    requires
        reverts(item, encode, fits),
        0 <= at <= b.len(),
    ensures
        spec_list(item, cut, b, at, count) matches Ok((items, end)) ==> {
            &&& holds_at(b, at, encode_list(encode, items))
            &&& end == at + encode_list(encode, items).len()
            &&& items.len() == count
            &&& forall|i: int| 0 <= i < items.len() ==> fits(#[trigger] items[i])
        },
    decreases count,
{
    if count == 0 {
        assert(b.subrange(at, at) =~= Seq::<u8>::empty());
    } else {
        match item(b, at) {
            Err(f) => {},
            Ok((first, next)) => {
                lemma_list_written(item, encode, fits, cut, b, next, (count - 1) as nat);
                match spec_list(item, cut, b, next, (count - 1) as nat) {
                    Err(partial) => {},
                    Ok((rest, end)) => {
                        let items = seq![first] + rest;
                        assert(items[0] == first);
                        assert(items.drop_first() =~= rest);
                        lemma_holds_at_concat(b, at, encode(first), encode_list(encode, rest));
                        assert forall|i: int| 0 <= i < items.len() implies fits(
                            #[trigger] items[i],
                        ) by {
                            if i > 0 {
                                assert(items[i] == rest[i - 1]);
                            }
                        }
                    },
                }
            },
        }
    }
}

/// The payload of an entry that decodes is held written by the buffer, and
/// the entry is of the kind that was asked for and can be written.
pub proof fn lemma_constant_written(kind: ConstType, b: Seq<u8>, at: int)
    ensures
        spec_constant(kind, b, at) matches Ok((c, next)) ==> {
            &&& kind_of(c) == kind
            &&& constant_fits(c)
            &&& holds_at(b, at, encode_constant(c))
            &&& next == at + encode_constant(c).len()
        },
{
    lemma_read_written(b, at);
    lemma_be_bytes_len(0, 1);
    match spec_constant(kind, b, at) {
        Ok((c, next)) => {
            match c {
                ConstView::Class { name_index } => {
                    lemma_be_bytes_len(name_index as nat, 2);
                },
                ConstView::String { string_index } => {
                    lemma_be_bytes_len(string_index as nat, 2);
                },
                ConstView::MethodType { descriptor_index } => {
                    lemma_be_bytes_len(descriptor_index as nat, 2);
                },
                ConstView::Fieldref { class_index, nameandtype_index } => {
                    lemma_be_bytes_len(class_index as nat, 2);
                    lemma_be_bytes_len(nameandtype_index as nat, 2);
                },
                ConstView::Methodref { class_index, nameandtype_index } => {
                    lemma_be_bytes_len(class_index as nat, 2);
                    lemma_be_bytes_len(nameandtype_index as nat, 2);
                },
                ConstView::InterfaceMethodref { class_index, nameandtype_index } => {
                    lemma_be_bytes_len(class_index as nat, 2);
                    lemma_be_bytes_len(nameandtype_index as nat, 2);
                },
                ConstView::NameAndType { name_index, descriptor_index } => {
                    lemma_be_bytes_len(name_index as nat, 2);
                    lemma_be_bytes_len(descriptor_index as nat, 2);
                },
                ConstView::InvokeDynamic { bootstrap_method_attr_index, name_and_type_index } => {
                    lemma_be_bytes_len(bootstrap_method_attr_index as nat, 2);
                    lemma_be_bytes_len(name_and_type_index as nat, 2);
                },
                ConstView::Integer(bits) => {
                    lemma_be_bytes_len(bits as nat, 4);
                },
                ConstView::Float(bits) => {
                    lemma_be_bytes_len(bits as nat, 4);
                },
                ConstView::Long(bits) => {
                    lemma_be_bytes_len(bits as nat, 8);
                },
                ConstView::Double(bits) => {
                    lemma_be_bytes_len(bits as nat, 8);
                },
                ConstView::Utf8(text) => {
                    let length = spec_u16(b, at)->Ok_0.0;
                    let bytes = b.subrange(at + 2, at + 2 + length);
                    decode_utf8_encode_utf8(bytes);
                    lemma_be_bytes_len(length as nat, 2);
                    lemma_holds_at_concat(b, at, be_bytes(length as nat, 2), bytes);
                },
                ConstView::MethodHandle { reference_kind, reference_index } => {
                    lemma_read_written(b, at + 1);
                    lemma_be_bytes_len(reference_kind as nat, 1);
                    lemma_be_bytes_len(reference_index as nat, 2);
                    lemma_holds_at_concat(
                        b,
                        at,
                        be_bytes(reference_kind as nat, 1),
                        be_bytes(reference_index as nat, 2),
                    );
                },
            }
        },
        Err(_) => {},
    }
}

/// A tagged entry that decodes can be written, and is held written by the
/// buffer up to where decoding ended.
pub proof fn lemma_entry_written(b: Seq<u8>, at: int)
    ensures
        spec_entry(b, at) matches Ok((c, next)) ==> {
            &&& constant_fits(c)
            &&& holds_at(b, at, encode_entry(c))
            &&& next == at + encode_entry(c).len()
        },
{
    match spec_entry(b, at) {
        Ok((c, next)) => {
            let tag = b[at];
            let kind = spec_from_tag(tag)->Some_0;
            lemma_constant_written(kind, b, at + 1);
            lemma_tag_round_trip(tag, kind);
            assert(b.subrange(at, at + 1) =~= seq![tag]);
            lemma_holds_at_concat(b, at, seq![tag], encode_constant(c));
        },
        Err(_) => {},
    }
}

/// An attribute that decodes can be written, and is held written by the
/// buffer up to where decoding ended.
pub proof fn lemma_attribute_written(b: Seq<u8>, at: int)
    ensures
        spec_attribute(b, at) matches Ok((a, next)) ==> {
            &&& attribute_fits(a)
            &&& holds_at(b, at, encode_attribute(a))
            &&& next == at + encode_attribute(a).len()
        },
{
    match spec_attribute(b, at) {
        Ok((a, next)) => {
            let length = spec_u32(b, at + 2)->Ok_0.0;
            lemma_read_written(b, at);
            lemma_read_written(b, at + 2);
            lemma_be_bytes_len(a.name_index as nat, 2);
            lemma_be_bytes_len(length as nat, 4);
            lemma_holds_at_concat(b, at + 2, be_bytes(length as nat, 4), a.info);
            lemma_holds_at_concat(
                b,
                at,
                be_bytes(a.name_index as nat, 2),
                be_bytes(length as nat, 4) + a.info,
            );
        },
        Err(_) => {},
    }
}

/// `attribute_fits` as a property of a list's records.
pub open spec fn attribute_fitting() -> spec_fn(AttributeView) -> bool {
    |a: AttributeView| attribute_fits(a)
}

/// `member_fits` as a property of a list's records.
pub open spec fn member_fitting() -> spec_fn(MemberView) -> bool {
    |m: MemberView| member_fits(m)
}

/// `constant_fits` as a property of a list's records.
pub open spec fn constant_fitting() -> spec_fn(ConstView) -> bool {
    |c: ConstView| constant_fits(c)
}

/// A counted list of attributes that decodes can be written, and is held
/// written by the buffer up to where decoding ended.
pub proof fn lemma_attributes_written(b: Seq<u8>, at: int)
    ensures
        spec_counted_attributes(b, at) matches Ok((items, next)) ==> {
            &&& attributes_fit(items)
            &&& holds_at(b, at, encode_counted_attributes(items))
            &&& next == at + encode_counted_attributes(items).len()
        },
{
    match spec_counted_attributes(b, at) {
        Ok((items, next)) => {
            let count = spec_u16(b, at)->Ok_0.0;
            let item = attribute_decoder();
            let encode = attribute_encoder();
            let fits = attribute_fitting();
            assert forall|b: Seq<u8>, at: int|
                (#[trigger] item(b, at)) matches Ok((x, next)) ==> fits(x) && holds_at(
                    b,
                    at,
                    encode(x),
                ) && next == at + encode(x).len() by {
                lemma_attribute_written(b, at);
            }
            lemma_list_written(item, encode, fits, ErrorKind::TruncatedList, b, at + 2, count as nat);
            lemma_read_written(b, at);
            lemma_be_bytes_len(count as nat, 2);
            lemma_holds_at_concat(b, at, be_bytes(count as nat, 2), encode_list(encode, items));
            assert forall|i: int| 0 <= i < items.len() implies attribute_fits(#[trigger] items[i]) by {
                assert(fits(items[i]));
            }
        },
        Err(_) => {},
    }
}

/// A counted list of interfaces that decodes is held written by the buffer
/// up to where decoding ended.
pub proof fn lemma_interfaces_written(b: Seq<u8>, at: int)
    ensures
        spec_counted_interfaces(b, at) matches Ok((items, next)) ==> {
            &&& items.len() <= 0xFFFF
            &&& holds_at(b, at, encode_counted_interfaces(items))
            &&& next == at + encode_counted_interfaces(items).len()
        },
{
    match spec_counted_interfaces(b, at) {
        Ok((items, next)) => {
            let count = spec_u16(b, at)->Ok_0.0;
            let item = interface_decoder();
            let encode = interface_encoder();
            let fits = |i: Interface| true;
            assert forall|b: Seq<u8>, at: int|
                (#[trigger] item(b, at)) matches Ok((x, next)) ==> fits(x) && holds_at(
                    b,
                    at,
                    encode(x),
                ) && next == at + encode(x).len() by {
                lemma_read_written(b, at);
                match item(b, at) {
                    Ok((x, next)) => {
                        lemma_be_bytes_len(x.index as nat, 2);
                    },
                    Err(_) => {},
                }
            }
            lemma_list_written(item, encode, fits, ErrorKind::TruncatedList, b, at + 2, count as nat);
            lemma_read_written(b, at);
            lemma_be_bytes_len(count as nat, 2);
            lemma_holds_at_concat(b, at, be_bytes(count as nat, 2), encode_list(encode, items));
        },
        Err(_) => {},
    }
}

/// A field or method that decodes can be written, and is held written by
/// the buffer up to where decoding ended.
pub proof fn lemma_member_written(b: Seq<u8>, at: int)
    ensures
        spec_member(b, at) matches Ok((m, next)) ==> {
            &&& member_fits(m)
            &&& holds_at(b, at, encode_member(m))
            &&& next == at + encode_member(m).len()
        },
{
    match spec_member(b, at) {
        Ok((m, next)) => {
            let flags = be_bytes(m.access_flags as nat, 2);
            let name = be_bytes(m.name_index as nat, 2);
            let descriptor = be_bytes(m.descriptor_index as nat, 2);
            let attributes = encode_counted_attributes(m.attributes);
            lemma_read_written(b, at);
            lemma_read_written(b, at + 2);
            lemma_read_written(b, at + 4);
            lemma_be_bytes_len(m.access_flags as nat, 2);
            lemma_be_bytes_len(m.name_index as nat, 2);
            lemma_be_bytes_len(m.descriptor_index as nat, 2);
            lemma_attributes_written(b, at + 6);
            assert(spec_counted_attributes(b, at + 6) == Ok::<(Seq<AttributeView>, int), Failure>(
                (m.attributes, next),
            ));
            lemma_holds_at_concat(b, at + 4, descriptor, attributes);
            lemma_holds_at_concat(b, at + 2, name, descriptor + attributes);
            lemma_holds_at_concat(b, at, flags, name + (descriptor + attributes));
        },
        Err(_) => {},
    }
}

/// A counted list of fields or methods that decodes can be written, and is
/// held written by the buffer up to where decoding ended.
pub proof fn lemma_members_written(b: Seq<u8>, at: int)
    ensures
        spec_counted_members(b, at) matches Ok((items, next)) ==> {
            &&& members_fit(items)
            &&& holds_at(b, at, encode_counted_members(items))
            &&& next == at + encode_counted_members(items).len()
        },
{
    match spec_counted_members(b, at) {
        Ok((items, next)) => {
            let count = spec_u16(b, at)->Ok_0.0;
            let item = member_decoder();
            let encode = member_encoder();
            let fits = member_fitting();
            assert forall|b: Seq<u8>, at: int|
                (#[trigger] item(b, at)) matches Ok((x, next)) ==> fits(x) && holds_at(
                    b,
                    at,
                    encode(x),
                ) && next == at + encode(x).len() by {
                lemma_member_written(b, at);
            }
            lemma_list_written(item, encode, fits, ErrorKind::TruncatedList, b, at + 2, count as nat);
            lemma_read_written(b, at);
            lemma_be_bytes_len(count as nat, 2);
            lemma_holds_at_concat(b, at, be_bytes(count as nat, 2), encode_list(encode, items));
            assert forall|i: int| 0 <= i < items.len() implies member_fits(#[trigger] items[i]) by {
                assert(fits(items[i]));
            }
        },
        Err(_) => {},
    }
}

/// A counted pool that decodes can be written, and is held written by the
/// buffer, behind the count that the buffer declares, up to where decoding
/// ended.
pub proof fn lemma_pool_written(b: Seq<u8>, at: int)
    ensures
        spec_counted_pool(b, at) matches Ok((entries, next)) ==> {
            &&& pool_fits(entries)
            &&& declares(be_at(b, at, 2), entries)
            &&& holds_at(b, at, encode_pool_declaring(be_at(b, at, 2), entries))
            &&& next == at + encode_pool_declaring(be_at(b, at, 2), entries).len()
        },
{
    match spec_counted_pool(b, at) {
        Ok((entries, next)) => {
            let count = spec_u16(b, at)->Ok_0.0;
            lemma_be_value_bound(b.subrange(at, at + 2));
            reveal_with_fuel(radix_pow, 3);
            assert(count as nat == be_at(b, at, 2));
            let item = entry_decoder();
            let encode = entry_encoder();
            let fits = constant_fitting();
            assert forall|b: Seq<u8>, at: int|
                (#[trigger] item(b, at)) matches Ok((x, next)) ==> fits(x) && holds_at(
                    b,
                    at,
                    encode(x),
                ) && next == at + encode(x).len() by {
                lemma_entry_written(b, at);
            }
            lemma_list_written(
                item,
                encode,
                fits,
                ErrorKind::TruncatedPool,
                b,
                at + 2,
                pool_entries(count as nat),
            );
            lemma_read_written(b, at);
            lemma_be_bytes_len(count as nat, 2);
            lemma_holds_at_concat(b, at, be_bytes(count as nat, 2), encode_list(encode, entries));
            assert forall|i: int| 0 <= i < entries.len() implies constant_fits(
                #[trigger] entries[i],
            ) by {
                assert(fits(entries[i]));
            }
        },
        Err(_) => {},
    }
}

/// A class that decodes can be written, and is held written by the buffer
/// from its start to where decoding ended, with the pool count that the
/// buffer declares.
pub proof fn lemma_class_written(b: Seq<u8>)
    ensures
        spec_class(b) matches Ok((c, end)) ==> {
            &&& class_fits(c)
            &&& declares(be_at(b, 8, 2), c.constant_pool)
            &&& holds_at(b, 0, encode_class_declaring(be_at(b, 8, 2), c))
            &&& end == encode_class_declaring(be_at(b, 8, 2), c).len()
        },
{
    match spec_class(b) {
        Err(_) => {},
        Ok((c, end)) => {
            let declared = be_at(b, 8, 2);
            let magic = be_bytes(MAGIC as nat, 4);
            let versions = encode_u16_pair(c.minor_version, c.major_version);
            let pool = encode_pool_declaring(declared, c.constant_pool);
            let flags = be_bytes(c.access_flags as nat, 2);
            let classes = encode_u16_pair(c.this_class, c.super_class);
            let interfaces = encode_counted_interfaces(c.interfaces);
            let fields = encode_counted_members(c.fields);
            let methods = encode_counted_members(c.methods);
            let attributes = encode_counted_attributes(c.attributes);
            let body = encode_body(c);
            let at_flags = spec_counted_pool(b, 8)->Ok_0.1;
            let at_interfaces = at_flags + 6;
            let at_fields = spec_counted_interfaces(b, at_interfaces)->Ok_0.1;
            let at_methods = spec_counted_members(b, at_fields)->Ok_0.1;
            let at_attributes = spec_counted_members(b, at_methods)->Ok_0.1;
            assert(spec_magic(b) == Ok::<((), int), Failure>(((), 4)));
            assert(spec_u16_pair(b, 4) == Ok::<((u16, u16), int), Failure>(
                ((c.minor_version, c.major_version), 8),
            ));
            assert(spec_counted_pool(b, 8) == Ok::<(Seq<ConstView>, int), Failure>(
                (c.constant_pool, at_flags),
            ));
            assert(spec_u16(b, at_flags) == Ok::<(u16, int), Failure>(
                (c.access_flags, at_flags + 2),
            ));
            assert(spec_u16_pair(b, at_flags + 2) == Ok::<((u16, u16), int), Failure>(
                ((c.this_class, c.super_class), at_interfaces),
            ));
            assert(spec_counted_interfaces(b, at_interfaces) == Ok::<
                (Seq<Interface>, int),
                Failure,
            >((c.interfaces, at_fields)));
            assert(spec_counted_members(b, at_fields) == Ok::<(Seq<MemberView>, int), Failure>(
                (c.fields, at_methods),
            ));
            assert(spec_counted_members(b, at_methods) == Ok::<(Seq<MemberView>, int), Failure>(
                (c.methods, at_attributes),
            ));
            assert(spec_counted_attributes(b, at_attributes) == Ok::<
                (Seq<AttributeView>, int),
                Failure,
            >((c.attributes, end)));
            assert(magic.len() == 4 && versions.len() == 4 && flags.len() == 2 && classes.len()
                == 4) by {
                lemma_be_bytes_len(MAGIC as nat, 4);
                lemma_be_bytes_len(c.minor_version as nat, 2);
                lemma_be_bytes_len(c.major_version as nat, 2);
                lemma_be_bytes_len(c.access_flags as nat, 2);
                lemma_be_bytes_len(c.this_class as nat, 2);
                lemma_be_bytes_len(c.super_class as nat, 2);
            }
            assert(holds_at(b, 0, magic)) by {
                lemma_read_written(b, 0);
            }
            assert(holds_at(b, 4, versions)) by {
                lemma_read_written(b, 4);
            }
            assert(pool_fits(c.constant_pool) && declares(declared, c.constant_pool) && holds_at(
                b,
                8,
                pool,
            ) && at_flags == 8 + pool.len()) by {
                lemma_pool_written(b, 8);
            }
            assert(holds_at(b, at_flags, flags)) by {
                lemma_read_written(b, at_flags);
            }
            assert(holds_at(b, at_flags + 2, classes)) by {
                lemma_read_written(b, at_flags + 2);
            }
            assert(c.interfaces.len() <= 0xFFFF && holds_at(b, at_interfaces, interfaces)
                && at_fields == at_interfaces + interfaces.len()) by {
                lemma_interfaces_written(b, at_interfaces);
            }
            assert(members_fit(c.fields) && holds_at(b, at_fields, fields) && at_methods
                == at_fields + fields.len()) by {
                lemma_members_written(b, at_fields);
            }
            assert(members_fit(c.methods) && holds_at(b, at_methods, methods) && at_attributes
                == at_methods + methods.len()) by {
                lemma_members_written(b, at_methods);
            }
            assert(attributes_fit(c.attributes) && holds_at(b, at_attributes, attributes) && end
                == at_attributes + attributes.len()) by {
                lemma_attributes_written(b, at_attributes);
            }
            assert(holds_at(b, at_flags, body)) by {
                lemma_holds_at_concat(b, at_methods, methods, attributes);
                lemma_holds_at_concat(b, at_fields, fields, methods + attributes);
                lemma_holds_at_concat(
                    b,
                    at_interfaces,
                    interfaces,
                    fields + (methods + attributes),
                );
                lemma_holds_at_concat(
                    b,
                    at_flags + 2,
                    classes,
                    interfaces + (fields + (methods + attributes)),
                );
                lemma_holds_at_concat(
                    b,
                    at_flags,
                    flags,
                    classes + (interfaces + (fields + (methods + attributes))),
                );
            }
            assert(holds_at(b, 0, encode_class_declaring(declared, c))) by {
                lemma_holds_at_concat(b, 8, pool, body);
                lemma_holds_at_concat(b, 4, versions, pool + body);
                lemma_holds_at_concat(b, 0, magic, versions + (pool + body));
            }
        },
    }
}

/// What the decoder accepts, said without the decoder: a buffer decodes to
/// the class `c`, ending at `end`, exactly when it begins with a class file
/// of `c` and that class file ends at `end`.
pub proof fn lemma_decodes_what_is_written(b: Seq<u8>, c: ClassView, end: int)
    ensures
        spec_class(b) == Ok::<(ClassView, int), Failure>((c, end)) <==> begins_with_class(b, c)
            && end == encode_class_declaring(be_at(b, 8, 2), c).len(),
{
    lemma_class_written(b);
    if begins_with_class(b, c) {
        lemma_class_round_trip(b, be_at(b, 8, 2), c);
    }
}

/// A buffer decodes exactly when it begins with a class file, and then to
/// the class of that class file; a buffer that fails to decode begins with
/// the class file of no class.
pub proof fn lemma_decodes_class_files_only(b: Seq<u8>)
    ensures
        spec_class(b) matches Ok((c, _)) ==> begins_with_class(b, c),
        spec_class(b) is Err ==> forall|c: ClassView| !#[trigger] begins_with_class(b, c),
{
    lemma_class_written(b);
    assert forall|c: ClassView| #[trigger] begins_with_class(b, c) implies spec_class(b) is Ok by {
        lemma_class_round_trip(b, be_at(b, 8, 2), c);
    }
}

} // verus!
