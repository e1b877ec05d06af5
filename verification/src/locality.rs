//! Decoders look only at the bytes they consume: a value that decodes from
//! one buffer decodes alike from every buffer that holds the same bytes up
//! to the offset at which decoding ended.

use crate::attribute::{
    attribute_decoder, lemma_attribute_decoder_advances, lemma_attributes_advance, spec_attribute,
    spec_attributes,
};
use crate::class::{
    lemma_class_stays_inside, lemma_parts_advance, spec_class, spec_counted_attributes,
    spec_counted_interfaces, spec_counted_members, spec_counted_pool, spec_magic,
};
use crate::constant::{spec_constant, spec_from_tag, spec_u16_pair, ConstType};
use crate::error::ErrorKind;
use crate::list::{fails_ahead, lemma_list_advances, spec_list, stays_inside, Decoder};
use crate::member::{
    interface_decoder, lemma_member_decoders_advance, member_decoder, spec_member,
};
use crate::pool::{entry_decoder, lemma_entry_advances, pool_entries, spec_entry};
use crate::reader::{in_bounds, spec_u16, spec_u32, spec_u64, spec_u8};
use vstd::prelude::*;

verus! {

/// Whether the buffers `a` and `b` hold the same bytes in front of `end`.
pub open spec fn same_until(a: Seq<u8>, b: Seq<u8>, end: int) -> bool {
    &&& 0 <= end <= a.len()
    &&& end <= b.len()
    &&& a.subrange(0, end) == b.subrange(0, end)
}

/// Buffers that hold the same bytes in front of `end` hold the same bytes
/// in every range in front of `end`, and in front of every earlier offset.
pub proof fn lemma_same_until(a: Seq<u8>, b: Seq<u8>, end: int, from: int, to: int)
    requires
        same_until(a, b, end),
        0 <= from <= to <= end,
    ensures
        a.subrange(from, to) == b.subrange(from, to),
        same_until(a, b, to),
{
    assert(a.subrange(from, to) =~= a.subrange(0, end).subrange(from, to));
    assert(b.subrange(from, to) =~= b.subrange(0, end).subrange(from, to));
    assert(a.subrange(0, to) =~= a.subrange(0, end).subrange(0, to));
    assert(b.subrange(0, to) =~= b.subrange(0, end).subrange(0, to));
}

/// Whether `item` looks only at the bytes it consumes: what it decodes from
/// a buffer, it decodes from every buffer with the same bytes in front of
/// the offset at which it ended.
pub open spec fn local<T>(item: Decoder<T>) -> bool {
    forall|a: Seq<u8>, b: Seq<u8>, at: int|
        #![trigger item(a, at), item(b, at)]
        item(a, at) is Ok && same_until(a, b, item(a, at)->Ok_0.1) ==> item(b, at) == item(a, at)
}

/// The fixed-width reads look only at the bytes they consume.
pub proof fn lemma_reads_are_local(a: Seq<u8>, b: Seq<u8>, at: int)
    ensures
        spec_u8(a, at) is Ok && same_until(a, b, at + 1) ==> spec_u8(b, at) == spec_u8(a, at),
        spec_u16(a, at) is Ok && same_until(a, b, at + 2) ==> spec_u16(b, at) == spec_u16(a, at),
        spec_u32(a, at) is Ok && same_until(a, b, at + 4) ==> spec_u32(b, at) == spec_u32(a, at),
        spec_u64(a, at) is Ok && same_until(a, b, at + 8) ==> spec_u64(b, at) == spec_u64(a, at),
        spec_u16_pair(a, at) is Ok && same_until(a, b, at + 4) ==> spec_u16_pair(b, at)
            == spec_u16_pair(a, at),
{
    if spec_u8(a, at) is Ok && same_until(a, b, at + 1) {
        lemma_same_until(a, b, at + 1, at, at + 1);
        assert(a[at] == a.subrange(at, at + 1)[0]);
        assert(b[at] == b.subrange(at, at + 1)[0]);
    }
    if spec_u16(a, at) is Ok && same_until(a, b, at + 2) {
        lemma_same_until(a, b, at + 2, at, at + 2);
    }
    if spec_u32(a, at) is Ok && same_until(a, b, at + 4) {
        lemma_same_until(a, b, at + 4, at, at + 4);
    }
    if spec_u64(a, at) is Ok && same_until(a, b, at + 8) {
        lemma_same_until(a, b, at + 8, at, at + 8);
    }
    if spec_u16_pair(a, at) is Ok && same_until(a, b, at + 4) {
        lemma_same_until(a, b, at + 4, at, at + 2);
        lemma_same_until(a, b, at + 4, at + 2, at + 4);
    }
}

/// A list of records that each look only at the bytes they consume looks
/// only at the bytes it consumes.
pub proof fn lemma_list_is_local<T>(
    item: Decoder<T>,
    cut: ErrorKind,
    a: Seq<u8>,
    b: Seq<u8>,
    at: int,
    count: nat,
)
    requires
        local(item),
        stays_inside(item),
        fails_ahead(item),
        spec_list(item, cut, a, at, count) matches Ok((_, end)) && same_until(a, b, end),
    ensures
        spec_list(item, cut, b, at, count) == spec_list(item, cut, a, at, count),
    decreases count,
{
    if count > 0 {
        match item(a, at) {
            Err(f) => {},
            Ok((first, next)) => {
                let rest = (count - 1) as nat;
                let end = spec_list(item, cut, a, at, count)->Ok_0.1;
                assert(spec_list(item, cut, a, next, rest) is Ok);
                assert(spec_list(item, cut, a, next, rest)->Ok_0.1 == end);
                lemma_list_advances(item, cut, a, next, rest);
                lemma_same_until(a, b, end, 0, next);
                assert(item(b, at) == item(a, at));
                lemma_list_is_local(item, cut, a, b, next, rest);
            },
        }
    }
}

/// The decoder of the payload of an entry looks only at the bytes it
/// consumes.
pub proof fn lemma_constant_is_local(kind: ConstType, a: Seq<u8>, b: Seq<u8>, at: int)
    requires
        spec_constant(kind, a, at) matches Ok((_, next)) && same_until(a, b, next),
    ensures
        spec_constant(kind, b, at) == spec_constant(kind, a, at),
{
    let next = spec_constant(kind, a, at)->Ok_0.1;
    lemma_reads_are_local(a, b, at);
    match kind {
        ConstType::Utf8 => {
            lemma_same_until(a, b, next, 0, at + 2);
            let length = spec_u16(a, at)->Ok_0.0;
            lemma_same_until(a, b, next, at + 2, at + 2 + length);
        },
        ConstType::MethodHandle => {
            lemma_same_until(a, b, next, 0, at + 1);
            lemma_reads_are_local(a, b, at + 1);
        },
        _ => {},
    }
}

/// The decoder of a tagged entry looks only at the bytes it consumes.
pub proof fn lemma_entry_is_local(a: Seq<u8>, b: Seq<u8>, at: int)
    requires
        spec_entry(a, at) matches Ok((_, next)) && same_until(a, b, next),
    ensures
        spec_entry(b, at) == spec_entry(a, at),
{
    let next = spec_entry(a, at)->Ok_0.1;
    lemma_entry_advances(a, at);
    lemma_same_until(a, b, next, 0, at + 1);
    lemma_reads_are_local(a, b, at);
    let tag = spec_u8(a, at)->Ok_0.0;
    lemma_constant_is_local(spec_from_tag(tag)->Some_0, a, b, at + 1);
}

/// The decoder of an attribute looks only at the bytes it consumes.
pub proof fn lemma_attribute_is_local(a: Seq<u8>, b: Seq<u8>, at: int)
    requires
        spec_attribute(a, at) matches Ok((_, next)) && same_until(a, b, next),
    ensures
        spec_attribute(b, at) == spec_attribute(a, at),
{
    let next = spec_attribute(a, at)->Ok_0.1;
    lemma_same_until(a, b, next, 0, at + 2);
    lemma_same_until(a, b, next, 0, at + 6);
    lemma_same_until(a, b, next, at + 6, next);
    lemma_reads_are_local(a, b, at);
    lemma_reads_are_local(a, b, at + 2);
}

/// A list of attributes looks only at the bytes it consumes.
pub proof fn lemma_attributes_are_local(a: Seq<u8>, b: Seq<u8>, n: nat, at: int)
    requires
        spec_attributes(a, n, at) matches Ok((_, end)) && same_until(a, b, end),
    ensures
        spec_attributes(b, n, at) == spec_attributes(a, n, at),
{
    let item = attribute_decoder();
    assert forall|a: Seq<u8>, b: Seq<u8>, at: int|
        #![trigger item(a, at), item(b, at)]
        item(a, at) is Ok && same_until(a, b, item(a, at)->Ok_0.1) implies item(b, at) == item(
        a,
        at,
    ) by {
        lemma_attribute_is_local(a, b, at);
    }
    lemma_attribute_decoder_advances();
    lemma_list_is_local(item, ErrorKind::TruncatedList, a, b, at, n);
}

/// The decoder of a field or method looks only at the bytes it consumes.
pub proof fn lemma_member_is_local(a: Seq<u8>, b: Seq<u8>, at: int)
    requires
        spec_member(a, at) matches Ok((_, next)) && same_until(a, b, next),
    ensures
        spec_member(b, at) == spec_member(a, at),
{
    let next = spec_member(a, at)->Ok_0.1;
    let count = spec_u16(a, at + 6)->Ok_0.0;
    lemma_attributes_advance(a, count as nat, at + 8);
    lemma_same_until(a, b, next, 0, at + 2);
    lemma_same_until(a, b, next, 0, at + 4);
    lemma_same_until(a, b, next, 0, at + 6);
    lemma_same_until(a, b, next, 0, at + 8);
    lemma_reads_are_local(a, b, at);
    lemma_reads_are_local(a, b, at + 2);
    lemma_reads_are_local(a, b, at + 4);
    lemma_reads_are_local(a, b, at + 6);
    lemma_attributes_are_local(a, b, count as nat, at + 8);
}

/// The counted parts of a class look only at the bytes they consume.
pub proof fn lemma_parts_are_local(a: Seq<u8>, b: Seq<u8>, at: int)
    ensures
        spec_counted_pool(a, at) matches Ok((_, end)) && same_until(a, b, end)
            ==> spec_counted_pool(b, at) == spec_counted_pool(a, at),
        spec_counted_interfaces(a, at) matches Ok((_, end)) && same_until(a, b, end)
            ==> spec_counted_interfaces(b, at) == spec_counted_interfaces(a, at),
        spec_counted_members(a, at) matches Ok((_, end)) && same_until(a, b, end)
            ==> spec_counted_members(b, at) == spec_counted_members(a, at),
        spec_counted_attributes(a, at) matches Ok((_, end)) && same_until(a, b, end)
            ==> spec_counted_attributes(b, at) == spec_counted_attributes(a, at),
{
    lemma_parts_advance(a, at);
    if in_bounds(a, at, 2) {
        let count = spec_u16(a, at)->Ok_0.0 as nat;
        if spec_counted_pool(a, at) is Ok && same_until(
            a,
            b,
            spec_counted_pool(a, at)->Ok_0.1,
        ) {
            let end = spec_counted_pool(a, at)->Ok_0.1;
            lemma_same_until(a, b, end, 0, at + 2);
            lemma_reads_are_local(a, b, at);
            let item = entry_decoder();
            assert forall|a: Seq<u8>, b: Seq<u8>, at: int|
                #![trigger item(a, at), item(b, at)]
                item(a, at) is Ok && same_until(a, b, item(a, at)->Ok_0.1) implies item(b, at)
                == item(a, at) by {
                lemma_entry_is_local(a, b, at);
            }
            assert forall|b: Seq<u8>, at: int|
                (#[trigger] item(b, at)) matches Ok((_, next)) ==> 0 <= at <= next <= b.len() by {
                lemma_entry_advances(b, at);
            }
            assert forall|b: Seq<u8>, at: int|
                (#[trigger] item(b, at)) matches Err(f) ==> at <= f.offset by {
                lemma_entry_advances(b, at);
            }
            lemma_list_is_local(
                item,
                ErrorKind::TruncatedPool,
                a,
                b,
                at + 2,
                pool_entries(count),
            );
        }
        if spec_counted_interfaces(a, at) is Ok && same_until(
            a,
            b,
            spec_counted_interfaces(a, at)->Ok_0.1,
        ) {
            let end = spec_counted_interfaces(a, at)->Ok_0.1;
            lemma_same_until(a, b, end, 0, at + 2);
            lemma_reads_are_local(a, b, at);
            let item = interface_decoder();
            assert forall|a: Seq<u8>, b: Seq<u8>, at: int|
                #![trigger item(a, at), item(b, at)]
                item(a, at) is Ok && same_until(a, b, item(a, at)->Ok_0.1) implies item(b, at)
                == item(a, at) by {
                lemma_reads_are_local(a, b, at);
            }
            lemma_member_decoders_advance();
            lemma_list_is_local(item, ErrorKind::TruncatedList, a, b, at + 2, count);
        }
        if spec_counted_members(a, at) is Ok && same_until(
            a,
            b,
            spec_counted_members(a, at)->Ok_0.1,
        ) {
            let end = spec_counted_members(a, at)->Ok_0.1;
            lemma_same_until(a, b, end, 0, at + 2);
            lemma_reads_are_local(a, b, at);
            let item = member_decoder();
            assert forall|a: Seq<u8>, b: Seq<u8>, at: int|
                #![trigger item(a, at), item(b, at)]
                item(a, at) is Ok && same_until(a, b, item(a, at)->Ok_0.1) implies item(b, at)
                == item(a, at) by {
                lemma_member_is_local(a, b, at);
            }
            lemma_member_decoders_advance();
            lemma_list_is_local(item, ErrorKind::TruncatedList, a, b, at + 2, count);
        }
        if spec_counted_attributes(a, at) is Ok && same_until(
            a,
            b,
            spec_counted_attributes(a, at)->Ok_0.1,
        ) {
            let end = spec_counted_attributes(a, at)->Ok_0.1;
            lemma_same_until(a, b, end, 0, at + 2);
            lemma_reads_are_local(a, b, at);
            lemma_attributes_are_local(a, b, count, at + 2);
        }
    }
}

/// Decoding a class looks only at the bytes of the class file: a buffer that
/// decodes to a class decodes to the same class, ending at the same offset,
/// whatever bytes stand behind that offset, be they changed, added or taken
/// away.
pub proof fn lemma_class_is_local(a: Seq<u8>, b: Seq<u8>)
    requires
        spec_class(a) matches Ok((_, end)) && same_until(a, b, end),
    ensures
        spec_class(b) == spec_class(a),
{
    let end = spec_class(a)->Ok_0.1;
    let pool = 8int;
    let flags = spec_counted_pool(a, pool)->Ok_0.1;
    let interfaces = flags + 6;
    let fields = spec_counted_interfaces(a, interfaces)->Ok_0.1;
    let methods = spec_counted_members(a, fields)->Ok_0.1;
    let attributes = spec_counted_members(a, methods)->Ok_0.1;
    assert(spec_magic(a) is Ok && spec_u16_pair(a, 4) is Ok && spec_counted_pool(a, pool) is Ok);
    assert(spec_u16(a, flags) is Ok && spec_u16_pair(a, flags + 2) is Ok);
    assert(spec_counted_interfaces(a, interfaces) is Ok);
    assert(spec_counted_members(a, fields) is Ok);
    assert(spec_counted_members(a, methods) is Ok);
    assert(spec_counted_attributes(a, attributes) is Ok);
    assert(spec_counted_attributes(a, attributes)->Ok_0.1 == end);
    assert(pool <= flags && interfaces <= fields <= methods <= attributes <= end <= a.len()) by {
        lemma_parts_advance(a, pool);
        lemma_parts_advance(a, interfaces);
        lemma_parts_advance(a, fields);
        lemma_parts_advance(a, methods);
        lemma_parts_advance(a, attributes);
    }
    assert(spec_magic(b) == spec_magic(a)) by {
        lemma_same_until(a, b, end, 0, 4);
        lemma_reads_are_local(a, b, 0);
    }
    assert(spec_u16_pair(b, 4) == spec_u16_pair(a, 4)) by {
        lemma_same_until(a, b, end, 0, 8);
        lemma_reads_are_local(a, b, 4);
    }
    assert(spec_counted_pool(b, pool) == spec_counted_pool(a, pool)) by {
        lemma_same_until(a, b, end, 0, flags);
        lemma_parts_are_local(a, b, pool);
    }
    assert(spec_u16(b, flags) == spec_u16(a, flags)) by {
        lemma_same_until(a, b, end, 0, flags + 2);
        lemma_reads_are_local(a, b, flags);
    }
    assert(spec_u16_pair(b, flags + 2) == spec_u16_pair(a, flags + 2)) by {
        lemma_same_until(a, b, end, 0, flags + 6);
        lemma_reads_are_local(a, b, flags + 2);
    }
    assert(spec_counted_interfaces(b, interfaces) == spec_counted_interfaces(a, interfaces)) by {
        lemma_same_until(a, b, end, 0, fields);
        lemma_parts_are_local(a, b, interfaces);
    }
    assert(spec_counted_members(b, fields) == spec_counted_members(a, fields)) by {
        lemma_same_until(a, b, end, 0, methods);
        lemma_parts_are_local(a, b, fields);
    }
    assert(spec_counted_members(b, methods) == spec_counted_members(a, methods)) by {
        lemma_same_until(a, b, end, 0, attributes);
        lemma_parts_are_local(a, b, methods);
    }
    assert(spec_counted_attributes(b, attributes) == spec_counted_attributes(a, attributes)) by {
        lemma_parts_are_local(a, b, attributes);
    }
}

/// Bytes behind the last attribute are ignored: a buffer that decodes to a
/// class decodes to the same class with any bytes added behind it.
pub proof fn lemma_trailing_bytes_are_ignored(data: Seq<u8>, trailing: Seq<u8>)
    requires
        spec_class(data) is Ok,
    ensures
        spec_class(data + trailing) == spec_class(data),
{
    let end = spec_class(data)->Ok_0.1;
    lemma_class_stays_inside(data);
    assert((data + trailing).subrange(0, end) =~= data.subrange(0, end));
    lemma_class_is_local(data, data + trailing);
}

} // verus!
