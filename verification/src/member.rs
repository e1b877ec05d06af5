//! The structural lists of a class: the interfaces it implements, its fields
//! and its methods.

use crate::attribute::{
    consume_attributes, lemma_attributes_advance, spec_attributes, Attribute, AttributeView,
};
use crate::error::{yields_view, DecodeError, ErrorKind, Outcome};
use crate::list::{
    complete, cut_short, fails_ahead, lemma_list_advances, lemma_list_begin, lemma_list_end,
    lemma_list_len, lemma_list_step, list_progress, spec_list, stays_inside, yields_list, Decoder,
    ListOutcome,
};
use crate::reader::{
    be_at, consume_u16, in_bounds, lemma_be_value_bound, radix_pow, spec_u16,
};
use vstd::prelude::*;

verus! {

/// An implemented interface: the pool index of its class entry.
#[derive(Debug, Clone, Copy, PartialEq, Eq, Structural)]
pub struct Interface {
    pub index: u16,
}

impl View for Interface {
    type V = Interface;

    open spec fn view(&self) -> Interface {
        *self
    }
}

impl DeepView for Interface {
    type V = Interface;

    open spec fn deep_view(&self) -> Interface {
        *self
    }
}

/// A field: its access flags, the pool indices of its name and descriptor,
/// and its attributes.
#[derive(Debug, Clone, PartialEq, Eq)]
pub struct Field {
    pub access_flags: u16,
    pub name_index: u16,
    pub descriptor_index: u16,
    pub attributes: Vec<Attribute>,
}

/// A method: its access flags, the pool indices of its name and descriptor,
/// and its attributes.
#[derive(Debug, Clone, PartialEq, Eq)]
pub struct Method {
    pub access_flags: u16,
    pub name_index: u16,
    pub descriptor_index: u16,
    pub attributes: Vec<Attribute>,
}

/// The mathematical form of a field or a method: the two have one layout.
pub struct MemberView {
    pub access_flags: u16,
    pub name_index: u16,
    pub descriptor_index: u16,
    pub attributes: Seq<AttributeView>,
}

impl View for Field {
    type V = MemberView;

    open spec fn view(&self) -> MemberView {
        MemberView {
            access_flags: self.access_flags,
            name_index: self.name_index,
            descriptor_index: self.descriptor_index,
            attributes: self.attributes.deep_view(),
        }
    }
}

impl DeepView for Field {
    type V = MemberView;

    open spec fn deep_view(&self) -> MemberView {
        self@
    }
}

impl View for Method {
    type V = MemberView;

    open spec fn view(&self) -> MemberView {
        MemberView {
            access_flags: self.access_flags,
            name_index: self.name_index,
            descriptor_index: self.descriptor_index,
            attributes: self.attributes.deep_view(),
        }
    }
}

impl DeepView for Method {
    type V = MemberView;

    open spec fn deep_view(&self) -> MemberView {
        self@
    }
}

/// One interface at `at`: a two-byte index.
pub open spec fn spec_interface(b: Seq<u8>, at: int) -> Outcome<Interface> {
    match spec_u16(b, at) {
        Err(f) => Err(f),
        Ok((index, next)) => Ok((Interface { index }, next)),
    }
}

/// `spec_interface` as the decoder of a list's records.
pub open spec fn interface_decoder() -> Decoder<Interface> {
    |b: Seq<u8>, at: int| spec_interface(b, at)
}

/// `n` interfaces, the first at `at`, two bytes each.
pub open spec fn spec_interfaces(b: Seq<u8>, n: nat, at: int) -> ListOutcome<Interface> {
    spec_list(interface_decoder(), ErrorKind::TruncatedList, b, at, n)
}

/// One field or method at `at`: four two-byte fields (access flags, name
/// index, descriptor index, number of attributes), then the attributes.
pub open spec fn spec_member(b: Seq<u8>, at: int) -> Outcome<MemberView> {
    match spec_u16(b, at) {
        Err(f) => Err(f),
        Ok((access_flags, at)) => match spec_u16(b, at) {
            Err(f) => Err(f),
            Ok((name_index, at)) => match spec_u16(b, at) {
                Err(f) => Err(f),
                Ok((descriptor_index, at)) => match spec_u16(b, at) {
                    Err(f) => Err(f),
                    Ok((attributes_count, at)) => match complete(
                        spec_attributes(b, attributes_count as nat, at),
                    ) {
                        Err(f) => Err(f),
                        Ok((attributes, next)) => Ok(
                            (
                                MemberView {
                                    access_flags,
                                    name_index,
                                    descriptor_index,
                                    attributes,
                                },
                                next,
                            ),
                        ),
                    },
                },
            },
        },
    }
}

/// `spec_member` as the decoder of a list's records.
pub open spec fn member_decoder() -> Decoder<MemberView> {
    |b: Seq<u8>, at: int| spec_member(b, at)
}

/// `n` fields or methods, the first at `at`.
pub open spec fn spec_members(b: Seq<u8>, n: nat, at: int) -> ListOutcome<MemberView> {
    spec_list(member_decoder(), ErrorKind::TruncatedList, b, at, n)
}

/// Decodes `n` interfaces, the first at `cursor`, two bytes each.
pub fn consume_interfaces(b: &Vec<u8>, n: usize, cursor: usize) -> (r: Result<
    (Vec<Interface>, usize),
    DecodeError,
>)
    ensures
        yields_list(r, spec_interfaces(b@, n as nat, cursor as int)),
{
    let mut v: Vec<Interface> = Vec::new();
    let mut c: usize = cursor;
    proof {
        lemma_list_begin(interface_decoder(), ErrorKind::TruncatedList, b@, cursor as int, n as nat);
        assert(v.deep_view() =~= Seq::<Interface>::empty());
    }
    while v.len() < n
        invariant
            list_progress(
                interface_decoder(),
                ErrorKind::TruncatedList,
                b@,
                cursor as int,
                n as nat,
                v.deep_view(),
                c as int,
            ),
        decreases n - v.len(),
    {
        proof {
            lemma_list_step(
                interface_decoder(),
                ErrorKind::TruncatedList,
                b@,
                cursor as int,
                n as nat,
                v.deep_view(),
                c as int,
            );
        }
        let ghost before = v.deep_view();
        match consume_u16(b, c) {
            Ok((index, next)) => {
                v.push(Interface { index });
                c = next;
                assert(v.deep_view() =~= before.push(Interface { index }));
            },
            Err(e) => {
                return Err(cut_short(e, ErrorKind::TruncatedList));
            },
        }
    }
    proof {
        lemma_list_end(
            interface_decoder(),
            ErrorKind::TruncatedList,
            b@,
            cursor as int,
            n as nat,
            v.deep_view(),
            c as int,
        );
    }
    Ok((v, c))
}

/// Decodes the field at `cursor`.
pub fn consume_field(b: &Vec<u8>, cursor: usize) -> (r: Result<(Field, usize), DecodeError>)
    ensures
        yields_view(r, spec_member(b@, cursor as int)),
{
    let (access_flags, cursor) = match consume_u16(b, cursor) {
        Ok(read) => read,
        Err(e) => {
            return Err(e);
        },
    };
    let (name_index, cursor) = match consume_u16(b, cursor) {
        Ok(read) => read,
        Err(e) => {
            return Err(e);
        },
    };
    let (descriptor_index, cursor) = match consume_u16(b, cursor) {
        Ok(read) => read,
        Err(e) => {
            return Err(e);
        },
    };
    let (attributes_count, cursor) = match consume_u16(b, cursor) {
        Ok(read) => read,
        Err(e) => {
            return Err(e);
        },
    };
    let (attributes, cursor) = match consume_attributes(b, attributes_count as usize, cursor) {
        Ok(read) => read,
        Err(e) => {
            return Err(e);
        },
    };
    Ok((Field { access_flags, name_index, descriptor_index, attributes }, cursor))
}

/// Decodes the method at `cursor`.
pub fn consume_method(b: &Vec<u8>, cursor: usize) -> (r: Result<(Method, usize), DecodeError>)
    ensures
        yields_view(r, spec_member(b@, cursor as int)),
{
    let (access_flags, cursor) = match consume_u16(b, cursor) {
        Ok(read) => read,
        Err(e) => {
            return Err(e);
        },
    };
    let (name_index, cursor) = match consume_u16(b, cursor) {
        Ok(read) => read,
        Err(e) => {
            return Err(e);
        },
    };
    let (descriptor_index, cursor) = match consume_u16(b, cursor) {
        Ok(read) => read,
        Err(e) => {
            return Err(e);
        },
    };
    let (attributes_count, cursor) = match consume_u16(b, cursor) {
        Ok(read) => read,
        Err(e) => {
            return Err(e);
        },
    };
    let (attributes, cursor) = match consume_attributes(b, attributes_count as usize, cursor) {
        Ok(read) => read,
        Err(e) => {
            return Err(e);
        },
    };
    Ok((Method { access_flags, name_index, descriptor_index, attributes }, cursor))
}

/// Decodes `n` fields, the first at `cursor`, each where the one before it
/// ended.
pub fn consume_fields(b: &Vec<u8>, n: usize, cursor: usize) -> (r: Result<
    (Vec<Field>, usize),
    DecodeError,
>)
    ensures
        yields_list(r, spec_members(b@, n as nat, cursor as int)),
{
    let mut v: Vec<Field> = Vec::new();
    let mut c: usize = cursor;
    proof {
        lemma_list_begin(member_decoder(), ErrorKind::TruncatedList, b@, cursor as int, n as nat);
        assert(v.deep_view() =~= Seq::<MemberView>::empty());
    }
    while v.len() < n
        invariant
            list_progress(
                member_decoder(),
                ErrorKind::TruncatedList,
                b@,
                cursor as int,
                n as nat,
                v.deep_view(),
                c as int,
            ),
        decreases n - v.len(),
    {
        proof {
            lemma_list_step(
                member_decoder(),
                ErrorKind::TruncatedList,
                b@,
                cursor as int,
                n as nat,
                v.deep_view(),
                c as int,
            );
        }
        let ghost before = v.deep_view();
        match consume_field(b, c) {
            Ok((field, next)) => {
                v.push(field);
                c = next;
                assert(v.deep_view() =~= before.push(field@));
            },
            Err(e) => {
                return Err(cut_short(e, ErrorKind::TruncatedList));
            },
        }
    }
    proof {
        lemma_list_end(
            member_decoder(),
            ErrorKind::TruncatedList,
            b@,
            cursor as int,
            n as nat,
            v.deep_view(),
            c as int,
        );
    }
    Ok((v, c))
}

/// Decodes `n` methods, the first at `cursor`, each where the one before it
/// ended.
pub fn consume_methods(b: &Vec<u8>, n: usize, cursor: usize) -> (r: Result<
    (Vec<Method>, usize),
    DecodeError,
>)
    ensures
        yields_list(r, spec_members(b@, n as nat, cursor as int)),
{
    let mut v: Vec<Method> = Vec::new();
    let mut c: usize = cursor;
    proof {
        lemma_list_begin(member_decoder(), ErrorKind::TruncatedList, b@, cursor as int, n as nat);
        assert(v.deep_view() =~= Seq::<MemberView>::empty());
    }
    while v.len() < n
        invariant
            list_progress(
                member_decoder(),
                ErrorKind::TruncatedList,
                b@,
                cursor as int,
                n as nat,
                v.deep_view(),
                c as int,
            ),
        decreases n - v.len(),
    {
        proof {
            lemma_list_step(
                member_decoder(),
                ErrorKind::TruncatedList,
                b@,
                cursor as int,
                n as nat,
                v.deep_view(),
                c as int,
            );
        }
        let ghost before = v.deep_view();
        match consume_method(b, c) {
            Ok((method, next)) => {
                v.push(method);
                c = next;
                assert(v.deep_view() =~= before.push(method@));
            },
            Err(e) => {
                return Err(cut_short(e, ErrorKind::TruncatedList));
            },
        }
    }
    proof {
        lemma_list_end(
            member_decoder(),
            ErrorKind::TruncatedList,
            b@,
            cursor as int,
            n as nat,
            v.deep_view(),
            c as int,
        );
    }
    Ok((v, c))
}

/// Every field or method that decodes ends inside the buffer, behind the
/// offset at which it began; every failure lies at or behind that offset and
/// is a read past the end in its fixed part, or a list of attributes cut
/// short.
pub proof fn lemma_member_advances(b: Seq<u8>, at: int)
    ensures
        spec_member(b, at) matches Ok((_, next)) ==> 0 <= at < next <= b.len(),
        spec_member(b, at) matches Err(f) ==> at <= f.offset && (f.kind
            == ErrorKind::OutOfBounds || f.kind == ErrorKind::TruncatedList),
{
    if in_bounds(b, at, 8) {
        let count = spec_u16(b, at + 6)->Ok_0.0;
        lemma_attributes_advance(b, count as nat, at + 8);
    }
}

/// The decoders of one interface and of one field or method keep their
/// offsets in order.
pub proof fn lemma_member_decoders_advance()
    ensures
        stays_inside(interface_decoder()),
        fails_ahead(interface_decoder()),
        stays_inside(member_decoder()),
        fails_ahead(member_decoder()),
{
    let item = member_decoder();
    assert forall|b: Seq<u8>, at: int|
        (#[trigger] item(b, at)) matches Ok((_, next)) ==> 0 <= at <= next <= b.len() by {
        lemma_member_advances(b, at);
    }
    assert forall|b: Seq<u8>, at: int|
        (#[trigger] item(b, at)) matches Err(f) ==> at <= f.offset by {
        lemma_member_advances(b, at);
    }
}

/// A list of interfaces decodes exactly when it is empty or the buffer holds
/// two bytes for each of them. It then ends `2 * n` bytes behind its start, and its
/// interface number `i` is the number in the two bytes at `at + 2 * i`.
/// Otherwise it fails with `TruncatedList` at the first interface that the
/// buffer does not hold.
pub proof fn lemma_interfaces_layout(b: Seq<u8>, n: nat, at: int)
    requires
        0 <= at,
    ensures
        n == 0 || at + 2 * n <= b.len() ==> {
            &&& spec_interfaces(b, n, at) matches Ok((records, end))
            &&& end == at + 2 * n
            &&& records.len() == n
            &&& forall|i: int|
                0 <= i < n ==> (#[trigger] records[i]).index == be_at(b, at + 2 * i, 2)
        },
        n > 0 && at + 2 * n > b.len() ==> {
            &&& spec_interfaces(b, n, at) matches Err(partial)
            &&& partial.failure.kind == ErrorKind::TruncatedList
            &&& at <= partial.failure.offset <= at + 2 * n - 2
            &&& partial.failure.offset + 2 > b.len()
            &&& partial.failure.offset == at + 2 * partial.decoded.len()
        },
    decreases n,
{
    if n > 0 {
        match spec_interface(b, at) {
            Err(f) => {},
            Ok((first, next)) => {
                lemma_interfaces_layout(b, (n - 1) as nat, next);
                lemma_be_value_bound(b.subrange(at, at + 2));
                reveal_with_fuel(radix_pow, 3);
                match spec_interfaces(b, (n - 1) as nat, next) {
                    Ok((rest, end)) => {
                        let records = seq![first] + rest;
                        assert forall|i: int| 0 <= i < n implies (#[trigger] records[i]).index
                            == be_at(b, at + 2 * i, 2) by {
                            if i > 0 {
                                assert(records[i] == rest[i - 1]);
                                assert(next + 2 * (i - 1) == at + 2 * i);
                            }
                        }
                    },
                    Err(partial) => {},
                }
            },
        }
    }
}

/// A list of fields or methods that decodes has `n` records and ends at or
/// behind its start, inside the buffer if it began there. One that fails was
/// cut short: it fails with `TruncatedList`, at or behind its start.
pub proof fn lemma_members_advance(b: Seq<u8>, n: nat, at: int)
    ensures
        spec_members(b, n, at) matches Ok((records, end)) ==> records.len() == n && at <= end
            && (0 <= at <= b.len() ==> end <= b.len()),
        spec_members(b, n, at) matches Err(partial) ==> at <= partial.failure.offset
            && partial.failure.kind == ErrorKind::TruncatedList,
{
    lemma_member_decoders_advance();
    lemma_list_len(member_decoder(), ErrorKind::TruncatedList, b, at, n);
    lemma_list_advances(member_decoder(), ErrorKind::TruncatedList, b, at, n);
    lemma_members_cut_short(b, n, at);
}

/// The one kind of failure of a list of fields or methods.
proof fn lemma_members_cut_short(b: Seq<u8>, n: nat, at: int)
    ensures
        spec_members(b, n, at) matches Err(partial) ==> partial.failure.kind
            == ErrorKind::TruncatedList,
    decreases n,
{
    if n > 0 {
        lemma_member_advances(b, at);
        match spec_member(b, at) {
            Ok((first, next)) => {
                lemma_members_cut_short(b, (n - 1) as nat, next);
            },
            Err(f) => {},
        }
    }
}

} // verus!
