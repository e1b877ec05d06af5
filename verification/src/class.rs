//! The class file as a whole: the fixed sequence of its parts, and the
//! decoder that assembles them.

use crate::attribute::{
    consume_attributes, lemma_attributes_advance, spec_attributes, Attribute, AttributeView,
};
use crate::constant::{spec_u16_pair, Const, ConstView};
use crate::encode::begins_with_class;
use crate::error::{fail, DecodeError, ErrorKind, Failure, Outcome};
use crate::list::{complete, lemma_list_advances, lemma_list_len};
use crate::member::{
    consume_fields, consume_interfaces, consume_methods, interface_decoder,
    lemma_member_decoders_advance, lemma_members_advance, spec_interfaces, spec_members, Field,
    Interface, MemberView, Method,
};
use crate::pool::{consume_constant_pool, lemma_pool_size, pool_entries, spec_pool};
use crate::round_trip::lemma_decodes_class_files_only;
use crate::reader::{
    be_at, consume_u16, consume_u32, in_bounds, lemma_be_at_four, lemma_be_value_bound, radix_pow,
    spec_u16, spec_u32,
};
use vstd::prelude::*;

verus! {

/// The four bytes that every class file begins with.
pub const MAGIC: u32 = 0xCAFEBABE;

/// A decoded class file.
///
/// The entry at position `i` of `constant_pool` is the one that the index
/// `i + 1` refers to.
#[derive(Debug, Clone, PartialEq, Eq)]
pub struct Class {
    pub minor_version: u16,
    pub major_version: u16,
    pub constant_pool: Vec<Const>,
    pub access_flags: u16,
    pub this_class: u16,
    pub super_class: u16,
    pub interfaces: Vec<Interface>,
    pub fields: Vec<Field>,
    pub methods: Vec<Method>,
    pub attributes: Vec<Attribute>,
}

/// The mathematical form of a decoded class file.
pub struct ClassView {
    pub minor_version: u16,
    pub major_version: u16,
    pub constant_pool: Seq<ConstView>,
    pub access_flags: u16,
    pub this_class: u16,
    pub super_class: u16,
    pub interfaces: Seq<Interface>,
    pub fields: Seq<MemberView>,
    pub methods: Seq<MemberView>,
    pub attributes: Seq<AttributeView>,
}

impl View for Class {
    type V = ClassView;

    open spec fn view(&self) -> ClassView {
        ClassView {
            minor_version: self.minor_version,
            major_version: self.major_version,
            constant_pool: self.constant_pool.deep_view(),
            access_flags: self.access_flags,
            this_class: self.this_class,
            super_class: self.super_class,
            interfaces: self.interfaces.deep_view(),
            fields: self.fields.deep_view(),
            methods: self.methods.deep_view(),
            attributes: self.attributes.deep_view(),
        }
    }
}

impl Class {
    /// The pool entry that the index `index` refers to: the entry at
    /// position `index - 1`. The index zero refers to no entry, and neither
    /// does an index beyond the pool.
    pub fn constant(&self, index: u16) -> (entry: Option<&Const>)
        ensures
            entry is Some <==> 1 <= index <= self.constant_pool.len(),
            entry matches Some(c) ==> *c == self.constant_pool[index - 1],
    {
        if index >= 1 && index as usize <= self.constant_pool.len() {
            Some(&self.constant_pool[index as usize - 1])
        } else {
            None
        }
    }
}

/// The signature at the start of the buffer: four bytes that must spell
/// `MAGIC`. Any other four bytes fail with `BadMagicNumber` at offset zero.
pub open spec fn spec_magic(b: Seq<u8>) -> Outcome<()> {
    match spec_u32(b, 0) {
        Err(f) => Err(f),
        Ok((magic, next)) => if magic == MAGIC {
            Ok(((), next))
        } else {
            fail(ErrorKind::BadMagicNumber, 0)
        },
    }
}

/// A pool with its declared count in front: two bytes of count, then the
/// entries.
pub open spec fn spec_counted_pool(b: Seq<u8>, at: int) -> Outcome<Seq<ConstView>> {
    match spec_u16(b, at) {
        Err(f) => Err(f),
        Ok((count, first)) => complete(spec_pool(b, count as nat, first)),
    }
}

/// The interfaces with their number in front.
pub open spec fn spec_counted_interfaces(b: Seq<u8>, at: int) -> Outcome<Seq<Interface>> {
    match spec_u16(b, at) {
        Err(f) => Err(f),
        Ok((count, first)) => complete(spec_interfaces(b, count as nat, first)),
    }
}

/// Fields or methods with their number in front.
pub open spec fn spec_counted_members(b: Seq<u8>, at: int) -> Outcome<Seq<MemberView>> {
    match spec_u16(b, at) {
        Err(f) => Err(f),
        Ok((count, first)) => complete(spec_members(b, count as nat, first)),
    }
}

/// Attributes with their number in front.
pub open spec fn spec_counted_attributes(b: Seq<u8>, at: int) -> Outcome<Seq<AttributeView>> {
    match spec_u16(b, at) {
        Err(f) => Err(f),
        Ok((count, first)) => complete(spec_attributes(b, count as nat, first)),
    }
}

/// The class that the buffer `b` holds, with the offset behind its last
/// attribute: signature, versions, pool, access flags, the indices of the
/// class and of its superclass, interfaces, fields, methods and attributes,
/// in this order and each where the part before it ended. The first part
/// that fails decides the failure. Bytes behind the last attribute are not
/// looked at.
pub open spec fn spec_class(b: Seq<u8>) -> Outcome<ClassView> {
    match spec_magic(b) {
        Err(f) => Err(f),
        Ok((_, at)) => match spec_u16_pair(b, at) {
            Err(f) => Err(f),
            Ok((versions, at)) => match spec_counted_pool(b, at) {
                Err(f) => Err(f),
                Ok((constant_pool, at)) => match spec_u16(b, at) {
                    Err(f) => Err(f),
                    Ok((access_flags, at)) => match spec_u16_pair(b, at) {
                        Err(f) => Err(f),
                        Ok((classes, at)) => match spec_counted_interfaces(b, at) {
                            Err(f) => Err(f),
                            Ok((interfaces, at)) => match spec_counted_members(b, at) {
                                Err(f) => Err(f),
                                Ok((fields, at)) => match spec_counted_members(b, at) {
                                    Err(f) => Err(f),
                                    Ok((methods, at)) => match spec_counted_attributes(b, at) {
                                        Err(f) => Err(f),
                                        Ok((attributes, end)) => Ok(
                                            (
                                                ClassView {
                                                    minor_version: versions.0,
                                                    major_version: versions.1,
                                                    constant_pool,
                                                    access_flags,
                                                    this_class: classes.0,
                                                    super_class: classes.1,
                                                    interfaces,
                                                    fields,
                                                    methods,
                                                    attributes,
                                                },
                                                end,
                                            ),
                                        ),
                                    },
                                },
                            },
                        },
                    },
                },
            },
        },
    }
}

/// Whether the result `r` of decoding a whole buffer is the outcome `o`: a
/// class whose view is the outcome's, or the same failure.
pub open spec fn decodes(r: Result<Class, DecodeError>, o: Outcome<ClassView>) -> bool {
    match r {
        Ok(class) => o is Ok && o->Ok_0.0 == class@,
        Err(e) => o == Err::<(ClassView, int), Failure>(e@),
    }
}

/// Whether `b` begins with the four bytes of the signature.
pub open spec fn starts_with_magic(b: Seq<u8>) -> bool {
    b.len() >= 4 && b[0] == 0xCA && b[1] == 0xFE && b[2] == 0xBA && b[3] == 0xBE
}

/// Decodes the class file held in `data`.
///
/// The result is the one that `spec_class` gives for the bytes of `data`:
/// the class, or the first failure with its offset. Decoding succeeds
/// exactly when `data` begins with a class file, and gives the class of that
/// class file; bytes behind it are ignored. A buffer of four bytes or more
/// that does not begin with the signature is rejected with `BadMagicNumber`
/// at offset zero, whatever follows.
pub fn parse(data: &Vec<u8>) -> (r: Result<Class, DecodeError>)
    ensures
        decodes(r, spec_class(data@)),
        r matches Ok(class) ==> begins_with_class(data@, class@),
        r is Err ==> forall|c: ClassView| !#[trigger] begins_with_class(data@, c),
        data.len() >= 4 && !starts_with_magic(data@) ==> r == Err::<Class, DecodeError>(
            DecodeError { kind: ErrorKind::BadMagicNumber, offset: 0 },
        ),
{
    proof {
        lemma_magic_check(data@);
        lemma_decodes_class_files_only(data@);
    }
    let (magic, cursor) = match consume_u32(data, 0) {
        Ok(read) => read,
        Err(e) => {
            return Err(e);
        },
    };
    if magic != MAGIC {
        return Err(DecodeError { kind: ErrorKind::BadMagicNumber, offset: 0 });
    }
    let (minor_version, cursor) = match consume_u16(data, cursor) {
        Ok(read) => read,
        Err(e) => {
            return Err(e);
        },
    };
    let (major_version, cursor) = match consume_u16(data, cursor) {
        Ok(read) => read,
        Err(e) => {
            return Err(e);
        },
    };
    let (constant_pool_count, cursor) = match consume_u16(data, cursor) {
        Ok(read) => read,
        Err(e) => {
            return Err(e);
        },
    };
    let (constants, cursor) = match consume_constant_pool(
        data,
        constant_pool_count as usize,
        cursor,
    ) {
        Ok(read) => read,
        Err(e) => {
            return Err(e.error);
        },
    };
    let (access_flags, cursor) = match consume_u16(data, cursor) {
        Ok(read) => read,
        Err(e) => {
            return Err(e);
        },
    };
    let (this_class, cursor) = match consume_u16(data, cursor) {
        Ok(read) => read,
        Err(e) => {
            return Err(e);
        },
    };
    let (super_class, cursor) = match consume_u16(data, cursor) {
        Ok(read) => read,
        Err(e) => {
            return Err(e);
        },
    };
    let (interfaces_count, cursor) = match consume_u16(data, cursor) {
        Ok(read) => read,
        Err(e) => {
            return Err(e);
        },
    };
    let (interfaces, cursor) = match consume_interfaces(data, interfaces_count as usize, cursor) {
        Ok(read) => read,
        Err(e) => {
            return Err(e);
        },
    };
    let (fields_count, cursor) = match consume_u16(data, cursor) {
        Ok(read) => read,
        Err(e) => {
            return Err(e);
        },
    };
    let (fields, cursor) = match consume_fields(data, fields_count as usize, cursor) {
        Ok(read) => read,
        Err(e) => {
            return Err(e);
        },
    };
    let (methods_count, cursor) = match consume_u16(data, cursor) {
        Ok(read) => read,
        Err(e) => {
            return Err(e);
        },
    };
    let (methods, cursor) = match consume_methods(data, methods_count as usize, cursor) {
        Ok(read) => read,
        Err(e) => {
            return Err(e);
        },
    };
    let (attributes_count, cursor) = match consume_u16(data, cursor) {
        Ok(read) => read,
        Err(e) => {
            return Err(e);
        },
    };
    let (attributes, _) = match consume_attributes(data, attributes_count as usize, cursor) {
        Ok(read) => read,
        Err(e) => {
            return Err(e);
        },
    };
    Ok(
        Class {
            minor_version,
            major_version,
            constant_pool: constants,
            access_flags,
            this_class,
            super_class,
            interfaces,
            fields,
            methods,
            attributes,
        },
    )
}

/// The signature is checked before anything else and decides alone: a
/// buffer of fewer than four bytes fails as a read past the end, one whose
/// first four bytes are not the signature fails with `BadMagicNumber`, both at
/// offset zero and whatever else the buffer holds; and only a buffer that
/// begins with the signature is decoded further.
pub proof fn lemma_magic_check(b: Seq<u8>)
    ensures
        b.len() < 4 ==> spec_class(b) == fail::<ClassView>(ErrorKind::OutOfBounds, 0),
        b.len() >= 4 && !starts_with_magic(b) ==> spec_class(b) == fail::<ClassView>(
            ErrorKind::BadMagicNumber,
            0,
        ),
        starts_with_magic(b) <==> spec_magic(b) == Ok::<((), int), Failure>(((), 4)),
        spec_class(b) is Ok ==> starts_with_magic(b),
{
    if b.len() >= 4 {
        lemma_be_at_four(b, 0);
    }
}

/// Decoding is a function of the bytes: whatever two runs of the decoder
/// give on identical buffers is identical, class for class and failure for
/// failure.
pub proof fn lemma_decoding_is_deterministic(
    first: Seq<u8>,
    second: Seq<u8>,
    r1: Result<Class, DecodeError>,
    r2: Result<Class, DecodeError>,
)
    requires
        first == second,
        decodes(r1, spec_class(first)),
        decodes(r2, spec_class(second)),
    ensures
        r1 is Ok <==> r2 is Ok,
        r1 is Ok ==> r1->Ok_0@ == r2->Ok_0@,
        r1 is Err ==> r1->Err_0 == r2->Err_0,
{
}

/// A class that decodes ends inside the buffer, and has as many pool entries
/// as the count in the buffer declares, less one. A buffer that does not
/// decode fails at an offset that is not negative.
pub proof fn lemma_class_stays_inside(b: Seq<u8>)
    ensures
        spec_class(b) matches Ok((class, end)) ==> 10 <= end <= b.len()
            && class.constant_pool.len() == pool_entries(be_at(b, 8, 2)),
        spec_class(b) matches Err(f) ==> 0 <= f.offset,
{
    lemma_magic_check(b);
    if starts_with_magic(b) && in_bounds(b, 4, 6) {
        let count = spec_u16(b, 8)->Ok_0.0;
        lemma_be_value_bound(b.subrange(8, 10));
        reveal_with_fuel(radix_pow, 3);
        lemma_parts_advance(b, 8);
        match spec_counted_pool(b, 8) {
            Err(f) => {},
            Ok((constant_pool, at)) => {
                if in_bounds(b, at, 6) {
                    let at = at + 6;
                    lemma_parts_advance(b, at);
                    match spec_counted_interfaces(b, at) {
                        Err(f) => {},
                        Ok((interfaces, at)) => {
                            lemma_parts_advance(b, at);
                            match spec_counted_members(b, at) {
                                Err(f) => {},
                                Ok((fields, at)) => {
                                    lemma_parts_advance(b, at);
                                    match spec_counted_members(b, at) {
                                        Err(f) => {},
                                        Ok((methods, at)) => {
                                            lemma_parts_advance(b, at);
                                        },
                                    }
                                },
                            }
                        },
                    }
                }
            },
        }
    }
}

/// Each counted part of a class that decodes ends inside the buffer, at
/// least two bytes behind its start, with as many records as its count
/// declares; each that fails, fails at or behind its start.
pub proof fn lemma_parts_advance(b: Seq<u8>, at: int)
    ensures
        spec_counted_pool(b, at) matches Ok((entries, end)) ==> 0 <= at && at + 2 <= end
            <= b.len() && entries.len() == pool_entries(be_at(b, at, 2)),
        spec_counted_pool(b, at) matches Err(f) ==> at <= f.offset,
        spec_counted_interfaces(b, at) matches Ok((records, end)) ==> 0 <= at && at + 2 <= end
            <= b.len() && records.len() == be_at(b, at, 2),
        spec_counted_interfaces(b, at) matches Err(f) ==> at <= f.offset,
        spec_counted_members(b, at) matches Ok((records, end)) ==> 0 <= at && at + 2 <= end
            <= b.len() && records.len() == be_at(b, at, 2),
        spec_counted_members(b, at) matches Err(f) ==> at <= f.offset,
        spec_counted_attributes(b, at) matches Ok((records, end)) ==> 0 <= at && at + 2 <= end
            <= b.len() && records.len() == be_at(b, at, 2),
        spec_counted_attributes(b, at) matches Err(f) ==> at <= f.offset,
{
    if in_bounds(b, at, 2) {
        lemma_be_value_bound(b.subrange(at, at + 2));
        reveal_with_fuel(radix_pow, 3);
        let count = spec_u16(b, at)->Ok_0.0;
        let first = at + 2;
        if count >= 1 {
            lemma_pool_size(b, count as nat, first);
        }
        lemma_member_decoders_advance();
        lemma_list_len(interface_decoder(), ErrorKind::TruncatedList, b, first, count as nat);
        lemma_list_advances(interface_decoder(), ErrorKind::TruncatedList, b, first, count as nat);
        lemma_members_advance(b, count as nat, first);
        lemma_attributes_advance(b, count as nat, first);
    }
}

} // verus!
