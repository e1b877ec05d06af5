//! Attributes: named blocks of bytes attached to a class, a field or a
//! method. The decoder keeps the bytes as they are.

use crate::error::{fail, yields_view, DecodeError, ErrorKind, Outcome};
use crate::list::{
    cut_short, fails_ahead, lemma_list_advances, lemma_list_begin, lemma_list_end, lemma_list_len,
    lemma_list_step, list_progress, spec_list, stays_inside, yields_list, Decoder, ListOutcome,
};
use crate::reader::{consume_u16, consume_u32, in_bounds, spec_u16, spec_u32};
use vstd::prelude::*;
use vstd::slice::{slice_subrange, slice_to_vec};

verus! {

/// An attribute: the pool index of its name, and its payload.
#[derive(Debug, Clone, PartialEq, Eq)]
pub struct Attribute {
    pub name_index: u16,
    pub info: Vec<u8>,
}

/// The mathematical form of an attribute.
pub struct AttributeView {
    pub name_index: u16,
    pub info: Seq<u8>,
}

impl View for Attribute {
    type V = AttributeView;

    open spec fn view(&self) -> AttributeView {
        AttributeView { name_index: self.name_index, info: self.info@ }
    }
}

impl DeepView for Attribute {
    type V = AttributeView;

    open spec fn deep_view(&self) -> AttributeView {
        self@
    }
}

/// One attribute at `at`: a two-byte name index and a four-byte length, then
/// that many bytes of payload. A payload that does not fit fails with
/// `OutOfBounds` at its first byte.
pub open spec fn spec_attribute(b: Seq<u8>, at: int) -> Outcome<AttributeView> {
    match spec_u16(b, at) {
        Err(f) => Err(f),
        Ok((name_index, middle)) => match spec_u32(b, middle) {
            Err(f) => Err(f),
            Ok((length, start)) => if in_bounds(b, start, length as int) {
                Ok(
                    (
                        AttributeView { name_index, info: b.subrange(start, start + length) },
                        start + length,
                    ),
                )
            } else {
                fail(ErrorKind::OutOfBounds, start)
            },
        },
    }
}

/// `spec_attribute` as the decoder of a list's records.
pub open spec fn attribute_decoder() -> Decoder<AttributeView> {
    |b: Seq<u8>, at: int| spec_attribute(b, at)
}

/// `n` attributes, the first at `at`. A record that runs past the end of the
/// buffer fails with `TruncatedList`.
pub open spec fn spec_attributes(b: Seq<u8>, n: nat, at: int) -> ListOutcome<AttributeView> {
    spec_list(attribute_decoder(), ErrorKind::TruncatedList, b, at, n)
}

/// Decodes the attribute at `cursor`, copying its payload.
pub fn consume_attribute(b: &Vec<u8>, cursor: usize) -> (r: Result<(Attribute, usize), DecodeError>)
    ensures
        yields_view(r, spec_attribute(b@, cursor as int)),
{
    let (name_index, cursor) = match consume_u16(b, cursor) {
        Ok(read) => read,
        Err(e) => {
            return Err(e);
        },
    };
    let (length, cursor) = match consume_u32(b, cursor) {
        Ok(read) => read,
        Err(e) => {
            return Err(e);
        },
    };
    if b.len() - cursor < length as usize {
        return Err(DecodeError { kind: ErrorKind::OutOfBounds, offset: cursor });
    }
    let end: usize = cursor + length as usize;
    let info = slice_to_vec(slice_subrange(b.as_slice(), cursor, end));
    Ok((Attribute { name_index, info }, end))
}

/// Decodes `n` attributes, the first at `cursor`, each where the one before
/// it ended.
pub fn consume_attributes(b: &Vec<u8>, n: usize, cursor: usize) -> (r: Result<
    (Vec<Attribute>, usize),
    DecodeError,
>)
    ensures
        yields_list(r, spec_attributes(b@, n as nat, cursor as int)),
{
    let mut v: Vec<Attribute> = Vec::new();
    let mut c: usize = cursor;
    proof {
        lemma_list_begin(attribute_decoder(), ErrorKind::TruncatedList, b@, cursor as int, n as nat);
        assert(v.deep_view() =~= Seq::<AttributeView>::empty());
    }
    while v.len() < n
        invariant
            list_progress(
                attribute_decoder(),
                ErrorKind::TruncatedList,
                b@,
                cursor as int,
                n as nat,
                v.deep_view(),
                c as int,
            ),
        decreases n - v.len(),
    {
        proof {
            lemma_list_step(
                attribute_decoder(),
                ErrorKind::TruncatedList,
                b@,
                cursor as int,
                n as nat,
                v.deep_view(),
                c as int,
            );
        }
        let ghost before = v.deep_view();
        match consume_attribute(b, c) {
            Ok((attribute, next)) => {
                v.push(attribute);
                c = next;
                assert(v.deep_view() =~= before.push(attribute@));
            },
            Err(e) => {
                return Err(cut_short(e, ErrorKind::TruncatedList));
            },
        }
    }
    proof {
        lemma_list_end(
            attribute_decoder(),
            ErrorKind::TruncatedList,
            b@,
            cursor as int,
            n as nat,
            v.deep_view(),
            c as int,
        );
    }
    Ok((v, c))
}

/// Every attribute that decodes ends inside the buffer, six bytes and its
/// payload behind the offset at which it began; every failure is a read past
/// the end, at or behind that offset.
pub proof fn lemma_attribute_advances(b: Seq<u8>, at: int)
    ensures
        spec_attribute(b, at) matches Ok((attribute, next)) ==> 0 <= at && next == at + 6
            + attribute.info.len() && next <= b.len(),
        spec_attribute(b, at) matches Err(f) ==> at <= f.offset && f.kind
            == ErrorKind::OutOfBounds,
{
}

/// The decoder of one attribute keeps its offsets in order.
pub proof fn lemma_attribute_decoder_advances()
    ensures
        stays_inside(attribute_decoder()),
        fails_ahead(attribute_decoder()),
{
    let item = attribute_decoder();
    assert forall|b: Seq<u8>, at: int|
        (#[trigger] item(b, at)) matches Ok((_, next)) ==> 0 <= at <= next <= b.len() by {
        lemma_attribute_advances(b, at);
    }
    assert forall|b: Seq<u8>, at: int|
        (#[trigger] item(b, at)) matches Err(f) ==> at <= f.offset by {
        lemma_attribute_advances(b, at);
    }
}

/// A list of attributes that decodes has `n` records and ends at or behind
/// its start, inside the buffer if it began there. One that fails was cut
/// short: it fails with `TruncatedList`, at or behind its start.
pub proof fn lemma_attributes_advance(b: Seq<u8>, n: nat, at: int)
    ensures
        spec_attributes(b, n, at) matches Ok((records, end)) ==> records.len() == n && at <= end
            && (0 <= at <= b.len() ==> end <= b.len()),
        spec_attributes(b, n, at) matches Err(partial) ==> at <= partial.failure.offset
            && partial.failure.kind == ErrorKind::TruncatedList,
{
    lemma_attribute_decoder_advances();
    lemma_list_len(attribute_decoder(), ErrorKind::TruncatedList, b, at, n);
    lemma_list_advances(attribute_decoder(), ErrorKind::TruncatedList, b, at, n);
    lemma_attributes_cut_short(b, n, at);
}

/// The one kind of failure of a list of attributes.
proof fn lemma_attributes_cut_short(b: Seq<u8>, n: nat, at: int)
    ensures
        spec_attributes(b, n, at) matches Err(partial) ==> partial.failure.kind
            == ErrorKind::TruncatedList,
    decreases n,
{
    if n > 0 {
        lemma_attribute_advances(b, at);
        match spec_attribute(b, at) {
            Ok((first, next)) => {
                lemma_attributes_cut_short(b, (n - 1) as nat, next);
            },
            Err(f) => {},
        }
    }
}

} // verus!
