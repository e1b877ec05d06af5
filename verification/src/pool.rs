//! The constant pool: a run of tagged entries whose number the class file
//! declares in front of it.

use crate::constant::{
    lemma_constant_advances, spec_constant, spec_from_tag, Const, ConstType, ConstView,
};
use crate::error::{fail, yields_view, DecodeError, ErrorKind, Failure, Outcome};
use crate::list::{
    cut_short, lemma_list_advances, lemma_list_begin, lemma_list_end, lemma_list_len,
    lemma_list_runs_out, lemma_list_step, list_progress, spec_list, Decoder, ListOutcome, Partial,
};
use crate::reader::{consume_u8, spec_u8};
use vstd::prelude::*;

verus! {

/// A pool that could not be completed: the failure, and the entries that
/// were decoded before it, in their order.
#[derive(Debug, Clone, PartialEq, Eq)]
pub struct PoolError {
    pub error: DecodeError,
    pub decoded: Vec<Const>,
}

/// One tagged entry at `at`: the tag byte, then the payload that the tag
/// calls for. A byte that names no kind fails with `UnknownConstantTag` at
/// the offset of that byte.
pub open spec fn spec_entry(b: Seq<u8>, at: int) -> Outcome<ConstView> {
    match spec_u8(b, at) {
        Err(f) => Err(f),
        Ok((tag, payload)) => match spec_from_tag(tag) {
            None => fail(ErrorKind::UnknownConstantTag, at),
            Some(kind) => spec_constant(kind, b, payload),
        },
    }
}

/// `spec_entry` as the decoder of a list's records.
pub open spec fn entry_decoder() -> Decoder<ConstView> {
    |b: Seq<u8>, at: int| spec_entry(b, at)
}

/// The number of entries that a pool with the declared count `n` holds: one
/// less than `n`, and none for a count of zero.
pub open spec fn pool_entries(n: nat) -> nat {
    if n == 0 {
        0
    } else {
        (n - 1) as nat
    }
}

/// The pool with the declared count `n` whose first entry is at `at`. An
/// entry that runs past the end of the buffer fails with `TruncatedPool`.
pub open spec fn spec_pool(b: Seq<u8>, n: nat, at: int) -> ListOutcome<ConstView> {
    spec_list(entry_decoder(), ErrorKind::TruncatedPool, b, at, pool_entries(n))
}

/// Whether the executable result `r` is the pool outcome `o`: the same
/// entries and end offset, or the same failure behind the same entries.
pub open spec fn yields_pool(
    r: Result<(Vec<Const>, usize), PoolError>,
    o: ListOutcome<ConstView>,
) -> bool {
    match r {
        Ok((v, next)) => o == Ok::<(Seq<ConstView>, int), Partial<ConstView>>(
            (v.deep_view(), next as int),
        ),
        Err(e) => o == Err::<(Seq<ConstView>, int), Partial<ConstView>>(
            Partial { failure: e.error@, decoded: e.decoded.deep_view() },
        ),
    }
}

/// Decodes the entry at `cursor`: reads the tag byte and then the payload of
/// the kind that it names.
pub fn consume_entry(b: &Vec<u8>, cursor: usize) -> (r: Result<(Const, usize), DecodeError>)
    ensures
        yields_view(r, spec_entry(b@, cursor as int)),
{
    let (tag, payload) = match consume_u8(b, cursor) {
        Ok(read) => read,
        Err(e) => {
            return Err(e);
        },
    };
    match ConstType::from_tag(tag) {
        Some(kind) => kind.consume_constant(b, payload),
        None => Err(DecodeError { kind: ErrorKind::UnknownConstantTag, offset: cursor }),
    }
}

/// Decodes the pool with the declared count `n` that starts at `cursor`:
/// `n - 1` entries, one behind the other. On failure the entries decoded so
/// far come back with the error.
pub fn consume_constant_pool(b: &Vec<u8>, n: usize, cursor: usize) -> (r: Result<
    (Vec<Const>, usize),
    PoolError,
>)
    ensures
        yields_pool(r, spec_pool(b@, n as nat, cursor as int)),
        r matches Ok((v, _)) ==> v.len() == pool_entries(n as nat),
        r matches Err(e) ==> e.decoded.len() < pool_entries(n as nat) && e.error.kind
            != ErrorKind::OutOfBounds,
{
    let mut v: Vec<Const> = Vec::new();
    let mut c: usize = cursor;
    let target: usize = if n == 0 {
        0
    } else {
        n - 1
    };
    proof {
        lemma_list_begin(
            entry_decoder(),
            ErrorKind::TruncatedPool,
            b@,
            cursor as int,
            target as nat,
        );
        assert(v.deep_view() =~= Seq::<ConstView>::empty());
    }
    while v.len() < target
        invariant
            target == pool_entries(n as nat),
            list_progress(
                entry_decoder(),
                ErrorKind::TruncatedPool,
                b@,
                cursor as int,
                target as nat,
                v.deep_view(),
                c as int,
            ),
        decreases target - v.len(),
    {
        proof {
            lemma_list_step(
                entry_decoder(),
                ErrorKind::TruncatedPool,
                b@,
                cursor as int,
                target as nat,
                v.deep_view(),
                c as int,
            );
        }
        let ghost before = v.deep_view();
        match consume_entry(b, c) {
            Ok((entry, next)) => {
                v.push(entry);
                c = next;
                assert(v.deep_view() =~= before.push(entry@));
            },
            Err(e) => {
                return Err(PoolError { error: cut_short(e, ErrorKind::TruncatedPool), decoded: v });
            },
        }
    }
    proof {
        lemma_list_end(
            entry_decoder(),
            ErrorKind::TruncatedPool,
            b@,
            cursor as int,
            target as nat,
            v.deep_view(),
            c as int,
        );
    }
    Ok((v, c))
}

/// Every tagged entry that decodes ends inside the buffer, behind the offset
/// of its tag; every failure lies at or behind that offset.
pub proof fn lemma_entry_advances(b: Seq<u8>, at: int)
    ensures
        spec_entry(b, at) matches Ok((_, next)) ==> 0 <= at < next <= b.len(),
        spec_entry(b, at) matches Err(f) ==> at <= f.offset,
{
    match spec_u8(b, at) {
        Err(f) => {},
        Ok((tag, payload)) => match spec_from_tag(tag) {
            None => {},
            Some(kind) => {
                lemma_constant_advances(kind, b, payload);
            },
        },
    }
}

/// A pool with the declared count `n`, at least one, has exactly `n - 1`
/// entries where it decodes, and fewer decoded entries where it fails. It
/// ends at or behind its start, inside the buffer if it began there. It
/// never fails as a read past the end: a pool that the buffer cannot hold
/// fails with `TruncatedPool`, an unknown tag with `UnknownConstantTag`, and
/// malformed text with `InvalidEncoding`.
pub proof fn lemma_pool_size(b: Seq<u8>, n: nat, at: int)
    requires
        n >= 1,
    ensures
        spec_pool(b, n, at) matches Ok((entries, end)) ==> entries.len() == n - 1 && at <= end
            && (0 <= at <= b.len() ==> end <= b.len()),
        spec_pool(b, n, at) matches Err(partial) ==> {
            &&& partial.decoded.len() < n - 1
            &&& at <= partial.failure.offset
            &&& (partial.failure.kind == ErrorKind::TruncatedPool || partial.failure.kind
                == ErrorKind::UnknownConstantTag || partial.failure.kind
                == ErrorKind::InvalidEncoding)
        },
{
    let item = entry_decoder();
    let count = pool_entries(n);
    lemma_list_len(item, ErrorKind::TruncatedPool, b, at, count);
    assert forall|b: Seq<u8>, at: int|
        (#[trigger] item(b, at)) matches Ok((_, next)) ==> 0 <= at <= next <= b.len() by {
        lemma_entry_advances(b, at);
    }
    assert forall|b: Seq<u8>, at: int|
        (#[trigger] item(b, at)) matches Err(f) ==> at <= f.offset by {
        lemma_entry_advances(b, at);
    }
    lemma_list_advances(item, ErrorKind::TruncatedPool, b, at, count);
    lemma_pool_failures(b, at, count);
}

/// The kinds of failure of a run of entries.
proof fn lemma_pool_failures(b: Seq<u8>, at: int, count: nat)
    ensures
        spec_list(entry_decoder(), ErrorKind::TruncatedPool, b, at, count) matches Err(partial)
            ==> (partial.failure.kind == ErrorKind::TruncatedPool || partial.failure.kind
            == ErrorKind::UnknownConstantTag || partial.failure.kind
            == ErrorKind::InvalidEncoding),
    decreases count,
{
    if count > 0 {
        match spec_entry(b, at) {
            Ok((first, next)) => {
                lemma_pool_failures(b, next, (count - 1) as nat);
            },
            Err(f) => {
                match spec_u8(b, at) {
                    Err(f) => {},
                    Ok((tag, payload)) => match spec_from_tag(tag) {
                        None => {},
                        Some(kind) => {
                            lemma_constant_advances(kind, b, payload);
                        },
                    },
                }
            },
        }
    }
}

/// A buffer that holds fewer entries than the pool declares, and ends behind
/// them, fails with `TruncatedPool` at its end, behind the entries that it
/// holds.
pub proof fn lemma_pool_runs_out(b: Seq<u8>, n: nat, at: int, held: nat)
    requires
        held + 1 < n,
        spec_pool(b, held + 1, at) matches Ok((_, end)) && end == b.len(),
    ensures
        spec_pool(b, n, at) == Err::<(Seq<ConstView>, int), Partial<ConstView>>(
            Partial {
                failure: Failure { kind: ErrorKind::TruncatedPool, offset: b.len() as int },
                decoded: spec_pool(b, held + 1, at)->Ok_0.0,
            },
        ),
{
    lemma_list_runs_out(
        entry_decoder(),
        ErrorKind::TruncatedPool,
        b,
        at,
        held,
        pool_entries(n),
    );
}

} // verus!
