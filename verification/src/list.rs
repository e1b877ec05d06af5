//! Count-prefixed lists: what it means to decode a given number of records
//! one behind the other.
//!
//! The pool and the four structural lists all have this shape. A list is
//! specified once, over the decoder of one record; the executable decoders
//! are loops that are proved against it.

use crate::error::{DecodeError, ErrorKind, Failure, Outcome};
use vstd::prelude::*;

verus! {

/// The specification of a decoder of one record: from the buffer and an
/// offset to the record and the offset behind it, or a failure.
pub type Decoder<T> = spec_fn(Seq<u8>, int) -> Outcome<T>;

/// A list that could not be completed: the failure, and the records that
/// were decoded before it.
pub struct Partial<T> {
    pub failure: Failure,
    pub decoded: Seq<T>,
}

/// What decoding a list specifies: the records with the offset behind the
/// last one, or the failure with the records before it.
pub type ListOutcome<T> = Result<(Seq<T>, int), Partial<T>>;

/// The failure `f` as a list reports it: a read past the end of the buffer
/// means that the list is cut short, and takes the kind `cut`; the offset
/// stays. Any other failure is passed on unchanged.
pub open spec fn truncated(f: Failure, cut: ErrorKind) -> Failure {
    if f.kind == ErrorKind::OutOfBounds {
        Failure { kind: cut, offset: f.offset }
    } else {
        f
    }
}

/// The failure `e` as a list reports it, with `cut` for a read past the end.
pub fn cut_short(e: DecodeError, cut: ErrorKind) -> (r: DecodeError)
    ensures
        r@ == truncated(e@, cut),
{
    match e.kind {
        ErrorKind::OutOfBounds => DecodeError { kind: cut, offset: e.offset },
        _ => e,
    }
}

/// The outcome `rest` with the records `front` put before its own.
pub open spec fn prepend<T>(front: Seq<T>, rest: ListOutcome<T>) -> ListOutcome<T> {
    match rest {
        Ok((records, end)) => Ok((front + records, end)),
        Err(partial) => Err(
            Partial { failure: partial.failure, decoded: front + partial.decoded },
        ),
    }
}

/// `count` records decoded by `item`, the first at `at`, each one where the
/// one before it ended. The first record that fails ends the list.
pub open spec fn spec_list<T>(
    item: Decoder<T>,
    cut: ErrorKind,
    b: Seq<u8>,
    at: int,
    count: nat,
) -> ListOutcome<T>
    decreases count,
{
    if count == 0 {
        Ok((Seq::empty(), at))
    } else {
        match item(b, at) {
            Err(f) => Err(Partial { failure: truncated(f, cut), decoded: Seq::empty() }),
            Ok((first, next)) => prepend(
                seq![first],
                spec_list(item, cut, b, next, (count - 1) as nat),
            ),
        }
    }
}

/// A list outcome without the records before a failure.
pub open spec fn complete<T>(o: ListOutcome<T>) -> Outcome<Seq<T>> {
    match o {
        Ok(done) => Ok(done),
        Err(partial) => Err(partial.failure),
    }
}

/// Whether the executable result `r` is the list outcome `o`, up to the
/// records before a failure: records whose views are the outcome's, with the
/// same end offset, or the same failure.
pub open spec fn yields_list<T: DeepView>(
    r: Result<(Vec<T>, usize), DecodeError>,
    o: ListOutcome<T::V>,
) -> bool {
    match r {
        Ok((v, next)) => o == Ok::<(Seq<T::V>, int), Partial<T::V>>((v.deep_view(), next as int)),
        Err(e) => o is Err && o->Err_0.failure == e@,
    }
}

/// What a loop over a list knows after `done` records, standing at `at`: the
/// whole list is those records followed by the rest of the list from `at`.
pub open spec fn list_progress<T>(
    item: Decoder<T>,
    cut: ErrorKind,
    b: Seq<u8>,
    start: int,
    total: nat,
    done: Seq<T>,
    at: int,
) -> bool {
    &&& done.len() <= total
    &&& spec_list(item, cut, b, start, total) == prepend(
        done,
        spec_list(item, cut, b, at, (total - done.len()) as nat),
    )
}

/// Before the first record nothing is decoded.
pub proof fn lemma_list_begin<T>(item: Decoder<T>, cut: ErrorKind, b: Seq<u8>, start: int, total: nat)
    ensures
        list_progress(item, cut, b, start, total, Seq::<T>::empty(), start),
{
    let whole = spec_list(item, cut, b, start, total);
    match whole {
        Ok((records, end)) => {
            assert(Seq::<T>::empty() + records =~= records);
        },
        Err(partial) => {
            assert(Seq::<T>::empty() + partial.decoded =~= partial.decoded);
        },
    }
}

/// One more record: where it decodes, the loop goes on behind it; where it
/// fails, the whole list fails with the records so far.
pub proof fn lemma_list_step<T>(
    item: Decoder<T>,
    cut: ErrorKind,
    b: Seq<u8>,
    start: int,
    total: nat,
    done: Seq<T>,
    at: int,
)
    requires
        list_progress(item, cut, b, start, total, done, at),
        done.len() < total,
    ensures
        match item(b, at) {
            Ok((record, next)) => list_progress(item, cut, b, start, total, done.push(record), next),
            Err(f) => spec_list(item, cut, b, start, total) == Err::<(Seq<T>, int), Partial<T>>(
                Partial { failure: truncated(f, cut), decoded: done },
            ),
        },
{
    let left = (total - done.len()) as nat;
    match item(b, at) {
        Ok((record, next)) => {
            let rest = spec_list(item, cut, b, next, (left - 1) as nat);
            assert(spec_list(item, cut, b, at, left) == prepend(seq![record], rest));
            match rest {
                Ok((records, end)) => {
                    assert(done + (seq![record] + records) =~= done.push(record) + records);
                },
                Err(partial) => {
                    assert(done + (seq![record] + partial.decoded) =~= done.push(record)
                        + partial.decoded);
                },
            }
        },
        Err(f) => {
            assert(done + Seq::<T>::empty() =~= done);
        },
    }
}

/// After the last record the list is complete and ends where the loop stands.
pub proof fn lemma_list_end<T>(
    item: Decoder<T>,
    cut: ErrorKind,
    b: Seq<u8>,
    start: int,
    total: nat,
    done: Seq<T>,
    at: int,
)
    requires
        list_progress(item, cut, b, start, total, done, at),
        done.len() == total,
    ensures
        spec_list(item, cut, b, start, total) == Ok::<(Seq<T>, int), Partial<T>>((done, at)),
{
    assert(done + Seq::<T>::empty() =~= done);
}

/// A complete list has as many records as were asked for.
pub proof fn lemma_list_len<T>(item: Decoder<T>, cut: ErrorKind, b: Seq<u8>, at: int, count: nat)
    ensures
        spec_list(item, cut, b, at, count) matches Ok((records, _)) ==> records.len() == count,
        spec_list(item, cut, b, at, count) matches Err(partial) ==> partial.decoded.len() < count,
    decreases count,
{
    if count > 0 {
        match item(b, at) {
            Ok((first, next)) => {
                lemma_list_len(item, cut, b, next, (count - 1) as nat);
            },
            Err(f) => {},
        }
    }
}

/// A list of `first + more` records is the list of the first `first`
/// followed by the list of `more` records from where that one ended.
pub proof fn lemma_list_split<T>(
    item: Decoder<T>,
    cut: ErrorKind,
    b: Seq<u8>,
    at: int,
    first: nat,
    more: nat,
)
    ensures
        spec_list(item, cut, b, at, first + more) == match spec_list(item, cut, b, at, first) {
            Ok((records, middle)) => prepend(records, spec_list(item, cut, b, middle, more)),
            Err(partial) => Err(partial),
        },
    decreases first,
{
    if first == 0 {
        lemma_list_begin(item, cut, b, at, more);
    } else {
        match item(b, at) {
            Err(f) => {},
            Ok((head, next)) => {
                lemma_list_split(item, cut, b, next, (first - 1) as nat, more);
                assert((first - 1) as nat + more == (first + more - 1) as nat);
                match spec_list(item, cut, b, next, (first - 1) as nat) {
                    Err(partial) => {},
                    Ok((records, middle)) => {
                        match spec_list(item, cut, b, middle, more) {
                            Ok((tail, end)) => {
                                assert(seq![head] + (records + tail) =~= (seq![head] + records)
                                    + tail);
                            },
                            Err(partial) => {
                                assert(seq![head] + (records + partial.decoded) =~= (seq![head]
                                    + records) + partial.decoded);
                            },
                        }
                    },
                }
            },
        }
    }
}

/// Whether every record that `item` decodes ends inside the buffer, at or
/// behind the offset at which it began.
pub open spec fn stays_inside<T>(item: Decoder<T>) -> bool {
    forall|b: Seq<u8>, at: int|
        (#[trigger] item(b, at)) matches Ok((_, next)) ==> 0 <= at <= next <= b.len()
}

/// Whether every failure of `item` lies at or behind the offset at which the
/// record began.
pub open spec fn fails_ahead<T>(item: Decoder<T>) -> bool {
    forall|b: Seq<u8>, at: int| (#[trigger] item(b, at)) matches Err(f) ==> at <= f.offset
}

/// Offsets only move forward: a complete list ends at or behind its start,
/// and inside the buffer if it began there; a failed list fails at or behind
/// its start.
pub proof fn lemma_list_advances<T>(
    item: Decoder<T>,
    cut: ErrorKind,
    b: Seq<u8>,
    at: int,
    count: nat,
)
    requires
        stays_inside(item),
        fails_ahead(item),
    ensures
        spec_list(item, cut, b, at, count) matches Ok((_, end)) ==> at <= end && (0 <= at
            <= b.len() ==> end <= b.len()),
        spec_list(item, cut, b, at, count) matches Err(partial) ==> at
            <= partial.failure.offset,
    decreases count,
{
    if count > 0 {
        match item(b, at) {
            Ok((first, next)) => {
                lemma_list_advances(item, cut, b, next, (count - 1) as nat);
            },
            Err(f) => {},
        }
    }
}

/// A list never reports a read past the end as such: it reports that it was
/// cut short.
pub proof fn lemma_list_never_out_of_bounds<T>(
    item: Decoder<T>,
    cut: ErrorKind,
    b: Seq<u8>,
    at: int,
    count: nat,
)
    requires
        cut != ErrorKind::OutOfBounds,
    ensures
        spec_list(item, cut, b, at, count) matches Err(partial) ==> partial.failure.kind
            != ErrorKind::OutOfBounds,
    decreases count,
{
    if count > 0 {
        match item(b, at) {
            Ok((first, next)) => {
                lemma_list_never_out_of_bounds(item, cut, b, next, (count - 1) as nat);
            },
            Err(f) => {},
        }
    }
}

/// Where the buffer holds `held` records and then ends, asking for more
/// fails at the end of the buffer: the list is cut short behind the records
/// that are there.
pub proof fn lemma_list_runs_out<T>(
    item: Decoder<T>,
    cut: ErrorKind,
    b: Seq<u8>,
    at: int,
    held: nat,
    asked: nat,
)
    requires
        held < asked,
        spec_list(item, cut, b, at, held) matches Ok((_, end)) && end == b.len(),
        item(b, b.len() as int) == Err::<(T, int), Failure>(
            Failure { kind: ErrorKind::OutOfBounds, offset: b.len() as int },
        ),
    ensures
        spec_list(item, cut, b, at, asked) == Err::<(Seq<T>, int), Partial<T>>(
            Partial {
                failure: Failure { kind: cut, offset: b.len() as int },
                decoded: spec_list(item, cut, b, at, held)->Ok_0.0,
            },
        ),
{
    let more = (asked - held) as nat;
    lemma_list_split(item, cut, b, at, held, more);
    let records = spec_list(item, cut, b, at, held)->Ok_0.0;
    assert(records + Seq::<T>::empty() =~= records);
}

/// A list fails where its first failing record fails: the records before
/// it decode, one behind the other, and are the ones the failure comes with;
/// the record behind them fails, and the list reports that failure.
pub proof fn lemma_list_failure<T>(item: Decoder<T>, cut: ErrorKind, b: Seq<u8>, at: int, count: nat)
    requires
        spec_list(item, cut, b, at, count) is Err,
    ensures
        ({
            let partial = spec_list(item, cut, b, at, count)->Err_0;
            let before = spec_list(item, cut, b, at, partial.decoded.len());
            &&& partial.decoded.len() < count
            &&& before matches Ok((records, stopped))
            &&& records == partial.decoded
            &&& item(b, stopped) matches Err(f)
            &&& partial.failure == truncated(f, cut)
        }),
    decreases count,
{
    match item(b, at) {
        Err(f) => {},
        Ok((first, next)) => {
            let rest = (count - 1) as nat;
            lemma_list_failure(item, cut, b, next, rest);
            let inner = spec_list(item, cut, b, next, rest)->Err_0;
            let partial = spec_list(item, cut, b, at, count)->Err_0;
            assert(partial.decoded == seq![first] + inner.decoded);
            assert(partial.decoded.len() == inner.decoded.len() + 1);
            assert(spec_list(item, cut, b, at, partial.decoded.len()) == prepend(
                seq![first],
                spec_list(item, cut, b, next, inner.decoded.len()),
            ));
        },
    }
}

} // verus!
