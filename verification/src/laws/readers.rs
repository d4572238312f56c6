//! All readers of a source come to what reading it in one buffer comes to.
use vstd::prelude::*;

use crate::adapters::push::{push_fed, push_finished, push_passed, push_start, PushView};
use crate::adapters::session::{read_on, Action};
use crate::adapters::slice::metadata_of;
use crate::driver::{pull_budget, stream_start, Outcome, StreamView};
use crate::error::Error;
use crate::fixtures::corpus::{piece_end, push_run};
use crate::fixtures::oracle::{
    ended, heard, pushes, seek_read, seek_run, verdict, whole, Verdict, READ_SIZE,
};
use crate::laws::agreement::{
    joined, lemma_rounds_open, lemma_small_all, push_agrees_with_slice, push_all, seeking_is_feeding,
    stopping_when_done_agrees, straight_file, stream_fits,
};
use crate::limits::Limits;
use crate::model::MetadataView;
use crate::probe::{probed, start_mode};

verus! {

/// However `bytes` arrive, the driver never holds back more than it may.
pub open spec fn always_fits(bytes: Seq<u8>, limits: Limits) -> bool {
    forall|chunks: Seq<Seq<u8>>| #[trigger]
        joined(chunks) == bytes ==> stream_fits(limits, chunks)
}

/// `bytes` can be read straight through, however they arrive.
pub open spec fn readable(bytes: Seq<u8>, limits: Limits) -> bool {
    &&& bytes.len() <= isize::MAX
    &&& straight_file(bytes, limits)
    &&& always_fits(bytes, limits)
}

/// `bytes` are readable.
#[verifier::opaque]
spec fn fine(bytes: Seq<u8>, limits: Limits) -> bool {
    readable(bytes, limits)
}

/// What the file in one buffer gives.
#[verifier::opaque]
spec fn answer(bytes: Seq<u8>, limits: Limits) -> Option<MetadataView> {
    metadata_of(bytes, limits)
}

/// The stream after all of the pieces.
#[verifier::opaque]
spec fn now(limits: Limits, chunks: Seq<Seq<u8>>) -> PushView {
    push_all(limits, chunks)
}

/// What the stream said to the last of the pieces.
#[verifier::opaque]
spec fn told(limits: Limits, chunks: Seq<Seq<u8>>) -> Result<Outcome, Error> {
    push_fed(push_all(limits, chunks.drop_last()), chunks.last()).1
}

proof fn lemma_joined_push(chunks: Seq<Seq<u8>>, c: Seq<u8>)
    ensures
        joined(chunks.push(c)) == joined(chunks) + c,
{
    assert(chunks.push(c).drop_last() =~= chunks);
}

/// One more piece.
proof fn lemma_next(limits: Limits, chunks: Seq<Seq<u8>>, c: Seq<u8>)
    ensures
        heard(now(limits, chunks), c) == (now(limits, chunks.push(c)), told(limits, chunks.push(c))),
{
    reveal(heard);
    reveal(now);
    reveal(told);
    assert(chunks.push(c).drop_last() =~= chunks);
}

/// All of the pieces make up the file.
proof fn lemma_all(limits: Limits, chunks: Seq<Seq<u8>>, bytes: Seq<u8>)
    requires
        fine(bytes, limits),
        joined(chunks) == bytes,
    ensures
        ended(now(limits, chunks)) == answer(bytes, limits),
{
    reveal(ended);
    reveal(now);
    reveal(fine);
    reveal(answer);
    push_agrees_with_slice(chunks, limits);
}

/// The stream wants no more.
proof fn lemma_stop(limits: Limits, chunks: Seq<Seq<u8>>, bytes: Seq<u8>)
    requires
        fine(bytes, limits),
        chunks.len() > 0,
        joined(chunks).len() <= bytes.len(),
        joined(chunks) == bytes.take(joined(chunks).len() as int),
        told(limits, chunks) == Ok::<Outcome, Error>(Outcome::Done),
    ensures
        ended(now(limits, chunks)) == answer(bytes, limits),
{
    let rest = bytes.skip(joined(chunks).len() as int);
    let all = chunks.push(rest);
    lemma_joined_push(chunks, rest);
    assert(joined(all) =~= bytes);
    let k = chunks.len() as int;
    assert(all.take(k) =~= chunks);
    lemma_stopped(limits, all, k, bytes);
}

#[verifier::rlimit(40)]
proof fn lemma_stopped(limits: Limits, all: Seq<Seq<u8>>, k: int, bytes: Seq<u8>)
    requires
        fine(bytes, limits),
        joined(all) == bytes,
        0 < k <= all.len(),
        told(limits, all.take(k)) == Ok::<Outcome, Error>(Outcome::Done),
    ensures
        ended(now(limits, all.take(k))) == answer(bytes, limits),
{
    let done = Ok::<Outcome, Error>(Outcome::Done);
    assert(bytes.len() <= isize::MAX && straight_file(bytes, limits) && stream_fits(limits, all))
        by {
        reveal(fine);
    }
    assert(push_fed(push_all(limits, all.take(k - 1)), all[k - 1]).1 == done) by {
        reveal(told);
        assert(all.take(k).drop_last() =~= all.take(k - 1));
        assert(all.take(k).last() == all[k - 1]);
    }
    stopping_when_done_agrees(all, k, limits);
    assert(ended(now(limits, all.take(k))) == push_finished(push_all(limits, all.take(k)))) by {
        reveal(ended);
        reveal(now);
    }
    reveal(answer);
}

proof fn lemma_refused(v: PushView, c: Seq<u8>)
    requires
        push_fed(v, c).1 is Err,
    ensures
        push_fed(v, c).0.failed,
{
}

proof fn lemma_failed(limits: Limits, chunks: Seq<Seq<u8>>, rest: Seq<u8>)
    requires
        chunks.len() > 0,
        told(limits, chunks) is Err,
    ensures
        ended(now(limits, chunks.push(rest))) is None,
{
    let all = chunks.push(rest);
    assert(all.drop_last() =~= chunks);
    assert(push_all(limits, chunks).failed) by {
        reveal(told);
        lemma_refused(push_all(limits, chunks.drop_last()), chunks.last());
    }
    assert(push_all(limits, all).failed);
    reveal(ended);
    reveal(now);
}

/// The stream does not know the format.
proof fn lemma_fail(limits: Limits, chunks: Seq<Seq<u8>>, bytes: Seq<u8>)
    requires
        fine(bytes, limits),
        chunks.len() > 0,
        joined(chunks).len() <= bytes.len(),
        joined(chunks) == bytes.take(joined(chunks).len() as int),
        told(limits, chunks) is Err,
    ensures
        answer(bytes, limits) is None,
{
    let rest = bytes.skip(joined(chunks).len() as int);
    let all = chunks.push(rest);
    lemma_joined_push(chunks, rest);
    assert(joined(all) =~= bytes);
    lemma_failed(limits, chunks, rest);
    lemma_all(limits, all, bytes);
}

/// One step of feeding in pieces.
proof fn lemma_run(v: PushView, bytes: Seq<u8>, i: int, chunk: int)
    requires
        chunk > 0,
    ensures
        push_run(v, bytes, i, chunk) == (if i >= bytes.len() {
            ended(v)
        } else {
            let end = piece_end(bytes.len() as int, i, chunk);
            let (w, o) = heard(v, bytes.subrange(i, end));
            match o {
                Ok(Outcome::Done) => ended(w),
                Ok(_) => push_run(w, bytes, end, chunk),
                Err(_) => None,
            }
        }),
{
    reveal(ended);
    reveal(heard);
    reveal(push_run);
}

proof fn lemma_pieces(limits: Limits, chunks: Seq<Seq<u8>>, bytes: Seq<u8>, i: int, chunk: int)
    requires
        fine(bytes, limits),
        chunk > 0,
        0 <= i <= bytes.len(),
        joined(chunks) == bytes.take(i),
    ensures
        push_run(now(limits, chunks), bytes, i, chunk) == answer(bytes, limits),
    decreases bytes.len() - i,
{
    lemma_run(now(limits, chunks), bytes, i, chunk);
    if i >= bytes.len() {
        assert(joined(chunks) =~= bytes);
        lemma_all(limits, chunks, bytes);
    } else {
        let end = piece_end(bytes.len() as int, i, chunk);
        let piece = bytes.subrange(i, end);
        let next = chunks.push(piece);
        lemma_next(limits, chunks, piece);
        lemma_joined_push(chunks, piece);
        assert(joined(next) =~= bytes.take(end));
        match told(limits, next) {
            Ok(Outcome::Done) => {
                lemma_stop(limits, next, bytes);
            },
            Ok(_) => {
                lemma_pieces(limits, next, bytes, end, chunk);
            },
            Err(_) => {
                lemma_fail(limits, next, bytes);
            },
        }
    }
}

proof fn lemma_start(limits: Limits)
    ensures
        now(limits, seq![]) == push_start(limits),
        joined(seq![]) == Seq::<u8>::empty(),
{
    reveal(now);
}

/// A source that arrives in pieces of any one length gives what the file in one buffer
/// gives.
pub proof fn pieces_agree(bytes: Seq<u8>, chunk: int, limits: Limits)
    requires
        readable(bytes, limits),
        chunk > 0,
    ensures
        push_run(push_start(limits), bytes, 0, chunk) == metadata_of(bytes, limits),
{
    lemma_start(limits);
    assert(bytes.take(0) =~= seq![]);
    assert(fine(bytes, limits)) by {
        reveal(fine);
    }
    lemma_pieces(limits, seq![], bytes, 0, chunk);
    reveal(answer);
}

/// The stream has not ended.
proof fn lemma_open(limits: Limits, chunks: Seq<Seq<u8>>)
    ensures
        push_all(limits, chunks).driver matches Some(s) ==> !s.eof,
    decreases chunks.len(),
{
    if chunks.len() > 0 {
        let u = push_all(limits, chunks.drop_last());
        lemma_open(limits, chunks.drop_last());
        lemma_fed_open(u, chunks.last());
    }
}

proof fn lemma_fed_open(u: PushView, c: Seq<u8>)
    requires
        u.driver matches Some(s) ==> !s.eof,
    ensures
        push_fed(u, c).0.driver matches Some(s) ==> !s.eof,
{
    if !u.failed {
        let (s, b) = match u.driver {
            Some(s) => (s, c),
            None => (
                stream_start(start_mode(probed(u.pre + c), u.limits).unwrap(), u.limits),
                u.pre + c,
            ),
        };
        let a = StreamView { buf: s.buf + b, ..s };
        if !a.done {
            lemma_rounds_open(a, pull_budget(a.buf.len() as int));
        }
    }
}

/// To jump over what a hint names is to feed it.
proof fn lemma_jump(limits: Limits, chunks: Seq<Seq<u8>>, k: u64, skipped: Seq<u8>)
    requires
        chunks.len() > 0,
        told(limits, chunks) == Ok::<Outcome, Error>(Outcome::SkipHint(k)),
        0 < skipped.len() <= k,
    ensures
        ({
            let p = push_passed(now(limits, chunks), skipped.len() as u64);
            &&& heard(p, seq![]) == heard(now(limits, chunks), skipped)
            &&& skipped.len() < k ==> ended(p) == ended(now(limits, chunks.push(skipped)))
        }),
{
    let u = push_all(limits, chunks.drop_last());
    lemma_open(limits, chunks.drop_last());
    lemma_next(limits, chunks, skipped);
    reveal(heard);
    reveal(ended);
    reveal(now);
    reveal(told);
    seeking_is_feeding(u, chunks.last(), k, skipped);
}

proof fn lemma_stay(v: PushView)
    ensures
        push_passed(v, 0) == v,
{
}

proof fn lemma_seeks(limits: Limits, chunks: Seq<Seq<u8>>, bytes: Seq<u8>, at: int)
    requires
        fine(bytes, limits),
        chunks.len() > 0,
        0 <= at <= bytes.len(),
        joined(chunks) == bytes.take(at),
    ensures
        seek_run(now(limits, chunks), bytes, at, told(limits, chunks)) == answer(bytes, limits),
    decreases bytes.len() - at,
{
    let v = now(limits, chunks);
    match told(limits, chunks) {
        Err(_) => {
            lemma_fail(limits, chunks, bytes);
        },
        Ok(Outcome::Done) => {
            lemma_stop(limits, chunks, bytes);
        },
        Ok(o) => {
            if at >= bytes.len() {
                assert(joined(chunks) =~= bytes);
                lemma_all(limits, chunks, bytes);
                lemma_stay(v);
            } else if o is SkipHint && 0 < o->SkipHint_0 <= i64::MAX {
                let k = o->SkipHint_0;
                if at + k > bytes.len() {
                    let rest = bytes.skip(at);
                    lemma_jump(limits, chunks, k, rest);
                    lemma_joined_push(chunks, rest);
                    assert(joined(chunks.push(rest)) =~= bytes);
                    lemma_all(limits, chunks.push(rest), bytes);
                } else {
                    let skipped = bytes.subrange(at, at + k);
                    lemma_jump(limits, chunks, k, skipped);
                    lemma_next(limits, chunks, skipped);
                    lemma_joined_push(chunks, skipped);
                    assert(joined(chunks.push(skipped)) =~= bytes.take(at + k));
                    lemma_seeks(limits, chunks.push(skipped), bytes, at + k);
                }
            } else {
                let end = piece_end(bytes.len() as int, at, READ_SIZE as int);
                let piece = bytes.subrange(at, end);
                lemma_next(limits, chunks, piece);
                lemma_joined_push(chunks, piece);
                assert(joined(chunks.push(piece)) =~= bytes.take(end));
                lemma_seeks(limits, chunks.push(piece), bytes, end);
            }
        },
    }
}

/// A source that follows hints by seeking gives what the file in one buffer gives.
pub proof fn seeking_agrees(bytes: Seq<u8>, limits: Limits)
    requires
        readable(bytes, limits),
    ensures
        seek_read(bytes, limits) == metadata_of(bytes, limits),
{
    let none: Seq<u8> = seq![];
    let first = seq![none];
    lemma_start(limits);
    lemma_next(limits, seq![], none);
    lemma_joined_push(seq![], none);
    assert(Seq::<Seq<u8>>::empty().push(none) =~= first);
    assert(joined(first) =~= bytes.take(0));
    assert(fine(bytes, limits)) by {
        reveal(fine);
    }
    lemma_seeks(limits, first, bytes, 0);
    reveal(answer);
}

/// Streams that all come to `m` agree.
proof fn lemma_pushes(bytes: Seq<u8>, limits: Limits, m: MetadataView, chunks: Seq<nat>)
    requires
        forall|i: int|
            0 <= i < chunks.len() ==> push_run(
                push_start(limits),
                bytes,
                0,
                (#[trigger] chunks[i]) as int,
            ) == Some(m),
    ensures
        pushes(bytes, limits, m, chunks) == Verdict::Agree(m),
    decreases chunks.len(),
{
    if chunks.len() > 0 {
        let next = chunks.drop_first();
        assert forall|i: int| 0 <= i < next.len() implies push_run(
            push_start(limits),
            bytes,
            0,
            (#[trigger] next[i]) as int,
        ) == Some(m) by {
            assert(next[i] == chunks[i + 1]);
        }
        assert(push_run(push_start(limits), bytes, 0, chunks[0] as int) == Some(m));
        lemma_pushes(bytes, limits, m, next);
    }
}

/// What readers that agree come to, where `m` is what the buffer's reader gives.
proof fn lemma_agreed(bytes: Seq<u8>, limits: Limits, m: Option<MetadataView>)
    requires
        m == metadata_of(bytes, limits),
        seek_read(bytes, limits) == m,
        forall|chunk: int|
            chunk > 0 ==> #[trigger] push_run(push_start(limits), bytes, 0, chunk) == m,
    ensures
        verdict(bytes, limits) == (match m {
            Some(v) => Verdict::Agree(v),
            None => Verdict::AllErr,
        }),
{
    match m {
        Some(v) => lemma_pushes(bytes, limits, v, seq![1, 3, 7, whole(bytes.len())]),
        None => {},
    }
}

/// The readers never disagree on a file that can be read straight through: either all give
/// the same metadata, or none knows the format.
pub proof fn readers_agree(bytes: Seq<u8>, limits: Limits)
    requires
        readable(bytes, limits),
    ensures
        verdict(bytes, limits) == (match metadata_of(bytes, limits) {
            Some(m) => Verdict::Agree(m),
            None => Verdict::AllErr,
        }),
{
    seeking_agrees(bytes, limits);
    assert forall|chunk: int| chunk > 0 implies #[trigger] push_run(
        push_start(limits),
        bytes,
        0,
        chunk,
    ) == metadata_of(bytes, limits) by {
        pieces_agree(bytes, chunk, limits);
    }
    lemma_agreed(bytes, limits, metadata_of(bytes, limits));
}

/// A file no longer than the driver may hold back fits, however it arrives.
pub proof fn short_files_fit(bytes: Seq<u8>, limits: Limits)
    requires
        bytes.len() <= limits.max_retained_bytes,
    ensures
        always_fits(bytes, limits),
{
    assert forall|chunks: Seq<Seq<u8>>| #[trigger] joined(chunks) == bytes implies stream_fits(
        limits,
        chunks,
    ) by {
        lemma_small_all(chunks, limits);
    }
}

/// What feeding `chunks` comes to, until the stream wants no more or refuses the format.
pub open spec fn feeding(v: PushView, chunks: Seq<Seq<u8>>) -> Option<MetadataView>
    decreases chunks.len(),
{
    if chunks.len() == 0 {
        push_finished(v)
    } else {
        let (w, o) = push_fed(v, chunks[0]);
        match o {
            Ok(Outcome::Done) => push_finished(w),
            Ok(_) => feeding(w, chunks.drop_first()),
            Err(_) => None,
        }
    }
}

/// What a session over a source comes to that reads `pieces` and then nothing. To read
/// nothing is the end of the source.
pub open spec fn reading(v: PushView, pieces: Seq<Seq<u8>>) -> Option<MetadataView>
    decreases pieces.len(),
{
    if pieces.len() == 0 || pieces[0].len() == 0 {
        push_finished(v)
    } else {
        let (w, o) = push_fed(v, pieces[0]);
        match o {
            Ok(a) => match read_on(a) {
                Action::Finish => push_finished(w),
                _ => reading(w, pieces.drop_first()),
            },
            Err(_) => None,
        }
    }
}

#[verifier::opaque]
spec fn feeding_of(v: PushView, chunks: Seq<Seq<u8>>) -> Option<MetadataView> {
    feeding(v, chunks)
}

/// One step of feeding.
proof fn lemma_feeding(v: PushView, chunks: Seq<Seq<u8>>)
    ensures
        feeding_of(v, chunks) == (if chunks.len() == 0 {
            ended(v)
        } else {
            let (w, o) = heard(v, chunks[0]);
            match o {
                Ok(Outcome::Done) => ended(w),
                Ok(_) => feeding_of(w, chunks.drop_first()),
                Err(_) => None,
            }
        }),
{
    reveal(ended);
    reveal(heard);
    reveal(feeding_of);
}

proof fn lemma_joined_first(chunks: Seq<Seq<u8>>)
    requires
        chunks.len() > 0,
    ensures
        joined(chunks) == chunks[0] + joined(chunks.drop_first()),
    decreases chunks.len(),
{
    let rest = chunks.drop_first();
    if rest.len() == 0 {
        assert(chunks.drop_last() =~= seq![]);
        assert(joined(chunks.drop_last()) =~= seq![]);
        assert(joined(rest) =~= seq![]);
        assert(joined(chunks) =~= chunks[0] + joined(rest));
    } else {
        lemma_joined_first(chunks.drop_last());
        assert(chunks.drop_last().drop_first() =~= rest.drop_last());
        assert(chunks.last() == rest.last());
        assert(joined(chunks) =~= chunks[0] + (joined(rest.drop_last()) + rest.last()));
    }
}

proof fn lemma_chunks(limits: Limits, before: Seq<Seq<u8>>, chunks: Seq<Seq<u8>>, bytes: Seq<u8>)
    requires
        fine(bytes, limits),
        joined(before) + joined(chunks) == bytes,
    ensures
        feeding_of(now(limits, before), chunks) == answer(bytes, limits),
    decreases chunks.len(),
{
    lemma_feeding(now(limits, before), chunks);
    if chunks.len() == 0 {
        assert(joined(before) =~= bytes);
        lemma_all(limits, before, bytes);
    } else {
        let piece = chunks[0];
        let rest = chunks.drop_first();
        let next = before.push(piece);
        lemma_joined_first(chunks);
        lemma_next(limits, before, piece);
        lemma_joined_push(before, piece);
        assert(joined(next) + joined(rest) =~= bytes);
        assert(joined(next) =~= bytes.take(joined(next).len() as int));
        match told(limits, next) {
            Ok(Outcome::Done) => {
                lemma_stop(limits, next, bytes);
            },
            Ok(_) => {
                lemma_chunks(limits, next, rest, bytes);
            },
            Err(_) => {
                lemma_fail(limits, next, bytes);
            },
        }
    }
}

/// Bytes that are fed in any pieces, until the stream wants no more, give what the file in
/// one buffer gives.
pub proof fn feeding_agrees(chunks: Seq<Seq<u8>>, limits: Limits)
    requires
        readable(joined(chunks), limits),
    ensures
        feeding(push_start(limits), chunks) == metadata_of(joined(chunks), limits),
{
    lemma_start(limits);
    let bytes = joined(chunks);
    assert(fine(bytes, limits)) by {
        reveal(fine);
    }
    assert(Seq::<u8>::empty() + bytes =~= bytes);
    lemma_chunks(limits, seq![], chunks, bytes);
    reveal(answer);
    reveal(feeding_of);
}

proof fn lemma_reading(v: PushView, pieces: Seq<Seq<u8>>)
    requires
        forall|i: int| 0 <= i < pieces.len() ==> (#[trigger] pieces[i]).len() > 0,
    ensures
        reading(v, pieces) == feeding(v, pieces),
    decreases pieces.len(),
{
    if pieces.len() > 0 {
        let rest = pieces.drop_first();
        assert(pieces[0].len() > 0);
        assert forall|i: int| 0 <= i < rest.len() implies (#[trigger] rest[i]).len() > 0 by {
            assert(rest[i] == pieces[i + 1]);
        }
        lemma_reading(push_fed(v, pieces[0]).0, rest);
    }
}

/// A source that only reads on, in pieces of any sizes, gives what the file in one buffer
/// gives.
pub proof fn reading_agrees(pieces: Seq<Seq<u8>>, limits: Limits)
    requires
        forall|i: int| 0 <= i < pieces.len() ==> (#[trigger] pieces[i]).len() > 0,
        readable(joined(pieces), limits),
    ensures
        reading(push_start(limits), pieces) == metadata_of(joined(pieces), limits),
{
    lemma_reading(push_start(limits), pieces);
    feeding_agrees(pieces, limits);
}

} // verus!
