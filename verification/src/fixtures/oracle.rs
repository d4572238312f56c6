//! Whether all ways to read a source agree.
use vstd::prelude::*;

use crate::adapters::push::{push_fed, push_finished, push_passed, push_start, PushView};
use crate::adapters::session::{seek_on, Action, BlockingSession, SeekSession};
use crate::adapters::slice::{metadata_of, read_slice, reads_as, Options};
use crate::bytes::part;
use crate::compare::same_metadata;
use crate::driver::Outcome;
use crate::error::Error;
use crate::fixtures::corpus::{piece_end, push_drive, push_run};
use crate::limits::{default_limits, Limits};
use crate::model::{Metadata, MetadataView};
use crate::text::{digits_of, push_number, push_text};

verus! {

/// How much a reader asks for at a time.
pub const READ_SIZE: usize = 8192;

/// What the ways to read a source came to.
#[derive(Debug)]
pub enum Agreement {
    /// All gave the same metadata.
    Agree(Metadata),
    /// None knew the format.
    AllErr,
    /// They differ; which one does not go with reading the buffer, and what it came to.
    Disagree(String),
}

pub enum Verdict {
    Agree(MetadataView),
    AllErr,
    Disagree(Seq<char>),
}

impl View for Agreement {
    type V = Verdict;

    open spec fn view(&self) -> Verdict {
        match *self {
            Agreement::Agree(m) => Verdict::Agree(m@),
            Agreement::AllErr => Verdict::AllErr,
            Agreement::Disagree(s) => Verdict::Disagree(s@),
        }
    }
}

/// Reads `bytes` as a source that only reads on.
pub fn read_through(bytes: &[u8], opts: Options) -> (r: Result<Metadata, Error>)
    ensures
        reads_as(r, push_run(push_start(opts.limits), bytes@, 0, READ_SIZE as int)),
{
    let mut session = BlockingSession::new(opts);
    let mut at: usize = 0;
    let ghost goal = push_run(session@, bytes@, 0, READ_SIZE as int);
    while at < bytes.len()
        invariant
            at <= bytes@.len(),
            session.wf(),
            goal == push_run(push_start(opts.limits), bytes@, 0, READ_SIZE as int),
            push_run(session@, bytes@, at as int, READ_SIZE as int) == goal,
        decreases bytes@.len() - at,
    {
        proof {
            reveal(push_run);
        }
        let end: usize = if bytes.len() - at > READ_SIZE {
            at + READ_SIZE
        } else {
            bytes.len()
        };
        match session.read(part(bytes, at, end)) {
            Ok(Action::Finish) => {
                return session.finish();
            },
            Ok(_) => {},
            Err(e) => {
                return Err(e);
            },
        }
        at = end;
    }
    proof {
        reveal(push_run);
    }
    session.finish()
}

/// The stream after a piece has arrived, and what it says.
#[verifier::opaque]
pub open spec fn heard(v: PushView, chunk: Seq<u8>) -> (PushView, Result<Outcome, Error>) {
    push_fed(v, chunk)
}

/// The metadata once the stream has ended.
#[verifier::opaque]
pub open spec fn ended(v: PushView) -> Option<MetadataView> {
    push_finished(v)
}

/// What a source that can seek comes to: it stands at `at`, and `o` is what the stream
/// said last. Hints are followed by seeking, as far as the source reaches.
pub open spec fn seek_run(
    v: PushView,
    bytes: Seq<u8>,
    at: int,
    o: Result<Outcome, Error>,
) -> Option<MetadataView>
    decreases bytes.len() - at,
{
    match o {
        Err(_) => None,
        Ok(Outcome::Done) => ended(v),
        Ok(Outcome::SkipHint(k)) if 0 < k <= i64::MAX => if at + k > bytes.len() {
            ended(push_passed(v, (bytes.len() - at) as u64))
        } else {
            let (w, p) = heard(push_passed(v, k), seq![]);
            seek_run(w, bytes, at + k, p)
        },
        Ok(_) => if at >= bytes.len() {
            ended(v)
        } else {
            let end = piece_end(bytes.len() as int, at, READ_SIZE as int);
            let (w, p) = heard(v, bytes.subrange(at, end));
            seek_run(w, bytes, end, p)
        },
    }
}

/// What reading `bytes` with seeks comes to.
pub open spec fn seek_read(bytes: Seq<u8>, limits: Limits) -> Option<MetadataView> {
    let (v, o) = heard(push_start(limits), seq![]);
    seek_run(v, bytes, 0, o)
}

/// The answer `r` goes with what the stream said.
spec fn answers(r: Result<Action, Error>, o: Result<Outcome, Error>) -> bool {
    match r {
        Ok(a) => o matches Ok(x) && a == seek_on(x),
        Err(e) => o is Err && e == Error::UnrecognizedFormat,
    }
}

fn first_action(session: &mut SeekSession) -> (r: Result<Action, Error>)
    requires
        old(session).wf(),
    ensures
        final(session).wf(),
        final(session)@ == heard(old(session)@, seq![]).0,
        answers(r, heard(old(session)@, seq![]).1),
{
    reveal(heard);
    session.start()
}

fn next_action(session: &mut SeekSession, chunk: &[u8]) -> (r: Result<Action, Error>)
    requires
        old(session).wf(),
        chunk@.len() > 0,
    ensures
        final(session).wf(),
        final(session)@ == heard(old(session)@, chunk@).0,
        answers(r, heard(old(session)@, chunk@).1),
{
    reveal(heard);
    session.read(chunk)
}

/// Jumps `k` bytes ahead where `left` bytes are left.
fn jump_action(session: &mut SeekSession, k: u64, left: u64) -> (r: Result<Action, Error>)
    requires
        old(session).wf(),
    ensures
        final(session).wf(),
        k <= left ==> {
            &&& final(session)@ == heard(push_passed(old(session)@, k), seq![]).0
            &&& answers(r, heard(push_passed(old(session)@, k), seq![]).1)
        },
        k > left ==> {
            &&& final(session)@ == push_passed(old(session)@, left)
            &&& r is Ok
        },
{
    reveal(heard);
    session.jumped(k, k, left)
}

fn finish_session(session: SeekSession) -> (r: Result<Metadata, Error>)
    requires
        session.wf(),
    ensures
        reads_as(r, ended(session@)),
{
    reveal(ended);
    session.finish()
}

/// Reads `bytes` as a source that can seek.
pub fn read_seeking(bytes: &[u8], opts: Options) -> (r: Result<Metadata, Error>)
    ensures
        reads_as(r, seek_read(bytes@, opts.limits)),
{
    let mut session = SeekSession::new(opts);
    let ghost mut o = heard(session@, seq![]).1;
    let ghost goal = seek_read(bytes@, opts.limits);
    let mut action = match first_action(&mut session) {
        Ok(a) => a,
        Err(e) => {
            return Err(e);
        },
    };
    let mut at: usize = 0;
    loop
        invariant
            at <= bytes@.len(),
            session.wf(),
            goal == seek_read(bytes@, opts.limits),
            seek_run(session@, bytes@, at as int, o) == goal,
            o matches Ok(x) && action == seek_on(x),
        decreases bytes@.len() - at,
    {
        let jump: u64 = match action {
            Action::Finish => {
                return finish_session(session);
            },
            Action::Jump(k) => k,
            Action::Read => 0,
        };
        let ghost before = session@;
        if jump > 0 {
            let left: u64 = (bytes.len() - at) as u64;
            proof {
                o = heard(push_passed(before, jump), seq![]).1;
            }
            match jump_action(&mut session, jump, left) {
                Ok(a) => {
                    if jump > left {
                        return finish_session(session);
                    }
                    action = a;
                },
                Err(e) => {
                    assert(seek_run(session@, bytes@, at + jump, o) == goal);
                    return Err(e);
                },
            }
            at = at + jump as usize;
        } else {
            if at == bytes.len() {
                return finish_session(session);
            }
            let end: usize = if bytes.len() - at > READ_SIZE {
                at + READ_SIZE
            } else {
                bytes.len()
            };
            proof {
                o = heard(before, bytes@.subrange(at as int, end as int)).1;
            }
            match next_action(&mut session, part(bytes, at, end)) {
                Ok(a) => {
                    action = a;
                },
                Err(e) => {
                    assert(seek_run(session@, bytes@, end as int, o) == goal);
                    return Err(e);
                },
            }
            at = end;
        }
    }
}

/// The length of a piece that holds all of a source.
pub open spec fn whole(len: nat) -> nat {
    if len == 0 {
        1
    } else {
        len
    }
}

/// What `{:?}` writes of what a reader came to.
pub uninterp spec fn debug_text(r: Result<MetadataView, Error>) -> Seq<char>;

/// What a reader came to.
pub open spec fn outcome(m: Option<MetadataView>) -> Result<MetadataView, Error> {
    match m {
        Some(v) => Ok(v),
        None => Err(Error::UnrecognizedFormat),
    }
}

/// `format!` with `{:?}` writes the same text of the same metadata or error: the text
/// depends on nothing else.
#[verifier::external_body]
fn debug(r: &Result<Metadata, Error>) -> (s: String)
    ensures
        s@ == debug_text(
            match *r {
                Ok(m) => Ok(m@),
                Err(e) => Err(e),
            },
        ),
{
    format!("{:?}", r)
}

/// How a reader that differs is told of: `who` it is, and `what` it came to.
pub fn told(who: &str, what: &str) -> (r: String)
    ensures
        r@ == who@ + ": "@ + what@,
{
    let mut s = String::new();
    push_text(&mut s, who);
    push_text(&mut s, ": ");
    push_text(&mut s, what);
    assert(s@ =~= who@ + ": "@ + what@);
    s
}

/// The name of the reader that is fed pieces of `chunk` bytes.
pub open spec fn push_name(chunk: nat) -> Seq<char> {
    "push chunk="@ + digits_of(chunk)
}

/// How a stream that differs is told of.
pub fn told_push(chunk: usize, what: &str) -> (r: String)
    ensures
        r@ == push_name(chunk as nat) + ": "@ + what@,
{
    let mut who = String::new();
    push_text(&mut who, "push chunk=");
    push_number(&mut who, chunk);
    assert(who@ =~= push_name(chunk as nat));
    told(who.as_str(), what)
}

/// How readers are told of that know a format which the buffer's reader does not.
pub open spec fn both_told(blocking: Seq<char>, seek: Seq<char>) -> Seq<char> {
    "slice Err 但他者非全 Err: blocking="@ + blocking + " seek="@ + seek
}

pub fn told_both(blocking: &str, seek: &str) -> (r: String)
    ensures
        r@ == both_told(blocking@, seek@),
{
    let mut s = String::new();
    push_text(&mut s, "slice Err 但他者非全 Err: blocking=");
    push_text(&mut s, blocking);
    push_text(&mut s, " seek=");
    push_text(&mut s, seek);
    assert(s@ =~= both_told(blocking@, seek@));
    s
}

/// A reader that differs, and what it came to.
pub open spec fn differs(who: Seq<char>, what: Option<MetadataView>) -> Verdict {
    Verdict::Disagree(who + ": "@ + debug_text(outcome(what)))
}

/// The first of the pieces' lengths in `chunks` with which a stream does not come to `m`.
pub open spec fn pushes(
    bytes: Seq<u8>,
    l: Limits,
    m: MetadataView,
    chunks: Seq<nat>,
) -> Verdict
    decreases chunks.len(),
{
    if chunks.len() == 0 {
        Verdict::Agree(m)
    } else {
        let got = push_run(push_start(l), bytes, 0, chunks[0] as int);
        if got != Some(m) {
            differs(push_name(chunks[0]), got)
        } else {
            pushes(bytes, l, m, chunks.drop_first())
        }
    }
}

/// What the ways to read `bytes` come to together.
pub open spec fn verdict(bytes: Seq<u8>, l: Limits) -> Verdict {
    let v = push_start(l);
    let through = push_run(v, bytes, 0, READ_SIZE as int);
    let seeking = seek_read(bytes, l);
    match metadata_of(bytes, l) {
        Some(m) => if through != Some(m) {
            differs("blocking vs slice"@, through)
        } else if seeking != Some(m) {
            differs("seek vs slice"@, seeking)
        } else {
            pushes(bytes, l, m, seq![1, 3, 7, whole(bytes.len())])
        },
        None => if through is None && seeking is None && push_run(v, bytes, 0, 1) is None {
            Verdict::AllErr
        } else {
            Verdict::Disagree(
                both_told(debug_text(outcome(through)), debug_text(outcome(seeking))),
            )
        },
    }
}

fn gives(r: &Result<Metadata, Error>, m: &Metadata) -> (b: bool)
    ensures
        b == (r matches Ok(x) && x@ == m@),
{
    match r {
        Ok(x) => same_metadata(x, m),
        Err(_) => false,
    }
}

/// Reads `bytes` in pieces of `chunk` bytes; what is told of it where it does not come to
/// `m`.
fn push_differs(bytes: &[u8], chunk: usize, m: &Metadata) -> (r: Option<String>)
    requires
        chunk > 0,
    ensures
        ({
            let got = push_run(push_start(default_limits()), bytes@, 0, chunk as int);
            match r {
                Some(s) => got != Some(m@) && Verdict::Disagree(s@) == differs(
                    push_name(chunk as nat),
                    got,
                ),
                None => got == Some(m@),
            }
        }),
{
    let r = push_drive(bytes, Options::default(), chunk);
    if gives(&r, m) {
        None
    } else {
        Some(told_push(chunk, debug(&r).as_str()))
    }
}

/// Reads `bytes` in every way, and holds the results against each other.
pub fn adapters_outcome(bytes: &[u8]) -> (r: Agreement)
    ensures
        r@ == verdict(bytes@, default_limits()),
{
    let through = read_through(bytes, Options::default());
    let seeking = read_seeking(bytes, Options::default());
    match read_slice(bytes, Options::default()) {
        Ok(m) => {
            if !gives(&through, &m) {
                return Agreement::Disagree(told("blocking vs slice", debug(&through).as_str()));
            }
            if !gives(&seeking, &m) {
                return Agreement::Disagree(told("seek vs slice", debug(&seeking).as_str()));
            }
            let all: usize = if bytes.len() == 0 {
                1
            } else {
                bytes.len()
            };
            let chunks: [usize; 4] = [1, 3, 7, all];
            let ghost sizes: Seq<nat> = seq![1, 3, 7, whole(bytes@.len())];
            let mut i: usize = 0;
            assert(sizes.skip(0) =~= sizes);
            while i < 4
                invariant
                    i <= 4,
                    sizes.len() == 4,
                    chunks@.len() == 4,
                    forall|j: int| 0 <= j < 4 ==> chunks@[j] == sizes[j] && chunks@[j] > 0,
                    pushes(bytes@, default_limits(), m@, sizes.skip(i as int)) == verdict(
                        bytes@,
                        default_limits(),
                    ),
                decreases 4 - i,
            {
                assert(sizes.skip(i as int).drop_first() =~= sizes.skip(i + 1));
                match push_differs(bytes, chunks[i], &m) {
                    Some(s) => {
                        return Agreement::Disagree(s);
                    },
                    None => {},
                }
                i += 1;
            }
            Agreement::Agree(m)
        },
        Err(_) => {
            let pushed = push_drive(bytes, Options::default(), 1);
            if through.is_err() && seeking.is_err() && pushed.is_err() {
                Agreement::AllErr
            } else {
                Agreement::Disagree(told_both(debug(&through).as_str(), debug(&seeking).as_str()))
            }
        },
    }
}

} // verus!
