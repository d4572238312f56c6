//! What a reader of a blocking source does next. The source itself is the caller's: it
//! reads or seeks as told and hands back what came of it.
use vstd::prelude::*;

use crate::adapters::push::{
    push_fed, push_finished, push_passed, push_start, PushParser, PushView,
};
use crate::adapters::slice::{reads_as, Options};
use crate::driver::Outcome;
use crate::error::Error;
use crate::model::Metadata;

verus! {

/// What to do next.
#[derive(Debug, Clone, Copy, PartialEq, Eq, Structural)]
pub enum Action {
    /// Read some bytes.
    Read,
    /// Try to go so many bytes ahead.
    Jump(u64),
    /// Nothing more: finish.
    Finish,
}

/// The reading of a source that only reads on.
#[derive(Debug)]
pub struct BlockingSession {
    parser: PushParser,
}

/// What a source that only reads on does after an outcome: skips are read over.
pub open spec fn read_on(o: Outcome) -> Action {
    match o {
        Outcome::Done => Action::Finish,
        _ => Action::Read,
    }
}

/// What a source that can seek does after an outcome. Distances that no seek takes are
/// read over.
pub open spec fn seek_on(o: Outcome) -> Action {
    match o {
        Outcome::Done => Action::Finish,
        Outcome::SkipHint(k) if k <= i64::MAX => Action::Jump(k),
        _ => Action::Read,
    }
}

impl BlockingSession {
    pub closed spec fn view(&self) -> PushView {
        self.parser@
    }

    pub closed spec fn wf(&self) -> bool {
        self.parser.wf()
    }

    pub fn new(opts: Options) -> (r: Self)
        ensures
            r.wf(),
            r@ == push_start(opts.limits),
    {
        BlockingSession { parser: PushParser::new(opts) }
    }

    /// The source has read `chunk`; an empty one is its end.
    pub fn read(&mut self, chunk: &[u8]) -> (r: Result<Action, Error>)
        requires
            old(self).wf(),
        ensures
            final(self).wf(),
            if chunk@.len() == 0 {
                final(self)@ == old(self)@ && r == Ok::<Action, Error>(Action::Finish)
            } else {
                &&& final(self)@ == push_fed(old(self)@, chunk@).0
                &&& r == (match push_fed(old(self)@, chunk@).1 {
                    Ok(o) => Ok(read_on(o)),
                    Err(e) => Err(e),
                })
            },
    {
        if chunk.len() == 0 {
            return Ok(Action::Finish);
        }
        match self.parser.feed(chunk) {
            Ok(Outcome::Done) => Ok(Action::Finish),
            Ok(_) => Ok(Action::Read),
            Err(e) => Err(e),
        }
    }

    pub fn finish(self) -> (r: Result<Metadata, Error>)
        requires
            self.wf(),
        ensures
            reads_as(r, push_finished(self@)),
    {
        self.parser.finish()
    }
}

/// The reading of a source that can seek.
#[derive(Debug)]
pub struct SeekSession {
    parser: PushParser,
}

impl SeekSession {
    pub closed spec fn view(&self) -> PushView {
        self.parser@
    }

    pub closed spec fn wf(&self) -> bool {
        self.parser.wf()
    }

    pub fn new(opts: Options) -> (r: Self)
        ensures
            r.wf(),
            r@ == push_start(opts.limits),
    {
        SeekSession { parser: PushParser::new(opts) }
    }

    fn go_on(&mut self, chunk: &[u8]) -> (r: Result<Action, Error>)
        requires
            old(self).wf(),
        ensures
            final(self).wf(),
            final(self)@ == push_fed(old(self)@, chunk@).0,
            r == (match push_fed(old(self)@, chunk@).1 {
                Ok(o) => Ok(seek_on(o)),
                Err(e) => Err(e),
            }),
    {
        match self.parser.feed(chunk) {
            Ok(Outcome::Done) => Ok(Action::Finish),
            Ok(Outcome::SkipHint(k)) => if k <= i64::MAX as u64 {
                Ok(Action::Jump(k))
            } else {
                Ok(Action::Read)
            },
            Ok(Outcome::Need(_)) => Ok(Action::Read),
            Err(e) => Err(e),
        }
    }

    /// Asks for the first action.
    pub fn start(&mut self) -> (r: Result<Action, Error>)
        requires
            old(self).wf(),
        ensures
            final(self).wf(),
            final(self)@ == push_fed(old(self)@, seq![]).0,
            r == (match push_fed(old(self)@, seq![]).1 {
                Ok(o) => Ok(seek_on(o)),
                Err(e) => Err(e),
            }),
    {
        let none: Vec<u8> = Vec::new();
        assert(none@ =~= seq![]);
        self.go_on(none.as_slice())
    }

    /// The source has read `chunk`; an empty one is its end.
    pub fn read(&mut self, chunk: &[u8]) -> (r: Result<Action, Error>)
        requires
            old(self).wf(),
        ensures
            final(self).wf(),
            if chunk@.len() == 0 {
                final(self)@ == old(self)@ && r == Ok::<Action, Error>(Action::Finish)
            } else {
                &&& final(self)@ == push_fed(old(self)@, chunk@).0
                &&& r == (match push_fed(old(self)@, chunk@).1 {
                    Ok(o) => Ok(seek_on(o)),
                    Err(e) => Err(e),
                })
            },
    {
        if chunk.len() == 0 {
            return Ok(Action::Finish);
        }
        self.go_on(chunk)
    }

    /// A jump of `k` bytes would lead to `target` in a source that ends at `end`. Where it
    /// stays inside, the source is to stand at `target`; where it does not, only what is
    /// there was passed over, and the rest will not come.
    pub fn jumped(&mut self, k: u64, target: u64, end: u64) -> (r: Result<Action, Error>)
        requires
            old(self).wf(),
        ensures
            final(self).wf(),
            if target <= end {
                &&& final(self)@ == push_fed(push_passed(old(self)@, k), seq![]).0
                &&& r == (match push_fed(push_passed(old(self)@, k), seq![]).1 {
                    Ok(o) => Ok(seek_on(o)),
                    Err(e) => Err(e),
                })
            } else {
                &&& final(self)@ == push_passed(
                    old(self)@,
                    if k < target - end {
                        0
                    } else {
                        (k - (target - end)) as u64
                    },
                )
                &&& r == Ok::<Action, Error>(Action::Finish)
            },
    {
        if target <= end {
            self.parser.skip(k);
            return self.start();
        }
        self.parser.skip(k.saturating_sub(target - end));
        Ok(Action::Finish)
    }

    pub fn finish(self) -> (r: Result<Metadata, Error>)
        requires
            self.wf(),
        ensures
            reads_as(r, push_finished(self@)),
    {
        self.parser.finish()
    }
}

} // verus!
