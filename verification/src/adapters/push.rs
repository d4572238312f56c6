//! Reading a stream whose pieces the caller hands over.
use vstd::prelude::*;

use crate::adapters::slice::{reads_as, Options};
use crate::bytes::put;
use crate::driver::{
    fed, finalize, finalized, finished, passed, stream_start, Outcome, StreamDriver, StreamView,
};
use crate::error::Error;
use crate::limits::Limits;
use crate::model::{FileFormat, Metadata, MetadataView};
use crate::probe::{parser_for, probe, probed, start_mode, AnyMode, AnyParser, PROBE_MAX};

verus! {

/// Reads a stream: feed it piece by piece, as the outcomes ask, then finish. The first
/// bytes are held back until they tell the format.
#[derive(Debug)]
pub struct PushParser {
    opts: Options,
    pre: Vec<u8>,
    driver: Option<StreamDriver<AnyParser>>,
    format: FileFormat,
    failed: bool,
}

pub struct PushView {
    pub limits: Limits,
    /// The bytes held back before the format is known.
    pub pre: Seq<u8>,
    pub driver: Option<StreamView<AnyMode>>,
    pub format: FileFormat,
    pub failed: bool,
}

/// A stream of which nothing has arrived.
pub open spec fn push_start(limits: Limits) -> PushView {
    PushView { limits, pre: seq![], driver: None, format: FileFormat::Unknown, failed: false }
}

pub open spec fn refused(v: PushView) -> (PushView, Result<Outcome, Error>) {
    (PushView { failed: true, ..v }, Err(Error::UnrecognizedFormat))
}

/// The format is known: the bytes held back go to the parser.
pub open spec fn started(v: PushView, fmt: FileFormat) -> (PushView, Result<Outcome, Error>) {
    match start_mode(fmt, v.limits) {
        Some(m) => {
            let (s, o) = fed::<AnyParser>(stream_start(m, v.limits), v.pre);
            (PushView { pre: seq![], driver: Some(s), format: fmt, ..v }, Ok(o))
        },
        None => refused(v),
    }
}

/// The stream after a piece has arrived.
pub open spec fn push_fed(v: PushView, chunk: Seq<u8>) -> (PushView, Result<Outcome, Error>) {
    if v.failed {
        (v, Err(Error::UnrecognizedFormat))
    } else {
        match v.driver {
            Some(s) => {
                let (t, o) = fed::<AnyParser>(s, chunk);
                (PushView { driver: Some(t), ..v }, Ok(o))
            },
            None => {
                let w = PushView { pre: v.pre + chunk, ..v };
                if probed(w.pre) != FileFormat::Unknown {
                    started(w, probed(w.pre))
                } else if w.pre.len() >= PROBE_MAX {
                    refused(w)
                } else {
                    (w, Ok(Outcome::Need((PROBE_MAX - w.pre.len()) as usize)))
                }
            },
        }
    }
}

/// The stream after the caller has passed over `n` bytes.
pub open spec fn push_passed(v: PushView, n: u64) -> PushView {
    PushView {
        driver: match v.driver {
            Some(s) => Some(passed(s, n)),
            None => None,
        },
        ..v
    }
}

/// The metadata once the stream has ended, where its format is known.
pub open spec fn push_finished(v: PushView) -> Option<MetadataView> {
    if v.failed {
        None
    } else {
        let w = match v.driver {
            Some(_) => v,
            None => started(v, probed(v.pre)).0,
        };
        match w.driver {
            Some(s) => Some(finalized(finished::<AnyParser>(s), w.format)),
            None => None,
        }
    }
}

impl View for PushParser {
    type V = PushView;

    closed spec fn view(&self) -> PushView {
        PushView {
            limits: self.opts.limits,
            pre: self.pre@,
            driver: match self.driver {
                Some(d) => Some(d@),
                None => None,
            },
            format: self.format,
            failed: self.failed,
        }
    }
}

impl PushParser {
    pub closed spec fn wf(&self) -> bool {
        self.driver matches Some(d) ==> d.wf()
    }

    pub fn new(opts: Options) -> (r: Self)
        ensures
            r.wf(),
            r@ == push_start(opts.limits),
    {
        PushParser {
            opts,
            pre: Vec::new(),
            driver: None,
            format: FileFormat::Unknown,
            failed: false,
        }
    }

    /// Takes in a piece of the stream, which may be empty, and tells what is wanted next.
    pub fn feed(&mut self, chunk: &[u8]) -> (r: Result<Outcome, Error>)
        requires
            old(self).wf(),
        ensures
            final(self).wf(),
            (final(self)@, r) == push_fed(old(self)@, chunk@),
    {
        if self.failed {
            return Err(Error::UnrecognizedFormat);
        }
        match &mut self.driver {
            Some(d) => {
                let o = d.feed(chunk);
                return Ok(o);
            },
            None => {},
        }
        put(&mut self.pre, chunk);
        let fmt = probe(self.pre.as_slice());
        if fmt == FileFormat::Unknown {
            if self.pre.len() >= PROBE_MAX {
                self.failed = true;
                return Err(Error::UnrecognizedFormat);
            }
            return Ok(Outcome::Need(PROBE_MAX - self.pre.len()));
        }
        self.start_driver(fmt)
    }

    /// The caller has passed over `n` bytes.
    pub fn skip(&mut self, n: u64)
        requires
            old(self).wf(),
        ensures
            final(self).wf(),
            final(self)@ == push_passed(old(self)@, n),
    {
        match &mut self.driver {
            Some(d) => {
                d.skip_external(n);
            },
            None => {},
        }
    }

    /// The stream has ended.
    pub fn finish(self) -> (r: Result<Metadata, Error>)
        requires
            self.wf(),
        ensures
            reads_as(r, push_finished(self@)),
    {
        let mut p = self;
        if p.failed {
            return Err(Error::UnrecognizedFormat);
        }
        if p.driver.is_none() {
            let fmt = probe(p.pre.as_slice());
            let _ = p.start_driver(fmt);
        }
        match p.driver {
            Some(d) => Ok(finalize(d.finish(), p.format)),
            None => Err(Error::UnrecognizedFormat),
        }
    }

    fn start_driver(&mut self, fmt: FileFormat) -> (r: Result<Outcome, Error>)
        requires
            old(self).wf(),
            old(self)@.driver is None,
        ensures
            final(self).wf(),
            (final(self)@, r) == started(old(self)@, fmt),
    {
        match parser_for(fmt, self.opts.limits) {
            Some(parser) => {
                self.format = fmt;
                let mut d = StreamDriver::new(parser, self.opts.limits);
                let outcome = d.feed(self.pre.as_slice());
                self.pre = Vec::new();
                self.driver = Some(d);
                Ok(outcome)
            },
            None => {
                self.failed = true;
                Err(Error::UnrecognizedFormat)
            },
        }
    }
}

} // verus!
