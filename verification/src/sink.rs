//! Text sinks the renderer writes to.
//!
//! A sink is an append-only text target that cannot partial-write: a write
//! either appends the whole string or fails leaving the content as it was.
//! Output already written before a failure is not rolled back.

use vstd::prelude::*;

use crate::error::Error;

verus! {

/// An append-only text target.  A failing write appends nothing and
/// surfaces as `Error::IoError`.
pub trait Sink {
    /// The text appended so far.  Sinks outside the library (a terminal
    /// writer, a failing test sink) may keep the default, which tracks
    /// nothing.
    open spec fn content(&self) -> Seq<char> {
        Seq::empty()
    }

    /// Appends `s`, atomically.
    fn write_str(&mut self, s: &str) -> (r: Result<(), Error>)
        ensures
            r matches Ok(()) ==> final(self).content() == old(self).content() + s@,
            r matches Err(e) ==> final(self).content() == old(self).content() && (e matches
                Error::IoError(_)),
    ;
}

/// An in-memory sink whose writes always succeed.
pub struct StringSink {
    /// Everything written so far.
    pub buf: String,
}

impl StringSink {
    /// An empty sink.
    pub fn new() -> (r: StringSink)
        ensures
            r.content() == Seq::<char>::empty(),
    {
        let buf: String = String::new();
        proof {
            assert(buf@ =~= Seq::<char>::empty());
        }
        StringSink { buf }
    }
}

impl Sink for StringSink {
    open spec fn content(&self) -> Seq<char> {
        self.buf@
    }

    fn write_str(&mut self, s: &str) -> (r: Result<(), Error>) {
        self.buf.append(s);
        Ok(())
    }
}

} // verus!
