//! Errors that carry a kind, a reason and a trail of context frames.

use vstd::prelude::*;
use vstd::string::StringExecFns;

verus! {

/// The broad class of a failure.
#[derive(Debug, Clone, Copy, PartialEq, Eq, Structural)]
pub enum ErrorKind {
    IO,
    Parsing,
    Compilation,
    Memory,
    Unknown,
}

/// A failure with a human-readable reason and the context frames that each
/// forwarding layer attached, innermost first.
#[derive(Debug)]
pub struct Error {
    pub kind: ErrorKind,
    pub reason: String,
    pub backtrace: Vec<String>,
}

pub type Result<T> = core::result::Result<T, Error>;

impl Error {
    /// An error of the given kind with no context frames yet.
    pub fn new(kind: ErrorKind, reason: &str) -> (r: Self)
        ensures
            r.kind == kind,
            r.reason@ == reason@,
            r.backtrace@.len() == 0,
    {
        Error { kind, reason: String::from_str(reason), backtrace: Vec::new() }
    }

    /// The same error with its reason replaced.
    pub fn msg(self, message: &str) -> (r: Self)
        ensures
            r.kind == self.kind,
            r.reason@ == message@,
            r.backtrace == self.backtrace,
    {
        let mut e = self;
        e.reason = String::from_str(message);
        e
    }
}

/// A compilation error with no context frames.
pub fn compilation_error(reason: &str) -> (r: Error)
    ensures
        r.kind == ErrorKind::Compilation,
        r.reason@ == reason@,
        r.backtrace@.len() == 0,
{
    Error::new(ErrorKind::Compilation, reason)
}

impl ErrorKind {
    /// The name of this kind in reports.
    pub fn label(&self) -> (r: &'static str)
        ensures
            r@ == kind_label(*self),
    {
        match self {
            ErrorKind::IO => "IO",
            ErrorKind::Parsing => "PARSING",
            ErrorKind::Compilation => "COMPILATION",
            ErrorKind::Unknown => "UNKNOWN",
            ErrorKind::Memory => "MEMORY",
        }
    }
}

pub open spec fn kind_label(k: ErrorKind) -> Seq<char> {
    match k {
        ErrorKind::IO => "IO"@,
        ErrorKind::Parsing => "PARSING"@,
        ErrorKind::Compilation => "COMPILATION"@,
        ErrorKind::Unknown => "UNKNOWN"@,
        ErrorKind::Memory => "MEMORY"@,
    }
}

/// The context frames, outermost first, one per line.
pub open spec fn frames_text(frames: Seq<Seq<char>>) -> Seq<char>
    decreases frames.len(),
{
    if frames.len() == 0 {
        Seq::empty()
    } else {
        frames.last() + "\n"@ + frames_text(frames.drop_last())
    }
}

/// The text of a report.
pub open spec fn report_text(e: Error) -> Seq<char> {
    "\n["@ + kind_label(e.kind) + " ERROR] "@ + e.reason@ + "\nBacktrace:\n"@ + frames_text(
        e.backtrace.deep_view(),
    )
}

impl Error {
    /// This error as text: its kind and reason, then its context frames from
    /// the outermost operation inwards.
    pub fn to_text(&self) -> (r: String)
        ensures
            r@ == report_text(*self),
    {
        let mut t = String::from_str("\n[");
        t.append(self.kind.label());
        t.append(" ERROR] ");
        t.append(self.reason.as_str());
        t.append("\nBacktrace:\n");
        let ghost frames = self.backtrace.deep_view();
        let ghost head = t@;
        let mut k: usize = self.backtrace.len();
        assert(frames.subrange(0, k as int) =~= frames);
        assert(head + frames_text(frames) =~= t@ + frames_text(frames.subrange(0, k as int)));
        while k > 0
            invariant
                frames == self.backtrace.deep_view(),
                k <= frames.len(),
                head + frames_text(frames) == t@ + frames_text(frames.subrange(0, k as int)),
            decreases k,
        {
            let ghost t0 = t@;
            let ghost rest = frames.subrange(0, k as int);
            k = k - 1;
            assert(rest.drop_last() =~= frames.subrange(0, k as int));
            assert(rest.last() == self.backtrace@[k as int]@);
            t.append(self.backtrace[k].as_str());
            t.append("\n");
            assert(t0 + frames_text(rest) =~= t@ + frames_text(frames.subrange(0, k as int)));
        }
        assert(frames.subrange(0, 0) =~= Seq::<Seq<char>>::empty());
        assert(t@ + Seq::<char>::empty() =~= t@);
        t
    }
}

/// Turns a failure, or a missing value, into an `Error` that carries one more
/// context frame naming the operation that was under way.
pub trait WithContext<T>: Sized {
    /// Whether there is a value to pass on.
    spec fn has_value(&self) -> bool;

    /// The value passed on.
    spec fn value(&self) -> T;

    /// `e` is what this failure is reported as, with `frame` added.
    spec fn reported_as(&self, frame: Seq<char>, e: Error) -> bool;

    fn ctx(self, frame: String) -> (r: Result<T>)
        ensures
            self.has_value() ==> r == Ok::<T, Error>(self.value()),
            !self.has_value() ==> (r matches Err(e) && self.reported_as(frame@, e)),
    ;
}

impl<T> WithContext<T> for core::result::Result<T, Error> {
    open spec fn has_value(&self) -> bool {
        self is Ok
    }

    open spec fn value(&self) -> T {
        self->Ok_0
    }

    /// The same error, with `frame` as its outermost context frame.
    open spec fn reported_as(&self, frame: Seq<char>, e: Error) -> bool {
        &&& e.kind == self->Err_0.kind
        &&& e.reason == self->Err_0.reason
        &&& e.backtrace.deep_view() == self->Err_0.backtrace.deep_view().push(frame)
    }

    fn ctx(self, frame: String) -> (r: Result<T>) {
        match self {
            Ok(v) => Ok(v),
            Err(e) => {
                let mut e = e;
                let ghost before = e.backtrace.deep_view();
                e.backtrace.push(frame);
                assert(e.backtrace.deep_view() =~= before.push(frame@));
                Err(e)
            },
        }
    }
}

impl<T> WithContext<T> for Option<T> {
    open spec fn has_value(&self) -> bool {
        self is Some
    }

    open spec fn value(&self) -> T {
        self->Some_0
    }

    /// An unknown failure for the missing value, with `frame` as its only
    /// context frame.
    open spec fn reported_as(&self, frame: Seq<char>, e: Error) -> bool {
        &&& e.kind == ErrorKind::Unknown
        &&& e.reason@ == "Missing expected value"@
        &&& e.backtrace.deep_view() == seq![frame]
    }

    fn ctx(self, frame: String) -> (r: Result<T>) {
        match self {
            Some(v) => Ok(v),
            None => {
                let mut e = Error::new(ErrorKind::Unknown, "Missing expected value");
                e.backtrace.push(frame);
                assert(e.backtrace.deep_view() =~= seq![frame@]);
                Err(e)
            },
        }
    }
}

} // verus!
