//! Errors are for programs first: a closed `ErrorKind`, a retryability
//! status, and key/value context for humans reading logs.
use vstd::prelude::*;

verus! {

#[derive(Copy, Clone, Debug, PartialEq, Eq, Hash, Structural)]
pub enum ErrorKind {
    /// Key does not exist.
    NotFound,
    /// Slot exists but currently has no replica anywhere. Recompute or replay.
    Evicted,
    /// Write-once conflict: the slot already has bytes (or a write in flight).
    AlreadyExists,
    /// Same key, different `ObjectSpec`.
    SpecMismatch,
    /// `Strict` placement cannot be satisfied, or the pool is full of `Explicit` objects.
    NoSpace,
    /// The backend's `Capability` says no.
    Unsupported,
    /// Malformed request: iov out of bounds, length mismatch, unknown slot, ...
    InvalidInput,
    /// Daemon / metaserver / remote peer unreachable. Never a cache miss.
    Unavailable,
    Unexpected,
}

#[derive(Copy, Clone, Debug, PartialEq, Eq, Hash, Structural)]
pub enum ErrorStatus {
    /// Retrying the same request will not help.
    Permanent,
    /// Retrying (with backoff) may succeed.
    Temporary,
}

/// The retryability of a kind of error: space comes back and peers come back,
/// nothing else does.
pub open spec fn status_of(kind: ErrorKind) -> ErrorStatus {
    if kind == ErrorKind::NoSpace || kind == ErrorKind::Unavailable {
        ErrorStatus::Temporary
    } else {
        ErrorStatus::Permanent
    }
}

/// The name of a kind of error.
pub open spec fn name_of(kind: ErrorKind) -> Seq<char> {
    match kind {
        ErrorKind::NotFound => "NotFound"@,
        ErrorKind::Evicted => "Evicted"@,
        ErrorKind::AlreadyExists => "AlreadyExists"@,
        ErrorKind::SpecMismatch => "SpecMismatch"@,
        ErrorKind::NoSpace => "NoSpace"@,
        ErrorKind::Unsupported => "Unsupported"@,
        ErrorKind::InvalidInput => "InvalidInput"@,
        ErrorKind::Unavailable => "Unavailable"@,
        ErrorKind::Unexpected => "Unexpected"@,
    }
}

impl ErrorKind {
    pub fn default_status(self) -> (r: ErrorStatus)
        ensures
            r == status_of(self),
    {
        match self {
            ErrorKind::NoSpace | ErrorKind::Unavailable => ErrorStatus::Temporary,
            _ => ErrorStatus::Permanent,
        }
    }

    pub fn as_str(self) -> (r: &'static str)
        ensures
            r@ == name_of(self),
    {
        match self {
            ErrorKind::NotFound => "NotFound",
            ErrorKind::Evicted => "Evicted",
            ErrorKind::AlreadyExists => "AlreadyExists",
            ErrorKind::SpecMismatch => "SpecMismatch",
            ErrorKind::NoSpace => "NoSpace",
            ErrorKind::Unsupported => "Unsupported",
            ErrorKind::InvalidInput => "InvalidInput",
            ErrorKind::Unavailable => "Unavailable",
            ErrorKind::Unexpected => "Unexpected",
        }
    }
}

/// What an error says.
pub struct ErrorView {
    pub kind: ErrorKind,
    pub status: ErrorStatus,
    pub message: Seq<char>,
    pub operation: Option<Seq<char>>,
    pub context: Seq<(Seq<char>, Seq<char>)>,
    pub source: Option<Seq<char>>,
}

impl ErrorView {
    /// A fresh error: the kind's own status, no operation, context or source.
    pub open spec fn new(kind: ErrorKind, message: Seq<char>) -> Self {
        ErrorView {
            kind,
            status: status_of(kind),
            message,
            operation: None,
            context: Seq::empty(),
            source: None,
        }
    }

    /// The operation is named once, by the innermost layer.
    pub open spec fn with_operation(self, operation: Seq<char>) -> Self {
        ErrorView {
            operation: if self.operation is None {
                Some(operation)
            } else {
                self.operation
            },
            ..self
        }
    }

    pub open spec fn with_context(self, key: Seq<char>, value: Seq<char>) -> Self {
        ErrorView { context: self.context.push((key, value)), ..self }
    }

    pub open spec fn with_status(self, status: ErrorStatus) -> Self {
        ErrorView { status, ..self }
    }

    pub open spec fn with_source(self, source: Seq<char>) -> Self {
        ErrorView { source: Some(source), ..self }
    }

    /// The one-line rendering.
    pub open spec fn text(self) -> Seq<char> {
        name_of(self.kind) + (if self.status == ErrorStatus::Temporary {
            " (temporary)"@
        } else {
            Seq::empty()
        }) + (match self.operation {
            Some(op) => " at "@ + op,
            None => Seq::empty(),
        }) + (if self.message.len() > 0 {
            " => "@ + self.message
        } else {
            Seq::empty()
        }) + (if self.context.len() > 0 {
            " {"@ + context_text(self.context) + "}"@
        } else {
            Seq::empty()
        }) + (match self.source {
            Some(src) => ": "@ + src,
            None => Seq::empty(),
        })
    }
}

/// `key: value` pairs, separated by commas.
pub open spec fn context_text(context: Seq<(Seq<char>, Seq<char>)>) -> Seq<char>
    decreases context.len(),
{
    if context.len() == 0 {
        Seq::empty()
    } else {
        context_text(context.drop_last()) + (if context.len() > 1 {
            ", "@
        } else {
            Seq::empty()
        }) + context.last().0 + ": "@ + context.last().1
    }
}

#[derive(Debug)]
pub struct Error {
    kind: ErrorKind,
    status: ErrorStatus,
    message: String,
    operation: Option<&'static str>,
    context: Vec<(&'static str, String)>,
    source: Option<String>,
}

pub open spec fn str_view(s: Option<&'static str>) -> Option<Seq<char>> {
    match s {
        Some(s) => Some(s@),
        None => None,
    }
}

pub open spec fn string_view(s: Option<String>) -> Option<Seq<char>> {
    match s {
        Some(s) => Some(s@),
        None => None,
    }
}

pub open spec fn context_view(context: Seq<(&'static str, String)>) -> Seq<(Seq<char>, Seq<char>)> {
    Seq::new(context.len(), |i: int| (context[i].0@, context[i].1@))
}

impl View for Error {
    type V = ErrorView;

    closed spec fn view(&self) -> ErrorView {
        ErrorView {
            kind: self.kind,
            status: self.status,
            message: self.message@,
            operation: str_view(self.operation),
            context: context_view(self.context@),
            source: string_view(self.source),
        }
    }
}

impl Error {
    pub fn new(kind: ErrorKind, message: &str) -> (r: Self)
        ensures
            r@ == ErrorView::new(kind, message@),
    {
        Error::with_message(kind, message.to_owned())
    }

    /// An error whose message was put together at run time.
    pub fn with_message(kind: ErrorKind, message: String) -> (r: Self)
        ensures
            r@ == ErrorView::new(kind, message@),
    {
        let r = Self {
            kind,
            status: kind.default_status(),
            message,
            operation: None,
            context: Vec::new(),
            source: None,
        };
        assert(r@.context =~= Seq::empty());
        r
    }

    pub fn kind(&self) -> (r: ErrorKind)
        ensures
            r == self@.kind,
    {
        self.kind
    }

    pub fn status(&self) -> (r: ErrorStatus)
        ensures
            r == self@.status,
    {
        self.status
    }

    pub fn is_temporary(&self) -> (r: bool)
        ensures
            r == (self@.status == ErrorStatus::Temporary),
    {
        self.status == ErrorStatus::Temporary
    }

    pub fn message(&self) -> (r: &str)
        ensures
            r@ == self@.message,
    {
        self.message.as_str()
    }

    pub fn operation(&self) -> (r: Option<&'static str>)
        ensures
            str_view(r) == self@.operation,
    {
        self.operation
    }

    pub fn context(&self) -> (r: &[(&'static str, String)])
        ensures
            context_view(r@) == self@.context,
    {
        self.context.as_slice()
    }

    /// What the error came from, as text.
    pub fn source(&self) -> (r: Option<&str>)
        ensures
            match r {
                Some(text) => self@.source == Some(text@),
                None => self@.source is None,
            },
    {
        match &self.source {
            Some(text) => Some(text.as_str()),
            None => None,
        }
    }

    pub fn with_operation(self, operation: &'static str) -> (r: Self)
        ensures
            r@ == self@.with_operation(operation@),
    {
        let mut e = self;
        if e.operation.is_none() {
            e.operation = Some(operation);
        }
        e
    }

    pub fn with_context(self, key: &'static str, value: String) -> (r: Self)
        ensures
            r@ == self@.with_context(key@, value@),
    {
        let mut e = self;
        let ghost before = e.context@;
        e.context.push((key, value));
        assert(context_view(e.context@) =~= context_view(before).push((key@, value@)));
        e
    }

    pub fn set_temporary(self) -> (r: Self)
        ensures
            r@ == self@.with_status(ErrorStatus::Temporary),
    {
        let mut e = self;
        e.status = ErrorStatus::Temporary;
        e
    }

    pub fn set_permanent(self) -> (r: Self)
        ensures
            r@ == self@.with_status(ErrorStatus::Permanent),
    {
        let mut e = self;
        e.status = ErrorStatus::Permanent;
        e
    }

    /// Record the rendering of the error that caused this one.
    pub fn set_source(self, source: String) -> (r: Self)
        ensures
            r@ == self@.with_source(source@),
    {
        let mut e = self;
        e.source = Some(source);
        e
    }

    fn push_context(&self, out: &mut String)
        ensures
            final(out)@ == old(out)@ + context_text(self@.context),
    {
        let ghost head = out@;
        for i in 0..self.context.len()
            invariant
                head == old(out)@,
                out@ == head + context_text(self@.context.take(i as int)),
        {
            let ghost before = self@.context.take(i as int);
            let ghost after = self@.context.take(i + 1);
            assert(after.drop_last() =~= before);
            if i > 0 {
                out.append(", ");
            }
            out.append(self.context[i].0);
            out.append(": ");
            out.append(self.context[i].1.as_str());
            assert(out@ =~= head + context_text(after));
        }
        assert(self@.context.take(self@.context.len() as int) =~= self@.context);
    }

    /// The one-line rendering.
    pub fn to_string(&self) -> (r: String)
        ensures
            r@ == self@.text(),
    {
        let mut out = String::new();
        out.append(self.kind.as_str());
        assert(out@ =~= name_of(self@.kind));
        let ghost t0 = out@;
        if self.status == ErrorStatus::Temporary {
            out.append(" (temporary)");
        }
        let ghost t1 = t0 + (if self@.status == ErrorStatus::Temporary {
            " (temporary)"@
        } else {
            Seq::empty()
        });
        assert(out@ =~= t1);
        if let Some(op) = self.operation {
            out.append(" at ");
            out.append(op);
        }
        let ghost t2 = t1 + (match self@.operation {
            Some(op) => " at "@ + op,
            None => Seq::empty(),
        });
        assert(out@ =~= t2);
        if !self.message.as_str().is_empty() {
            out.append(" => ");
            out.append(self.message.as_str());
        }
        let ghost t3 = t2 + (if self@.message.len() > 0 {
            " => "@ + self@.message
        } else {
            Seq::empty()
        });
        assert(out@ =~= t3);
        if self.context.len() > 0 {
            out.append(" {");
            self.push_context(&mut out);
            out.append("}");
        }
        let ghost t4 = t3 + (if self@.context.len() > 0 {
            " {"@ + context_text(self@.context) + "}"@
        } else {
            Seq::empty()
        });
        assert(out@ =~= t4);
        if let Some(src) = &self.source {
            out.append(": ");
            out.append(src.as_str());
        }
        let ghost t5 = t4 + (match self@.source {
            Some(src) => ": "@ + src,
            None => Seq::empty(),
        });
        assert(out@ =~= t5);
        out
    }
}

/// A result as its contract sees it: errors by what they say.
pub open spec fn result_view<T>(r: Result<T, Error>) -> Result<T, ErrorView> {
    match r {
        Ok(v) => Ok(v),
        Err(e) => Err(e@),
    }
}

/// The results of the slots of a request, errors by what they say.
pub open spec fn results_view<T>(rs: Seq<Result<T, Error>>) -> Seq<Result<T, ErrorView>> {
    Seq::new(rs.len(), |i: int| result_view(rs[i]))
}

/// Retrying helps exactly for the kinds that report pressure or absence.
pub proof fn law_new_errors_are_temporary_for_backpressure_only(kind: ErrorKind, message: Seq<char>)
    ensures
        ErrorView::new(kind, message).status == ErrorStatus::Temporary <==> (kind
            == ErrorKind::NoSpace || kind == ErrorKind::Unavailable),
{
}

/// The first operation named stays named.
pub proof fn law_operation_is_named_once(e: ErrorView, first: Seq<char>, second: Seq<char>)
    ensures
        e.with_operation(first).with_operation(second) == e.with_operation(first),
{
}

} // verus!
