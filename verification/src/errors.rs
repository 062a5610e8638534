use vstd::prelude::*;

verus! {

/// The class of a failure while interpreting a command.
///
/// `Validation` rejects an input before any die is rolled (for example a
/// dice quantity over the maximum).  `Parse` marks a term that does not have
/// the expected structure.  `Evaluation` marks arithmetic text that the
/// evaluator cannot reduce to a number.  All three are recoverable: the
/// hosting service reports them to the user and keeps running.
#[derive(Clone, Copy, Debug, PartialEq, Eq, Structural)]
pub enum WakeBotErrorKind {
    Validation,
    Parse,
    Evaluation,
}

/// A recoverable error carrying its class and a user-facing message.
#[derive(Debug)]
pub struct WakeBotError {
    pub kind: WakeBotErrorKind,
    pub details: String,
}

impl WakeBotError {
    /// A generic parse failure with the given message.
    pub fn new(msg: &str) -> (r: WakeBotError)
        ensures
            r.kind == WakeBotErrorKind::Parse,
            r.details@ == msg@,
    {
        WakeBotError { kind: WakeBotErrorKind::Parse, details: msg.to_owned() }
    }

    /// An error of the given class with the given message.
    pub fn with_kind(kind: WakeBotErrorKind, msg: &str) -> (r: WakeBotError)
        ensures
            r.kind == kind,
            r.details@ == msg@,
    {
        WakeBotError { kind, details: msg.to_owned() }
    }

    /// The user-facing message.
    pub fn message(&self) -> (r: &str)
        ensures
            r@ == self.details@,
    {
        self.details.as_str()
    }
}

} // verus!
