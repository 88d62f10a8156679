//! The errors of the library.

use vstd::prelude::*;

verus! {

/// What can go wrong, with a message for the user.
#[derive(Debug, Clone, PartialEq, Eq)]
pub enum Error {
    /// tmux failed, or could not be run or understood.
    Tmux { message: String },
    /// An argument was not acceptable.
    InvalidArgument { message: String },
    /// The output of tmux did not have the expected form.
    Parse { message: String },
}

/// The kind of an error and the characters of its message.
pub enum ErrorView {
    Tmux(Seq<char>),
    InvalidArgument(Seq<char>),
    Parse(Seq<char>),
}

impl View for Error {
    type V = ErrorView;

    open spec fn view(&self) -> ErrorView {
        match self {
            Error::Tmux { message } => ErrorView::Tmux(message@),
            Error::InvalidArgument { message } => ErrorView::InvalidArgument(message@),
            Error::Parse { message } => ErrorView::Parse(message@),
        }
    }
}

} // verus!
