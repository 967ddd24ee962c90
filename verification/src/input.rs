//! Where a desired state is taken from when it is given in more than one
//! way.

use vstd::prelude::*;

verus! {

/// What a desired state was given as.
#[derive(Debug, Clone, PartialEq, Eq)]
pub enum InputSource {
    /// The path of a file that holds it.
    Path(String),
    /// The JSON text itself, given on the command line.
    Inline(String),
    /// The JSON text that was piped in on standard input.
    Piped(String),
    /// Nothing was given.
    Missing,
}

/// An input source as a mathematical value.
pub enum InputSourceModel {
    Path(Seq<char>),
    Inline(Seq<char>),
    Piped(Seq<char>),
    Missing,
}

impl View for InputSource {
    type V = InputSourceModel;

    open spec fn view(&self) -> InputSourceModel {
        match self {
            InputSource::Path(p) => InputSourceModel::Path(p@),
            InputSource::Inline(j) => InputSourceModel::Inline(j@),
            InputSource::Piped(t) => InputSourceModel::Piped(t@),
            InputSource::Missing => InputSourceModel::Missing,
        }
    }
}

/// The source that counts: a path before an inline value, an inline value
/// before standard input.
pub open spec fn selected(path: Option<String>, inline: Option<String>, piped: Option<String>)
    -> InputSourceModel {
    match path {
        Some(p) => InputSourceModel::Path(p@),
        None => match inline {
            Some(j) => InputSourceModel::Inline(j@),
            None => match piped {
                Some(t) => InputSourceModel::Piped(t@),
                None => InputSourceModel::Missing,
            },
        },
    }
}

/// Picks the source of the desired state: a path before an inline value,
/// an inline value before standard input.
pub fn select_input(path: Option<String>, inline: Option<String>, piped: Option<String>) -> (r:
    InputSource)
    ensures
        r@ == selected(path, inline, piped),
{
    match path {
        Some(p) => InputSource::Path(p),
        None => match inline {
            Some(j) => InputSource::Inline(j),
            None => match piped {
                Some(t) => InputSource::Piped(t),
                None => InputSource::Missing,
            },
        },
    }
}

} // verus!
