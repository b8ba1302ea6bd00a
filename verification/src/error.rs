//! What can go wrong when an almanac is built or walked.
use vstd::prelude::*;

verus! {

/// The ways in which building or walking an almanac fails. None of them is
/// recoverable: the input has to be corrected.
#[derive(Clone, Copy, Debug, PartialEq, Eq, Structural)]
pub enum AlmanacError {
    /// A rule whose length is not positive, or whose domain or image does
    /// not end within the range of `i64`; or a line of a table that does not
    /// hold exactly three numbers.
    MalformedRule,
    /// A category was given a second outgoing edge.
    DuplicateEdge,
    /// The walk has come to a category that is not the target and has no
    /// outgoing edge.
    MissingEdge,
    /// The walk has taken as many steps as there are edges without
    /// reaching the target: it runs in a circle.
    CyclicChain,
    /// A section of the text is neither the list of seeds nor a table.
    MalformedSection,
    /// The list of seeds does not pair up into valid intervals.
    MalformedSeeds,
}

impl AlmanacError {
    /// Whether the error lies in the shape of the chain of categories, not
    /// in a single rule or in the text.
    pub open spec fn configuration(self) -> bool {
        self == AlmanacError::DuplicateEdge || self == AlmanacError::MissingEdge || self
            == AlmanacError::CyclicChain
    }

    /// Whether the error lies in the shape of the chain of categories.
    pub fn is_configuration(&self) -> (configuration: bool)
        ensures
            configuration == self.configuration(),
    {
        match self {
            AlmanacError::DuplicateEdge => true,
            AlmanacError::MissingEdge => true,
            AlmanacError::CyclicChain => true,
            _ => false,
        }
    }
}

} // verus!
