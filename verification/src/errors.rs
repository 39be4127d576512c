//! Error taxonomy for status-document parsing and validation.
//!
//! Every error is terminal for the parse in progress: a directory document
//! with any structural defect cannot be trusted to represent the authority's
//! intent, so there is no skip-and-continue recovery.  Validation errors are
//! the one exception to fail-fast reporting: they are collected, so a caller
//! can see every defect of a malformed document at once.

use vstd::prelude::*;

verus! {

/// A named field (keyword) of a status document, used by the assembly errors
/// so that a caller learns exactly which field was missing, duplicated or out
/// of place.
#[derive(Debug, Clone, Copy, PartialEq, Eq, Structural)]
pub enum Field {
    NetworkStatusVersion,
    VoteStatus,
    ConsensusMethods,
    ConsensusMethod,
    Published,
    ValidAfter,
    FreshUntil,
    ValidUntil,
    VotingDelay,
    ClientVersions,
    ServerVersions,
    Package,
    KnownFlags,
    FlagThresholds,
    RecommendedClientProtocols,
    RecommendedRelayProtocols,
    RequiredClientProtocols,
    RequiredRelayProtocols,
    Params,
    SharedRandPreviousValue,
    SharedRandCurrentValue,
    DirSource,
    Contact,
    VoteDigest,
    LegacyDirKey,
    SharedRandParticipate,
    SharedRandCommit,
    RouterR,
    RouterA,
    RouterS,
    RouterV,
    RouterPr,
    RouterW,
    RouterP,
    RouterM,
    RouterId,
    DirectoryFooter,
    BandwidthWeights,
    DirectorySignature,
}

/// A fatal parse error.  Grammar-level errors carry a position; assembly
/// errors carry the field concerned.
#[derive(Debug, Clone, Copy, PartialEq, Eq, Structural)]
pub enum ParseError {
    /// A line that is neither a valid keyword line, an object delimiter line,
    /// nor blank; also a document that does not end in a newline.  Lines are
    /// numbered from 1.
    SyntaxError { line: usize },
    /// A byte outside the alphabet accepted at its position (keyword,
    /// argument, or base64 payload), identified by byte offset from the start
    /// of the document.
    InvalidCharacter { offset: usize },
    /// Object delimiter lines whose BEGIN/END keywords do not match, or a
    /// malformed delimiter line inside an object block.
    MalformedObject,
    /// End of input while still inside an object block.
    UnterminatedObject,
    /// A timestamp argument that is not `YYYY-MM-DD HH:MM:SS` with valid
    /// calendar values.
    InvalidTimestamp,
    /// A digest or identity whose length or alphabet is wrong.
    InvalidDigest,
    /// A port or port range outside 1..=65535 or with low > high.
    InvalidPortRange,
    /// Any other argument that does not fit the value grammar of its keyword.
    InvalidArgument,
    /// A known field seen in a section or document variant where it is not
    /// legal, or before a field it must follow.
    UnexpectedField(Field),
    /// A second occurrence of a field whose cardinality is once.
    DuplicateField(Field),
    /// An absent field whose cardinality is exactly-once.
    MissingField(Field),
}

/// One violation found by the post-assembly validator.  The validator
/// collects all of these instead of stopping at the first.
#[derive(Debug, Clone, Copy, PartialEq, Eq, Structural)]
pub enum ValidationError {
    /// Router status entries are not strictly ascending by identity digest.
    RouterOrder,
    /// A router's flag set (or the known-flags list) is not lexically
    /// ascending without duplicates.
    FlagOrder,
    /// Package entries are not strictly ascending by (name, version).
    PackageOrder,
    /// A package entry's digest-type labels are not strictly ascending.
    PackageDigestOrder,
    /// Consensus authority groups are not ascending by identity digest.
    AuthorityOrder,
    /// The params list is not strictly ascending by key.
    ParamOrder,
    /// The bandwidth-weights list is not strictly ascending by key.
    WeightOrder,
    /// The flag-thresholds list is not strictly ascending by key.
    ThresholdOrder,
    /// Consensus method 9 or later without a directory-footer line.
    MissingFooter,
}

/// What the top-level entry point reports: either a grammar/assembly error,
/// or the complete list of validator violations.
#[derive(Debug, Clone, PartialEq, Eq)]
pub enum StatusError {
    Parse(ParseError),
    Validation(Vec<ValidationError>),
}

} // verus!
