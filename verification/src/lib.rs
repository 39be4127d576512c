//! Parser and validator for directory status documents (votes and
//! consensuses): strictly formatted, line-oriented text documents exchanged
//! by directory authorities.
//!
//! The crate is split in two layers.  The generic layer ([`document`],
//! [`grammar`], [`codec`]) knows only the line/object item grammar shared by
//! the whole document family.  The semantic layer ([`decoders`], [`schema`],
//! [`validator`]) maps the generic item stream onto a typed, validated
//! document model, enforcing cardinality, ordering and variant rules.

pub mod codec;

pub mod decoders;

pub mod document;

pub mod errors;

pub mod grammar;

pub mod model;

pub mod schema;

pub mod validator;

use vstd::prelude::*;

use crate::codec::serialize_items;
use crate::document::{wf_items, ItemModel};
use crate::errors::{ParseError, StatusError, ValidationError};
use crate::grammar::spec_parse;
use crate::model::{ConsensusDocument, DocModel};
use crate::schema::spec_assemble;
use crate::validator::spec_validate;

verus! {

/// What the top-level entry point reports, at the model level.
#[verifier::ext_equal]
pub ghost enum StatusErrorModel {
    Parse(ParseError),
    Validation(Seq<ValidationError>),
}

/// The view of a reported error.
pub open spec fn status_error_view(e: StatusError) -> StatusErrorModel {
    match e {
        StatusError::Parse(p) => StatusErrorModel::Parse(p),
        StatusError::Validation(v) => StatusErrorModel::Validation(v@),
    }
}

/// The whole pipeline: bytes to generic items to typed document to
/// validated document.  Grammar and assembly errors are fatal at once;
/// validation violations are collected and reported together.
pub open spec fn spec_status(input: Seq<u8>) -> Result<DocModel, StatusErrorModel> {
    match spec_parse(input) {
        Err(e) => Err(StatusErrorModel::Parse(e)),
        Ok(items) => match spec_assemble(items) {
            Err(e) => Err(StatusErrorModel::Parse(e)),
            Ok(d) => if spec_validate(d).len() == 0 {
                Ok(d)
            } else {
                Err(StatusErrorModel::Validation(spec_validate(d)))
            },
        },
    }
}

/// Parses and validates one complete status document.
pub fn parse_status_document(input: &[u8]) -> (r: Result<ConsensusDocument, StatusError>)
    ensures
        match r {
            Ok(d) => spec_status(input@) == Ok::<DocModel, StatusErrorModel>(d@),
            Err(e) => spec_status(input@) == Err::<DocModel, StatusErrorModel>(
                status_error_view(e),
            ),
        },
{
    let doc = match crate::grammar::parse_document(input) {
        Ok(doc) => doc,
        Err(e) => {
            return Err(StatusError::Parse(e));
        },
    };
    let typed = match crate::schema::assemble(&doc) {
        Ok(d) => d,
        Err(e) => {
            return Err(StatusError::Parse(e));
        },
    };
    let violations = crate::validator::validate(&typed);
    if violations.len() == 0 {
        proof {
            assert(spec_validate(typed@).len() == 0);
        }
        Ok(typed)
    } else {
        Err(StatusError::Validation(violations))
    }
}

/// Round trip: when some bytes parse to an item run, the canonical bytes
/// serialized from that run drive the whole pipeline to the very same
/// outcome — the same typed document, or the same violations.
pub proof fn lemma_status_round_trip(bytes: Seq<u8>, items: Seq<ItemModel>)
    requires
        spec_parse(bytes) == Ok::<Seq<ItemModel>, ParseError>(items),
        wf_items(items),
        items.len() > 0,
    ensures
        spec_status(serialize_items(items)) == spec_status(bytes),
{
    crate::codec::lemma_parse_serialize(items);
}

} // verus!
