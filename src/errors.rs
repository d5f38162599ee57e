//! Error types of the directory and of proof verification.
use vstd::prelude::*;
use vstd::string::*;

verus! {

/// Errors of the tree and of proof generation.
#[derive(Clone, Copy, Debug, PartialEq, Eq, Structural)]
pub enum AzksError {
    /// A batch held an invalid or repeated label, or one already in the tree.
    InvalidBatch,
    /// The epoch was never sealed.
    EpochNotFound,
    /// No leaf has this label at this epoch.
    LabelNotFound,
    /// A leaf has this label at this epoch.
    LabelExists,
}

/// Proof verification error types.
#[derive(Debug, Eq, PartialEq)]
pub enum VerificationError {
    /// Error verifying a membership proof
    MembershipProof(String),
    /// Error verifying a non-membership proof
    NonMembershipProof(String),
    /// Error verifying a lookup proof
    LookupProof(String),
    /// Error verifying a history proof
    HistoryProof(String),
    /// Error decoding a proof from its wire form
    Serialization(String),
}

#[verifier::external_type_specification]
#[verifier::external_body]
pub struct ExProtobufError(protobuf::Error);

/// Relies on protobuf::Error's `Display`: the error's description.
#[verifier::external_body]
fn protobuf_error_text(e: &protobuf::Error) -> (r: String) {
    e.to_string()
}

/// The text that `VerificationError::to_string` gives.
pub open spec fn verification_error_text(e: VerificationError) -> Seq<char> {
    match e {
        VerificationError::MembershipProof(s) => "Verification error (Membership proof) - "@ + s@,
        VerificationError::NonMembershipProof(s) => "Verification error (Non-membership proof) - "@
            + s@,
        VerificationError::LookupProof(s) => "Verification error (Lookup proof) - "@ + s@,
        VerificationError::HistoryProof(s) => "Verification error (History proof) - "@ + s@,
        VerificationError::Serialization(s) => "Verification error "@ + s@,
    }
}

impl VerificationError {
    /// The error's description.
    pub fn to_string(&self) -> (r: String)
        ensures
            r@ == verification_error_text(*self),
    {
        match self {
            VerificationError::MembershipProof(s) => String::from_str(
                "Verification error (Membership proof) - ",
            ).concat(s.as_str()),
            VerificationError::NonMembershipProof(s) => String::from_str(
                "Verification error (Non-membership proof) - ",
            ).concat(s.as_str()),
            VerificationError::LookupProof(s) => String::from_str(
                "Verification error (Lookup proof) - ",
            ).concat(s.as_str()),
            VerificationError::HistoryProof(s) => String::from_str(
                "Verification error (History proof) - ",
            ).concat(s.as_str()),
            VerificationError::Serialization(s) => String::from_str("Verification error ").concat(
                s.as_str(),
            ),
        }
    }

    /// A failure to decode a proof, with the decoder's description.
    pub fn from_protobuf(e: &protobuf::Error) -> (r: VerificationError)
        ensures
            r is Serialization,
    {
        VerificationError::Serialization(protobuf_error_text(e))
    }
}

} // verus!
