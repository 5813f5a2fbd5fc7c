//! The intent record that an admissibility kernel judges, held as plain
//! values: who acts, with what standing, on what target, on what basis.

use vstd::prelude::*;

verus! {

/// The standing an actor claims.
#[derive(Debug, Clone, Copy, PartialEq, Eq, Structural)]
pub enum StandingClass {
    Observe,
    Interpret,
    Recommend,
    Authorize,
    Execute,
}

/// Where a claim comes from.
#[derive(Debug, Clone, Copy, PartialEq, Eq, Structural)]
pub enum Provenance {
    /// Asserted by the caller, with nothing behind it.
    CallerAsserted,
}

/// The class of operation an intent asks for.
#[derive(Debug, Clone, Copy, PartialEq, Eq, Structural)]
pub enum OperationClass {
    /// Binding a claim of identity, ownership or law.
    Bind,
}

/// The kind of a piece of evidence.
#[derive(Debug, Clone, Copy, PartialEq, Eq, Structural)]
pub enum EvidenceKind {
    /// The hash of a file's content.
    FileHash,
}

/// Whether a piece of evidence holds.
#[derive(Debug, Clone, Copy, PartialEq, Eq, Structural)]
pub enum ValidityStatus {
    Valid,
}

/// How an intent stands against earlier ones.
#[derive(Debug, Clone, Copy, PartialEq, Eq, Structural)]
pub enum PrecedenceResolution {
    Active,
}

/// A kernel's verdict on one surface.
#[derive(Debug, Clone, Copy, PartialEq, Eq, Structural)]
pub enum SurfaceVerdict {
    Authorized,
    AdvisoryOnly,
    Denied,
    Gap,
    Unaccounted,
}

/// The standing of the actor behind an intent.
#[derive(Debug, Clone, Copy, PartialEq, Eq, Structural)]
pub struct ActorStanding {
    pub class: StandingClass,
    pub provenance: Provenance,
}

/// One piece of evidence cited for an intent.
#[derive(Debug, Clone)]
pub struct Evidence {
    pub reference: String,
    pub kind: EvidenceKind,
    pub issuer: String,
    pub subject: String,
    pub valid_from: String,
    pub valid_until: String,
    pub status: ValidityStatus,
}

/// The rule an actor cites and the evidence for it.
#[derive(Debug, Clone)]
pub struct ClaimedBasis {
    pub rule: String,
    pub evidence_refs: Vec<Evidence>,
}

/// The intent's place among earlier ones.
#[derive(Debug, Clone)]
pub struct Precedence {
    pub resolution: PrecedenceResolution,
    pub superseded_by: Option<String>,
    pub provenance: Provenance,
    pub evidence_refs: Vec<Evidence>,
}

/// Whether the basis or the standing has been withdrawn.
#[derive(Debug, Clone)]
pub struct Revocation {
    pub basis_revoked: bool,
    pub standing_forbidden: bool,
    pub provenance: Provenance,
    pub evidence_refs: Vec<Evidence>,
}

/// A request to mutate an authority-bearing target.
#[derive(Debug, Clone)]
pub struct Intent {
    pub actor: String,
    pub actor_standing: ActorStanding,
    pub intended_action: String,
    pub operation_class: OperationClass,
    pub target: String,
    pub scope_assertion: Option<String>,
    pub claimed_basis: ClaimedBasis,
    pub precedence: Precedence,
    pub revocation: Revocation,
    pub expected_effect: String,
    pub call_timestamp: String,
    pub prev_receipt_hash: Option<String>,
}

} // verus!
