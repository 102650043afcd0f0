//! Agent identity: the self-declared agent manifest, its membrane rule,
//! and the registration that writes it.
use vstd::prelude::*;
use crate::roster::key_eq;

verus! {

/// What an agent declares about itself.
#[derive(Clone, Debug)]
pub struct AgentManifest {
    pub agent: Vec<u8>,
    pub agent_type: String,
    pub capabilities: Vec<String>,
    pub software_hash: String,
    pub version: String,
    pub metadata_blob: Vec<u8>,
}

#[derive(Clone, Copy, Debug, PartialEq, Eq, Structural)]
pub enum IdentityRule {
    ManifestNotSelf,
    EmptyAgentType,
    EntryImmutable,
    LinkPermanent,
    AgentPackageMissing,
}

#[derive(Clone, Copy, Debug, PartialEq, Eq, Structural)]
pub enum IdentityVerdict {
    Valid,
    Invalid(IdentityRule),
}

pub open spec fn manifest_verdict(author: Seq<u8>, m: AgentManifest) -> IdentityVerdict {
    if m.agent@ != author {
        IdentityVerdict::Invalid(IdentityRule::ManifestNotSelf)
    } else if m.agent_type@.len() == 0 {
        IdentityVerdict::Invalid(IdentityRule::EmptyAgentType)
    } else {
        IdentityVerdict::Valid
    }
}

/// An agent manifest is the author's own and names a type.
pub fn validate_create_agent_manifest(author: &Vec<u8>, manifest: &AgentManifest) -> (r: IdentityVerdict)
    ensures
        r == manifest_verdict(author@, *manifest),
{
    if !key_eq(&manifest.agent, author) {
        return IdentityVerdict::Invalid(IdentityRule::ManifestNotSelf);
    }
    if manifest.agent_type.as_str().is_empty() {
        return IdentityVerdict::Invalid(IdentityRule::EmptyAgentType);
    }
    IdentityVerdict::Valid
}

/// A DHT operation on the identity zome, flattened.
#[derive(Clone, Debug)]
pub enum IdentityOp {
    CreateManifest { author: Vec<u8>, manifest: AgentManifest },
    UpdateEntry,
    DeleteEntry,
    CreateLink,
    DeleteLink,
    CreateAgent { follows_validation_package: bool },
    Other,
}

pub open spec fn identity_op_verdict(op: IdentityOp) -> IdentityVerdict {
    match op {
        IdentityOp::CreateManifest { author, manifest } => manifest_verdict(author@, manifest),
        IdentityOp::UpdateEntry => IdentityVerdict::Invalid(IdentityRule::EntryImmutable),
        IdentityOp::DeleteEntry => IdentityVerdict::Invalid(IdentityRule::EntryImmutable),
        IdentityOp::CreateLink => IdentityVerdict::Valid,
        IdentityOp::DeleteLink => IdentityVerdict::Invalid(IdentityRule::LinkPermanent),
        IdentityOp::CreateAgent { follows_validation_package } => if follows_validation_package {
            IdentityVerdict::Valid
        } else {
            IdentityVerdict::Invalid(IdentityRule::AgentPackageMissing)
        },
        IdentityOp::Other => IdentityVerdict::Valid,
    }
}

/// The identity validation callback: manifests are checked, every link
/// kind is open, entries are immutable and links permanent.
pub fn validate_identity(op: &IdentityOp) -> (r: IdentityVerdict)
    ensures
        r == identity_op_verdict(*op),
        (op is UpdateEntry || op is DeleteEntry) ==> r == IdentityVerdict::Invalid(IdentityRule::EntryImmutable),
        op is DeleteLink ==> r == IdentityVerdict::Invalid(IdentityRule::LinkPermanent),
{
    match op {
        IdentityOp::CreateManifest { author, manifest } => validate_create_agent_manifest(author, manifest),
        IdentityOp::UpdateEntry => IdentityVerdict::Invalid(IdentityRule::EntryImmutable),
        IdentityOp::DeleteEntry => IdentityVerdict::Invalid(IdentityRule::EntryImmutable),
        IdentityOp::CreateLink => IdentityVerdict::Valid,
        IdentityOp::DeleteLink => IdentityVerdict::Invalid(IdentityRule::LinkPermanent),
        IdentityOp::CreateAgent { follows_validation_package } => {
            if *follows_validation_package {
                IdentityVerdict::Valid
            } else {
                IdentityVerdict::Invalid(IdentityRule::AgentPackageMissing)
            }
        },
        IdentityOp::Other => IdentityVerdict::Valid,
    }
}

/// What registration does: return the manifest already registered (the
/// target of the agent's last manifest link, when it is an action), or
/// write the new one.
pub enum Registration {
    Existing(Vec<u8>),
    Write(AgentManifest),
}

/// Registration is idempotent: an agent with a manifest link to an action
/// gets that action back; otherwise its manifest is written as declared.
pub fn plan_registration(
    agent: Vec<u8>,
    existing: Option<crate::economy::LinkTarget>,
    agent_type: String,
    capabilities: Vec<String>,
    software_hash: String,
    version: String,
    metadata_blob: Vec<u8>,
) -> (r: Registration)
    ensures
        match existing {
            Some(crate::economy::LinkTarget::Action(h)) => r matches Registration::Existing(e) && e == h,
            _ => r matches Registration::Write(m) && m.agent == agent && m.agent_type == agent_type
                && m.capabilities == capabilities && m.software_hash == software_hash
                && m.version == version && m.metadata_blob == metadata_blob,
        },
{
    match existing {
        Some(crate::economy::LinkTarget::Action(h)) => Registration::Existing(h),
        _ => Registration::Write(AgentManifest { agent, agent_type, capabilities, software_hash, version, metadata_blob }),
    }
}

/// A manifest registration writes for its own agent passes the identity
/// rule exactly when it names a type.
pub proof fn lemma_registration_valid(author: Seq<u8>, m: AgentManifest)
    requires
        m.agent@ == author,
    ensures
        (manifest_verdict(author, m) == IdentityVerdict::Valid) <==> m.agent_type@.len() > 0,
{
}

} // verus!
