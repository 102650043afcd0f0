use toric::economy::LinkTarget;
use toric::identity::{
    plan_registration, validate_create_agent_manifest, validate_identity, AgentManifest,
    IdentityOp, IdentityRule, IdentityVerdict, Registration,
};

fn manifest(agent: u8, agent_type: &str) -> AgentManifest {
    AgentManifest {
        agent: vec![agent],
        agent_type: agent_type.to_string(),
        capabilities: vec!["audit".to_string()],
        software_hash: "sha256:00".to_string(),
        version: "1.0".to_string(),
        metadata_blob: b"{}".to_vec(),
    }
}

#[test]
fn agent_manifest_rules() {
    assert_eq!(validate_create_agent_manifest(&vec![1], &manifest(1, "validator")), IdentityVerdict::Valid);
    assert_eq!(validate_create_agent_manifest(&vec![2], &manifest(1, "validator")), IdentityVerdict::Invalid(IdentityRule::ManifestNotSelf));
    assert_eq!(validate_create_agent_manifest(&vec![1], &manifest(1, "")), IdentityVerdict::Invalid(IdentityRule::EmptyAgentType));
}

#[test]
fn identity_membrane() {
    assert_eq!(validate_identity(&IdentityOp::UpdateEntry), IdentityVerdict::Invalid(IdentityRule::EntryImmutable));
    assert_eq!(validate_identity(&IdentityOp::DeleteEntry), IdentityVerdict::Invalid(IdentityRule::EntryImmutable));
    assert_eq!(validate_identity(&IdentityOp::DeleteLink), IdentityVerdict::Invalid(IdentityRule::LinkPermanent));
    assert_eq!(validate_identity(&IdentityOp::CreateLink), IdentityVerdict::Valid);
    assert_eq!(validate_identity(&IdentityOp::CreateAgent { follows_validation_package: false }), IdentityVerdict::Invalid(IdentityRule::AgentPackageMissing));
    let op = IdentityOp::CreateManifest { author: vec![1], manifest: manifest(1, "x") };
    assert_eq!(validate_identity(&op), IdentityVerdict::Valid);
}

#[test]
fn registration_is_idempotent() {
    let m = manifest(1, "validator");
    match plan_registration(vec![1], Some(LinkTarget::Action(vec![9])), m.agent_type.clone(), m.capabilities.clone(), m.software_hash.clone(), m.version.clone(), vec![]) {
        Registration::Existing(h) => assert_eq!(h, vec![9]),
        Registration::Write(_) => panic!("expected the existing manifest"),
    }
    match plan_registration(vec![1], Some(LinkTarget::Other), m.agent_type.clone(), m.capabilities.clone(), m.software_hash.clone(), m.version.clone(), vec![]) {
        Registration::Write(w) => {
            assert_eq!(w.agent, vec![1]);
            assert_eq!(validate_create_agent_manifest(&vec![1], &w), IdentityVerdict::Valid);
        },
        Registration::Existing(_) => panic!("expected a new manifest"),
    }
}
