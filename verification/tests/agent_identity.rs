use waterscape::Agent;
use waterscape::agent::AgentRegistry;

#[test]
fn test_agent_creation() {
    let agent = Agent::new("test-agent");
    assert_eq!(agent.name(), "test-agent");

    let identity = agent.public_identity();
    assert_eq!(identity.name, "test-agent");
    assert!(!identity.fingerprint().is_empty());
}

#[test]
fn test_agent_registry() {
    let mut registry = AgentRegistry::new();

    let alice = Agent::new("alice");
    let bob = Agent::new("bob");

    registry.register(alice.public_identity());
    registry.register(bob.public_identity());

    assert!(registry.get("alice").is_some());
    assert!(registry.get("bob").is_some());
    assert!(registry.get("charlie").is_none());

    assert_eq!(registry.list().len(), 2);
}

#[test]
fn test_fingerprint_lookup() {
    let mut registry = AgentRegistry::new();
    let agent = Agent::new("test");
    let fingerprint = agent.public_identity().fingerprint();

    registry.register(agent.public_identity());

    let found = registry.get_by_fingerprint(&fingerprint);
    assert!(found.is_some());
    assert_eq!(found.unwrap().name, "test");
}

#[test]
fn fingerprint_is_sixteen_hex_digits() {
    let agent = Agent::new("fp");
    let fp = agent.public_identity().fingerprint();
    assert_eq!(fp.len(), 16);
    assert!(fp.chars().all(|c| c.is_ascii_hexdigit() && !c.is_ascii_uppercase()));
}

#[test]
fn registry_register_replaces_by_name() {
    let mut registry = AgentRegistry::new();
    let first = Agent::new("dup");
    let second = Agent::new("dup");
    registry.register(first.public_identity());
    registry.register(second.public_identity());
    assert_eq!(registry.list().len(), 1);
    assert_eq!(
        registry.get("dup").unwrap().signing_key,
        second.public_identity().signing_key
    );
    let removed = registry.remove("dup");
    assert!(removed.is_some());
    assert!(registry.get("dup").is_none());
}

#[test]
fn agent_restores_from_exported_seed() {
    let agent = Agent::new("orig");
    let seed = agent.export_signing_key();
    let restored = Agent::from_keys("orig", &seed).unwrap();
    assert_eq!(
        restored.public_identity().signing_key,
        agent.public_identity().signing_key
    );
}
