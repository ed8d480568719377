use sag::proto::{ModelDescriptor, NodeDescriptor};
use sag::registry::{MemoryRegistry, RegistryError};

fn node(id: &str, addr: &str) -> NodeDescriptor {
    NodeDescriptor {
        node_id: id.into(),
        addr: addr.into(),
        models: vec![ModelDescriptor {
            id: "qwen3-coder:30b".into(),
            capabilities: vec![],
        }],
        capabilities: vec![],
    }
}

#[test]
fn memory_registry_upserts_and_lists_sorted() {
    let mut reg = MemoryRegistry::new();
    reg.upsert(node("zeta", "http://z:8080")).unwrap();
    reg.upsert(node("alpha", "http://a:8080")).unwrap();
    let nodes = reg.list().unwrap();
    assert_eq!(nodes.iter().map(|n| n.node_id.as_str()).collect::<Vec<_>>(), ["alpha", "zeta"]);
}

#[test]
fn memory_registry_upsert_is_idempotent_by_node_id() {
    let mut reg = MemoryRegistry::new();
    reg.upsert(node("alpha", "http://old:8080")).unwrap();
    reg.upsert(node("alpha", "http://new:8080")).unwrap();
    let nodes = reg.list().unwrap();
    assert_eq!(nodes.len(), 1, "re-register must not duplicate");
    assert_eq!(nodes[0].addr, "http://new:8080", "address refreshed");
}

#[test]
fn listing_is_independent_of_registration_order() {
    let mut a = MemoryRegistry::new();
    let mut b = MemoryRegistry::new();
    for id in ["m", "c", "x", "a"] {
        a.upsert(node(id, "http://h")).unwrap();
    }
    for id in ["a", "x", "m", "c", "m"] {
        b.upsert(node(id, "http://h")).unwrap();
    }
    assert_eq!(a.list().unwrap(), b.list().unwrap());
    assert_eq!(a.list().unwrap().iter().map(|n| n.node_id.as_str()).collect::<Vec<_>>(), ["a", "c", "m", "x"]);
}

#[test]
fn registry_error_text() {
    assert_eq!(RegistryError::Backend("disk full".into()).message(), "registry backend error: disk full");
}
