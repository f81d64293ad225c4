use mira_core::identity::{hash64, resource_key, NO_IDENTITY};
use mira_core::otlp::{AnyKind, AnyValue, KeyValue};

fn kv(k: &str, v: &str) -> KeyValue {
    KeyValue {
        key: k.to_string(),
        value: Some(AnyValue {
            value: Some(AnyKind::StringValue(v.to_string())),
        }),
    }
}

#[test]
fn identity_survives_attribute_drift_and_reordering() {
    let base = vec![
        kv("service.name", "checkout"),
        kv("service.instance.id", "7f3a"),
    ];
    // The same instance, later, with an extra non-identifying attribute and the
    // identifying ones in the other order.
    let drifted = vec![
        kv("service.instance.id", "7f3a"),
        kv("k8s.node.name", "node-4"),
        kv("service.name", "checkout"),
    ];
    assert_eq!(resource_key(&base), resource_key(&drifted));

    // Different instance of the same service is a different entity.
    let other = vec![
        kv("service.name", "checkout"),
        kv("service.instance.id", "91bd"),
    ];
    assert_ne!(resource_key(&base), resource_key(&other));

    // Same value under a different identifying key is a different entity.
    assert_ne!(
        resource_key(&vec![kv("host.id", "abc")]),
        resource_key(&vec![kv("container.id", "abc")])
    );

    // No identifying attribute at all: the sentinel, not a hash of whatever
    // happened to be there.
    assert_eq!(resource_key(&vec![kv("a", "1"), kv("b", "2")]), NO_IDENTITY);
    assert_eq!(resource_key(&vec![kv("a", "1")]), NO_IDENTITY);
    assert_eq!(resource_key(&vec![]), NO_IDENTITY);
}

#[test]
fn a_non_string_identifying_value_is_still_an_identity_and_is_not_its_own_text() {
    let int = |k: &str, v: i64| KeyValue {
        key: k.to_string(),
        value: Some(AnyValue {
            value: Some(AnyKind::IntValue(v)),
        }),
    };
    let numeric = vec![
        kv("service.name", "checkout"),
        int("service.instance.id", 7),
    ];

    assert_ne!(resource_key(&numeric), NO_IDENTITY);
    // Byte-stable: the same attributes hash the same way every time.
    assert_eq!(
        resource_key(&numeric),
        resource_key(&vec![
            kv("service.name", "checkout"),
            int("service.instance.id", 7)
        ])
    );
    assert_ne!(
        resource_key(&numeric),
        resource_key(&vec![
            kv("service.name", "checkout"),
            int("service.instance.id", 8)
        ])
    );
    assert_ne!(
        resource_key(&numeric),
        resource_key(&vec![
            kv("service.name", "checkout"),
            kv("service.instance.id", "7")
        ])
    );

    // Present with no value at all: distinct from not being there.
    let valueless = vec![
        kv("service.name", "checkout"),
        KeyValue {
            key: "service.instance.id".to_string(),
            value: None,
        },
    ];
    assert_ne!(resource_key(&valueless), NO_IDENTITY);
    assert_ne!(
        resource_key(&valueless),
        resource_key(&vec![kv("service.name", "checkout")])
    );
}

/// The hash tells bytes apart, and is the same for the same bytes.
#[test]
fn hashes_of_different_bytes_differ() {
    assert_ne!(hash64(b""), hash64(b"a"));
    assert_ne!(hash64(b"ab"), hash64(b"ba"));
    assert_eq!(hash64(b"checkout"), hash64(b"checkout"));
}
