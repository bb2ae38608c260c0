use metasupply_backend::{Identity, IdentityRegistry, UserProfile};

#[test]
fn lookup_in_an_empty_registry_is_none() {
    let registry = IdentityRegistry::new();
    assert_eq!(registry.len(), 0);
    assert_eq!(registry.lookup(&Identity::new(vec![1])), None);
}

#[test]
fn register_returns_the_name_and_stores_the_profile() {
    let mut registry = IdentityRegistry::new();
    let i = Identity::new(vec![1, 2, 3]);
    assert_eq!(registry.register(i.clone(), "alice".to_string()), "alice");
    assert_eq!(
        registry.lookup(&i),
        Some(UserProfile { identity: i.clone(), username: "alice".to_string() })
    );
    assert_eq!(registry.lookup(&Identity::new(vec![1, 2])), None);
}

#[test]
fn last_registration_wins() {
    let mut registry = IdentityRegistry::new();
    let i = Identity::new(vec![4, 2]);
    registry.register(i.clone(), "alice".to_string());
    assert_eq!(registry.register(i.clone(), "bob".to_string()), "bob");
    assert_eq!(registry.lookup(&i).unwrap().username, "bob");
    assert_eq!(registry.len(), 1);
}

#[test]
fn identities_have_profiles_of_their_own() {
    let mut registry = IdentityRegistry::new();
    let a = Identity::new(vec![1]);
    let b = Identity::new(vec![2]);
    registry.register(a.clone(), "alice".to_string());
    registry.register(b.clone(), "bob".to_string());
    registry.register(a.clone(), "carol".to_string());
    assert_eq!(registry.len(), 2);
    assert_eq!(registry.lookup(&a).unwrap().username, "carol");
    assert_eq!(registry.lookup(&b).unwrap().username, "bob");
    assert_eq!(registry.lookup(&b).unwrap().identity, b);
}

#[test]
fn identities_compare_by_their_bytes() {
    let a = Identity::new(vec![1, 2, 3]);
    assert!(a.same(&Identity::new(vec![1, 2, 3])));
    assert!(!a.same(&Identity::new(vec![1, 2, 4])));
    assert!(!a.same(&Identity::new(vec![1, 2])));
    assert!(!a.same(&Identity::new(vec![])));
    assert!(Identity::new(vec![]).same(&Identity::new(vec![])));
    assert!(a.duplicate().same(&a));
    assert_eq!(a.duplicate().bytes, vec![1, 2, 3]);
}

#[test]
fn profiles_lists_each_identity_once() {
    let mut registry = IdentityRegistry::new();
    assert!(registry.profiles().is_empty());
    let a = Identity::new(vec![1]);
    let b = Identity::new(vec![2]);
    registry.register(a.clone(), "alice".to_string());
    registry.register(b.clone(), "bob".to_string());
    registry.register(a.clone(), "carol".to_string());
    let mut all = registry.profiles();
    all.sort_by(|x, y| x.identity.bytes.cmp(&y.identity.bytes));
    assert_eq!(
        all,
        vec![
            UserProfile { identity: a, username: "carol".to_string() },
            UserProfile { identity: b, username: "bob".to_string() },
        ]
    );
}
