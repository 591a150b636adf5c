use ci_master::cap::Cap;
use ci_master::cap::CapSet;

fn caps(tokens: &[&str]) -> CapSet {
    let mut v: Vec<String> = Vec::new();
    for t in tokens {
        v.push(t.to_string());
    }
    CapSet::from_tokens(v)
}

#[test]
fn empty_set_is_always_contained() {
    let empty = CapSet::empty();
    assert!(empty.contains_all(&empty));
    assert!(caps(&["amd64"]).contains_all(&caps(&[])));
    assert!(caps(&["amd64", "gpu", "docker"]).contains_all(&CapSet::empty()));
}

#[test]
fn contains_all_is_token_subset() {
    let big = caps(&["amd64", "docker", "gpu"]);
    assert!(big.contains_all(&caps(&["amd64"])));
    assert!(big.contains_all(&caps(&["gpu", "docker"])));
    assert!(big.contains_all(&caps(&["amd64", "docker", "gpu"])));
    assert!(!big.contains_all(&caps(&["arm"])));
    assert!(!big.contains_all(&caps(&["amd64", "arm"])));
    assert!(!caps(&[]).contains_all(&caps(&["amd64"])));
}

#[test]
fn construction_deduplicates_and_sorts() {
    let s = caps(&["gpu", "amd64", "gpu", "amd64", "docker"]);
    assert_eq!(s.len(), 3);
    assert_eq!(s.token(0).0, "amd64");
    assert_eq!(s.token(1).0, "docker");
    assert_eq!(s.token(2).0, "gpu");
}

#[test]
fn equal_sets_have_one_representation() {
    let a = caps(&["gpu", "amd64"]);
    let b = caps(&["amd64", "gpu", "amd64"]);
    assert!(a.equals(&b));
    assert!(b.equals(&a));
    assert!(!a.equals(&caps(&["amd64"])));
    assert!(!a.equals(&caps(&["amd64", "arm"])));
}

#[test]
fn membership_of_single_tokens() {
    let s = caps(&["amd64", "gpu"]);
    assert!(s.contains(&Cap::new("amd64".to_string())));
    assert!(s.contains(&Cap::new("gpu".to_string())));
    assert!(!s.contains(&Cap::new("arm".to_string())));
    assert!(!s.contains(&Cap::new("amd".to_string())));
    assert!(!s.contains(&Cap::new("amd64x".to_string())));
}

#[test]
fn insert_keeps_order_and_rejects_duplicates() {
    let mut s = CapSet::empty();
    s.insert(Cap::new("gpu".to_string()));
    s.insert(Cap::new("amd64".to_string()));
    s.insert(Cap::new("gpu".to_string()));
    assert_eq!(s.len(), 2);
    assert_eq!(s.token(0).0, "amd64");
    assert_eq!(s.token(1).0, "gpu");
}

#[test]
fn token_equality_is_by_value() {
    let a = Cap::new("amd64".to_string());
    let b = Cap::new("amd64".to_string());
    let c = Cap::new("arm".to_string());
    assert!(a.eq_token(&b));
    assert!(!a.eq_token(&c));
}
