use reactive_core::names::{NameSet, Scope};

#[test]
fn name_set_insert_remove() {
    let mut s = NameSet::new();
    let a = "a".to_string();
    let b = "b".to_string();
    s.insert(&a);
    s.insert(&a);
    s.insert(&b);
    assert!(s.contains(&a) && s.contains(&b));
    s.remove(&a);
    assert!(!s.contains(&a) && s.contains(&b));
    let copy = s.duplicate();
    s.clear();
    assert!(!s.contains(&b));
    assert!(copy.contains(&b));
}

#[test]
fn scope_release_keeps_other_owners() {
    let mut scope = Scope::new();
    let (x, y, z) = ("x".to_string(), "y".to_string(), "z".to_string());
    let (c1, c2) = ("cell-1".to_string(), "cell-2".to_string());
    scope.insert(&x, &c1);
    scope.insert(&y, &c2);
    scope.insert(&z, &c1);
    let mut names = NameSet::new();
    names.insert(&x);
    names.insert(&y);
    scope.release(&names, &c1);
    assert_eq!(scope.get(&x), None);
    assert_eq!(scope.get(&y), Some(&c2));
    assert_eq!(scope.get(&z), Some(&c1));
    scope.insert(&y, &c1);
    assert_eq!(scope.get(&y), Some(&c1));
    scope.remove(&y);
    assert_eq!(scope.get(&y), None);
}
