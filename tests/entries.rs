use exacl::{sort, AclEntry, AclEntryKind, AclError, Flag, Perm};
use std::cmp::Ordering;

fn sample() -> Vec<AclEntry> {
    vec![
        AclEntry::allow_other(Perm::empty(), None),
        AclEntry::allow_user("bob", Perm::read(), None),
        AclEntry::allow_group("", Perm::read(), None),
        AclEntry::deny_user("eve", Perm::write(), None),
        AclEntry::allow_user("", Perm::read().union(Perm::write()), None),
        AclEntry::allow_user("amy", Perm::read(), Some(Flag::inherited())),
        AclEntry::allow_mask(Perm::read(), None),
        AclEntry::allow_group("staff", Perm::execute(), None),
    ]
}

fn copy(v: &[AclEntry]) -> Vec<AclEntry> {
    v.iter().map(|e| e.clone_entry()).collect()
}

fn names(v: &[AclEntry]) -> Vec<(AclEntryKind, String)> {
    v.iter().map(|e| (e.kind, e.name.clone())).collect()
}

#[test]
fn sort_puts_entries_in_canonical_order() {
    let mut v = sample();
    sort(&mut v);
    let expected = vec![
        (AclEntryKind::User, "eve".to_string()),
        (AclEntryKind::User, "".to_string()),
        (AclEntryKind::Group, "".to_string()),
        (AclEntryKind::User, "bob".to_string()),
        (AclEntryKind::Group, "staff".to_string()),
        (AclEntryKind::Mask, "".to_string()),
        (AclEntryKind::Other, "".to_string()),
        (AclEntryKind::User, "amy".to_string()),
    ];
    assert_eq!(names(&v), expected);
}

#[test]
fn sort_is_idempotent_and_ignores_input_order() {
    let mut a = sample();
    sort(&mut a);
    let mut again = copy(&a);
    sort(&mut again);
    assert_eq!(again, a);

    let mut b = sample();
    b.reverse();
    b.swap(0, 3);
    sort(&mut b);
    assert_eq!(b, a);
}

#[test]
fn sort_empty() {
    let mut v: Vec<AclEntry> = Vec::new();
    sort(&mut v);
    assert!(v.is_empty());
}

#[test]
fn canonical_cmp_deny_first_inherited_last() {
    let deny = AclEntry::deny_user("x", Perm::read(), None);
    let allow = AclEntry::allow_user("x", Perm::read(), None);
    let inherited = AclEntry::allow_user("a", Perm::read(), Some(Flag::inherited()));
    assert_eq!(deny.canonical_cmp(&allow), Ordering::Less);
    assert_eq!(allow.canonical_cmp(&inherited), Ordering::Less);
    assert_eq!(allow.canonical_cmp(&allow.clone_entry()), Ordering::Equal);
    assert_eq!(inherited.canonical_cmp(&deny), Ordering::Greater);
}

#[test]
fn checked_entry_rules() {
    assert!(AclEntry::checked(AclEntryKind::Mask, "", Perm::read(), None, true, false).is_ok());
    match AclEntry::checked(AclEntryKind::Other, "bob", Perm::read(), None, true, true) {
        Err(AclError::UnknownPrincipal { kind, name }) => {
            assert_eq!(kind, AclEntryKind::Other);
            assert_eq!(name, "bob");
        }
        other => panic!("unexpected {:?}", other),
    }
    assert!(matches!(
        AclEntry::checked(AclEntryKind::User, "bob", Perm::read(), None, false, false),
        Err(AclError::UnsupportedOperation)
    ));
    let e = AclEntry::checked(AclEntryKind::User, "bob", Perm::read(), None, false, true).unwrap();
    assert!(!e.allow);
    assert_eq!(e.flags, Flag::empty());
}
