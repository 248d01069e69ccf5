use exacl::qualifier::{decimal_string, parse_decimal};
use exacl::{AclEntry, AclEntryKind, AclError, Flag, GuidLookup, Perm, Qualifier};

const SPOTLIGHT_USER: u128 = 0xffffeeee_dddd_cccc_bbbb_aaaa00000059;
const SPOTLIGHT_GROUP: u128 = 0xabcdefab_cdef_abcd_efab_cdef00000059;

#[test]
fn test_user_named() {
    let user = Qualifier::user_named("89", None).ok();
    assert_eq!(user, Some(Qualifier::User(89)));

    let user = Qualifier::user_named("daemon", Some(1)).ok();
    assert_eq!(user, Some(Qualifier::User(1)));
}

#[test]
fn test_group_named() {
    let group = Qualifier::group_named("89", None).ok();
    assert_eq!(group, Some(Qualifier::Group(89)));

    let group = Qualifier::group_named("daemon", Some(1)).ok();
    assert_eq!(group, Some(Qualifier::Group(1)));
}

#[test]
fn test_from_guid() {
    let user = Qualifier::from_guid(SPOTLIGHT_USER, GuidLookup::Uid(89)).ok();
    assert_eq!(user, Some(Qualifier::User(89)));

    let group = Qualifier::from_guid(SPOTLIGHT_GROUP, GuidLookup::Gid(89)).ok();
    assert_eq!(group, Some(Qualifier::Group(89)));

    let user = Qualifier::from_guid(0, GuidLookup::NotFound).ok();
    assert_eq!(user, Some(Qualifier::Guid(0)));
}

#[test]
fn resolver_falls_back_to_decimal_and_owner() {
    assert_eq!(Qualifier::user_named("0", None).ok(), Some(Qualifier::User(0)));
    assert_eq!(Qualifier::user_named("", Some(5)).ok(), Some(Qualifier::UserObj));
    assert_eq!(Qualifier::group_named("", None).ok(), Some(Qualifier::GroupObj));
    match Qualifier::user_named("non_existant", None) {
        Err(AclError::UnknownPrincipal { kind, name }) => {
            assert_eq!(kind, AclEntryKind::User);
            assert_eq!(name, "non_existant");
        }
        other => panic!("unexpected {:?}", other),
    }
    assert!(Qualifier::user_named("4294967296", None).is_err());
    assert_eq!(Qualifier::user_named("4294967295", None).ok(), Some(Qualifier::User(u32::MAX)));
}

#[test]
fn pseudo_entries_take_only_the_empty_name() {
    assert_eq!(Qualifier::mask_named("").ok(), Some(Qualifier::Mask));
    assert_eq!(Qualifier::other_named("").ok(), Some(Qualifier::Other));
    assert_eq!(Qualifier::everyone_named("").ok(), Some(Qualifier::Everyone));
    assert!(matches!(
        Qualifier::mask_named("x"),
        Err(AclError::UnknownPrincipal { kind: AclEntryKind::Mask, .. })
    ));
    assert!(Qualifier::other_named("y").is_err());
    assert!(matches!(
        Qualifier::everyone_named("z"),
        Err(AclError::UnknownPrincipal { kind: AclEntryKind::Everyone, .. })
    ));
}

#[test]
fn guid_names_resolve_through_the_directory() {
    let text = "ffffeeee-dddd-cccc-bbbb-aaaa00000059";
    assert_eq!(Qualifier::guid_named(text), Some(SPOTLIGHT_USER));
    assert_eq!(Qualifier::guid_named("not a guid"), None);
    assert_eq!(
        Qualifier::user_named_guid(text, None, GuidLookup::Uid(89)).ok(),
        Some(Qualifier::User(89))
    );
    assert_eq!(
        Qualifier::group_named_guid("_spotlight", Some(89), GuidLookup::NotFound).ok(),
        Some(Qualifier::Group(89))
    );
    assert!(matches!(
        Qualifier::user_named_guid(text, None, GuidLookup::Failed(5)),
        Err(AclError::NativeFailure(5))
    ));
    assert!(Qualifier::user_named_guid("nobody", None, GuidLookup::NotFound).is_err());
}

#[test]
fn unknown_guid_type_keeps_its_text() {
    let q = Qualifier::from_guid(SPOTLIGHT_GROUP, GuidLookup::OtherType).unwrap();
    assert_eq!(q, Qualifier::Unknown("abcdefab-cdef-abcd-efab-cdef00000059".to_string()));
}

#[test]
fn names_of_principals() {
    assert_eq!(Qualifier::User(1500).name(None), "1500");
    assert_eq!(Qualifier::Group(1).name(Some("daemon".to_string())), "daemon");
    assert_eq!(Qualifier::UserObj.name(None), "");
    assert_eq!(Qualifier::Guid(SPOTLIGHT_USER).name(None), "ffffeeee-dddd-cccc-bbbb-aaaa00000059");
    assert_eq!(Qualifier::Unknown("7".to_string()).name(None), "7");
}

#[test]
fn guid_of_principals() {
    assert_eq!(Qualifier::User(89).guid(Ok(SPOTLIGHT_USER)).ok(), Some(SPOTLIGHT_USER));
    assert!(matches!(Qualifier::Group(89).guid(Err(2)), Err(AclError::NativeFailure(2))));
    assert_eq!(Qualifier::Guid(3).guid(Err(2)).ok(), Some(3));
    match Qualifier::Unknown("x".to_string()).guid(Ok(1)) {
        Err(AclError::UnknownPrincipal { kind, name }) => {
            assert_eq!(kind, AclEntryKind::Unknown);
            assert_eq!(name, "x");
        }
        other => panic!("unexpected {:?}", other),
    }
    assert!(matches!(Qualifier::Mask.guid(Ok(1)), Err(AclError::UnsupportedOperation)));
}

#[test]
fn decimal_text() {
    assert_eq!(decimal_string(0), "0");
    assert_eq!(decimal_string(4294967295), "4294967295");
    assert_eq!(parse_decimal("0500"), Some(500));
    assert_eq!(parse_decimal(""), None);
    assert_eq!(parse_decimal("12a"), None);
}

#[test]
fn entries_from_principals() {
    let e = AclEntry::from_qualifier(&Qualifier::GroupObj, None, Perm::read(), Flag::empty(), true);
    assert_eq!(e, AclEntry::allow_group("", Perm::read(), None));
    let e = AclEntry::from_qualifier(&Qualifier::User(1500), None, Perm::read(), Flag::empty(), true);
    assert_eq!(e.kind, AclEntryKind::User);
    assert_eq!(e.name, "1500");
    let e = AclEntry::from_qualifier(&Qualifier::Guid(SPOTLIGHT_GROUP), None, Perm::read(), Flag::empty(), false);
    assert_eq!(e.kind, AclEntryKind::Unknown);
    assert_eq!(e.name, "abcdefab-cdef-abcd-efab-cdef00000059");
}

#[test]
fn principals_of_entries() {
    assert_eq!(AclEntry::allow_user("", Perm::read(), None).qualifier(Some(3)).ok(), Some(Qualifier::UserObj));
    assert_eq!(AclEntry::allow_group("daemon", Perm::read(), None).qualifier(Some(1)).ok(), Some(Qualifier::Group(1)));
    assert_eq!(AclEntry::allow_mask(Perm::read(), None).qualifier(None).ok(), Some(Qualifier::Mask));
    assert_eq!(AclEntry::allow_other(Perm::read(), None).qualifier(None).ok(), Some(Qualifier::Other));
    assert!(AclEntry::allow_user("nobody_here", Perm::read(), None).qualifier(None).is_err());
}

#[test]
fn decimal_ids_may_carry_a_plus_sign() {
    assert_eq!(Qualifier::user_named("+5", None).ok(), Some(Qualifier::User(5)));
    assert_eq!(Qualifier::group_named("+5", None).ok(), Some(Qualifier::Group(5)));
    assert_eq!(parse_decimal("+0"), Some(0));
    assert_eq!(parse_decimal("+"), None);
    assert_eq!(parse_decimal("++1"), None);
    assert_eq!(parse_decimal("-1"), None);
}

#[test]
fn guid_platform_tries_decimal_before_guid() {
    assert_eq!(
        Qualifier::user_named_guid("89", None, GuidLookup::NotFound).ok(),
        Some(Qualifier::User(89))
    );
    assert_eq!(
        Qualifier::group_named_guid("+20", None, GuidLookup::NotFound).ok(),
        Some(Qualifier::Group(20))
    );
    assert_eq!(
        Qualifier::group_named_guid("abcdefab-cdef-abcd-efab-cdef00000014", None, GuidLookup::Gid(20)).ok(),
        Some(Qualifier::Group(20))
    );
}

#[test]
fn everyone_entries() {
    let e = AclEntry::from_qualifier(&Qualifier::Everyone, None, Perm::read(), Flag::empty(), true);
    assert_eq!(e.kind, AclEntryKind::Everyone);
    assert_eq!(e.name, "");
    assert_eq!(e.qualifier(None).ok(), Some(Qualifier::Everyone));
}
