use exacl::{for_each_1bit, Flag, FlagName, Perm};

#[test]
fn test_for_each_1bit() {
    let v = for_each_1bit(0);
    assert_eq!(v.len(), 0);

    let v = for_each_1bit(1 + 2 + 4 + 32 + 2048);
    assert_eq!(v, vec![1, 2, 4, 32, 2048]);
}

#[test]
fn for_each_1bit_highest_bit() {
    assert_eq!(for_each_1bit(0x8000_0001), vec![1, 0x8000_0000]);
}

#[test]
fn perm_from_bits_rejects_unknown_bits() {
    assert_eq!(Perm::from_bits(7), Some(Perm { bits: 7 }));
    assert_eq!(Perm::from_bits(8), None);
    assert_eq!(Flag::from_bits(255), Some(Flag { bits: 255 }));
    assert_eq!(Flag::from_bits(256), None);
}

#[test]
fn perm_union_and_contains() {
    let rw = Perm::read().union(Perm::write());
    assert_eq!(rw.bits, 3);
    assert!(rw.contains(Perm::read()));
    assert!(!rw.contains(Perm::execute()));
    assert_eq!(rw.intersection(Perm::write()).bits, 2);
    assert!(Perm::empty().is_empty());
}

#[test]
fn flag_name_round_trip() {
    assert_eq!(FlagName::from_flag(Flag::inherited()), Some(FlagName::Inherited));
    assert_eq!(FlagName::from_flag(Flag::default_acl()), Some(FlagName::Default));
    assert_eq!(FlagName::from_flag(Flag { bits: 3 }), None);
    assert_eq!(FlagName::Default.to_flag(), Flag::default_acl());
    assert_eq!(FlagName::DeferInherit.to_flag().bits, 1);
}
