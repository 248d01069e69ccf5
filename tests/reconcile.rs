use exacl::reconcile::{complete_access, compute_mask, split_unified, DEFAULT_ACL, IGNORE_EXPECTED_FILE_ERR};
use exacl::{getfacl, setfacl, AclEntry, AclEntryKind, AclError, AclOption, AclTarget, Flag, Perm, WriteStep};

fn rw() -> Perm {
    Perm::read().union(Perm::write())
}

fn access_list() -> Vec<AclEntry> {
    vec![
        AclEntry::allow_user("", rw(), None),
        AclEntry::allow_user("u1", Perm::read(), None),
        AclEntry::allow_group("", Perm::read(), None),
        AclEntry::allow_other(Perm::empty(), None),
    ]
}

#[test]
fn mask_is_union_of_named_and_owning_group() {
    assert_eq!(compute_mask(&access_list()), Perm::read());
    let mut v = access_list();
    v.push(AclEntry::allow_group("staff", Perm::execute(), None));
    assert_eq!(compute_mask(&v).bits, 5);
}

#[test]
fn complete_access_adds_missing_mask() {
    let v = complete_access(access_list()).unwrap();
    assert_eq!(v.len(), 5);
    assert_eq!(v[4], AclEntry::allow_mask(Perm::read(), None));

    let mut with_mask = access_list();
    with_mask.push(AclEntry::allow_mask(rw(), None));
    assert_eq!(complete_access(with_mask).unwrap().len(), 5);
}

#[test]
fn complete_access_rejects_missing_entries() {
    let mut v = access_list();
    v.remove(3);
    assert!(matches!(complete_access(v), Err(AclError::InvalidAcl)));
    let mut v = access_list();
    v.push(AclEntry::deny_user("u2", Perm::read(), None));
    assert!(matches!(complete_access(v), Err(AclError::InvalidAcl)));
}

#[test]
fn split_by_default_mark() {
    let mut v = access_list();
    v.insert(1, AclEntry::allow_user("", rw(), Some(Flag::default_acl())));
    let (access, default) = split_unified(&v);
    assert_eq!(access.len(), 4);
    assert_eq!(default.len(), 1);
    assert_eq!(default[0].flags, Flag::default_acl());
}

#[test]
fn setfacl_writes_default_list_before_access_list() {
    let mut v = access_list();
    v.push(AclEntry::allow_user("", rw(), Some(Flag::default_acl())));
    let plan = setfacl(2, &v, AclOption::empty()).unwrap();
    assert_eq!(plan.access.len(), 5);
    assert_eq!(plan.default.len(), 1);
    assert_eq!(
        plan.steps,
        vec![
            WriteStep { path: 0, target: AclTarget::Default, tolerant: false },
            WriteStep { path: 0, target: AclTarget::Access, tolerant: false },
            WriteStep { path: 1, target: AclTarget::Default, tolerant: false },
            WriteStep { path: 1, target: AclTarget::Access, tolerant: false },
        ]
    );
}

#[test]
fn setfacl_default_only() {
    let v = vec![AclEntry::allow_user("", rw(), None)];
    let opts = AclOption { bits: DEFAULT_ACL | IGNORE_EXPECTED_FILE_ERR };
    let plan = setfacl(1, &v, opts).unwrap();
    assert!(plan.access.is_empty());
    assert_eq!(plan.default.len(), 1);
    assert_eq!(plan.steps, vec![WriteStep { path: 0, target: AclTarget::Default, tolerant: false }]);
    let plan = setfacl(1, &Vec::new(), opts).unwrap();
    assert_eq!(plan.steps, vec![WriteStep { path: 0, target: AclTarget::Default, tolerant: true }]);
    let deny = vec![AclEntry::deny_user("a", rw(), None)];
    assert!(matches!(setfacl(1, &deny, AclOption::default_acl()), Err(AclError::InvalidAcl)));
}

#[test]
fn setfacl_rejects_incomplete_access_list() {
    let v = vec![AclEntry::allow_user("u1", rw(), None)];
    assert!(matches!(setfacl(1, &v, AclOption::empty()), Err(AclError::InvalidAcl)));
    assert!(matches!(setfacl(1, &Vec::new(), AclOption::empty()), Err(AclError::InvalidAcl)));
}

#[test]
fn getfacl_marks_default_entries() {
    let access = access_list();
    let default = vec![AclEntry::allow_user("", rw(), None)];
    let all = getfacl(access, default, AclOption::empty());
    assert_eq!(all.len(), 5);
    assert_eq!(all[4].flags, Flag::default_acl());
    assert_eq!(all[4].kind, AclEntryKind::User);
    assert_eq!(all[0].flags, Flag::empty());

    let only = getfacl(Vec::new(), vec![AclEntry::allow_other(Perm::read(), None)], AclOption::default_acl());
    assert_eq!(only.len(), 1);
    assert_eq!(only[0].flags, Flag::default_acl());
}

#[test]
fn setfacl_empty_default_list_is_written_tolerantly() {
    let plan = setfacl(1, &access_list(), AclOption::empty()).unwrap();
    assert!(plan.default.is_empty());
    assert_eq!(
        plan.steps,
        vec![
            WriteStep { path: 0, target: AclTarget::Default, tolerant: true },
            WriteStep { path: 0, target: AclTarget::Access, tolerant: false },
        ]
    );
}

#[test]
fn setfacl_rejects_deny_in_default_list() {
    let mut v = access_list();
    v.push(AclEntry::deny_user("u2", Perm::read(), Some(Flag::default_acl())));
    assert!(matches!(setfacl(1, &v, AclOption::empty()), Err(AclError::InvalidAcl)));
}
