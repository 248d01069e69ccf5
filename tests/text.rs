use exacl::{
    format_entry, from_text, parse_line, parse_line_resolved, to_text, trim_comment, AclEntry,
    AclEntryKind, AclError, Flag, FlagName, ParseReason, Perm, Qualifier,
};

fn reason_of(r: Result<AclEntry, AclError>) -> ParseReason {
    match r {
        Err(AclError::ParseFailure { reason, .. }) => reason,
        other => panic!("unexpected {:?}", other),
    }
}

#[test]
fn full_line_parses_and_prints_back() {
    let e = parse_line("allow::group:admin:read,write").unwrap();
    assert_eq!(e.kind, AclEntryKind::Group);
    assert_eq!(e.name, "admin");
    assert_eq!(e.perms, Perm::read().union(Perm::write()));
    assert_eq!(e.flags, Flag::empty());
    assert!(e.allow);
    assert_eq!(format_entry(&e), "allow::group:admin:read,write");
}

#[test]
fn abbreviated_default_line() {
    let e = parse_line("d:u:chip:rw").unwrap();
    assert_eq!(e.kind, AclEntryKind::User);
    assert_eq!(e.name, "chip");
    assert_eq!(e.perms.bits, 3);
    assert_eq!(e.flags, Flag::default_acl());
    assert!(e.allow);
    assert_eq!(format_entry(&e), "allow:default:user:chip:read,write");
}

#[test]
fn three_field_line_with_comment_and_spaces() {
    let e = parse_line("  g : admin : rw  # ignored").unwrap();
    assert_eq!(e.kind, AclEntryKind::Group);
    assert_eq!(e.name, "admin");
    assert_eq!(e.perms.bits, 3);
    assert!(e.allow);
}

#[test]
fn deny_line_with_flags() {
    let e = parse_line("deny:file_inherit,inherited:user:chet:rwx").unwrap();
    assert!(!e.allow);
    assert_eq!(e.flags.bits, 4 + 8);
    assert_eq!(e.perms.bits, 7);
    assert_eq!(format_entry(&e), "deny:inherited,file_inherit:user:chet:read,write,execute");
}

#[test]
fn parse_errors_name_the_reason_and_line() {
    assert_eq!(reason_of(parse_line("user:bob")), ParseReason::FieldCount);
    assert_eq!(reason_of(parse_line("a:b:c:d:e:f")), ParseReason::FieldCount);
    assert_eq!(reason_of(parse_line("maybe::user:bob:r")), ParseReason::UnknownAllow);
    assert_eq!(reason_of(parse_line("bogus:user:bob:r")), ParseReason::UnknownFlag);
    assert_eq!(reason_of(parse_line("person:bob:r")), ParseReason::UnknownKind);
    assert_eq!(reason_of(parse_line("user:bob:rq")), ParseReason::UnknownPerm);
    match parse_line("user:bob:rq") {
        Err(AclError::ParseFailure { line, .. }) => assert_eq!(line, "user:bob:rq"),
        other => panic!("unexpected {:?}", other),
    }
}

#[test]
fn text_round_trip() {
    let entries = vec![
        AclEntry::allow_user("", Perm::read().union(Perm::write()), None),
        AclEntry::deny_group("staff", Perm::execute(), Some(Flag::inherited())),
        AclEntry::allow_other(Perm::empty(), None),
        AclEntry::allow_mask(Perm::read(), Some(Flag::default_acl())),
    ];
    let text = to_text(&entries);
    assert_eq!(
        text,
        "allow::user::read,write\ndeny:inherited:group:staff:execute\nallow::other::\nallow:default:mask::read\n"
    );
    let back = from_text(&text).unwrap();
    assert_eq!(back, entries);
}

#[test]
fn from_text_skips_blank_and_comment_lines() {
    let text = "# header\n\nallow::group:admin:read,write\ng:admin:rw  # ignored\n   \nd:u:chip:rw";
    let v = from_text(text).unwrap();
    assert_eq!(v.len(), 3);
    assert_eq!(v[2].flags, Flag::default_acl());
}

#[test]
fn from_text_reports_first_bad_line() {
    match from_text("u:a:r\nu:b:zz\nnonsense") {
        Err(AclError::ParseFailure { line, reason }) => {
            assert_eq!(line, "u:b:zz");
            assert_eq!(reason, ParseReason::UnknownPerm);
        }
        other => panic!("unexpected {:?}", other),
    }
}

#[test]
fn empty_text_is_no_entries() {
    assert!(from_text("").unwrap().is_empty());
    assert_eq!(to_text(&Vec::new()), "");
}

#[test]
fn trim_comment_cuts_at_hash() {
    assert_eq!(trim_comment("u:a:r # note"), "u:a:r ");
    assert_eq!(trim_comment("no comment"), "no comment");
    assert_eq!(trim_comment("#all"), "");
}

#[test]
fn names_with_inner_spaces_round_trip() {
    let entries = vec![
        AclEntry::allow_user("John Smith", Perm::read(), None),
        AclEntry::checked(AclEntryKind::Everyone, "", Perm::execute(), None, true, true).unwrap(),
    ];
    let text = to_text(&entries);
    assert_eq!(text, "allow::user:John Smith:read\nallow::everyone::execute\n");
    assert_eq!(from_text(&text).unwrap(), entries);
}

#[test]
fn unicode_white_space_is_trimmed() {
    let e = parse_line("\u{a0}u :\u{3000}bob\u{2003}: r\u{85}").unwrap();
    assert_eq!(e.kind, AclEntryKind::User);
    assert_eq!(e.name, "bob");
    assert_eq!(e.perms, Perm::read());
}

#[test]
fn flag_names_fold_into_a_set() {
    let f = Flag::from_names(&vec![FlagName::Inherited, FlagName::Default, FlagName::Inherited]);
    assert_eq!(f.bits, 4 + 128);
    assert_eq!(Flag::from_names(&Vec::new()), Flag::empty());
}

#[test]
fn resolved_lines_name_unknown_principals() {
    let (e, q) = parse_line_resolved("allow::group:admin:read,write", Some(80)).unwrap();
    assert_eq!(e.name, "admin");
    assert_eq!(q, Qualifier::Group(80));
    let (_, q) = parse_line_resolved("u::rw", None).unwrap();
    assert_eq!(q, Qualifier::UserObj);
    match parse_line_resolved("g:nosuchgroup:r", None) {
        Err(AclError::ParseFailure { line, reason }) => {
            assert_eq!(line, "g:nosuchgroup:r");
            assert_eq!(reason, ParseReason::UnknownName);
        }
        other => panic!("unexpected {:?}", other),
    }
    assert_eq!(reason_of(parse_line_resolved("person:x:r", None).map(|p| p.0)), ParseReason::UnknownKind);
}
