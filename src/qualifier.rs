//! Principals of entries, and their resolution between names, numeric ids
//! and GUIDs.
use vstd::prelude::*;
use vstd::string::*;
use crate::bits::{Flag, Perm};
use crate::entry::{AclEntry, AclEntryKind, EntryView};
use crate::error::{AclError, ParseReason};
use crate::codec::{parse_line, parse_line_spec, is_parse_error};

verus! {

/// A principal that an entry applies to.
#[derive(Debug)]
pub enum Qualifier {
    User(u32),
    Group(u32),
    /// A principal known only by its GUID.
    Guid(u128),
    /// The file's owner.
    UserObj,
    /// The file's owning group.
    GroupObj,
    Other,
    Mask,
    Everyone,
    /// An unrecognised native tag, kept as text.
    Unknown(String),
}

pub enum QualifierView {
    User(u32),
    Group(u32),
    Guid(u128),
    UserObj,
    GroupObj,
    Other,
    Mask,
    Everyone,
    Unknown(Seq<char>),
}

impl View for Qualifier {
    type V = QualifierView;

    open spec fn view(&self) -> QualifierView {
        match self {
            Qualifier::User(u) => QualifierView::User(*u),
            Qualifier::Group(g) => QualifierView::Group(*g),
            Qualifier::Guid(g) => QualifierView::Guid(*g),
            Qualifier::UserObj => QualifierView::UserObj,
            Qualifier::GroupObj => QualifierView::GroupObj,
            Qualifier::Other => QualifierView::Other,
            Qualifier::Mask => QualifierView::Mask,
            Qualifier::Everyone => QualifierView::Everyone,
            Qualifier::Unknown(s) => QualifierView::Unknown(s@),
        }
    }
}

impl PartialEq for Qualifier {
    fn eq(&self, other: &Qualifier) -> (r: bool) {
        match (self, other) {
            (Qualifier::User(a), Qualifier::User(b)) => *a == *b,
            (Qualifier::Group(a), Qualifier::Group(b)) => *a == *b,
            (Qualifier::Guid(a), Qualifier::Guid(b)) => *a == *b,
            (Qualifier::UserObj, Qualifier::UserObj) => true,
            (Qualifier::GroupObj, Qualifier::GroupObj) => true,
            (Qualifier::Other, Qualifier::Other) => true,
            (Qualifier::Mask, Qualifier::Mask) => true,
            (Qualifier::Everyone, Qualifier::Everyone) => true,
            (Qualifier::Unknown(a), Qualifier::Unknown(b)) => a.eq(b),
            _ => false,
        }
    }
}

impl vstd::std_specs::cmp::PartialEqSpecImpl for Qualifier {
    open spec fn obeys_eq_spec() -> bool {
        true
    }

    open spec fn eq_spec(&self, other: &Qualifier) -> bool {
        self@ == other@
    }
}

/// What the directory reports for a GUID.
#[derive(Clone, Copy, Debug, PartialEq, Eq, Structural)]
pub enum GuidLookup {
    /// The GUID belongs to a user with this id.
    Uid(u32),
    /// The GUID belongs to a group with this id.
    Gid(u32),
    /// The GUID belongs to a principal of another type.
    OtherType,
    /// The directory has no entry for the GUID.
    NotFound,
    /// The lookup failed with this error code.
    Failed(i32),
}

/// The numeric value of a string of decimal digits.
pub open spec fn decimal_value(s: Seq<char>) -> int
    decreases s.len(),
{
    if s.len() == 0 {
        0
    } else {
        decimal_value(s.drop_last()) * 10 + (s.last() as int - '0' as int)
    }
}

pub open spec fn is_digit(c: char) -> bool {
    '0' <= c && c <= '9'
}

/// The string is a string of decimal digits whose value fits in 32 bits.
pub open spec fn is_digits_u32(s: Seq<char>) -> bool {
    &&& s.len() > 0
    &&& forall|i: int| 0 <= i < s.len() ==> is_digit(#[trigger] s[i])
    &&& decimal_value(s) <= u32::MAX
}

/// The digits of a decimal number: the text without one leading `+`.
pub open spec fn unsigned_digits(s: Seq<char>) -> Seq<char> {
    if s.len() > 0 && s[0] == '+' {
        s.drop_first()
    } else {
        s
    }
}

/// The string is a number in decimal, with an optional leading `+`, that
/// fits in 32 bits.
pub open spec fn is_decimal_u32(s: Seq<char>) -> bool {
    is_digits_u32(unsigned_digits(s))
}

/// The value of a decimal number with an optional leading `+`.
pub open spec fn decimal_number(s: Seq<char>) -> int {
    decimal_value(unsigned_digits(s))
}

/// The decimal text of a number, without leading zeros.
pub open spec fn decimal_text(n: nat) -> Seq<char>
    decreases n,
{
    if n < 10 {
        seq![digit_char(n)]
    } else {
        decimal_text(n / 10).push(digit_char(n % 10))
    }
}

pub open spec fn digit_char(d: nat) -> char {
    if d == 0 { '0' }
    else if d == 1 { '1' }
    else if d == 2 { '2' }
    else if d == 3 { '3' }
    else if d == 4 { '4' }
    else if d == 5 { '5' }
    else if d == 6 { '6' }
    else if d == 7 { '7' }
    else if d == 8 { '8' }
    else { '9' }
}

fn digit_str(d: u32) -> (r: &'static str)
    requires
        d < 10,
    ensures
        r@ == seq![digit_char(d as nat)],
{
    if d == 0 {
        proof { reveal_strlit("0"); }
        "0"
    } else if d == 1 {
        proof { reveal_strlit("1"); }
        "1"
    } else if d == 2 {
        proof { reveal_strlit("2"); }
        "2"
    } else if d == 3 {
        proof { reveal_strlit("3"); }
        "3"
    } else if d == 4 {
        proof { reveal_strlit("4"); }
        "4"
    } else if d == 5 {
        proof { reveal_strlit("5"); }
        "5"
    } else if d == 6 {
        proof { reveal_strlit("6"); }
        "6"
    } else if d == 7 {
        proof { reveal_strlit("7"); }
        "7"
    } else if d == 8 {
        proof { reveal_strlit("8"); }
        "8"
    } else {
        proof { reveal_strlit("9"); }
        "9"
    }
}

/// Writes a number in decimal.
pub fn decimal_string(n: u32) -> (r: String)
    ensures
        r@ == decimal_text(n as nat),
    decreases n,
{
    if n < 10 {
        String::from_str(digit_str(n))
    } else {
        let mut s = decimal_string(n / 10);
        s.append(digit_str(n % 10));
        s
    }
}

/// Reads a decimal number, with an optional leading `+`, that fits in 32
/// bits.
pub fn parse_decimal(s: &str) -> (r: Option<u32>)
    ensures
        r == (if is_decimal_u32(s@) { Some(decimal_number(s@) as u32) } else { None::<u32> }),
{
    let n = s.unicode_len();
    if n > 0 && s.get_char(0) == '+' {
        let rest = s.substring_char(1, n);
        assert(rest@ =~= s@.drop_first());
        parse_digits(rest)
    } else {
        parse_digits(s)
    }
}

/// Reads a string of decimal digits whose value fits in 32 bits.
fn parse_digits(s: &str) -> (r: Option<u32>)
    ensures
        r == (if is_digits_u32(s@) { Some(decimal_value(s@) as u32) } else { None::<u32> }),
{
    let n = s.unicode_len();
    if n == 0 {
        return None;
    }
    let mut value: u32 = 0;
    let mut i: usize = 0;
    while i < n
        invariant
            n == s@.len(),
            i <= n,
            value as int == decimal_value(s@.subrange(0, i as int)),
            forall|j: int| 0 <= j < i ==> is_digit(#[trigger] s@[j]),
        decreases n - i,
    {
        let c = s.get_char(i);
        assert(s@.subrange(0, i + 1).drop_last() =~= s@.subrange(0, i as int));
        if !('0' <= c && c <= '9') {
            return None;
        }
        let d = (c as u32) - ('0' as u32);
        if value > (u32::MAX - d) / 10 {
            proof {
                assert(decimal_value(s@.subrange(0, i + 1)) == value * 10 + d);
                if forall|j: int| 0 <= j < s@.len() ==> is_digit(#[trigger] s@[j]) {
                    lemma_decimal_prefix_grows(s@, i as int + 1);
                }
            }
            return None;
        }
        value = value * 10 + d;
        i = i + 1;
    }
    assert(s@.subrange(0, n as int) =~= s@);
    Some(value)
}

/// The value of a string of digits is at least that of any prefix.
proof fn lemma_decimal_prefix_grows(s: Seq<char>, k: int)
    requires
        0 <= k <= s.len(),
        forall|j: int| 0 <= j < s.len() ==> is_digit(#[trigger] s[j]),
    ensures
        decimal_value(s) >= decimal_value(s.subrange(0, k)),
    decreases s.len(),
{
    if s.len() > k {
        let t = s.drop_last();
        assert(t.subrange(0, k) =~= s.subrange(0, k));
        assert forall|j: int| 0 <= j < t.len() implies is_digit(#[trigger] t[j]) by {
            assert(t[j] == s[j]);
        }
        lemma_decimal_prefix_grows(t, k);
        lemma_decimal_nonneg(t);
    } else {
        assert(s.subrange(0, k) =~= s);
    }
}

proof fn lemma_decimal_nonneg(s: Seq<char>)
    requires
        forall|j: int| 0 <= j < s.len() ==> is_digit(#[trigger] s[j]),
    ensures
        decimal_value(s) >= 0,
    decreases s.len(),
{
    if s.len() > 0 {
        let t = s.drop_last();
        assert forall|j: int| 0 <= j < t.len() implies is_digit(#[trigger] t[j]) by {
            assert(t[j] == s[j]);
        }
        lemma_decimal_nonneg(t);
    }
}


/// What `uuid::Uuid::parse_str` reads from a text: the GUID as a 128-bit
/// number, or nothing.
pub uninterp spec fn guid_parse(s: Seq<char>) -> Option<u128>;

/// The lower-case hexadecimal digit of a value below 16.
pub open spec fn hex_digit(d: int) -> char {
    if d < 10 {
        (('0' as int) + d) as char
    } else {
        (('a' as int) + d - 10) as char
    }
}

/// The `i`-th of the 32 hexadecimal digits of a GUID, most significant
/// first.
pub open spec fn guid_nibble(g: u128, i: int) -> int {
    ((g >> ((4 * (31 - i)) as u128)) & 0xf) as int
}

/// Where a hyphen stands in the text of a GUID.
pub open spec fn is_guid_hyphen(k: int) -> bool {
    k == 8 || k == 13 || k == 18 || k == 23
}

/// The number of hyphens before position `k` of the text of a GUID.
pub open spec fn guid_hyphens_before(k: int) -> int {
    (if k > 8 { 1int } else { 0 }) + (if k > 13 { 1int } else { 0 }) + (if k > 18 { 1int } else { 0 })
        + (if k > 23 { 1int } else { 0 })
}

/// The hyphenated lower-case text of a GUID: its 32 hexadecimal digits,
/// most significant first, in groups of 8, 4, 4, 4 and 12.
pub open spec fn guid_text(g: u128) -> Seq<char> {
    Seq::new(
        36,
        |k: int|
            if is_guid_hyphen(k) {
                '-'
            } else {
                hex_digit(guid_nibble(g, k - guid_hyphens_before(k)))
            },
    )
}

/// Relies on `uuid::Uuid::parse_str`: its result depends on the text alone,
/// and the empty text is no GUID.
#[verifier::external_body]
fn parse_guid(s: &str) -> (r: Option<u128>)
    ensures
        r == guid_parse(s@),
        s@.len() == 0 ==> r is None,
{
    match uuid::Uuid::parse_str(s) {
        Ok(u) => Some(u.as_u128()),
        Err(_) => None,
    }
}

/// Relies on the `Display` of `uuid::Uuid`: the hyphenated lower-case text,
/// which `uuid::Uuid::parse_str` reads back to the same GUID.
#[verifier::external_body]
fn format_guid(g: u128) -> (r: String)
    ensures
        r@ == guid_text(g),
        guid_parse(r@) == Some(g),
{
    uuid::Uuid::from_u128(g).to_string()
}

/// The principal that a user name stands for where pseudo-entries exist:
/// the empty name is the owner; else the directory's answer `found`; else
/// the name read as a decimal id.
pub open spec fn user_resolution(name: Seq<char>, found: Option<u32>) -> Option<QualifierView> {
    if name.len() == 0 {
        Some(QualifierView::UserObj)
    } else if found is Some {
        Some(QualifierView::User(found->0))
    } else if is_decimal_u32(name) {
        Some(QualifierView::User(decimal_number(name) as u32))
    } else {
        None
    }
}

/// As `user_resolution`, for groups.
pub open spec fn group_resolution(name: Seq<char>, found: Option<u32>) -> Option<QualifierView> {
    if name.len() == 0 {
        Some(QualifierView::GroupObj)
    } else if found is Some {
        Some(QualifierView::Group(found->0))
    } else if is_decimal_u32(name) {
        Some(QualifierView::Group(decimal_number(name) as u32))
    } else {
        None
    }
}

/// The principal that a GUID stands for, given the directory's answer; an
/// error code where the lookup failed.
pub open spec fn guid_resolution(g: u128, lookup: GuidLookup) -> Result<QualifierView, i32> {
    match lookup {
        GuidLookup::Uid(u) => Ok(QualifierView::User(u)),
        GuidLookup::Gid(id) => Ok(QualifierView::Group(id)),
        GuidLookup::OtherType => Ok(QualifierView::Unknown(guid_text(g))),
        GuidLookup::NotFound => Ok(QualifierView::Guid(g)),
        GuidLookup::Failed(code) => Err(code),
    }
}

/// The principal that a name stands for where principals are GUIDs: the
/// directory's answer `found` for the name as a user (or group, by `kind`);
/// else the name read as a decimal id; else the GUID that the name spells,
/// resolved by `lookup`.
pub open spec fn guid_name_resolution(
    kind: AclEntryKind,
    name: Seq<char>,
    found: Option<u32>,
    lookup: GuidLookup,
) -> Option<Result<QualifierView, i32>> {
    if found is Some {
        Some(
            Ok(
                if kind == AclEntryKind::User {
                    QualifierView::User(found->0)
                } else {
                    QualifierView::Group(found->0)
                },
            ),
        )
    } else if is_decimal_u32(name) {
        Some(
            Ok(
                if kind == AclEntryKind::User {
                    QualifierView::User(decimal_number(name) as u32)
                } else {
                    QualifierView::Group(decimal_number(name) as u32)
                },
            ),
        )
    } else if guid_parse(name) is Some {
        Some(guid_resolution(guid_parse(name)->0, lookup))
    } else {
        None
    }
}

/// The error for a name that resolves to nothing.
pub open spec fn is_unknown_name(e: AclError, kind: AclEntryKind, name: Seq<char>) -> bool {
    e matches AclError::UnknownPrincipal { kind: k, name: n } && k == kind && n@ == name
}

/// The display name of a principal: the directory's name `found` for a
/// user or group id, else its decimal text; a GUID's text; the empty name
/// for pseudo-entries; an unknown tag's text.
pub open spec fn qualifier_name(q: QualifierView, found: Option<Seq<char>>) -> Seq<char> {
    match q {
        QualifierView::User(id) => if found is Some { found->0 } else { decimal_text(id as nat) },
        QualifierView::Group(id) => if found is Some { found->0 } else { decimal_text(id as nat) },
        QualifierView::Guid(g) => guid_text(g),
        QualifierView::Unknown(s) => s,
        _ => Seq::empty(),
    }
}

fn unknown_name(kind: AclEntryKind, name: &str) -> (e: AclError)
    ensures
        is_unknown_name(e, kind, name@),
{
    AclError::UnknownPrincipal { kind, name: String::from_str(name) }
}

impl Qualifier {
    /// Resolves a user name where pseudo-entries exist. `found` is the
    /// directory's answer for `name`; it is not consulted for the empty name.
    pub fn user_named(name: &str, found: Option<u32>) -> (r: Result<Qualifier, AclError>)
        ensures
            match r {
                Ok(q) => user_resolution(name@, found) == Some(q@),
                Err(e) => user_resolution(name@, found) is None && is_unknown_name(
                    e,
                    AclEntryKind::User,
                    name@,
                ),
            },
    {
        if name.unicode_len() == 0 {
            return Ok(Qualifier::UserObj);
        }
        match found {
            Some(uid) => Ok(Qualifier::User(uid)),
            None => match parse_decimal(name) {
                Some(uid) => Ok(Qualifier::User(uid)),
                None => Err(unknown_name(AclEntryKind::User, name)),
            },
        }
    }

    /// Resolves a group name where pseudo-entries exist. `found` is the
    /// directory's answer for `name`; it is not consulted for the empty name.
    pub fn group_named(name: &str, found: Option<u32>) -> (r: Result<Qualifier, AclError>)
        ensures
            match r {
                Ok(q) => group_resolution(name@, found) == Some(q@),
                Err(e) => group_resolution(name@, found) is None && is_unknown_name(
                    e,
                    AclEntryKind::Group,
                    name@,
                ),
            },
    {
        if name.unicode_len() == 0 {
            return Ok(Qualifier::GroupObj);
        }
        match found {
            Some(gid) => Ok(Qualifier::Group(gid)),
            None => match parse_decimal(name) {
                Some(gid) => Ok(Qualifier::Group(gid)),
                None => Err(unknown_name(AclEntryKind::Group, name)),
            },
        }
    }

    /// Resolves a GUID, given the directory's answer for it. A GUID that the
    /// directory does not know stays a GUID principal.
    pub fn from_guid(guid: u128, lookup: GuidLookup) -> (r: Result<Qualifier, AclError>)
        ensures
            match r {
                Ok(q) => guid_resolution(guid, lookup) == Ok::<QualifierView, i32>(q@),
                Err(e) => guid_resolution(guid, lookup) matches Err(code) && e
                    == AclError::NativeFailure(code),
            },
    {
        match lookup {
            GuidLookup::Uid(uid) => Ok(Qualifier::User(uid)),
            GuidLookup::Gid(gid) => Ok(Qualifier::Group(gid)),
            GuidLookup::OtherType => Ok(Qualifier::Unknown(format_guid(guid))),
            GuidLookup::NotFound => Ok(Qualifier::Guid(guid)),
            GuidLookup::Failed(code) => Err(AclError::NativeFailure(code)),
        }
    }

    /// The GUID that a name spells, if any.
    pub fn guid_named(name: &str) -> (r: Option<u128>)
        ensures
            r == guid_parse(name@),
    {
        parse_guid(name)
    }

    /// Resolves a user name where principals are GUIDs. `found` is the
    /// directory's answer for the name; `lookup` its answer for the GUID
    /// that the name spells (see `guid_named`), consulted only where `found`
    /// is `None` and the name is no decimal id.
    pub fn user_named_guid(name: &str, found: Option<u32>, lookup: GuidLookup) -> (r: Result<
        Qualifier,
        AclError,
    >)
        ensures
            match guid_name_resolution(AclEntryKind::User, name@, found, lookup) {
                Some(Ok(v)) => r matches Ok(q) && q@ == v,
                Some(Err(code)) => r matches Err(e) && e == AclError::NativeFailure(code),
                None => r matches Err(e) && is_unknown_name(e, AclEntryKind::User, name@),
            },
    {
        match found {
            Some(uid) => Ok(Qualifier::User(uid)),
            None => match parse_decimal(name) {
                Some(uid) => Ok(Qualifier::User(uid)),
                None => match parse_guid(name) {
                    Some(g) => Qualifier::from_guid(g, lookup),
                    None => Err(unknown_name(AclEntryKind::User, name)),
                },
            },
        }
    }

    /// Resolves a group name where principals are GUIDs; see
    /// `user_named_guid`.
    pub fn group_named_guid(name: &str, found: Option<u32>, lookup: GuidLookup) -> (r: Result<
        Qualifier,
        AclError,
    >)
        ensures
            match guid_name_resolution(AclEntryKind::Group, name@, found, lookup) {
                Some(Ok(v)) => r matches Ok(q) && q@ == v,
                Some(Err(code)) => r matches Err(e) && e == AclError::NativeFailure(code),
                None => r matches Err(e) && is_unknown_name(e, AclEntryKind::Group, name@),
            },
    {
        match found {
            Some(gid) => Ok(Qualifier::Group(gid)),
            None => match parse_decimal(name) {
                Some(gid) => Ok(Qualifier::Group(gid)),
                None => match parse_guid(name) {
                    Some(g) => Qualifier::from_guid(g, lookup),
                    None => Err(unknown_name(AclEntryKind::Group, name)),
                },
            },
        }
    }

    /// The mask carries no identity: only the empty name is accepted.
    pub fn mask_named(name: &str) -> (r: Result<Qualifier, AclError>)
        ensures
            name@.len() == 0 ==> (r matches Ok(q) && q@ == QualifierView::Mask),
            name@.len() > 0 ==> (r matches Err(e) && is_unknown_name(e, AclEntryKind::Mask, name@)),
    {
        if name.unicode_len() == 0 {
            Ok(Qualifier::Mask)
        } else {
            Err(unknown_name(AclEntryKind::Mask, name))
        }
    }

    /// The other class carries no identity: only the empty name is accepted.
    pub fn other_named(name: &str) -> (r: Result<Qualifier, AclError>)
        ensures
            name@.len() == 0 ==> (r matches Ok(q) && q@ == QualifierView::Other),
            name@.len() > 0 ==> (r matches Err(e) && is_unknown_name(e, AclEntryKind::Other, name@)),
    {
        if name.unicode_len() == 0 {
            Ok(Qualifier::Other)
        } else {
            Err(unknown_name(AclEntryKind::Other, name))
        }
    }

    /// The everyone class carries no identity: only the empty name is
    /// accepted.
    pub fn everyone_named(name: &str) -> (r: Result<Qualifier, AclError>)
        ensures
            name@.len() == 0 ==> (r matches Ok(q) && q@ == QualifierView::Everyone),
            name@.len() > 0 ==> (r matches Err(e) && is_unknown_name(
                e,
                AclEntryKind::Everyone,
                name@,
            )),
    {
        if name.unicode_len() == 0 {
            Ok(Qualifier::Everyone)
        } else {
            Err(unknown_name(AclEntryKind::Everyone, name))
        }
    }

    /// The GUID of the principal. `mapped` is the directory's answer for a
    /// user or group id (a GUID, or an error code); it is not consulted for
    /// other principals.
    pub fn guid(&self, mapped: Result<u128, i32>) -> (r: Result<u128, AclError>)
        ensures
            match self@ {
                QualifierView::User(_) | QualifierView::Group(_) => match mapped {
                    Ok(g) => r == Ok::<u128, AclError>(g),
                    Err(code) => r matches Err(e) && e == AclError::NativeFailure(code),
                },
                QualifierView::Guid(g) => r == Ok::<u128, AclError>(g),
                QualifierView::Unknown(tag) => r matches Err(e) && is_unknown_name(
                    e,
                    AclEntryKind::Unknown,
                    tag,
                ),
                _ => r matches Err(e) && e == AclError::UnsupportedOperation,
            },
    {
        match self {
            Qualifier::User(_) | Qualifier::Group(_) => match mapped {
                Ok(g) => Ok(g),
                Err(code) => Err(AclError::NativeFailure(code)),
            },
            Qualifier::Guid(g) => Ok(*g),
            Qualifier::Unknown(tag) => Err(
                AclError::UnknownPrincipal { kind: AclEntryKind::Unknown, name: tag.clone() },
            ),
            _ => Err(AclError::UnsupportedOperation),
        }
    }

    /// The display name of the principal. `found` is the directory's name
    /// for a user or group id; it is not consulted for other principals.
    pub fn name(&self, found: Option<String>) -> (r: String)
        ensures
            r@ == qualifier_name(
                self@,
                match found {
                    Some(s) => Some(s@),
                    None => None,
                },
            ),
    {
        match self {
            Qualifier::User(id) | Qualifier::Group(id) => match found {
                Some(s) => s,
                None => decimal_string(*id),
            },
            Qualifier::Guid(g) => format_guid(*g),
            Qualifier::Unknown(s) => s.clone(),
            _ => String::new(),
        }
    }
}

/// The empty user name is the owner whatever the directory holds, and a
/// decimal name that the directory does not know is the user with that id.
pub proof fn lemma_user_resolution_fallback(name: Seq<char>, found: Option<u32>)
    ensures
        name.len() == 0 ==> user_resolution(name, found) == Some(QualifierView::UserObj),
        name.len() > 0 && found is None && is_decimal_u32(name) ==> user_resolution(name, found)
            == Some(QualifierView::User(decimal_number(name) as u32)),
{
}

/// The kind of entry for a principal's family.
pub open spec fn kind_of(q: QualifierView) -> AclEntryKind {
    match q {
        QualifierView::User(_) | QualifierView::UserObj => AclEntryKind::User,
        QualifierView::Group(_) | QualifierView::GroupObj => AclEntryKind::Group,
        QualifierView::Other => AclEntryKind::Other,
        QualifierView::Everyone => AclEntryKind::Everyone,
        QualifierView::Mask => AclEntryKind::Mask,
        QualifierView::Guid(_) | QualifierView::Unknown(_) => AclEntryKind::Unknown,
    }
}

/// The principal of an entry where pseudo-entries exist, given the
/// directory's answer `found` for its name; `None` where it resolves to none.
pub open spec fn entry_resolution(e: EntryView, found: Option<u32>) -> Option<QualifierView> {
    match e.kind {
        AclEntryKind::User => user_resolution(e.name, found),
        AclEntryKind::Group => group_resolution(e.name, found),
        AclEntryKind::Other => if e.name.len() == 0 {
            Some(QualifierView::Other)
        } else {
            None
        },
        AclEntryKind::Mask => if e.name.len() == 0 {
            Some(QualifierView::Mask)
        } else {
            None
        },
        AclEntryKind::Everyone => if e.name.len() == 0 {
            Some(QualifierView::Everyone)
        } else {
            None
        },
        AclEntryKind::Unknown => None,
    }
}

impl AclEntry {
    /// The entry of a principal; `found` is the directory's name for a user
    /// or group id.
    pub fn from_qualifier(
        q: &Qualifier,
        found: Option<String>,
        perms: Perm,
        flags: Flag,
        allow: bool,
    ) -> (r: AclEntry)
        ensures
            r@ == (EntryView {
                kind: kind_of(q@),
                name: qualifier_name(
                    q@,
                    match found {
                        Some(s) => Some(s@),
                        None => None,
                    },
                ),
                perms,
                flags,
                allow,
            }),
    {
        let kind = match q {
            Qualifier::User(_) | Qualifier::UserObj => AclEntryKind::User,
            Qualifier::Group(_) | Qualifier::GroupObj => AclEntryKind::Group,
            Qualifier::Other => AclEntryKind::Other,
            Qualifier::Everyone => AclEntryKind::Everyone,
            Qualifier::Mask => AclEntryKind::Mask,
            Qualifier::Guid(_) | Qualifier::Unknown(_) => AclEntryKind::Unknown,
        };
        AclEntry { kind, name: q.name(found), perms, flags, allow }
    }

    /// The principal of the entry where pseudo-entries exist. `found` is the
    /// directory's answer for the entry's name.
    pub fn qualifier(&self, found: Option<u32>) -> (r: Result<Qualifier, AclError>)
        ensures
            match r {
                Ok(q) => entry_resolution(self@, found) == Some(q@),
                Err(e) => entry_resolution(self@, found) is None && (if self.kind
                    == AclEntryKind::Unknown {
                    e == AclError::UnsupportedOperation
                } else {
                    is_unknown_name(e, self.kind, self.name@)
                }),
            },
    {
        let name = self.name.as_str();
        match self.kind {
            AclEntryKind::User => Qualifier::user_named(name, found),
            AclEntryKind::Group => Qualifier::group_named(name, found),
            AclEntryKind::Other => Qualifier::other_named(name),
            AclEntryKind::Mask => Qualifier::mask_named(name),
            AclEntryKind::Everyone => Qualifier::everyone_named(name),
            AclEntryKind::Unknown => Err(AclError::UnsupportedOperation),
        }
    }
}

/// Reads one line of text as an entry and resolves its principal where
/// pseudo-entries exist. `found` is the directory's answer for the line's
/// name. A name that resolves to no principal makes the line no entry.
pub fn parse_line_resolved(line: &str, found: Option<u32>) -> (r: Result<
    (AclEntry, Qualifier),
    AclError,
>)
    ensures
        match parse_line_spec(line@) {
            Err(reason) => r matches Err(err) && is_parse_error(err, line@, reason),
            Ok(e) => match entry_resolution(e, found) {
                Some(q) => r matches Ok(p) && p.0@ == e && p.1@ == q,
                None => r matches Err(err) && is_parse_error(err, line@, ParseReason::UnknownName),
            },
        },
{
    let entry = parse_line(line)?;
    match entry.qualifier(found) {
        Ok(q) => Ok((entry, q)),
        Err(_) => Err(AclError::ParseFailure { line: String::from_str(line), reason: ParseReason::UnknownName }),
    }
}

} // verus!
