//! ACL entries and their canonical order.
use vstd::prelude::*;
use crate::bits::{Perm, Flag, INHERITED};
use crate::error::AclError;
use vstd::string::*;
use core::cmp::Ordering;
use vstd::multiset::Multiset;

verus! {

/// The family of principal an entry applies to.
#[derive(Clone, Copy, Debug, PartialEq, Eq, Structural)]
pub enum AclEntryKind {
    User,
    Group,
    Other,
    Mask,
    Everyone,
    Unknown,
}

/// One access-control entry. An empty `name` with kind `User` or `Group`
/// stands for the file's owner or owning group.
#[derive(Debug)]
pub struct AclEntry {
    pub kind: AclEntryKind,
    pub name: String,
    pub perms: Perm,
    pub flags: Flag,
    pub allow: bool,
}

/// The value of an entry, with its name as a sequence of characters.
pub struct EntryView {
    pub kind: AclEntryKind,
    pub name: Seq<char>,
    pub perms: Perm,
    pub flags: Flag,
    pub allow: bool,
}

impl View for AclEntry {
    type V = EntryView;

    open spec fn view(&self) -> EntryView {
        EntryView {
            kind: self.kind,
            name: self.name@,
            perms: self.perms,
            flags: self.flags,
            allow: self.allow,
        }
    }
}

impl PartialEq for AclEntry {
    fn eq(&self, other: &AclEntry) -> (r: bool) {
        self.kind == other.kind && self.name == other.name && self.perms == other.perms
            && self.flags == other.flags && self.allow == other.allow
    }
}

impl vstd::std_specs::cmp::PartialEqSpecImpl for AclEntry {
    open spec fn obeys_eq_spec() -> bool {
        true
    }

    open spec fn eq_spec(&self, other: &AclEntry) -> bool {
        self@ == other@
    }
}

/// The views of a sequence of entries.
pub open spec fn views(s: Seq<AclEntry>) -> Seq<EntryView> {
    s.map_values(|e: AclEntry| e@)
}

pub open spec fn int_cmp(x: int, y: int) -> int {
    if x < y {
        -1
    } else if x > y {
        1
    } else {
        0
    }
}

/// Lexicographic comparison of two names from position `i` on.
pub open spec fn name_cmp(a: Seq<char>, b: Seq<char>, i: int) -> int
    decreases a.len() - i,
{
    if i < 0 || (i >= a.len() && i >= b.len()) {
        0
    } else if i >= a.len() {
        -1
    } else if i >= b.len() {
        1
    } else if a[i] != b[i] {
        int_cmp(a[i] as int, b[i] as int)
    } else {
        name_cmp(a, b, i + 1)
    }
}

/// Position of an entry's principal class: owner, owning group, named
/// users, named groups, mask, other, everyone, unknown.
pub open spec fn class_rank(v: EntryView) -> int {
    match v.kind {
        AclEntryKind::User => if v.name.len() == 0 { 0 } else { 2 },
        AclEntryKind::Group => if v.name.len() == 0 { 1 } else { 3 },
        AclEntryKind::Mask => 4,
        AclEntryKind::Other => 5,
        AclEntryKind::Everyone => 6,
        AclEntryKind::Unknown => 7,
    }
}

pub open spec fn is_inherited(v: EntryView) -> bool {
    v.flags.bits & INHERITED != 0
}

/// Canonical order: deny before allow, then non-inherited before inherited,
/// then by principal class, then by name, permissions and flags.
pub open spec fn entry_cmp(a: EntryView, b: EntryView) -> int {
    let c1 = int_cmp(if a.allow { 1 } else { 0 }, if b.allow { 1 } else { 0 });
    let c2 = int_cmp(if is_inherited(a) { 1 } else { 0 }, if is_inherited(b) { 1 } else { 0 });
    let c3 = int_cmp(class_rank(a), class_rank(b));
    let c4 = name_cmp(a.name, b.name, 0);
    let c5 = int_cmp(a.perms.bits as int, b.perms.bits as int);
    let c6 = int_cmp(a.flags.bits as int, b.flags.bits as int);
    if c1 != 0 {
        c1
    } else if c2 != 0 {
        c2
    } else if c3 != 0 {
        c3
    } else if c4 != 0 {
        c4
    } else if c5 != 0 {
        c5
    } else {
        c6
    }
}

pub open spec fn entry_le(a: EntryView, b: EntryView) -> bool {
    entry_cmp(a, b) <= 0
}

/// Every entry precedes or equals every later one.
pub open spec fn sorted(s: Seq<EntryView>) -> bool {
    forall|i: int, j: int| 0 <= i < j < s.len() ==> entry_le(#[trigger] s[i], #[trigger] s[j])
}

proof fn lemma_name_cmp_antisym(a: Seq<char>, b: Seq<char>, i: int)
    requires
        0 <= i,
    ensures
        name_cmp(a, b, i) == -name_cmp(b, a, i),
        -1 <= name_cmp(a, b, i) <= 1,
    decreases a.len() - i,
{
    if i < a.len() && i < b.len() && a[i] == b[i] {
        lemma_name_cmp_antisym(a, b, i + 1);
    }
}

proof fn lemma_name_cmp_eq(a: Seq<char>, b: Seq<char>, i: int)
    requires
        0 <= i <= a.len(),
        i <= b.len(),
        name_cmp(a, b, i) == 0,
    ensures
        a.len() == b.len(),
        a.subrange(i, a.len() as int) =~= b.subrange(i, b.len() as int),
    decreases a.len() - i,
{
    if i < a.len() && i < b.len() {
        lemma_name_cmp_eq(a, b, i + 1);
        assert(a[i] == b[i]);
        assert(a.subrange(i, a.len() as int) =~= seq![a[i]] + a.subrange(i + 1, a.len() as int));
        assert(b.subrange(i, b.len() as int) =~= seq![b[i]] + b.subrange(i + 1, b.len() as int));
    }
}

proof fn lemma_name_cmp_trans(a: Seq<char>, b: Seq<char>, c: Seq<char>, i: int)
    requires
        0 <= i,
        name_cmp(a, b, i) <= 0,
        name_cmp(b, c, i) <= 0,
    ensures
        name_cmp(a, c, i) <= 0,
        (name_cmp(a, b, i) < 0 || name_cmp(b, c, i) < 0) ==> name_cmp(a, c, i) < 0,
    decreases a.len() - i,
{
    if i < a.len() && i < b.len() && i < c.len() && a[i] == b[i] && b[i] == c[i] {
        lemma_name_cmp_trans(a, b, c, i + 1);
    }
}

/// The canonical order is a total order on entry values.
pub proof fn lemma_entry_cmp_order(a: EntryView, b: EntryView, c: EntryView)
    ensures
        entry_cmp(a, b) == -entry_cmp(b, a),
        entry_cmp(a, b) == 0 ==> a == b,
        entry_le(a, b) && entry_le(b, c) ==> entry_le(a, c),
{
    lemma_name_cmp_antisym(a.name, b.name, 0);
    lemma_name_cmp_antisym(b.name, c.name, 0);
    lemma_name_cmp_antisym(a.name, c.name, 0);
    if entry_cmp(a, b) == 0 {
        lemma_name_cmp_eq(a.name, b.name, 0);
        assert(a.name =~= a.name.subrange(0, a.name.len() as int));
        assert(b.name =~= b.name.subrange(0, b.name.len() as int));
        assert(a.name == b.name);
        assert(a.kind == b.kind);
        assert(a.perms == b.perms);
        assert(a.flags == b.flags);
    }
    if entry_le(a, b) && entry_le(b, c) {
        if name_cmp(a.name, b.name, 0) <= 0 && name_cmp(b.name, c.name, 0) <= 0 {
            lemma_name_cmp_trans(a.name, b.name, c.name, 0);
        }
    }
}

/// Two sorted sequences that hold the same entries, counted with
/// multiplicity, are the same sequence.
pub proof fn lemma_sorted_unique(a: Seq<EntryView>, b: Seq<EntryView>)
    requires
        sorted(a),
        sorted(b),
        a.to_multiset() == b.to_multiset(),
    ensures
        a == b,
    decreases a.len(),
{
    broadcast use vstd::seq_lib::group_to_multiset_ensures;

    assert(a.len() == b.len()) by {
        assert(a.len() == a.to_multiset().len());
        assert(b.len() == b.to_multiset().len());
    }
    if a.len() > 0 {
        let x = a[0];
        let y = b[0];
        assert(a.contains(x));
        assert(b.to_multiset().count(x) > 0);
        assert(b.contains(x));
        let k = choose|k: int| 0 <= k < b.len() && b[k] == x;
        assert(entry_le(y, x)) by {
            if k > 0 {
                assert(entry_le(b[0], b[k]));
            } else {
                lemma_entry_cmp_order(x, x, x);
            }
        }
        assert(b.contains(y));
        assert(a.to_multiset().count(y) > 0);
        assert(a.contains(y));
        let m = choose|m: int| 0 <= m < a.len() && a[m] == y;
        assert(entry_le(x, y)) by {
            if m > 0 {
                assert(entry_le(a[0], a[m]));
            } else {
                lemma_entry_cmp_order(y, y, y);
            }
        }
        lemma_entry_cmp_order(x, y, y);
        assert(x == y);
        let a1 = a.remove(0);
        let b1 = b.remove(0);
        assert(a1.to_multiset() == a.to_multiset().remove(x));
        assert(b1.to_multiset() == b.to_multiset().remove(y));
        assert(sorted(a1)) by {
            assert forall|i: int, j: int| 0 <= i < j < a1.len() implies entry_le(
                #[trigger] a1[i],
                #[trigger] a1[j],
            ) by {
                assert(a1[i] == a[i + 1]);
                assert(a1[j] == a[j + 1]);
            }
        }
        assert(sorted(b1)) by {
            assert forall|i: int, j: int| 0 <= i < j < b1.len() implies entry_le(
                #[trigger] b1[i],
                #[trigger] b1[j],
            ) by {
                assert(b1[i] == b[i + 1]);
                assert(b1[j] == b[j + 1]);
            }
        }
        lemma_sorted_unique(a1, b1);
        assert(a =~= seq![x] + a1);
        assert(b =~= seq![y] + b1);
    }
}


/// Sorting is idempotent and canonical: whatever order two arrangements of
/// the same entries come in, the sorted results (sorted, and holding the same
/// entries as their input) are one and the same sequence; in particular a
/// sorted sequence sorted again is unchanged.
pub proof fn lemma_sort_canonical(
    x: Seq<EntryView>,
    y: Seq<EntryView>,
    sorted_x: Seq<EntryView>,
    sorted_y: Seq<EntryView>,
)
    requires
        x.to_multiset() == y.to_multiset(),
        sorted(sorted_x),
        sorted_x.to_multiset() == x.to_multiset(),
        sorted(sorted_y),
        sorted_y.to_multiset() == y.to_multiset(),
    ensures
        sorted_x == sorted_y,
        sorted(x) ==> sorted_x == x,
{
    lemma_sorted_unique(sorted_x, sorted_y);
    if sorted(x) {
        lemma_sorted_unique(sorted_x, x);
    }
}

fn compare_names(a: &String, b: &String) -> (r: i8)
    ensures
        r as int == name_cmp(a@, b@, 0),
{
    let sa = a.as_str();
    let sb = b.as_str();
    let la = sa.unicode_len();
    let lb = sb.unicode_len();
    let mut i: usize = 0;
    while i < la && i < lb
        invariant
            sa@ == a@,
            sb@ == b@,
            la == a@.len(),
            lb == b@.len(),
            i <= la,
            i <= lb,
            name_cmp(a@, b@, 0) == name_cmp(a@, b@, i as int),
        decreases la - i,
    {
        let ca = sa.get_char(i);
        let cb = sb.get_char(i);
        if ca != cb {
            if (ca as u32) < (cb as u32) {
                return -1;
            } else {
                return 1;
            }
        }
        i = i + 1;
    }
    if la == lb {
        0
    } else if la < lb {
        -1
    } else {
        1
    }
}

fn cmp_int(x: u32, y: u32) -> (r: i8)
    ensures
        r as int == int_cmp(x as int, y as int),
{
    if x < y {
        -1
    } else if x > y {
        1
    } else {
        0
    }
}

impl AclEntry {
    /// The entry's principal class, as placed in the canonical order.
    fn class_rank(&self) -> (r: u32)
        ensures
            r as int == class_rank(self@),
    {
        match self.kind {
            AclEntryKind::User => if self.name.as_str().unicode_len() == 0 { 0 } else { 2 },
            AclEntryKind::Group => if self.name.as_str().unicode_len() == 0 { 1 } else { 3 },
            AclEntryKind::Mask => 4,
            AclEntryKind::Other => 5,
            AclEntryKind::Everyone => 6,
            AclEntryKind::Unknown => 7,
        }
    }

    fn compare(&self, other: &AclEntry) -> (r: i8)
        ensures
            r as int == entry_cmp(self@, other@),
    {
        let c1 = cmp_int(if self.allow { 1 } else { 0 }, if other.allow { 1 } else { 0 });
        if c1 != 0 {
            return c1;
        }
        let c2 = cmp_int(
            if self.flags.bits & INHERITED != 0 { 1 } else { 0 },
            if other.flags.bits & INHERITED != 0 { 1 } else { 0 },
        );
        if c2 != 0 {
            return c2;
        }
        let c3 = cmp_int(self.class_rank(), other.class_rank());
        if c3 != 0 {
            return c3;
        }
        let c4 = compare_names(&self.name, &other.name);
        if c4 != 0 {
            return c4;
        }
        let c5 = cmp_int(self.perms.bits, other.perms.bits);
        if c5 != 0 {
            return c5;
        }
        cmp_int(self.flags.bits, other.flags.bits)
    }

    /// Compares two entries in canonical order.
    pub fn canonical_cmp(&self, other: &AclEntry) -> (r: Ordering)
        ensures
            r == (if entry_cmp(self@, other@) < 0 {
                Ordering::Less
            } else if entry_cmp(self@, other@) > 0 {
                Ordering::Greater
            } else {
                Ordering::Equal
            }),
    {
        let c = self.compare(other);
        if c < 0 {
            Ordering::Less
        } else if c > 0 {
            Ordering::Greater
        } else {
            Ordering::Equal
        }
    }
}

/// Sorts entries into canonical order, in place.
pub fn sort(entries: &mut Vec<AclEntry>)
    ensures
        sorted(views(final(entries)@)),
        views(final(entries)@).to_multiset() == views(old(entries)@).to_multiset(),
{
    broadcast use vstd::seq_lib::group_to_multiset_ensures;
    broadcast use vstd::seq_lib::to_multiset_insert;

    let mut out: Vec<AclEntry> = Vec::new();
    assert(views(out@).to_multiset() =~= Multiset::empty()) by {
        assert(views(out@) =~= Seq::<EntryView>::empty());
    }
    while entries.len() > 0
        invariant
            sorted(views(out@)),
            views(out@).to_multiset().add(views(entries@).to_multiset()) == views(
                old(entries)@,
            ).to_multiset(),
        decreases entries.len(),
    {
        let ghost before = entries@;
        let e = entries.pop().unwrap();
        assert(views(before) =~= views(entries@).push(e@));
        let mut k: usize = 0;
        while k < out.len() && out[k].compare(&e) <= 0
            invariant
                k <= out.len(),
                forall|j: int| 0 <= j < k ==> entry_le(#[trigger] out@[j]@, e@),
            decreases out.len() - k,
        {
            k = k + 1;
        }
        let ghost prev = out@;
        out.insert(k, e);
        assert(views(out@) =~= views(prev).insert(k as int, e@));
        proof {
            vstd::seq_lib::to_multiset_insert(views(prev), k as int, e@);
            vstd::seq_lib::to_multiset_build(views(entries@), e@);
        }
        assert(views(out@).to_multiset() == views(prev).to_multiset().insert(e@));
        assert(views(before).to_multiset() == views(entries@).to_multiset().insert(e@));
        assert(views(out@).to_multiset().add(views(entries@).to_multiset()) =~= views(
            prev,
        ).to_multiset().add(views(before).to_multiset()));
        assert(sorted(views(out@))) by {
            let s = views(out@);
            assert forall|i: int, j: int| 0 <= i < j < s.len() implies entry_le(
                #[trigger] s[i],
                #[trigger] s[j],
            ) by {
                let p = views(prev);
                if j < k {
                    assert(s[i] == p[i] && s[j] == p[j]);
                } else if j == k {
                    assert(s[j] == e@);
                    assert(s[i] == p[i]);
                } else if i == k {
                    assert(s[i] == e@);
                    assert(s[j] == p[j - 1]);
                    lemma_entry_cmp_order(p[k as int], e@, e@);
                    if j - 1 > k {
                        assert(entry_le(p[k as int], p[j - 1]));
                    } else {
                        lemma_entry_cmp_order(p[k as int], p[k as int], p[k as int]);
                    }
                    lemma_entry_cmp_order(e@, p[k as int], p[j - 1]);
                } else if i < k {
                    assert(s[i] == p[i] && s[j] == p[j - 1]);
                } else {
                    assert(s[i] == p[i - 1] && s[j] == p[j - 1]);
                }
            }
        }
    }
    assert(views(entries@) =~= Seq::<EntryView>::empty());
    assert(views(entries@).to_multiset() =~= Multiset::empty());
    assert(views(out@).to_multiset().add(Multiset::empty()) =~= views(out@).to_multiset());
    *entries = out;
}

/// The entry that the constructors build.
pub open spec fn entry_of(
    kind: AclEntryKind,
    name: Seq<char>,
    perms: Perm,
    flags: Option<Flag>,
    allow: bool,
) -> EntryView {
    EntryView {
        kind,
        name,
        perms,
        flags: match flags {
            Some(f) => f,
            None => Flag { bits: 0 },
        },
        allow,
    }
}

impl AclEntry {
    fn build(kind: AclEntryKind, name: &str, perms: Perm, flags: Option<Flag>, allow: bool) -> (r:
        AclEntry)
        ensures
            r@ == entry_of(kind, name@, perms, flags, allow),
    {
        let flags = match flags {
            Some(f) => f,
            None => Flag { bits: 0 },
        };
        AclEntry { kind, name: String::from_str(name), perms, flags, allow }
    }

    /// An entry that allows a user (the owner, for the empty name).
    pub fn allow_user(name: &str, perms: Perm, flags: Option<Flag>) -> (r: AclEntry)
        ensures
            r@ == entry_of(AclEntryKind::User, name@, perms, flags, true),
    {
        Self::build(AclEntryKind::User, name, perms, flags, true)
    }

    /// An entry that allows a group (the owning group, for the empty name).
    pub fn allow_group(name: &str, perms: Perm, flags: Option<Flag>) -> (r: AclEntry)
        ensures
            r@ == entry_of(AclEntryKind::Group, name@, perms, flags, true),
    {
        Self::build(AclEntryKind::Group, name, perms, flags, true)
    }

    /// The entry of all other principals.
    pub fn allow_other(perms: Perm, flags: Option<Flag>) -> (r: AclEntry)
        ensures
            r@ == entry_of(AclEntryKind::Other, Seq::empty(), perms, flags, true),
    {
        proof {
            reveal_strlit("");
            assert(""@ =~= Seq::<char>::empty());
        }
        Self::build(AclEntryKind::Other, "", perms, flags, true)
    }

    /// The mask entry.
    pub fn allow_mask(perms: Perm, flags: Option<Flag>) -> (r: AclEntry)
        ensures
            r@ == entry_of(AclEntryKind::Mask, Seq::empty(), perms, flags, true),
    {
        proof {
            reveal_strlit("");
            assert(""@ =~= Seq::<char>::empty());
        }
        Self::build(AclEntryKind::Mask, "", perms, flags, true)
    }

    /// An entry that denies a user.
    pub fn deny_user(name: &str, perms: Perm, flags: Option<Flag>) -> (r: AclEntry)
        ensures
            r@ == entry_of(AclEntryKind::User, name@, perms, flags, false),
    {
        Self::build(AclEntryKind::User, name, perms, flags, false)
    }

    /// An entry that denies a group.
    pub fn deny_group(name: &str, perms: Perm, flags: Option<Flag>) -> (r: AclEntry)
        ensures
            r@ == entry_of(AclEntryKind::Group, name@, perms, flags, false),
    {
        Self::build(AclEntryKind::Group, name, perms, flags, false)
    }

    /// Builds an entry, checking it: the other, mask and everyone classes
    /// carry no name, and deny entries need a platform that supports them.
    pub fn checked(
        kind: AclEntryKind,
        name: &str,
        perms: Perm,
        flags: Option<Flag>,
        allow: bool,
        deny_supported: bool,
    ) -> (r: Result<AclEntry, AclError>)
        ensures
            match r {
                Ok(e) => e@ == entry_of(kind, name@, perms, flags, allow) && (allow
                    || deny_supported) && ((kind == AclEntryKind::Other || kind
                    == AclEntryKind::Mask || kind == AclEntryKind::Everyone) ==> name@.len() == 0),
                Err(err) => if (kind == AclEntryKind::Other || kind == AclEntryKind::Mask
                    || kind == AclEntryKind::Everyone) && name@.len() > 0 {
                    err matches AclError::UnknownPrincipal { kind: k, name: n } && k == kind
                        && n@ == name@
                } else {
                    !allow && !deny_supported && err == AclError::UnsupportedOperation
                },
            },
    {
        if (kind == AclEntryKind::Other || kind == AclEntryKind::Mask || kind
            == AclEntryKind::Everyone) && name.unicode_len() > 0 {
            return Err(AclError::UnknownPrincipal { kind, name: String::from_str(name) });
        }
        if !allow && !deny_supported {
            return Err(AclError::UnsupportedOperation);
        }
        Ok(Self::build(kind, name, perms, flags, allow))
    }
}

} // verus!
