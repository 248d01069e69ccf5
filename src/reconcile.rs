//! Splitting a unified entry list into access and default lists, completing
//! the access list, and planning the writes to a batch of paths.
use vstd::prelude::*;
use vstd::string::*;
use crate::bits::{Perm, Flag, DEFAULT};
use crate::entry::{AclEntry, AclEntryKind, EntryView, views};
use crate::error::AclError;

verus! {

/// Options of reading and writing: operate on a symlink itself, on the
/// default list only, and tolerate "not a directory" for default lists.
#[derive(Clone, Copy, Debug, PartialEq, Eq, Structural)]
pub struct AclOption {
    pub bits: u32,
}

pub const SYMLINK_ACL: u32 = 1;
pub const DEFAULT_ACL: u32 = 2;
pub const IGNORE_EXPECTED_FILE_ERR: u32 = 4;

impl AclOption {
    pub fn empty() -> (r: AclOption)
        ensures
            r.bits == 0,
    {
        AclOption { bits: 0 }
    }

    pub fn default_acl() -> (r: AclOption)
        ensures
            r.bits == DEFAULT_ACL,
    {
        AclOption { bits: DEFAULT_ACL }
    }

    pub open spec fn has(self, bit: u32) -> bool {
        self.bits & bit != 0
    }

    pub fn contains(self, bit: u32) -> (r: bool)
        ensures
            r == self.has(bit),
    {
        self.bits & bit != 0
    }
}

pub open spec fn is_default(v: EntryView) -> bool {
    v.flags.bits & DEFAULT != 0
}

/// The entries of `s` that belong to the access list, in order.
pub open spec fn access_part(s: Seq<EntryView>) -> Seq<EntryView>
    decreases s.len(),
{
    if s.len() == 0 {
        Seq::empty()
    } else if is_default(s.last()) {
        access_part(s.drop_last())
    } else {
        access_part(s.drop_last()).push(s.last())
    }
}

/// The entries of `s` that belong to the default list, in order.
pub open spec fn default_part(s: Seq<EntryView>) -> Seq<EntryView>
    decreases s.len(),
{
    if s.len() == 0 {
        Seq::empty()
    } else if is_default(s.last()) {
        default_part(s.drop_last()).push(s.last())
    } else {
        default_part(s.drop_last())
    }
}

pub open spec fn is_owner(v: EntryView) -> bool {
    v.kind == AclEntryKind::User && v.name.len() == 0
}

pub open spec fn is_owning_group(v: EntryView) -> bool {
    v.kind == AclEntryKind::Group && v.name.len() == 0
}

pub open spec fn is_named(v: EntryView) -> bool {
    (v.kind == AclEntryKind::User || v.kind == AclEntryKind::Group) && v.name.len() > 0
}

/// The entry's permissions count towards a computed mask.
pub open spec fn masked(v: EntryView) -> bool {
    is_named(v) || is_owning_group(v)
}

/// The union of the permissions of the named users, named groups and the
/// owning group in `s`.
pub open spec fn mask_perms(s: Seq<EntryView>) -> u32
    decreases s.len(),
{
    if s.len() == 0 {
        0
    } else if masked(s.last()) {
        mask_perms(s.drop_last()) | s.last().perms.bits
    } else {
        mask_perms(s.drop_last())
    }
}

pub open spec fn has_entry(s: Seq<EntryView>, pred: spec_fn(EntryView) -> bool) -> bool {
    exists|i: int| 0 <= i < s.len() && pred(#[trigger] s[i])
}

/// The access list holds the owner, owning group and other entries, and no
/// deny entry.
pub open spec fn access_complete(s: Seq<EntryView>) -> bool {
    &&& has_entry(s, |v: EntryView| is_owner(v))
    &&& has_entry(s, |v: EntryView| is_owning_group(v))
    &&& has_entry(s, |v: EntryView| v.kind == AclEntryKind::Other)
    &&& !has_entry(s, |v: EntryView| !v.allow)
}

/// A mask is to be added: named entries and no mask entry.
pub open spec fn needs_mask(s: Seq<EntryView>) -> bool {
    has_entry(s, |v: EntryView| is_named(v)) && !has_entry(
        s,
        |v: EntryView| v.kind == AclEntryKind::Mask,
    )
}

/// The mask entry computed for an access list.
pub open spec fn mask_entry(s: Seq<EntryView>) -> EntryView {
    EntryView {
        kind: AclEntryKind::Mask,
        name: Seq::empty(),
        perms: Perm { bits: mask_perms(s) },
        flags: Flag { bits: 0 },
        allow: true,
    }
}

/// The access list as written: with a computed mask where one is needed.
pub open spec fn completed(s: Seq<EntryView>) -> Seq<EntryView> {
    if needs_mask(s) {
        s.push(mask_entry(s))
    } else {
        s
    }
}

/// The entry with the default mark added.
pub open spec fn marked(v: EntryView) -> EntryView {
    EntryView { flags: Flag { bits: v.flags.bits | DEFAULT }, ..v }
}

impl AclEntry {
    /// A copy of the entry.
    pub fn clone_entry(&self) -> (r: AclEntry)
        ensures
            r@ == self@,
    {
        AclEntry {
            kind: self.kind,
            name: self.name.clone(),
            perms: self.perms,
            flags: self.flags,
            allow: self.allow,
        }
    }
}

/// Partitions a unified list into its access and default lists.
pub fn split_unified(entries: &Vec<AclEntry>) -> (r: (Vec<AclEntry>, Vec<AclEntry>))
    ensures
        views(r.0@) == access_part(views(entries@)),
        views(r.1@) == default_part(views(entries@)),
{
    let mut access: Vec<AclEntry> = Vec::new();
    let mut default: Vec<AclEntry> = Vec::new();
    let mut i: usize = 0;
    while i < entries.len()
        invariant
            i <= entries@.len(),
            views(access@) == access_part(views(entries@.subrange(0, i as int))),
            views(default@) == default_part(views(entries@.subrange(0, i as int))),
        decreases entries.len() - i,
    {
        let ghost s = views(entries@.subrange(0, i + 1));
        assert(s.drop_last() =~= views(entries@.subrange(0, i as int)));
        assert(s.last() == entries@[i as int]@);
        let e = entries[i].clone_entry();
        if e.flags.bits & DEFAULT != 0 {
            default.push(e);
        } else {
            access.push(e);
        }
        assert(views(access@) =~= access_part(s));
        assert(views(default@) =~= default_part(s));
        i = i + 1;
    }
    assert(entries@.subrange(0, entries@.len() as int) =~= entries@);
    (access, default)
}

/// The union of the permissions of the named users, named groups and the
/// owning group.
pub fn compute_mask(entries: &Vec<AclEntry>) -> (r: Perm)
    requires
        forall|i: int| 0 <= i < entries@.len() ==> (#[trigger] entries@[i]).perms.wf(),
    ensures
        r.bits == mask_perms(views(entries@)),
        r.wf(),
{
    let mut mask = Perm::empty();
    let mut i: usize = 0;
    while i < entries.len()
        invariant
            i <= entries@.len(),
            mask.wf(),
            mask.bits == mask_perms(views(entries@.subrange(0, i as int))),
            forall|i: int| 0 <= i < entries@.len() ==> (#[trigger] entries@[i]).perms.wf(),
        decreases entries.len() - i,
    {
        let ghost s = views(entries@.subrange(0, i + 1));
        assert(s.drop_last() =~= views(entries@.subrange(0, i as int)));
        assert(s.last() == entries@[i as int]@);
        let e = &entries[i];
        let counted = e.kind == AclEntryKind::Group || (e.kind == AclEntryKind::User
            && e.name.as_str().unicode_len() > 0);
        if counted {
            mask = mask.union(e.perms);
        }
        i = i + 1;
    }
    assert(entries@.subrange(0, entries@.len() as int) =~= entries@);
    mask
}


proof fn lemma_has_entry_push(s: Seq<EntryView>, x: EntryView, p: spec_fn(EntryView) -> bool)
    ensures
        has_entry(s.push(x), p) == (has_entry(s, p) || p(x)),
{
    let t = s.push(x);
    if has_entry(s, p) {
        let i = choose|i: int| 0 <= i < s.len() && p(#[trigger] s[i]);
        assert(t[i] == s[i]);
    }
    if p(x) {
        assert(t[s.len() as int] == x);
    }
    if has_entry(t, p) {
        let i = choose|i: int| 0 <= i < t.len() && p(#[trigger] t[i]);
        if i < s.len() {
            assert(s[i] == t[i]);
        }
    }
}

/// Checks that an access list is complete, and adds the computed mask where
/// named entries have none.
pub fn complete_access(access: Vec<AclEntry>) -> (r: Result<Vec<AclEntry>, AclError>)
    requires
        forall|i: int| 0 <= i < access@.len() ==> (#[trigger] access@[i]).perms.wf(),
    ensures
        match r {
            Ok(v) => access_complete(views(access@)) && views(v@) == completed(views(access@)),
            Err(e) => !access_complete(views(access@)) && e == AclError::InvalidAcl,
        },
{
    let ghost full = views(access@);
    let mut owner = false;
    let mut group = false;
    let mut other = false;
    let mut deny = false;
    let mut named = false;
    let mut mask = false;
    let mut i: usize = 0;
    while i < access.len()
        invariant
            i <= access@.len(),
            full == views(access@),
            owner == has_entry(views(access@.subrange(0, i as int)), |v: EntryView| is_owner(v)),
            group == has_entry(
                views(access@.subrange(0, i as int)),
                |v: EntryView| is_owning_group(v),
            ),
            other == has_entry(
                views(access@.subrange(0, i as int)),
                |v: EntryView| v.kind == AclEntryKind::Other,
            ),
            deny == has_entry(views(access@.subrange(0, i as int)), |v: EntryView| !v.allow),
            named == has_entry(views(access@.subrange(0, i as int)), |v: EntryView| is_named(v)),
            mask == has_entry(
                views(access@.subrange(0, i as int)),
                |v: EntryView| v.kind == AclEntryKind::Mask,
            ),
        decreases access.len() - i,
    {
        let ghost s = views(access@.subrange(0, i as int));
        let ghost x = access@[i as int]@;
        assert(views(access@.subrange(0, i + 1)) =~= s.push(x));
        proof {
            lemma_has_entry_push(s, x, |v: EntryView| is_owner(v));
            lemma_has_entry_push(s, x, |v: EntryView| is_owning_group(v));
            lemma_has_entry_push(s, x, |v: EntryView| v.kind == AclEntryKind::Other);
            lemma_has_entry_push(s, x, |v: EntryView| !v.allow);
            lemma_has_entry_push(s, x, |v: EntryView| is_named(v));
            lemma_has_entry_push(s, x, |v: EntryView| v.kind == AclEntryKind::Mask);
        }
        let e = &access[i];
        let empty = e.name.as_str().unicode_len() == 0;
        match e.kind {
            AclEntryKind::User => {
                if empty {
                    owner = true;
                } else {
                    named = true;
                }
            },
            AclEntryKind::Group => {
                if empty {
                    group = true;
                } else {
                    named = true;
                }
            },
            AclEntryKind::Other => {
                other = true;
            },
            AclEntryKind::Mask => {
                mask = true;
            },
            AclEntryKind::Everyone | AclEntryKind::Unknown => {},
        }
        if !e.allow {
            deny = true;
        }
        i = i + 1;
    }
    assert(access@.subrange(0, access@.len() as int) =~= access@);
    if !owner || !group || !other || deny {
        return Err(AclError::InvalidAcl);
    }
    if named && !mask {
        let perms = compute_mask(&access);
        let mut out = access;
        let m = AclEntry {
            kind: AclEntryKind::Mask,
            name: String::new(),
            perms,
            flags: Flag::empty(),
            allow: true,
        };
        let ghost before = out@;
        out.push(m);
        assert(views(out@) =~= views(before).push(m@));
        assert(m@ == mask_entry(full)) by {
            assert(m@.name =~= Seq::<char>::empty());
        }
        Ok(out)
    } else {
        Ok(access)
    }
}

/// Which list of a path a write replaces.
#[derive(Clone, Copy, Debug, PartialEq, Eq, Structural)]
pub enum AclTarget {
    Access,
    Default,
}

/// One write of a batch: the list `target` of the path at index `path`.
/// A tolerant write treats "no default list supported here" as success.
#[derive(Clone, Copy, Debug, PartialEq, Eq, Structural)]
pub struct WriteStep {
    pub path: usize,
    pub target: AclTarget,
    pub tolerant: bool,
}

/// The lists to write and the writes to make, in order. The writes stop at
/// the first failure.
pub struct SetPlan {
    pub access: Vec<AclEntry>,
    pub default: Vec<AclEntry>,
    pub steps: Vec<WriteStep>,
}

/// The writes for `n` paths: with the default-only option, the default
/// list of each path; else for each path its default list first, then its
/// access list, so that a failing default write leaves the access list
/// untouched. A default write tolerates "no default list supported here"
/// only for an empty default list (with the default-only option, only where
/// the options ask for it too).
pub open spec fn plan_steps(n: nat, options: AclOption, default_empty: bool) -> Seq<WriteStep> {
    if options.has(DEFAULT_ACL) {
        Seq::new(
            n,
            |i: int|
                WriteStep {
                    path: i as usize,
                    target: AclTarget::Default,
                    tolerant: options.has(IGNORE_EXPECTED_FILE_ERR) && default_empty,
                },
        )
    } else {
        Seq::new(
            2 * n,
            |k: int|
                if k % 2 == 0 {
                    WriteStep {
                        path: (k / 2) as usize,
                        target: AclTarget::Default,
                        tolerant: default_empty,
                    }
                } else {
                    WriteStep {
                        path: (k / 2) as usize,
                        target: AclTarget::Access,
                        tolerant: false,
                    }
                },
        )
    }
}

fn clone_all(entries: &Vec<AclEntry>) -> (r: Vec<AclEntry>)
    ensures
        views(r@) == views(entries@),
{
    let mut out: Vec<AclEntry> = Vec::new();
    let mut i: usize = 0;
    while i < entries.len()
        invariant
            i <= entries@.len(),
            views(out@) == views(entries@.subrange(0, i as int)),
        decreases entries.len() - i,
    {
        let e = entries[i].clone_entry();
        let ghost prev = out@;
        out.push(e);
        assert(views(out@) =~= views(prev).push(e@));
        assert(views(entries@.subrange(0, i + 1)) =~= views(entries@.subrange(0, i as int)).push(
            entries@[i as int]@,
        ));
        i = i + 1;
    }
    assert(entries@.subrange(0, entries@.len() as int) =~= entries@);
    out
}

fn has_deny(entries: &Vec<AclEntry>) -> (r: bool)
    ensures
        r == has_entry(views(entries@), |v: EntryView| !v.allow),
{
    let mut i: usize = 0;
    while i < entries.len()
        invariant
            i <= entries@.len(),
            forall|j: int| 0 <= j < i ==> (#[trigger] entries@[j]).allow,
        decreases entries.len() - i,
    {
        if !entries[i].allow {
            assert(views(entries@)[i as int] == entries@[i as int]@);
            return true;
        }
        i = i + 1;
    }
    assert forall|j: int| 0 <= j < views(entries@).len() implies (#[trigger] views(entries@)[j]).allow by {
        assert(views(entries@)[j] == entries@[j]@);
    }
    false
}

/// Plans the writes of `entries` to `n_paths` paths. Deny entries are not
/// supported. With the default-only option the entries are the default
/// list. Else they are a unified list: its access part must be complete, and
/// gets a computed mask where it has named entries and none.
pub fn setfacl(n_paths: usize, entries: &Vec<AclEntry>, options: AclOption) -> (r: Result<
    SetPlan,
    AclError,
>)
    requires
        n_paths <= usize::MAX / 2,
        forall|i: int| 0 <= i < entries@.len() ==> (#[trigger] entries@[i]).perms.wf(),
    ensures
        options.has(DEFAULT_ACL) ==> match r {
            Ok(p) => !has_entry(views(entries@), |v: EntryView| !v.allow) && p.access@.len() == 0
                && views(p.default@) == views(entries@) && p.steps@ == plan_steps(
                n_paths as nat,
                options,
                entries@.len() == 0,
            ),
            Err(e) => has_entry(views(entries@), |v: EntryView| !v.allow) && e
                == AclError::InvalidAcl,
        },
        !options.has(DEFAULT_ACL) ==> match r {
            Ok(p) => !has_entry(views(entries@), |v: EntryView| !v.allow) && access_complete(
                access_part(views(entries@)),
            ) && views(p.access@) == completed(access_part(views(entries@))) && views(p.default@)
                == default_part(views(entries@)) && p.steps@ == plan_steps(
                n_paths as nat,
                options,
                default_part(views(entries@)).len() == 0,
            ),
            Err(e) => (has_entry(views(entries@), |v: EntryView| !v.allow) || !access_complete(
                access_part(views(entries@)),
            )) && e == AclError::InvalidAcl,
        },
{
    let mut steps: Vec<WriteStep> = Vec::new();
    if options.contains(DEFAULT_ACL) {
        if has_deny(entries) {
            return Err(AclError::InvalidAcl);
        }
        let tolerant = options.contains(IGNORE_EXPECTED_FILE_ERR) && entries.len() == 0;
        let mut i: usize = 0;
        while i < n_paths
            invariant
                i <= n_paths,
                options.has(DEFAULT_ACL),
                tolerant == (options.has(IGNORE_EXPECTED_FILE_ERR) && entries@.len() == 0),
                steps@ == plan_steps(n_paths as nat, options, entries@.len() == 0).subrange(
                    0,
                    i as int,
                ),
            decreases n_paths - i,
        {
            steps.push(WriteStep { path: i, target: AclTarget::Default, tolerant });
            assert(steps@ =~= plan_steps(n_paths as nat, options, entries@.len() == 0).subrange(
                0,
                i + 1,
            ));
            i = i + 1;
        }
        assert(steps@ =~= plan_steps(n_paths as nat, options, entries@.len() == 0));
        Ok(SetPlan { access: Vec::new(), default: clone_all(entries), steps })
    } else {
        if has_deny(entries) {
            return Err(AclError::InvalidAcl);
        }
        let (access, default) = split_unified(entries);
        let ghost empty = default_part(views(entries@)).len() == 0;
        let tolerant = default.len() == 0;
        assert(views(default@).len() == default@.len());
        proof {
            assert forall|i: int| 0 <= i < access@.len() implies (#[trigger] access@[i]).perms.wf() by {
                lemma_access_part_member(views(entries@), i);
                assert(views(access@)[i] == access@[i]@);
                let j = choose|j: int| 0 <= j < entries@.len() && views(entries@)[j] == access_part(views(entries@))[i];
                assert(views(entries@)[j] == entries@[j]@);
            }
        }
        let access = complete_access(access)?;
        let mut i: usize = 0;
        while i < n_paths
            invariant
                i <= n_paths,
                n_paths <= usize::MAX / 2,
                !options.has(DEFAULT_ACL),
                tolerant == empty,
                steps@ == plan_steps(n_paths as nat, options, empty).subrange(0, 2 * i as int),
            decreases n_paths - i,
        {
            steps.push(WriteStep { path: i, target: AclTarget::Default, tolerant });
            steps.push(WriteStep { path: i, target: AclTarget::Access, tolerant: false });
            assert(steps@ =~= plan_steps(n_paths as nat, options, empty).subrange(0, 2 * i + 2));
            i = i + 1;
        }
        assert(steps@ =~= plan_steps(n_paths as nat, options, empty));
        Ok(SetPlan { access, default, steps })
    }
}

proof fn lemma_access_part_member(s: Seq<EntryView>, i: int)
    requires
        0 <= i < access_part(s).len(),
    ensures
        exists|j: int| 0 <= j < s.len() && s[j] == access_part(s)[i],
    decreases s.len(),
{
    let p = access_part(s.drop_last());
    if s.len() > 0 {
        if i < p.len() {
            lemma_access_part_member(s.drop_last(), i);
            let j = choose|j: int| 0 <= j < s.drop_last().len() && s.drop_last()[j] == p[i];
            assert(s[j] == s.drop_last()[j]);
        } else {
            assert(s[s.len() - 1] == access_part(s)[i]);
        }
    }
}

/// The unified list of a path: with the default-only option, its default
/// list; else its access list followed by its default list. Default entries
/// carry the default mark.
pub fn getfacl(access: Vec<AclEntry>, default: Vec<AclEntry>, options: AclOption) -> (r: Vec<
    AclEntry,
>)
    ensures
        options.has(DEFAULT_ACL) ==> views(r@) == views(default@).map_values(|v| marked(v)),
        !options.has(DEFAULT_ACL) ==> views(r@) == views(access@) + views(default@).map_values(
            |v| marked(v),
        ),
{
    let mut out: Vec<AclEntry> = if options.contains(DEFAULT_ACL) {
        Vec::new()
    } else {
        access
    };
    let ghost start = views(out@);
    let mut rest = default;
    let ghost all = views(rest@);
    let mut marked_part: Vec<AclEntry> = Vec::new();
    while rest.len() > 0
        invariant
            views(marked_part@) + views(rest@).map_values(|v| marked(v)) == all.map_values(
                |v| marked(v),
            ),
        decreases rest.len(),
    {
        let ghost before = views(rest@);
        let mut e = rest.remove(0);
        e.flags = Flag { bits: e.flags.bits | DEFAULT };
        let ghost prev = views(marked_part@);
        marked_part.push(e);
        assert(views(rest@) =~= before.drop_first());
        assert(views(marked_part@) =~= prev.push(e@));
        assert(before.map_values(|v| marked(v)) =~= seq![e@] + views(rest@).map_values(
            |v| marked(v),
        ));
        assert(views(marked_part@) + views(rest@).map_values(|v| marked(v)) =~= prev
            + before.map_values(|v| marked(v)));
    }
    assert(views(rest@).map_values(|v| marked(v)) =~= Seq::<EntryView>::empty());
    assert(views(marked_part@) =~= all.map_values(|v| marked(v)));
    let ghost prev = views(out@);
    out.append(&mut marked_part);
    assert(views(out@) =~= prev + all.map_values(|v| marked(v)));
    out
}

/// Writes stop at the first failure. Where a path's default write fails,
/// no write of that path's access list has been made: of the writes up to
/// and including the failing one, every one that concerns that path is a
/// default write.
pub proof fn lemma_failed_default_write_spares_access(
    n: nat,
    options: AclOption,
    default_empty: bool,
    k: int,
)
    requires
        n <= usize::MAX,
        !options.has(DEFAULT_ACL),
        0 <= k < plan_steps(n, options, default_empty).len(),
        plan_steps(n, options, default_empty)[k].target == AclTarget::Default,
    ensures
        forall|j: int|
            0 <= j <= k && (#[trigger] plan_steps(n, options, default_empty)[j]).path == plan_steps(n, options, default_empty)[k].path ==> plan_steps(n, options, default_empty)[j].target == AclTarget::Default,
{
    let steps = plan_steps(n, options, default_empty);
    assert(k % 2 == 0);
    assert forall|j: int|
        0 <= j <= k && (#[trigger] steps[j]).path == steps[k].path implies steps[j].target
        == AclTarget::Default by {
        assert(0 <= j / 2 <= k / 2 < n);
        assert((j / 2) as usize == (k / 2) as usize);
        if j % 2 == 1 {
            assert(j / 2 == k / 2);
            assert(j == k + 1);
        }
    }
}

/// A complete access list with named entries and no mask gets exactly one
/// mask entry, last, whose permissions are the union of those of the named
/// users, named groups and the owning group.
pub proof fn lemma_completed_mask(s: Seq<EntryView>)
    requires
        needs_mask(s),
    ensures
        completed(s).len() == s.len() + 1,
        completed(s).last() == mask_entry(s),
        completed(s).last().perms.bits == mask_perms(s),
        forall|i: int|
            0 <= i < s.len() ==> (#[trigger] completed(s)[i]).kind != AclEntryKind::Mask,
{
    assert forall|i: int| 0 <= i < s.len() implies (#[trigger] completed(s)[i]).kind
        != AclEntryKind::Mask by {
        assert(completed(s)[i] == s[i]);
        if s[i].kind == AclEntryKind::Mask {
            assert(has_entry(s, |v: EntryView| v.kind == AclEntryKind::Mask));
        }
    }
}

} // verus!
