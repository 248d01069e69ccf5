//! Access control lists of files: entries that allow or deny principals
//! permissions, their canonical order, the resolution of principals, a text
//! form, and the planning of writes of access and default lists.
use vstd::prelude::*;

pub mod bits;
pub mod codec;
pub mod entry;
pub mod error;
pub mod qualifier;
pub mod reconcile;

pub use bits::{Flag, FlagName, Perm, for_each_1bit};
pub use codec::{format_entry, from_text, parse_line, to_text, trim_comment};
pub use entry::{AclEntry, AclEntryKind, sort};
pub use error::{AclError, ParseReason};
pub use qualifier::{parse_line_resolved, GuidLookup, Qualifier};
pub use reconcile::{AclOption, AclTarget, SetPlan, WriteStep, getfacl, setfacl};

verus! {

} // verus!
