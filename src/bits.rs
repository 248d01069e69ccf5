//! Permission and flag bit sets.
use vstd::prelude::*;

verus! {

/// The bits of `bits` at positions `i..32` that are set, each as a single-bit
/// value, lowest first.
pub open spec fn one_bits_from(bits: u32, i: nat) -> Seq<u32>
    decreases 32 - i,
{
    if i >= 32 {
        Seq::empty()
    } else if (bits >> (i as u32)) & 1 == 1 {
        seq![(1u32 << (i as u32)) as u32] + one_bits_from(bits, i + 1)
    } else {
        one_bits_from(bits, i + 1)
    }
}

/// Returns the single-bit values set in `bits`, lowest bit first.
pub fn for_each_1bit(bits: u32) -> (r: Vec<u32>)
    ensures
        r@ == one_bits_from(bits, 0),
{
    let mut r: Vec<u32> = Vec::new();
    let mut i: u32 = 0;
    while i < 32
        invariant
            i <= 32,
            r@ + one_bits_from(bits, i as nat) == one_bits_from(bits, 0),
        decreases 32 - i,
    {
        let ghost prev = r@;
        if (bits >> i) & 1 == 1 {
            r.push(1u32 << i);
            assert(r@ + one_bits_from(bits, (i + 1) as nat) =~= prev + one_bits_from(bits, i as nat));
        } else {
            assert(r@ + one_bits_from(bits, (i + 1) as nat) =~= prev + one_bits_from(bits, i as nat));
        }
        i = i + 1;
    }
    assert(r@ + one_bits_from(bits, 32) =~= r@);
    r
}

/// All permission bits that are recognised.
pub const PERM_ALL: u32 = 7;

/// All flag bits that are recognised.
pub const FLAG_ALL: u32 = 255;

/// A set of access permissions.
#[derive(Clone, Copy, Debug, PartialEq, Eq, Structural)]
pub struct Perm {
    pub bits: u32,
}

/// A set of entry flags: inheritance markers, and the mark of a default
/// (directory-inherited) entry.
#[derive(Clone, Copy, Debug, PartialEq, Eq, Structural)]
pub struct Flag {
    pub bits: u32,
}

impl Perm {
    /// Only recognised bits are set.
    pub open spec fn wf(self) -> bool {
        self.bits & !PERM_ALL == 0
    }

    pub fn empty() -> (r: Perm)
        ensures
            r.bits == 0,
            r.wf(),
    {
        assert(0u32 & !7u32 == 0) by (bit_vector);
        Perm { bits: 0 }
    }

    pub fn read() -> (r: Perm)
        ensures
            r.bits == 1,
            r.wf(),
    {
        assert(1u32 & !7u32 == 0) by (bit_vector);
        Perm { bits: 1 }
    }

    pub fn write() -> (r: Perm)
        ensures
            r.bits == 2,
            r.wf(),
    {
        assert(2u32 & !7u32 == 0) by (bit_vector);
        Perm { bits: 2 }
    }

    pub fn execute() -> (r: Perm)
        ensures
            r.bits == 4,
            r.wf(),
    {
        assert(4u32 & !7u32 == 0) by (bit_vector);
        Perm { bits: 4 }
    }

    /// Builds a permission set; fails where an unrecognised bit is set.
    pub fn from_bits(bits: u32) -> (r: Option<Perm>)
        ensures
            r == (if bits & !PERM_ALL == 0 { Some(Perm { bits }) } else { None::<Perm> }),
    {
        if bits & !PERM_ALL == 0 {
            Some(Perm { bits })
        } else {
            None
        }
    }

    pub fn union(self, other: Perm) -> (r: Perm)
        requires
            self.wf(),
            other.wf(),
        ensures
            r.bits == self.bits | other.bits,
            r.wf(),
    {
        let (a, b) = (self.bits, other.bits);
        assert((a & !7u32 == 0 && b & !7u32 == 0) ==> (a | b) & !7u32 == 0) by (bit_vector);
        Perm { bits: a | b }
    }

    pub fn intersection(self, other: Perm) -> (r: Perm)
        requires
            self.wf(),
        ensures
            r.bits == self.bits & other.bits,
            r.wf(),
    {
        let (a, b) = (self.bits, other.bits);
        assert(a & !7u32 == 0 ==> (a & b) & !7u32 == 0) by (bit_vector);
        Perm { bits: a & b }
    }

    pub fn contains(self, other: Perm) -> (r: bool)
        ensures
            r == (self.bits & other.bits == other.bits),
    {
        self.bits & other.bits == other.bits
    }

    pub fn is_empty(self) -> (r: bool)
        ensures
            r == (self.bits == 0),
    {
        self.bits == 0
    }
}

impl Flag {
    /// Only recognised bits are set.
    pub open spec fn wf(self) -> bool {
        self.bits & !FLAG_ALL == 0
    }

    pub fn empty() -> (r: Flag)
        ensures
            r.bits == 0,
            r.wf(),
    {
        assert(0u32 & !255u32 == 0) by (bit_vector);
        Flag { bits: 0 }
    }

    /// The entry was inherited from a parent directory.
    pub fn inherited() -> (r: Flag)
        ensures
            r.bits == INHERITED,
            r.wf(),
    {
        assert(4u32 & !255u32 == 0) by (bit_vector);
        Flag { bits: INHERITED }
    }

    /// The entry belongs to the default list of a directory.
    pub fn default_acl() -> (r: Flag)
        ensures
            r.bits == DEFAULT,
            r.wf(),
    {
        assert(128u32 & !255u32 == 0) by (bit_vector);
        Flag { bits: DEFAULT }
    }

    /// Builds a flag set; fails where an unrecognised bit is set.
    pub fn from_bits(bits: u32) -> (r: Option<Flag>)
        ensures
            r == (if bits & !FLAG_ALL == 0 { Some(Flag { bits }) } else { None::<Flag> }),
    {
        if bits & !FLAG_ALL == 0 {
            Some(Flag { bits })
        } else {
            None
        }
    }

    pub fn union(self, other: Flag) -> (r: Flag)
        requires
            self.wf(),
            other.wf(),
        ensures
            r.bits == self.bits | other.bits,
            r.wf(),
    {
        let (a, b) = (self.bits, other.bits);
        assert((a & !255u32 == 0 && b & !255u32 == 0) ==> (a | b) & !255u32 == 0) by (bit_vector);
        Flag { bits: a | b }
    }

    pub fn contains(self, other: Flag) -> (r: bool)
        ensures
            r == (self.bits & other.bits == other.bits),
    {
        self.bits & other.bits == other.bits
    }

    pub fn is_empty(self) -> (r: bool)
        ensures
            r == (self.bits == 0),
    {
        self.bits == 0
    }
}

pub const DEFER_INHERIT: u32 = 1;
pub const NO_INHERIT: u32 = 2;
pub const INHERITED: u32 = 4;
pub const FILE_INHERIT: u32 = 8;
pub const DIRECTORY_INHERIT: u32 = 16;
pub const LIMIT_INHERIT: u32 = 32;
pub const ONLY_INHERIT: u32 = 64;
pub const DEFAULT: u32 = 128;

/// The name of one flag bit.
#[derive(Clone, Copy, Debug, PartialEq, Eq, Structural)]
pub enum FlagName {
    DeferInherit,
    NoInherit,
    Inherited,
    FileInherit,
    DirectoryInherit,
    LimitInherit,
    OnlyInherit,
    Default,
}

/// The bit that a flag name stands for.
pub open spec fn flag_name_bit(n: FlagName) -> u32 {
    match n {
        FlagName::DeferInherit => DEFER_INHERIT,
        FlagName::NoInherit => NO_INHERIT,
        FlagName::Inherited => INHERITED,
        FlagName::FileInherit => FILE_INHERIT,
        FlagName::DirectoryInherit => DIRECTORY_INHERIT,
        FlagName::LimitInherit => LIMIT_INHERIT,
        FlagName::OnlyInherit => ONLY_INHERIT,
        FlagName::Default => DEFAULT,
    }
}

impl FlagName {
    /// The name of a single-bit flag; `None` for any other flag set.
    pub fn from_flag(flag: Flag) -> (r: Option<FlagName>)
        ensures
            match r {
                Some(n) => flag_name_bit(n) == flag.bits,
                None => forall|n: FlagName| flag_name_bit(n) != flag.bits,
            },
    {
        let b = flag.bits;
        if b == DEFER_INHERIT {
            Some(FlagName::DeferInherit)
        } else if b == NO_INHERIT {
            Some(FlagName::NoInherit)
        } else if b == INHERITED {
            Some(FlagName::Inherited)
        } else if b == FILE_INHERIT {
            Some(FlagName::FileInherit)
        } else if b == DIRECTORY_INHERIT {
            Some(FlagName::DirectoryInherit)
        } else if b == LIMIT_INHERIT {
            Some(FlagName::LimitInherit)
        } else if b == ONLY_INHERIT {
            Some(FlagName::OnlyInherit)
        } else if b == DEFAULT {
            Some(FlagName::Default)
        } else {
            None
        }
    }

    /// The single-bit flag of the name.
    pub fn to_flag(&self) -> (r: Flag)
        ensures
            r.bits == flag_name_bit(*self),
            r.wf(),
    {
        let bits = match self {
            FlagName::DeferInherit => DEFER_INHERIT,
            FlagName::NoInherit => NO_INHERIT,
            FlagName::Inherited => INHERITED,
            FlagName::FileInherit => FILE_INHERIT,
            FlagName::DirectoryInherit => DIRECTORY_INHERIT,
            FlagName::LimitInherit => LIMIT_INHERIT,
            FlagName::OnlyInherit => ONLY_INHERIT,
            FlagName::Default => DEFAULT,
        };
        assert(bits & !255u32 == 0) by (bit_vector)
            requires
                bits == 1 || bits == 2 || bits == 4 || bits == 8 || bits == 16 || bits == 32 || bits
                    == 64 || bits == 128,
        ;
        Flag { bits }
    }
}

/// The union of the bits of the names.
pub open spec fn names_bits(ns: Seq<FlagName>) -> u32
    decreases ns.len(),
{
    if ns.len() == 0 {
        0
    } else {
        names_bits(ns.drop_last()) | flag_name_bit(ns.last())
    }
}

impl Flag {
    /// The flag set with exactly the named bits.
    pub fn from_names(names: &Vec<FlagName>) -> (r: Flag)
        ensures
            r.bits == names_bits(names@),
            r.wf(),
    {
        let mut flags = Flag::empty();
        let mut i: usize = 0;
        while i < names.len()
            invariant
                i <= names@.len(),
                flags.wf(),
                flags.bits == names_bits(names@.subrange(0, i as int)),
            decreases names.len() - i,
        {
            assert(names@.subrange(0, i + 1).drop_last() =~= names@.subrange(0, i as int));
            flags = flags.union(names[i].to_flag());
            i = i + 1;
        }
        assert(names@.subrange(0, names@.len() as int) =~= names@);
        flags
    }
}

} // verus!
