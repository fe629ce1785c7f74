//! Raw page-table entry and page-flag records of the earlier, single-table
//! paging layer, with its signed-entry layout and its power-of-two alignment
//! arithmetic. The three-level manager in [`crate::vm`] supersedes the table
//! walks that used these.
use vstd::prelude::*;

verus! {

/// One 512-entry table of raw entries.
pub struct Table {
    /// The raw entries of the table.
    pub entries: Vec<Entry>,
}

impl Table {
    /// Entries per table: one page of eight-byte entries.
    pub fn len() -> (r: usize)
        ensures
            r == 512,
    {
        512
    }

    /// A table of 512 invalid entries.
    pub fn new() -> (t: Table)
        ensures
            t.entries@.len() == 512,
            forall|i: int| 0 <= i < 512 ==> (#[trigger] t.entries@[i]).spec_entry() == 0,
    {
        let mut entries: Vec<Entry> = Vec::new();
        let mut i: usize = 0;
        while i < 512
            invariant
                entries@.len() == i,
                i <= 512,
                forall|j: int| 0 <= j < i ==> (#[trigger] entries@[j]).spec_entry() == 0,
            decreases 512 - i,
        {
            entries.push(Entry::new(0));
            i = i + 1;
        }
        Table { entries }
    }
}

/// Flag bits of a raw entry.
#[derive(Clone, Copy, Debug, PartialEq, Eq, Structural)]
pub enum EntryBits {
    Valid,
    Read,
    Write,
    Execute,
    User,
    Global,
    Accessed,
    Dirty,
    ReadWrite,
    ReadExecute,
}

impl EntryBits {
    /// The bit pattern of this flag.
    pub fn val(self) -> (r: i64)
        ensures
            self == EntryBits::Valid ==> r == 0x1,
            self == EntryBits::Read ==> r == 0x2,
            self == EntryBits::Write ==> r == 0x4,
            self == EntryBits::Execute ==> r == 0x8,
            self == EntryBits::User ==> r == 0x10,
            self == EntryBits::Global ==> r == 0x20,
            self == EntryBits::Accessed ==> r == 0x40,
            self == EntryBits::Dirty ==> r == 0x80,
            self == EntryBits::ReadWrite ==> r == 0x6,
            self == EntryBits::ReadExecute ==> r == 0xa,
{
        match self {
            EntryBits::Valid => 0x1,
            EntryBits::Read => 0x2,
            EntryBits::Write => 0x4,
            EntryBits::Execute => 0x8,
            EntryBits::User => 0x10,
            EntryBits::Global => 0x20,
            EntryBits::Accessed => 0x40,
            EntryBits::Dirty => 0x80,
            EntryBits::ReadWrite => 0x6,
            EntryBits::ReadExecute => 0xa,
        }
    }
}

/// One raw page-table entry.
pub struct Entry {
    entry: i64,
}

impl Entry {
    /// An entry holding the raw value `bits`.
    pub fn new(bits: i64) -> (e: Entry)
        ensures
            e.spec_entry() == bits,
    {
        Entry { entry: bits }
    }

    /// Whether the validity bit is set.
    pub fn is_valid(&self) -> (r: bool)
        ensures
            r == (self.spec_entry() & 1 != 0),
    {
        if self.entry & 1 != 0 {
            true
        } else {
            false
        }
    }

    /// The raw entry value.
    pub closed spec fn spec_entry(&self) -> i64 {
        self.entry
    }

    /// Overwrite the whole entry.
    pub fn set_entry(&mut self, bits: i64)
        ensures
            final(self).spec_entry() == bits,
    {
        self.entry = bits;
    }

    /// Read the whole entry.
    pub fn get_entry(&self) -> (r: i64)
        ensures
            r == self.spec_entry(),
    {
        self.entry
    }

    /// The physical address in the frame-number field. Entries are
    /// non-negative and fit the field in every table this layer builds.
    pub fn to_pa(&self) -> (r: i64)
        requires
            0 <= self.spec_entry() < 0x2000_0000_0000_0000,
        ensures
            r == (self.spec_entry() / 1024) * 4096,
    {
        let e = self.entry as u64;
        proof {
            lemma_shift_entry(e);
        }
        (((e >> 10) << 12)) as i64
    }
}

/// For entry values that fit the frame-number field, the shift pair computes
/// the quotient-times-page-size form.
proof fn lemma_shift_entry(e: u64)
    by (bit_vector)
    requires
        e < 0x2000_0000_0000_0000,
    ensures
        ((e >> 10) << 12) == (e / 1024) * 4096,
        ((e >> 10) << 12) < 0x8000_0000_0000_0000,
{
}

/// Allocation flags of one physical page in the flag-array allocator.
#[derive(Clone, Copy, Debug, PartialEq, Eq, Structural)]
pub enum PageBits {
    Empty,
    Taken,
    Last,
}

impl PageBits {
    /// The bit pattern of this flag, as a specification value.
    pub open spec fn spec_val(self) -> u8 {
        match self {
            PageBits::Empty => 0,
            PageBits::Taken => 1,
            PageBits::Last => 2,
        }
    }

    /// The bit pattern of this flag.
    #[verifier::when_used_as_spec(spec_val)]
    pub fn val(self) -> (r: u8)
        ensures
            self == PageBits::Empty ==> r == 0,
            self == PageBits::Taken ==> r == 1,
            self == PageBits::Last ==> r == 2,
    {
        match self {
            PageBits::Empty => 0,
            PageBits::Taken => 1,
            PageBits::Last => 2,
        }
    }
}

/// Per-page allocation record of the flag-array allocator.
pub struct Page {
    flags: u8,
}

impl Page {
    /// The raw flag byte.
    pub closed spec fn spec_flags(&self) -> u8 {
        self.flags
    }

    /// The page is allocated.
    pub fn is_taken(&self) -> (r: bool)
        ensures
            r == (self.spec_flags() & 1 != 0),
    {
        self.flags & PageBits::Taken.val() != 0
    }

    /// The page is free.
    pub fn is_free(&self) -> (r: bool)
        ensures
            r == !(self.spec_flags() & 1 != 0),
    {
        !self.is_taken()
    }

    /// The page ends its allocation run.
    pub fn is_last(&self) -> (r: bool)
        ensures
            r == (self.spec_flags() & 2 != 0),
    {
        self.flags & PageBits::Last.val() != 0
    }

    /// Clear every flag.
    pub fn free(&mut self)
        ensures
            final(self).spec_flags() == 0,
    {
        self.flags = PageBits::Empty.val();
    }

    /// Set one flag, keeping the others.
    pub fn set_flag(&mut self, flag: PageBits)
        ensures
            final(self).spec_flags() == old(self).spec_flags() | flag.val(),
    {
        self.flags = self.flags | flag.val();
    }
}

/// Round `val` up to a multiple of two to the power `order`.
pub fn align_val(val: usize, order: usize) -> (r: usize)
    requires
        order < 32,
        val + (1usize << order) <= usize::MAX,
    ensures
        r == ((val + ((1usize << order) - 1)) as usize) & !(((1usize << order) - 1) as usize),
{
    proof {
        assert(order < 32 ==> 1usize << order >= 1) by (bit_vector);
    }
    let o = (1usize << order) - 1;
    (val + o) & !o
}

/// Round an address up to the next page boundary.
pub fn page_round_up(addr: usize) -> (r: usize)
    requires
        addr + 4096 <= usize::MAX,
    ensures
        r == ((addr + 4095) as usize) & !4095usize,
{
    (addr + 4096 - 1) & !(4096 - 1)
}

/// Round an address down to the enclosing page boundary.
pub fn page_round_down(addr: usize) -> (r: usize)
    ensures
        r == addr & !4095usize,
{
    addr & !(4096 - 1)
}

} // verus!
