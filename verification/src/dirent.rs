//! Directory entries.
//!
//! An entry is 32 bytes on disk: a NUL-terminated name of at most 27
//! bytes in a 28-byte field, then the entry's inode id as a little-endian
//! `u32`. A directory file is a packed array of such entries, so its size
//! is always a multiple of 32.
use vstd::prelude::*;
use crate::bytes::enc32;

verus! {

/// Longest name an entry can hold.
pub const NAME_LIMIT: usize = 27;

/// Size of one directory entry on disk.
pub const DIR_SIZE: u32 = 32;

/// Index of the first NUL in a name field (the name's length).
pub open spec fn spec_name_len(raw: Seq<u8>, i: int) -> int
    decreases raw.len() - i,
{
    if i >= raw.len() {
        raw.len() as int
    } else if raw[i] == 0 {
        i
    } else {
        spec_name_len(raw, i + 1)
    }
}

/// A directory entry: the raw 28-byte name field and the inode id.
#[derive(Clone, Debug)]
pub struct DirEntry {
    pub name: Vec<u8>,
    pub inode_id: u32,
}

impl DirEntry {
    /// Well-formed: 28 name bytes with at least one NUL terminator.
    pub open spec fn wf(self) -> bool {
        &&& self.name@.len() == NAME_LIMIT + 1
        &&& spec_name_len(self.name@, 0) <= NAME_LIMIT
    }

    /// The name proper: the bytes before the first NUL.
    pub open spec fn spec_name(self) -> Seq<u8> {
        self.name@.subrange(0, spec_name_len(self.name@, 0))
    }

    /// The 32 on-disk bytes of this entry.
    pub open spec fn spec_bytes(self) -> Seq<u8> {
        self.name@ + enc32(self.inode_id)
    }

    /// An all-zero entry.
    pub fn empty() -> (r: Self)
        ensures
            r.wf(),
            r.inode_id == 0,
            r.spec_name() == Seq::<u8>::empty(),
            r.name@ == Seq::new((NAME_LIMIT + 1) as nat, |i: int| 0u8),
    {
        let mut name: Vec<u8> = Vec::new();
        let mut i: usize = 0;
        while i < NAME_LIMIT + 1
            invariant
                i <= NAME_LIMIT + 1,
                name@.len() == i,
                forall|j: int| 0 <= j < i ==> #[trigger] name@[j] == 0u8,
            decreases NAME_LIMIT + 1 - i,
        {
            name.push(0u8);
            i = i + 1;
        }
        let r = DirEntry { name, inode_id: 0 };
        proof {
            assert(r.name@ =~= Seq::new((NAME_LIMIT + 1) as nat, |i: int| 0u8));
            assert(r.spec_name() =~= Seq::<u8>::empty());
        }
        r
    }

    /// An entry holding `name` and `inode_id`.
    pub fn new(name: &Vec<u8>, inode_id: u32) -> (r: Self)
        requires
            name@.len() <= NAME_LIMIT,
            forall|j: int| 0 <= j < name@.len() ==> #[trigger] name@[j] != 0u8,
        ensures
            r.wf(),
            r.inode_id == inode_id,
            r.spec_name() == name@,
    {
        let mut raw: Vec<u8> = Vec::new();
        let mut i: usize = 0;
        while i < name.len()
            invariant
                i <= name@.len(),
                raw@ == name@.subrange(0, i as int),
            decreases name@.len() - i,
        {
            raw.push(name[i]);
            proof {
                assert(raw@ =~= name@.subrange(0, i as int + 1));
            }
            i = i + 1;
        }
        while i < NAME_LIMIT + 1
            invariant
                name@.len() <= i <= NAME_LIMIT + 1,
                raw@.len() == i,
                raw@.subrange(0, name@.len() as int) == name@,
                forall|j: int| name@.len() <= j < i ==> #[trigger] raw@[j] == 0u8,
            decreases NAME_LIMIT + 1 - i,
        {
            raw.push(0u8);
            i = i + 1;
        }
        let r = DirEntry { name: raw, inode_id };
        proof {
            assert forall|j: int| 0 <= j < name@.len() implies #[trigger] r.name@[j] != 0u8 by {
                assert(r.name@[j] == r.name@.subrange(0, name@.len() as int)[j]);
            }
            lemma_name_len_terminated(r.name@, name@.len() as int);
            lemma_name_len_lower(r.name@, name@.len() as int);
            assert(r.spec_name() =~= name@);
        }
        r
    }

    /// The name as a fresh byte vector.
    pub fn name_bytes(&self) -> (r: Vec<u8>)
        requires
            self.wf(),
        ensures
            r@ == self.spec_name(),
    {
        let mut r: Vec<u8> = Vec::new();
        let mut i: usize = 0;
        proof {
            lemma_name_len_bounds(self.name@, 0);
        }
        while i < NAME_LIMIT + 1
            invariant
                self.wf(),
                i <= spec_name_len(self.name@, 0),
                r@ == self.name@.subrange(0, i as int),
                0 <= spec_name_len(self.name@, 0) <= NAME_LIMIT,
                forall|j: int| 0 <= j < i ==> #[trigger] self.name@[j] != 0u8,
            decreases NAME_LIMIT + 1 - i,
        {
            let b = self.name[i];
            if b == 0 {
                proof {
                    lemma_name_len_first_nul(self.name@, i as int);
                    assert(r@ =~= self.spec_name());
                }
                return r;
            }
            r.push(b);
            proof {
                assert(r@ =~= self.name@.subrange(0, i as int + 1));
                lemma_name_len_lower(self.name@, i as int + 1);
            }
            i = i + 1;
        }
        proof {
            assert(false);
        }
        r
    }
}

/// If the bytes below `n` are nonzero and byte `n` is zero, the name
/// length is `n`.
proof fn lemma_name_len_first_nul(raw: Seq<u8>, n: int)
    requires
        0 <= n < raw.len(),
        raw[n] == 0,
        forall|j: int| 0 <= j < n ==> #[trigger] raw[j] != 0u8,
    ensures
        spec_name_len(raw, 0) == n,
{
    lemma_name_len_from(raw, 0, n);
}

proof fn lemma_name_len_from(raw: Seq<u8>, i: int, n: int)
    requires
        0 <= i <= n < raw.len(),
        raw[n] == 0,
        forall|j: int| i <= j < n ==> #[trigger] raw[j] != 0u8,
    ensures
        spec_name_len(raw, i) == n,
    decreases n - i,
{
    if i < n {
        lemma_name_len_from(raw, i + 1, n);
    }
}

/// If byte `n` is zero, the name length is at most `n`.
proof fn lemma_name_len_terminated(raw: Seq<u8>, n: int)
    requires
        0 <= n < raw.len(),
        raw[n] == 0,
    ensures
        spec_name_len(raw, 0) <= n,
{
    lemma_name_len_upper(raw, 0, n);
}

proof fn lemma_name_len_upper(raw: Seq<u8>, i: int, n: int)
    requires
        0 <= i <= n < raw.len(),
        raw[n] == 0,
    ensures
        spec_name_len(raw, i) <= n,
    decreases n - i,
{
    if i < n && raw[i] != 0 {
        lemma_name_len_upper(raw, i + 1, n);
    }
}

/// If the bytes below `n` are nonzero, the name length is at least `n`.
proof fn lemma_name_len_lower(raw: Seq<u8>, n: int)
    requires
        0 <= n <= raw.len(),
        forall|j: int| 0 <= j < n ==> #[trigger] raw[j] != 0u8,
    ensures
        spec_name_len(raw, 0) >= n,
{
    lemma_name_len_lower_from(raw, 0, n);
}

proof fn lemma_name_len_lower_from(raw: Seq<u8>, i: int, n: int)
    requires
        0 <= i <= n <= raw.len(),
        forall|j: int| i <= j < n ==> #[trigger] raw[j] != 0u8,
    ensures
        spec_name_len(raw, i) >= n,
    decreases n - i,
{
    if i < n {
        lemma_name_len_lower_from(raw, i + 1, n);
    } else {
        lemma_name_len_bounds(raw, i);
    }
}

/// The name length never exceeds the field length.
proof fn lemma_name_len_bounds(raw: Seq<u8>, i: int)
    requires
        0 <= i <= raw.len(),
    ensures
        i <= spec_name_len(raw, i) <= raw.len(),
    decreases raw.len() - i,
{
    if i < raw.len() && raw[i] != 0 {
        lemma_name_len_bounds(raw, i + 1);
    }
}

} // verus!
