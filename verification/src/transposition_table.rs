use vstd::prelude::*;

verus! {

/// The part of a key that an entry keeps: its low 56 bits.
pub open spec fn tag_of(key: u64) -> u64 {
    key & 0x00FF_FFFF_FFFF_FFFF
}

/// The low 56 bits of a key, in three parts.
#[derive(Copy, Clone, PartialEq, Eq, Structural)]
struct Key(u32, u16, u8);

/// What a slot holds.
#[derive(Copy, Clone)]
struct Entry {
    key: Key,
    value: i8,
}

impl Key {
    /// The 56 bits that the three parts of the key hold.
    closed spec fn tag(self) -> u64 {
        (self.0 as u64) | ((self.1 as u64) << 32) | ((self.2 as u64) << 48)
    }
}

/// A table of `S` entries, each a key and a value. A key has one slot, its remainder by
/// `S`, and what is put there replaces what was there.
pub struct TranspositionTable<const S: usize> {
    table: Vec<Entry>,
}

/// The three parts of a key hold its low 56 bits, and two keys of three parts hold the same
/// bits only where their parts are the same.
proof fn bv_key(key: u64, a: u32, b: u16, c: u8)
    by (bit_vector)
    ensures
        ({
            let ka = (key & 0xFFFFFFFF) as u32;
            let kb = ((key >> 32) & 0xFFFF) as u16;
            let kc = ((key >> 48) & 0xFF) as u8;
            &&& (ka as u64) | ((kb as u64) << 32) | ((kc as u64) << 48) == key & 0x00FF_FFFF_FFFF_FFFF
            &&& key & 0xFFFFFFFF <= 0xFFFFFFFF
            &&& (key >> 32) & 0xFFFF <= 0xFFFF
            &&& (key >> 48) & 0xFF <= 0xFF
            &&& ((a as u64) | ((b as u64) << 32) | ((c as u64) << 48) == (ka as u64) | ((kb as u64)
                << 32) | ((kc as u64) << 48)) == (a == ka && b == kb && c == kc)
        }),
{
}

impl<const S: usize> TranspositionTable<S> {
    /// The table has its `S` entries, and `S` is not zero.
    pub closed spec fn wf(&self) -> bool {
        self.table.len() == S && S > 0
    }

    /// The slot of a key.
    pub open spec fn slot_of(key: u64) -> int {
        ((key as usize) % S) as int
    }

    /// The tag of the key that the slot holds.
    pub closed spec fn tag_at(&self, slot: int) -> u64 {
        self.table[slot].key.tag()
    }

    /// The value that the slot holds.
    pub closed spec fn value_at(&self, slot: int) -> i8 {
        self.table[slot].value
    }

    /// What the table answers for a key: the value in the key's slot, where the slot holds
    /// the key's tag.
    pub open spec fn lookup(&self, key: u64) -> Option<i8> {
        if self.tag_at(Self::slot_of(key)) == tag_of(key) {
            Some(self.value_at(Self::slot_of(key)))
        } else {
            None
        }
    }

    /// The slot of a key.
    fn index(&self, key: u64) -> (r: usize)
        requires
            S > 0,
        ensures
            r == Self::slot_of(key),
            r < S,
    {
        (#[verifier::truncate] (key as usize)) % S
    }

    /// The value that was put last in the slot of the key, where it was put there with the same
    /// low 56 bits of key; `None` else.
    pub fn get(&self, key: u64) -> (r: Option<i8>)
        requires
            self.wf(),
        ensures
            r == self.lookup(key),
    {
        let index = self.index(key);
        let entry = &self.table[index];
        let entry_key = Self::key_from_u64(key);
        proof {
            bv_key(key, entry.key.0, entry.key.1, entry.key.2);
        }
        if entry.key == entry_key {
            Some(entry.value)
        } else {
            None
        }
    }

    /// Puts the key and the value in the slot of the key, whatever was there.
    pub fn insert(&mut self, key: u64, value: i8)
        requires
            old(self).wf(),
        ensures
            final(self).wf(),
            final(self).tag_at(Self::slot_of(key)) == tag_of(key),
            final(self).value_at(Self::slot_of(key)) == value,
            forall|slot: int|
                0 <= slot < S && slot != Self::slot_of(key) ==> final(self).tag_at(slot) == old(
                    self,
                ).tag_at(slot) && final(self).value_at(slot) == old(self).value_at(slot),
    {
        let index = self.index(key);
        let entry_key = Self::key_from_u64(key);
        self.table.set(index, Entry { key: entry_key, value });
    }

    /// The low 56 bits of a key, in three parts.
    fn key_from_u64(key: u64) -> (r: Key)
        ensures
            r.tag() == tag_of(key),
            r == Key(
                (key & 0xFFFFFFFF) as u32,
                ((key >> 32) & 0xFFFF) as u16,
                ((key >> 48) & 0xFF) as u8,
            ),
    {
        proof {
            bv_key(key, 0, 0, 0);
        }
        Key((key & 0xFFFFFFFF) as u32, ((key >> 32) & 0xFFFF) as u16, ((key >> 48) & 0xFF) as u8)
    }
}

impl<const S: usize> Default for TranspositionTable<S> {
    /// A table whose every slot holds the key 0 and the value 0.
    fn default() -> (r: Self)
        ensures
            S > 0 ==> r.wf(),
            forall|slot: int| 0 <= slot < S ==> r.tag_at(slot) == 0 && r.value_at(slot) == 0,
    {
        let mut table: Vec<Entry> = Vec::with_capacity(S);
        let mut n: usize = 0;
        while n < S
            invariant
                n <= S,
                table.len() == n,
                forall|slot: int| 0 <= slot < n ==> table[slot].key.tag() == 0 && table[slot].value == 0,
            decreases S - n,
        {
            proof {
                assert(0u64 | (0u64 << 32) | (0u64 << 48) == 0) by (bit_vector);
            }
            table.push(Entry { key: Key(0, 0, 0), value: 0 });
            n += 1;
        }
        TranspositionTable { table }
    }
}

} // verus!
