//! Host table.
//!
//! A fixed-capacity associative store from wire-encoded, zero-padded domain
//! names to IPv4 addresses. Keys are compared byte-for-byte over all 256
//! bytes, so two names that differ only in their padding are distinct keys.
//! The packet path only reads the table; the control plane populates it.

use vstd::prelude::*;

verus! {

/// Most entries the table can hold.
pub const TABLE_CAPACITY: usize = 256;

/// The control-plane-populated mapping from wire-encoded domain name to
/// override IPv4 address. Viewed as a `Map` from the 256 key bytes to the 4
/// value bytes.
pub struct HostTable {
    entries: Vec<([u8; 256], [u8; 4])>,
}

/// The mapping a run of entries denotes; later entries win, though the
/// table's invariant keeps keys unique.
spec fn entries_map(s: Seq<([u8; 256], [u8; 4])>) -> Map<Seq<u8>, Seq<u8>>
    decreases s.len(),
{
    if s.len() == 0 {
        Map::empty()
    } else {
        entries_map(s.drop_last()).insert(s.last().0@, s.last().1@)
    }
}

/// Some entry carries the key `k`.
spec fn has_key(s: Seq<([u8; 256], [u8; 4])>, k: Seq<u8>) -> bool {
    exists|i: int| 0 <= i < s.len() && (#[trigger] s[i]).0@ == k
}

/// No two entries carry the same key.
spec fn keys_unique(s: Seq<([u8; 256], [u8; 4])>) -> bool {
    forall|i: int, j: int| 0 <= i < j < s.len() ==> (#[trigger] s[i]).0@ != (#[trigger] s[j]).0@
}

proof fn lemma_entries_map(s: Seq<([u8; 256], [u8; 4])>)
    requires
        keys_unique(s),
    ensures
        entries_map(s).dom().finite(),
        entries_map(s).len() == s.len(),
        forall|k: Seq<u8>| #[trigger] entries_map(s).contains_key(k) <==> has_key(s, k),
        forall|i: int|
            0 <= i < s.len() ==> entries_map(s).contains_key((#[trigger] s[i]).0@)
                && entries_map(s)[s[i].0@] == s[i].1@,
    decreases s.len(),
{
    broadcast use vstd::set::group_set_axioms;

    if s.len() == 0 {
        assert(forall|k: Seq<u8>| !has_key(s, k));
    } else {
        let dl = s.drop_last();
        lemma_entries_map(dl);
        assert(!has_key(dl, s.last().0@));
        assert forall|k: Seq<u8>| #[trigger] entries_map(s).contains_key(k) <==> has_key(
            s,
            k,
        ) by {
            if entries_map(s).contains_key(k) {
                if k == s.last().0@ {
                    assert((s[s.len() - 1]).0@ == k);
                } else {
                    let i = choose|i: int| 0 <= i < dl.len() && (#[trigger] dl[i]).0@ == k;
                    assert((s[i]).0@ == k);
                }
            }
            if has_key(s, k) {
                let i = choose|i: int| 0 <= i < s.len() && (#[trigger] s[i]).0@ == k;
                if i < s.len() - 1 {
                    assert((dl[i]).0@ == k);
                }
            }
        }
        assert forall|i: int| 0 <= i < s.len() implies entries_map(s).contains_key(
            (#[trigger] s[i]).0@,
        ) && entries_map(s)[s[i].0@] == s[i].1@ by {
            if i < s.len() - 1 {
                assert((dl[i]).0@ == s[i].0@ && (dl[i]).1@ == s[i].1@);
                assert(s[i].0@ != s.last().0@);
            }
        }
    }
}

impl HostTable {
    /// Well-formedness: the entries are few enough and their keys pairwise
    /// distinct. `new` establishes it and every method preserves it.
    pub closed spec fn wf(self) -> bool {
        &&& self.entries@.len() <= TABLE_CAPACITY
        &&& keys_unique(self.entries@)
    }

    /// The mapping the table holds.
    pub closed spec fn view(self) -> Map<Seq<u8>, Seq<u8>> {
        entries_map(self.entries@)
    }

    /// An empty table.
    pub fn new() -> (t: HostTable)
        ensures
            t.wf(),
            t@ == Map::<Seq<u8>, Seq<u8>>::empty(),
    {
        HostTable { entries: Vec::new() }
    }

    /// How many names the table holds.
    pub fn len(&self) -> (n: usize)
        requires
            self.wf(),
        ensures
            n == self@.len(),
    {
        proof {
            lemma_entries_map(self.entries@);
        }
        self.entries.len()
    }

    /// Looks the 256-byte key up, byte-for-byte.
    pub fn get(&self, key: &[u8; 256]) -> (r: Option<[u8; 4]>)
        requires
            self.wf(),
        ensures
            match r {
                Some(v) => self@.contains_key(key@) && self@[key@] == v@,
                None => !self@.contains_key(key@),
            },
    {
        proof {
            lemma_entries_map(self.entries@);
        }
        let n = self.entries.len();
        for i in 0..n
            invariant
                n == self.entries@.len(),
                self.wf(),
                forall|m: int| 0 <= m < i ==> (#[trigger] self.entries@[m]).0@ != key@,
        {
            if eq_key(&self.entries[i].0, key) {
                proof {
                    lemma_entries_map(self.entries@);
                }
                return Some(self.entries[i].1);
            }
        }
        proof {
            assert(!has_key(self.entries@, key@));
        }
        None
    }

    /// Inserts or updates one entry. Fails exactly when the key is new and
    /// the table is full; the mapping is unchanged then.
    pub fn insert(&mut self, key: [u8; 256], value: [u8; 4]) -> (r: Result<(), ()>)
        requires
            old(self).wf(),
        ensures
            final (self).wf(),
            r is Ok <==> old(self)@.contains_key(key@) || old(self)@.len() < TABLE_CAPACITY,
            r is Ok ==> final (self)@ == old(self)@.insert(key@, value@),
            r is Err ==> final (self)@ == old(self)@,
    {
        proof {
            lemma_entries_map(self.entries@);
        }
        let n = self.entries.len();
        for i in 0..n
            invariant
                n == self.entries@.len(),
                self.wf(),
                self == old(self),
                forall|m: int| 0 <= m < i ==> (#[trigger] self.entries@[m]).0@ != key@,
        {
            if eq_key(&self.entries[i].0, &key) {
                let ghost pre = self.entries@;
                self.entries.set(i, (key, value));
                proof {
                    lemma_entries_map(pre);
                    assert(keys_unique(self.entries@)) by {
                        assert(forall|m: int|
                            0 <= m < pre.len() && m != i ==> (#[trigger] self.entries@[m])
                                == pre[m]);
                        assert(self.entries@[i as int].0@ == pre[i as int].0@);
                    }
                    lemma_entries_map_update(pre, i as int, key, value);
                }
                return Ok(());
            }
        }
        proof {
            lemma_entries_map(self.entries@);
            assert(!has_key(self.entries@, key@));
        }
        if self.entries.len() < TABLE_CAPACITY {
            let ghost pre = self.entries@;
            self.entries.push((key, value));
            proof {
                assert(self.entries@.drop_last() =~= pre);
                assert(keys_unique(self.entries@)) by {
                    assert(forall|m: int|
                        0 <= m < pre.len() ==> (#[trigger] self.entries@[m]) == pre[m]);
                }
            }
            Ok(())
        } else {
            Err(())
        }
    }
}

/// Byte-for-byte comparison of two 256-byte keys.
fn eq_key(a: &[u8; 256], b: &[u8; 256]) -> (r: bool)
    ensures
        r <==> a@ == b@,
{
    for i in 0..256
        invariant
            forall|m: int| 0 <= m < i ==> a@[m] == b@[m],
    {
        if a[i] != b[i] {
            return false;
        }
    }
    proof {
        assert(a@ =~= b@);
    }
    true
}

/// Replacing the entry that holds `key` updates the mapping at `key` alone.
proof fn lemma_entries_map_update(
    s: Seq<([u8; 256], [u8; 4])>,
    i: int,
    key: [u8; 256],
    value: [u8; 4],
)
    requires
        keys_unique(s),
        0 <= i < s.len(),
        s[i].0@ == key@,
    ensures
        entries_map(s.update(i, (key, value))) == entries_map(s).insert(key@, value@),
    decreases s.len(),
{
    let t = s.update(i, (key, value));
    assert(t.len() == s.len());
    if i == s.len() - 1 {
        assert(t.drop_last() =~= s.drop_last());
        assert(t.last() == (key, value));
    } else {
        let ds = s.drop_last();
        let dt = t.drop_last();
        assert(dt =~= ds.update(i, (key, value)));
        assert(keys_unique(ds));
        lemma_entries_map_update(ds, i, key, value);
        assert(t.last() == s.last());
        assert(s.last().0@ != key@) by {
            assert((s[i]).0@ == key@);
            assert((s[s.len() - 1]).0@ == s.last().0@);
        }
        assert(entries_map(t) == entries_map(ds).insert(key@, value@).insert(
            s.last().0@,
            s.last().1@,
        ));
        assert(entries_map(ds).insert(key@, value@).insert(s.last().0@, s.last().1@)
            =~= entries_map(ds).insert(s.last().0@, s.last().1@).insert(key@, value@));
    }
}

} // verus!
