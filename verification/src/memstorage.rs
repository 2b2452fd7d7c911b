//! Resource storage held in memory.
//!
//! Written resources live in growable buffers; the first read-only open
//! of a resource freezes it, irreversibly, and later reads share the
//! frozen bytes.  A frozen resource rejects mutable access.

use crate::error::ResourceStorageError;
use crate::storage::{BytesCursor, MemoryDescriptor, ResourceStorage, StorageModel, Stream};
use vstd::prelude::*;
use vstd::pervasive::VecAdditionalExecFns;
use vstd::string::StringExecFns;

verus! {

/// The state of one stored resource.
enum Slot {
    /// Written, still open to mutable access.
    Stream(Vec<u8>),
    /// Frozen by a read-only open.
    Frozen(Vec<u8>),
    /// Taken out by a mutable open.
    Removed,
}

/// The bytes a slot holds.
spec fn slot_bytes(s: Slot) -> Seq<u8> {
    match s {
        Slot::Stream(b) => b@,
        Slot::Frozen(b) => b@,
        Slot::Removed => Seq::empty(),
    }
}

/// Whether a slot stores a resource at all.
spec fn slot_present(s: Slot) -> bool {
    !(s is Removed)
}

/// The slot under key `k`: the latest entry with that key wins.
spec fn find_slot(s: Seq<(String, Slot)>, k: Seq<char>) -> Option<Slot>
    decreases s.len(),
{
    if s.len() == 0 {
        None
    } else if s.last().0@ == k {
        Some(s.last().1)
    } else {
        find_slot(s.drop_last(), k)
    }
}

/// Whether the resource under key `k` is present.
spec fn key_present(s: Seq<(String, Slot)>, k: Seq<char>) -> bool {
    match find_slot(s, k) {
        Some(sl) => slot_present(sl),
        None => false,
    }
}

/// Whether the resource under key `k` is frozen.
spec fn key_frozen(s: Seq<(String, Slot)>, k: Seq<char>) -> bool {
    match find_slot(s, k) {
        Some(sl) => sl is Frozen,
        None => false,
    }
}

/// If entry `i` is the last entry with its key, the lookup of that key
/// lands on it, and the lookup of any other key ignores it.
proof fn lemma_find_at(s: Seq<(String, Slot)>, i: int)
    requires
        0 <= i < s.len(),
        forall|j: int| i < j < s.len() ==> s[j].0@ != s[i].0@,
    ensures
        find_slot(s, s[i].0@) == Some(s[i].1),
    decreases s.len(),
{
    if i == s.len() - 1 {
    } else {
        assert(s.drop_last()[i] == s[i]);
        lemma_find_at(s.drop_last(), i);
    }
}

/// A key matching no entry has no slot.
proof fn lemma_find_none(s: Seq<(String, Slot)>, k: Seq<char>)
    requires
        forall|j: int| 0 <= j < s.len() ==> s[j].0@ != k,
    ensures
        find_slot(s, k) is None,
    decreases s.len(),
{
    if s.len() > 0 {
        lemma_find_none(s.drop_last(), k);
    }
}

/// Appending an entry redirects its own key to it and leaves every
/// other key's lookup alone.
proof fn lemma_find_push(s: Seq<(String, Slot)>, e: (String, Slot), k: Seq<char>)
    ensures
        find_slot(s.push(e), k) == if e.0@ == k {
            Some(e.1)
        } else {
            find_slot(s, k)
        },
{
    assert(s.push(e).drop_last() =~= s);
    assert(s.push(e).last() == e);
}

/// Replacing the last entry of a key, with an entry of the same key,
/// redirects that key to the new slot and leaves every other key's
/// lookup alone.
proof fn lemma_find_update(s: Seq<(String, Slot)>, i: int, e: (String, Slot), k: Seq<char>)
    requires
        0 <= i < s.len(),
        e.0@ == s[i].0@,
        forall|j: int| i < j < s.len() ==> s[j].0@ != s[i].0@,
    ensures
        find_slot(s.update(i, e), k) == if k == s[i].0@ {
            Some(e.1)
        } else {
            find_slot(s, k)
        },
    decreases s.len(),
{
    let t = s.update(i, e);
    if i == s.len() - 1 {
        assert(t.last() == e);
        assert(t.drop_last() =~= s.drop_last());
    } else {
        assert(t.last() == s.last());
        assert(t.drop_last() =~= s.drop_last().update(i, e));
        assert(s.drop_last()[i] == s[i]);
        lemma_find_update(s.drop_last(), i, e, k);
    }
}

/// Resource storage in memory.
pub struct MemoryResourceStorage {
    /// Root path of this storage; resource keys live below it.
    path: String,
    /// The stored resources; a later entry shadows an earlier one with
    /// the same key.
    entries: Vec<(String, Slot)>,
}

impl MemoryResourceStorage {
    /// Creates an empty in-memory storage rooted at `path`.
    pub fn new(path: String) -> (r: Self)
        ensures
            r.model().resources == Map::<Seq<char>, Seq<u8>>::empty(),
            r.model().frozen == Set::<Seq<char>>::empty(),
            forall|n: Seq<char>| r.full_key(n) == path@ + "/"@ + n,
    {
        let r = MemoryResourceStorage { path, entries: Vec::new() };
        proof {
            assert(r.model().resources =~= Map::<Seq<char>, Seq<u8>>::empty());
            assert(r.model().frozen =~= Set::<Seq<char>>::empty());
        }
        r
    }

    /// The full key of `name` under this storage's root path.
    fn full_path(&self, name: &str) -> (r: String)
        ensures
            r@ == self.full_key(name@),
    {
        self.path.clone().concat("/").concat(name)
    }

    /// Index of the last entry with this key, if any.
    fn find_index(&self, key: &String) -> (r: Option<usize>)
        ensures
            match r {
                Some(i) => {
                    &&& i < self.entries@.len()
                    &&& self.entries@[i as int].0@ == key@
                    &&& forall|j: int|
                        i < j < self.entries@.len() ==> self.entries@[j].0@ != key@
                    &&& find_slot(self.entries@, key@) == Some(self.entries@[i as int].1)
                },
                None => find_slot(self.entries@, key@) is None,
            },
    {
        let mut i = self.entries.len();
        while i > 0
            invariant
                i <= self.entries@.len(),
                forall|j: int| i <= j < self.entries@.len() ==> self.entries@[j].0@ != key@,
            decreases i,
        {
            i = i - 1;
            if self.entries[i].0 == *key {
                proof {
                    lemma_find_at(self.entries@, i as int);
                }
                return Some(i);
            }
        }
        proof {
            lemma_find_none(self.entries@, key@);
        }
        None
    }
}

impl ResourceStorage for MemoryResourceStorage {
    type Sink = BytesCursor;

    closed spec fn model(&self) -> StorageModel {
        StorageModel {
            resources: Map::new(
                |k: Seq<char>| key_present(self.entries@, k),
                |k: Seq<char>|
                    match find_slot(self.entries@, k) {
                        Some(sl) => slot_bytes(sl),
                        None => Seq::empty(),
                    },
            ),
            frozen: Set::new(|k: Seq<char>| key_frozen(self.entries@, k)),
        }
    }

    closed spec fn full_key(&self, name: Seq<char>) -> Seq<char> {
        self.path@ + "/"@ + name
    }

    proof fn lemma_full_key_injective(&self, n1: Seq<char>, n2: Seq<char>) {
        let p = self.path@ + "/"@;
        if self.full_key(n1) == self.full_key(n2) {
            assert((p + n1).len() == p.len() + n1.len());
            assert((p + n2).len() == p.len() + n2.len());
            assert(self.full_key(n1) == p + n1);
            assert(self.full_key(n2) == p + n2);
            assert(n1.len() == n2.len());
            assert forall|i: int| 0 <= i < n1.len() implies n1[i] == n2[i] by {
                assert((p + n1)[p.len() + i] == n1[i]);
                assert((p + n2)[p.len() + i] == n2[i]);
            }
            assert(n1 =~= n2);
        }
    }

    fn resource_exists(&self, name: &str) -> (r: bool) {
        let full = self.full_path(name);
        match self.find_index(&full) {
            Some(i) => match &self.entries[i].1 {
                Slot::Removed => false,
                _ => true,
            },
            None => false,
        }
    }

    fn create_output_stream(&mut self, name: &str) -> (r: Result<
        BytesCursor,
        ResourceStorageError,
    >)
        ensures
            r is Ok,
    {
        Ok(BytesCursor::new())
    }

    fn store_stream(&mut self, name: &str, sink: BytesCursor) -> (r: Result<
        (),
        ResourceStorageError,
    >)
        ensures
            (r is Err) <==> old(self).model().frozen.contains(old(self).full_key(name@)),
            r matches Err(e) ==> e matches ResourceStorageError::PermissionDenied { .. },
    {
        let full = self.full_path(name);
        let ghost key = full@;
        let ghost entries0 = self.entries@;
        match self.find_index(&full) {
            Some(i) => {
                match &self.entries[i].1 {
                    Slot::Frozen(_) => {
                        return Err(ResourceStorageError::PermissionDenied { resource_name: full });
                    },
                    _ => {},
                }
                let e = (full, Slot::Stream(sink.into_data()));
                let ghost enew = e;
                self.entries.set(i, e);
                proof {
                    assert forall|k: Seq<char>|
                        find_slot(self.entries@, k) == if k == key {
                            Some(enew.1)
                        } else {
                            find_slot(entries0, k)
                        } by {
                        lemma_find_update(entries0, i as int, enew, k);
                    }
                    assert(self.model().resources =~= old(
                        self,
                    ).model().resources.insert(old(self).full_key(name@), sink.content()));
                    assert(self.model().frozen =~= old(self).model().frozen);
                }
                Ok(())
            },
            None => {
                let e = (full, Slot::Stream(sink.into_data()));
                let ghost enew = e;
                self.entries.push(e);
                proof {
                    assert forall|k: Seq<char>|
                        find_slot(self.entries@, k) == if k == key {
                            Some(enew.1)
                        } else {
                            find_slot(entries0, k)
                        } by {
                        lemma_find_push(entries0, enew, k);
                    }
                    assert(self.model().resources =~= old(
                        self,
                    ).model().resources.insert(old(self).full_key(name@), sink.content()));
                    assert(self.model().frozen =~= old(self).model().frozen);
                }
                Ok(())
            },
        }
    }

    fn read_resource(&mut self, name: &str) -> (r: Result<
        MemoryDescriptor,
        ResourceStorageError,
    >)
        ensures
            old(self).model().resources.dom().contains(old(self).full_key(name@)) ==> r is Ok,
    {
        let full = self.full_path(name);
        let ghost key = full@;
        let ghost entries0 = self.entries@;
        match self.find_index(&full) {
            None => Err(ResourceStorageError::NotFound { resource_name: full }),
            Some(i) => {
                let bytes: Vec<u8> = match &self.entries[i].1 {
                    Slot::Removed => {
                        return Err(ResourceStorageError::NotFound { resource_name: full });
                    },
                    Slot::Stream(b) => b.clone(),
                    Slot::Frozen(b) => b.clone(),
                };
                proof {
                    assert(bytes@ =~= slot_bytes(entries0[i as int].1)) by {
                        assert forall|j: int| 0 <= j < bytes@.len() implies bytes@[j] == slot_bytes(
                            entries0[i as int].1,
                        )[j] by {
                            assert(bytes.deep_view()[j] == bytes@[j]);
                        }
                    }
                }
                let frozen_copy = bytes.clone();
                proof {
                    assert(frozen_copy@ =~= bytes@) by {
                        assert forall|j: int|
                            0 <= j < frozen_copy@.len() implies frozen_copy@[j] == bytes@[j] by {
                            assert(frozen_copy.deep_view()[j] == frozen_copy@[j]);
                            assert(bytes.deep_view()[j] == bytes@[j]);
                        }
                    }
                }
                let e = (full, Slot::Frozen(frozen_copy));
                let ghost enew = e;
                self.entries.set(i, e);
                proof {
                    assert forall|k: Seq<char>|
                        find_slot(self.entries@, k) == if k == key {
                            Some(enew.1)
                        } else {
                            find_slot(entries0, k)
                        } by {
                        lemma_find_update(entries0, i as int, enew, k);
                    }
                    assert(self.model().resources =~= old(self).model().resources);
                    assert(self.model().frozen =~= old(self).model().frozen.insert(key));
                }
                Ok(MemoryDescriptor::new(bytes))
            },
        }
    }

    fn read_resource_mut(&mut self, name: &str) -> (r: Result<
        BytesCursor,
        ResourceStorageError,
    >)
        ensures
            old(self).model().resources.dom().contains(old(self).full_key(name@)) && !old(
                self,
            ).model().frozen.contains(old(self).full_key(name@)) ==> r is Ok,
    {
        let full = self.full_path(name);
        let ghost key = full@;
        let ghost entries0 = self.entries@;
        match self.find_index(&full) {
            None => Err(ResourceStorageError::NotFound { resource_name: full }),
            Some(i) => {
                match &self.entries[i].1 {
                    Slot::Removed => {
                        return Err(ResourceStorageError::NotFound { resource_name: full });
                    },
                    Slot::Frozen(_) => {
                        return Err(ResourceStorageError::PermissionDenied { resource_name: full });
                    },
                    Slot::Stream(_) => {},
                }
                let mut taken = (full, Slot::Removed);
                self.entries.set_and_swap(i, &mut taken);
                let ghost enew = self.entries@[i as int];
                let bytes: Vec<u8> = match taken.1 {
                    Slot::Stream(b) => b,
                    _ => {
                        proof {
                            assert(false);
                        }
                        Vec::new()
                    },
                };
                proof {
                    assert forall|k: Seq<char>|
                        find_slot(self.entries@, k) == if k == key {
                            Some(enew.1)
                        } else {
                            find_slot(entries0, k)
                        } by {
                        lemma_find_update(entries0, i as int, enew, k);
                    }
                    assert(self.model().resources =~= old(
                        self,
                    ).model().resources.remove(old(self).full_key(name@)));
                    assert(self.model().frozen =~= old(self).model().frozen);
                }
                let n = bytes.len();
                Ok(BytesCursor { data: bytes, pos: n })
            },
        }
    }

    fn subdir(&self, dir: &str) -> (r: Self) {
        let r = MemoryResourceStorage {
            path: self.path.clone().concat("/").concat(dir),
            entries: Vec::new(),
        };
        proof {
            assert(r.model().resources =~= Map::<Seq<char>, Seq<u8>>::empty());
            assert(r.model().frozen =~= Set::<Seq<char>>::empty());
            assert forall|n: Seq<char>| #[trigger] r.full_key(n) == self.full_key(
                dir@ + "/"@ + n,
            ) by {
                assert(r.full_key(n) =~= self.full_key(dir@ + "/"@ + n));
            }
        }
        r
    }
}

} // verus!
