//! The modelled on-disk tier.
//!
//! The real cache keeps one file per demoted key, at
//! `<cache_directory>/<key>/cachefile`. Since each key owns a disjoint
//! subdirectory, the directory tree is, mathematically, an association of
//! keys to byte strings; [`DiskStore`] holds exactly that association, so the
//! whole demotion/eviction algorithm can be verified against it. Writing the
//! bytes through the operating system is the embedding application's part.

use crate::assoc::{
    contains_key, find_key, keys_distinct, lemma_find_key, lemma_push_keeps_distinct,
    lemma_remove_keeps_distinct, lemma_update_keeps_distinct, remove_key, set_assoc, value_of,
};
use vstd::prelude::*;

verus! {

/// Total size in bytes of the files of `s`.
pub open spec fn disk_in_use(s: Seq<(Seq<char>, Seq<u8>)>) -> int
    decreases s.len(),
{
    if s.len() == 0 {
        0
    } else {
        disk_in_use(s.drop_last()) + s.last().1.len()
    }
}

/// Size in bytes of the file stored under `k`, or 0 if there is none.
pub open spec fn file_size(s: Seq<(Seq<char>, Seq<u8>)>, k: Seq<char>) -> int {
    if contains_key(s, k) {
        value_of(s, k).len() as int
    } else {
        0
    }
}

/// `s` with `b` stored under `k`: the file under `k` is replaced if present,
/// appended otherwise.
pub open spec fn write_file(s: Seq<(Seq<char>, Seq<u8>)>, k: Seq<char>, b: Seq<u8>) -> Seq<
    (Seq<char>, Seq<u8>),
> {
    set_assoc(s, k, b)
}

/// The total size never goes below zero.
pub proof fn lemma_disk_in_use_nonneg(s: Seq<(Seq<char>, Seq<u8>)>)
    ensures
        disk_in_use(s) >= 0,
    decreases s.len(),
{
    if s.len() > 0 {
        lemma_disk_in_use_nonneg(s.drop_last());
    }
}

/// Removing the file at an index lowers the total size by that file's size.
pub proof fn lemma_disk_in_use_remove(s: Seq<(Seq<char>, Seq<u8>)>, i: int)
    requires
        0 <= i < s.len(),
    ensures
        disk_in_use(s.remove(i)) == disk_in_use(s) - s[i].1.len(),
    decreases s.len(),
{
    if i == s.len() - 1 {
        assert(s.remove(i) =~= s.drop_last());
    } else {
        lemma_disk_in_use_remove(s.drop_last(), i);
        assert(s.remove(i).drop_last() =~= s.drop_last().remove(i));
        assert(s.remove(i).last() == s.last());
    }
}

/// Replacing the file at an index changes the total size by the difference
/// of the file sizes.
pub proof fn lemma_disk_in_use_update(s: Seq<(Seq<char>, Seq<u8>)>, i: int, v: (Seq<char>, Seq<u8>))
    requires
        0 <= i < s.len(),
    ensures
        disk_in_use(s.update(i, v)) == disk_in_use(s) - s[i].1.len() + v.1.len(),
    decreases s.len(),
{
    if i == s.len() - 1 {
        assert(s.update(i, v).drop_last() =~= s.drop_last());
        assert(s.update(i, v).last() == v);
    } else {
        lemma_disk_in_use_update(s.drop_last(), i, v);
        assert(s.update(i, v).drop_last() =~= s.drop_last().update(i, v));
        assert(s.update(i, v).last() == s.last());
    }
}

/// Any single file's size is at most the total size.
pub proof fn lemma_file_le_disk_in_use(s: Seq<(Seq<char>, Seq<u8>)>, i: int)
    requires
        0 <= i < s.len(),
    ensures
        s[i].1.len() <= disk_in_use(s),
    decreases s.len(),
{
    lemma_disk_in_use_nonneg(s.drop_last());
    if i == s.len() - 1 {
    } else {
        lemma_file_le_disk_in_use(s.drop_last(), i);
    }
}

/// The modelled directory tree: one file per key.
#[derive(Debug)]
pub struct DiskStore {
    files: Vec<(String, Vec<u8>)>,
}

impl View for DiskStore {
    type V = Seq<(Seq<char>, Seq<u8>)>;

    closed spec fn view(&self) -> Seq<(Seq<char>, Seq<u8>)> {
        Seq::new(self.files@.len(), |i: int| (self.files@[i].0@, self.files@[i].1@))
    }
}

impl DiskStore {
    /// The store's keys are pairwise distinct.
    pub open spec fn wf(&self) -> bool {
        keys_distinct(self@)
    }

    /// An empty directory tree.
    pub fn new() -> (r: DiskStore)
        ensures
            r@ == Seq::<(Seq<char>, Seq<u8>)>::empty(),
            r.wf(),
    {
        let r = DiskStore { files: Vec::new() };
        proof {
            assert(r@ =~= Seq::<(Seq<char>, Seq<u8>)>::empty());
        }
        r
    }

    /// Index of the file stored under `key`, if any.
    fn position_of(&self, key: &str) -> (r: Option<usize>)
        ensures
            match r {
                Some(i) => i == find_key(self@, key@),
                None => !contains_key(self@, key@),
            },
    {
        let k = key.to_owned();
        let n = self.files.len();
        let mut i: usize = 0;
        while i < n
            invariant
                n == self.files@.len(),
                i <= n,
                k@ == key@,
                forall|j: int| 0 <= j < i ==> self@[j].0 != key@,
            decreases n - i,
        {
            if self.files[i].0 == k {
                proof {
                    assert(self@[i as int].0 == key@);
                    lemma_find_key(self@, key@);
                }
                return Some(i);
            }
            proof {
                assert(self@[i as int].0 == self.files@[i as int].0@);
            }
            i = i + 1;
        }
        proof {
            lemma_find_key(self@, key@);
        }
        None
    }

    /// Size in bytes of the file stored under `key`, or 0 if there is none.
    pub fn size_for(&self, key: &str) -> (n: u64)
        ensures
            n == file_size(self@, key@),
    {
        match self.position_of(key) {
            Some(i) => {
                proof {
                    lemma_find_key(self@, key@);
                }
                self.files[i].1.len() as u64
            },
            None => 0,
        }
    }

    /// The bytes of the file stored under `key`, if any.
    pub fn read(&self, key: &str) -> (r: Option<&Vec<u8>>)
        ensures
            match r {
                Some(b) => contains_key(self@, key@) && b@ == value_of(self@, key@),
                None => !contains_key(self@, key@),
            },
    {
        match self.position_of(key) {
            Some(i) => {
                proof {
                    lemma_find_key(self@, key@);
                }
                Some(&self.files[i].1)
            },
            None => None,
        }
    }

    /// Stores `bytes` under `key`, replacing any file already there; returns
    /// the size of the file that was replaced, or 0.
    pub fn write(&mut self, key: String, bytes: Vec<u8>) -> (replaced: u64)
        requires
            old(self).wf(),
        ensures
            final(self).wf(),
            final(self)@ == write_file(old(self)@, key@, bytes@),
            replaced == file_size(old(self)@, key@),
    {
        let ghost prev = self@;
        match self.position_of(key.as_str()) {
            Some(i) => {
                proof {
                    lemma_find_key(self@, key@);
                }
                let r = self.files[i].1.len() as u64;
                self.files.set(i, (key, bytes));
                proof {
                    assert(self@ =~= prev.update(i as int, (key@, bytes@)));
                    lemma_update_keeps_distinct(prev, i as int, (key@, bytes@));
                }
                r
            },
            None => {
                proof {
                    lemma_find_key(self@, key@);
                }
                self.files.push((key, bytes));
                proof {
                    assert(self@ =~= prev.push((key@, bytes@)));
                    lemma_push_keeps_distinct(prev, (key@, bytes@));
                }
                0
            },
        }
    }

    /// Deletes the file stored under `key`, if any; returns its size, or 0.
    pub fn delete(&mut self, key: &str) -> (freed: u64)
        requires
            old(self).wf(),
        ensures
            final(self).wf(),
            final(self)@ == remove_key(old(self)@, key@),
            freed == file_size(old(self)@, key@),
    {
        let ghost prev = self@;
        match self.position_of(key) {
            Some(i) => {
                proof {
                    lemma_find_key(self@, key@);
                }
                let (_k, b) = self.files.remove(i);
                proof {
                    assert(self@ =~= prev.remove(i as int));
                    lemma_remove_keeps_distinct(prev, i as int);
                }
                b.len() as u64
            },
            None => 0,
        }
    }
}

} // verus!
