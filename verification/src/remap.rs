//! The remap table: where each node that a pass replaced has gone.

use vstd::prelude::*;

verus! {

/// A table from the indices of replaced nodes to the nodes that stand for
/// them now.
#[derive(Debug, Default)]
pub struct RemapTable {
    pub(crate) entries: Vec<(usize, usize)>,
}

/// The value of the first entry for `key` from position `i` on.
pub open spec fn find_from(entries: Seq<(usize, usize)>, key: usize, i: int) -> Option<usize>
    decreases entries.len() - i,
{
    if 0 <= i < entries.len() {
        if entries[i].0 == key {
            Some(entries[i].1)
        } else {
            find_from(entries, key, i + 1)
        }
    } else {
        None
    }
}

/// The table that a list of entries stands for: each key with the value of
/// its first entry.
pub open spec fn table_of(entries: Seq<(usize, usize)>) -> Map<usize, usize> {
    Map::new(
        |key: usize| find_from(entries, key, 0) is Some,
        |key: usize| find_from(entries, key, 0).unwrap(),
    )
}

/// The table after node `src` has given way to node `trg`: whatever stood
/// for `src` is now `trg`, so every entry that led to `src` leads to `trg`;
/// and `src` itself leads to `trg`, unless the table knows the index `src`
/// already, as that of an earlier node that is long replaced.
pub open spec fn redirected(m: Map<usize, usize>, src: usize, trg: usize) -> Map<usize, usize> {
    Map::new(
        |key: usize| m.contains_key(key) || key == src,
        |key: usize|
            if m.contains_key(key) {
                if m[key] == src {
                    trg
                } else {
                    m[key]
                }
            } else {
                trg
            },
    )
}

impl View for RemapTable {
    type V = Map<usize, usize>;

    open(crate) spec fn view(&self) -> Map<usize, usize> {
        table_of(self.entries@)
    }
}

/// A list with one more entry at its end finds what it found before, and
/// the new entry for a key that it did not know.
proof fn lemma_find_push(entries: Seq<(usize, usize)>, entry: (usize, usize), key: usize, i: int)
    requires
        0 <= i <= entries.len(),
    ensures
        find_from(entries.push(entry), key, i) == match find_from(entries, key, i) {
            Some(v) => Some(v),
            None => if key == entry.0 {
                Some(entry.1)
            } else {
                None
            },
        },
    decreases entries.len() - i,
{
    let more = entries.push(entry);
    if i < entries.len() {
        assert(more[i] == entries[i]);
        lemma_find_push(entries, entry, key, i + 1);
    } else {
        assert(more[i] == entry);
        assert(find_from(more, key, i + 1) is None);
    }
}

/// Two lists with the same keys find, for a key, the values at the same
/// place.
proof fn lemma_find_redirected(
    old_entries: Seq<(usize, usize)>,
    entries: Seq<(usize, usize)>,
    src: usize,
    trg: usize,
    key: usize,
    i: int,
)
    requires
        0 <= i <= entries.len(),
        entries.len() == old_entries.len(),
        forall|j: int|
            0 <= j < entries.len() ==> (#[trigger] entries[j]).0 == old_entries[j].0
                && entries[j].1 == (if old_entries[j].1 == src {
                trg
            } else {
                old_entries[j].1
            }),
    ensures
        find_from(entries, key, i) == match find_from(old_entries, key, i) {
            Some(v) => Some(
                if v == src {
                    trg
                } else {
                    v
                },
            ),
            None => None,
        },
    decreases entries.len() - i,
{
    if i < entries.len() {
        assert(entries[i].0 == old_entries[i].0);
        lemma_find_redirected(old_entries, entries, src, trg, key, i + 1);
    }
}

impl RemapTable {
    /// An empty table.
    pub fn new() -> (t: RemapTable)
        ensures
            t@ =~= Map::empty(),
    {
        RemapTable { entries: Vec::new() }
    }

    /// Where the table sends `key`, if anywhere.
    pub fn get(&self, key: usize) -> (to: Option<usize>)
        ensures
            to == (if self@.contains_key(key) {
                Some(self@[key])
            } else {
                None
            }),
    {
        let n = self.entries.len();
        let mut i: usize = 0;
        while i < n
            invariant
                i <= n,
                n == self.entries@.len(),
                find_from(self.entries@, key, 0) == find_from(self.entries@, key, i as int),
            decreases n - i,
        {
            let (k, v) = self.entries[i];
            if k == key {
                return Some(v);
            }
            i += 1;
        }
        None
    }

    /// Records that node `src` has given way to node `trg`.
    pub fn redirect(&mut self, src: usize, trg: usize)
        ensures
            final(self)@ == redirected(old(self)@, src, trg),
    {
        let ghost old_entries = self.entries@;
        let n = self.entries.len();
        let mut known = false;
        let mut i: usize = 0;
        while i < n
            invariant
                i <= n,
                n == old_entries.len(),
                self.entries@.len() == n,
                forall|j: int|
                    0 <= j < i ==> (#[trigger] self.entries@[j]).0 == old_entries[j].0
                        && self.entries@[j].1 == (if old_entries[j].1 == src {
                        trg
                    } else {
                        old_entries[j].1
                    }),
                forall|j: int| i <= j < n ==> self.entries@[j] == old_entries[j],
                known <==> exists|j: int| 0 <= j < i && old_entries[j].0 == src,
            decreases n - i,
        {
            let (k, v) = self.entries[i];
            if k == src {
                known = true;
            }
            if v == src {
                self.entries.set(i, (k, trg));
            }
            proof {
                if k == src {
                    assert(old_entries[i as int].0 == src);
                }
                if known && k != src {
                    let j = choose|j: int| 0 <= j < i && old_entries[j].0 == src;
                    assert(0 <= j < i + 1 && old_entries[j].0 == src);
                }
                if exists|j: int| 0 <= j < i + 1 && old_entries[j].0 == src {
                    let j = choose|j: int| 0 <= j < i + 1 && old_entries[j].0 == src;
                    if j < i {
                        assert(known);
                    }
                }
            }
            i += 1;
        }
        let ghost mid = self.entries@;
        proof {
            lemma_known(old_entries, src, 0);
        }
        if !known {
            self.entries.push((src, trg));
        }
        proof {
            let want = redirected(table_of(old_entries), src, trg);
            let have = table_of(self.entries@);
            assert forall|key: usize| #[trigger]
                have.dom().contains(key) == want.dom().contains(key) && (have.dom().contains(key)
                    ==> have[key] == want[key]) by {
                lemma_find_redirected(old_entries, mid, src, trg, key, 0);
                if !known {
                    lemma_find_push(mid, (src, trg), key, 0);
                }
            }
            assert(have =~= want);
        }
    }

    /// A copy of the table.
    pub fn duplicate(&self) -> (copy: RemapTable)
        ensures
            copy@ == self@,
    {
        let n = self.entries.len();
        let mut entries: Vec<(usize, usize)> = Vec::new();
        let mut i: usize = 0;
        while i < n
            invariant
                i <= n,
                n == self.entries@.len(),
                entries@ == self.entries@.take(i as int),
            decreases n - i,
        {
            entries.push(self.entries[i]);
            proof {
                assert(self.entries@.take(i + 1) =~= self.entries@.take(i as int).push(
                    self.entries@[i as int],
                ));
            }
            i += 1;
        }
        proof {
            assert(self.entries@.take(n as int) =~= self.entries@);
        }
        RemapTable { entries }
    }
}

/// A list finds a key from position `i` on exactly when it has an entry for
/// the key there.
proof fn lemma_known(entries: Seq<(usize, usize)>, key: usize, i: int)
    requires
        0 <= i <= entries.len(),
    ensures
        find_from(entries, key, i) is Some <==> exists|j: int|
            i <= j < entries.len() && entries[j].0 == key,
    decreases entries.len() - i,
{
    if i < entries.len() {
        lemma_known(entries, key, i + 1);
        if entries[i].0 != key {
            if exists|j: int| i <= j < entries.len() && entries[j].0 == key {
                let j = choose|j: int| i <= j < entries.len() && entries[j].0 == key;
                assert(i + 1 <= j);
            }
        }
    }
}

} // verus!
