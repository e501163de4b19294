use vstd::prelude::*;

verus! {

/// The parent index of an entry that has no parent.
pub const SENTINEL: u32 = u32::MAX;

/// An append-only store of items, each linked to the item before it on its
/// path. An index stands for the whole path from a root to its item.
pub struct Backtracking<T: Copy> {
    entries: Vec<(T, u32)>,
}

/// Whether `parent` may be the parent of the entry at `index`: it is the
/// sentinel, or an entry stored earlier.
pub open spec fn links_back(parent: u32, index: int) -> bool {
    parent == SENTINEL || parent < index
}

/// The items on the path that ends at `index`, root first. The sentinel
/// stands for the empty path.
pub open spec fn path_of<T>(entries: Seq<(T, u32)>, index: u32) -> Seq<T>
    decreases
            (if index == SENTINEL {
                0
            } else {
                index + 1
            }),
{
    if index == SENTINEL || index >= entries.len() {
        Seq::empty()
    } else if links_back(entries[index as int].1, index as int) {
        path_of(entries, entries[index as int].1).push(entries[index as int].0)
    } else {
        seq![entries[index as int].0]
    }
}

/// Entries that are appended leave the paths of the earlier ones as they were.
pub proof fn lemma_path_stable<T>(entries: Seq<(T, u32)>, entry: (T, u32), index: u32)
    requires
        index == SENTINEL || index < entries.len(),
    ensures
        path_of(entries.push(entry), index) == path_of(entries, index),
    decreases
            (if index == SENTINEL {
                0
            } else {
                index + 1
            }),
{
    if index != SENTINEL {
        let parent = entries[index as int].1;
        assert(entries.push(entry)[index as int] == entries[index as int]);
        if links_back(parent, index as int) {
            lemma_path_stable(entries, entry, parent);
        }
    }
}

impl<T: Copy> View for Backtracking<T> {
    type V = Seq<(T, u32)>;

    closed spec fn view(&self) -> Seq<(T, u32)> {
        self.entries@
    }
}

impl<T: Copy> Backtracking<T> {
    /// Every entry's parent was stored before it, and no index is the sentinel.
    pub open spec fn wf(&self) -> bool {
        &&& self@.len() <= SENTINEL
        &&& forall|i: int| 0 <= i < self@.len() ==> links_back(#[trigger] self@[i].1, i)
    }

    /// The path that `index` stands for.
    pub open spec fn path(&self, index: u32) -> Seq<T> {
        path_of(self@, index)
    }

    pub fn new() -> (r: Self)
        ensures
            r@.len() == 0,
            r.wf(),
    {
        Self { entries: Vec::new() }
    }

    pub fn len(&self) -> (r: usize)
        ensures
            r == self@.len(),
    {
        self.entries.len()
    }

    /// The item at `index` and the index of its parent.
    pub fn entry(&self, index: u32) -> (r: (T, u32))
        requires
            self.wf(),
            index < self@.len(),
        ensures
            r == self@[index as int],
            links_back(r.1, index as int),
            r.1 == SENTINEL || r.1 < self@.len(),
            self.path(index) == self.path(r.1).push(r.0),
    {
        self.entries[index as usize]
    }

    /// Whether one more entry can be stored.
    pub fn has_room(&self) -> (r: bool)
        ensures
            r == (self@.len() < SENTINEL),
    {
        self.entries.len() < SENTINEL as usize
    }

    /// The items from the root to `index`, in the order in which they were
    /// linked.
    pub fn get(&self, index: u32) -> (r: Vec<T>)
        requires
            self.wf(),
            index == SENTINEL || index < self@.len(),
        ensures
            r@ == self.path(index),
    {
        let mut items: Vec<T> = Vec::new();
        let mut at = index;
        while at != SENTINEL
            invariant
                self.wf(),
                at == SENTINEL || at < self@.len(),
                self.path(index) == path_of(self@, at) + items@.reverse(),
            decreases
                    (if at == SENTINEL {
                        0
                    } else {
                        at + 1
                    }),
        {
            let entry = self.entries[at as usize];
            let ghost before = items@;
            items.push(entry.0);
            proof {
                let rest = path_of(self@, entry.1);
                assert(path_of(self@, at) == rest.push(entry.0));
                assert(items@.reverse() =~= seq![entry.0] + before.reverse());
                assert(rest.push(entry.0) + before.reverse() =~= rest + items@.reverse());
            }
            at = entry.1;
        }
        let mut out: Vec<T> = Vec::new();
        let mut k: usize = items.len();
        while k > 0
            invariant
                k <= items.len(),
                out@.len() == items.len() - k,
                forall|j: int| 0 <= j < out@.len() ==> out@[j] == items@[items.len() - 1 - j],
            decreases k,
        {
            k -= 1;
            out.push(items[k]);
        }
        proof {
            assert(out@ =~= items@.reverse());
            assert(path_of(self@, SENTINEL) + items@.reverse() =~= items@.reverse());
        }
        out
    }

    /// Stores `item` behind `parent` and returns its index.
    pub fn push(&mut self, item: T, parent: u32) -> (r: u32)
        requires
            old(self).wf(),
            old(self)@.len() < SENTINEL,
            parent == SENTINEL || parent < old(self)@.len(),
        ensures
            final(self).wf(),
            final(self)@ == old(self)@.push((item, parent)),
            r == old(self)@.len(),
            r != SENTINEL,
            final(self).path(r) == old(self).path(parent).push(item),
            forall|i: u32|
                i == SENTINEL || i < old(self)@.len() ==> #[trigger] final(self).path(i) == old(
                    self,
                ).path(i),
    {
        let index = self.entries.len();
        self.entries.push((item, parent));
        proof {
            let before = old(self)@;
            assert(self@ == before.push((item, parent)));
            lemma_path_stable(before, (item, parent), parent);
            assert forall|i: u32| i == SENTINEL || i < before.len() implies #[trigger] self.path(i)
                == old(self).path(i) by {
                lemma_path_stable(before, (item, parent), i);
            }
        }
        index as u32
    }
}

/// A path read back is the parent's path followed by the item that was
/// stored: reading gives the items in the order in which they were taken.
pub proof fn lemma_push_extends_path<T>(entries: Seq<(T, u32)>, item: T, parent: u32)
    requires
        entries.len() < SENTINEL,
        parent == SENTINEL || parent < entries.len(),
    ensures
        path_of(entries.push((item, parent)), entries.len() as u32) == path_of(
            entries,
            parent,
        ).push(item),
{
    lemma_path_stable(entries, (item, parent), parent);
}

} // verus!
