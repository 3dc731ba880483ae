//! A table keyed by 16-bit identifiers, kept in rising order of identifier.

use vstd::prelude::*;

verus! {

/// One row of a table.
struct Entry<T> {
    id: u16,
    value: T,
}

/// Whether the entries stand in strictly rising order of identifier.
spec fn rising<T>(entries: Seq<Entry<T>>) -> bool {
    forall|i: int, j: int| 0 <= i < j < entries.len() ==> entries[i].id < entries[j].id
}

/// Whether some entry carries the identifier.
spec fn holds<T>(entries: Seq<Entry<T>>, id: u16) -> bool {
    exists|i: int| 0 <= i < entries.len() && (#[trigger] entries[i]).id == id
}

/// The place of the entry that carries the identifier.
spec fn place_of<T>(entries: Seq<Entry<T>>, id: u16) -> int {
    choose|i: int| 0 <= i < entries.len() && (#[trigger] entries[i]).id == id
}

/// The entries as a map from identifier to value.
spec fn as_map<T>(entries: Seq<Entry<T>>) -> Map<u16, T> {
    Map::new(|id: u16| holds(entries, id), |id: u16| entries[place_of(entries, id)].value)
}

proof fn lemma_place<T>(entries: Seq<Entry<T>>, i: int)
    requires
        rising(entries),
        0 <= i < entries.len(),
    ensures
        holds(entries, entries[i].id),
        place_of(entries, entries[i].id) == i,
        as_map(entries).dom().contains(entries[i].id),
        as_map(entries)[entries[i].id] == entries[i].value,
{
    let id = entries[i].id;
    let p = place_of(entries, id);
    assert(0 <= p < entries.len() && entries[p].id == id);
    if p < i {
        assert(entries[p].id < entries[i].id);
    } else if i < p {
        assert(entries[i].id < entries[p].id);
    }
}

proof fn lemma_insert<T>(entries: Seq<Entry<T>>, at: int, entry: Entry<T>)
    requires
        rising(entries),
        0 <= at <= entries.len(),
        forall|j: int| 0 <= j < at ==> entries[j].id < entry.id,
        forall|j: int| at <= j < entries.len() ==> entries[j].id > entry.id,
    ensures
        rising(entries.insert(at, entry)),
        as_map(entries.insert(at, entry)) == as_map(entries).insert(entry.id, entry.value),
{
    let grown = entries.insert(at, entry);
    assert(rising(grown)) by {
        assert forall|i: int, j: int| 0 <= i < j < grown.len() implies grown[i].id
            < grown[j].id by {
            let oi = if i < at { i } else { i - 1 };
            let oj = if j < at { j } else { j - 1 };
            if i != at && j != at {
                assert(grown[i] == entries[oi]);
                assert(grown[j] == entries[oj]);
            } else if i == at {
                assert(grown[j] == entries[oj]);
            } else {
                assert(grown[i] == entries[oi]);
            }
        }
    }
    let want = as_map(entries).insert(entry.id, entry.value);
    assert forall|id: u16| as_map(grown).dom().contains(id) <==> want.dom().contains(id) by {
        if holds(grown, id) {
            let p = place_of(grown, id);
            if p < at {
                assert(grown[p] == entries[p]);
            } else if p > at {
                assert(grown[p] == entries[p - 1]);
            }
        }
        if holds(entries, id) {
            let p = place_of(entries, id);
            let q = if p < at { p } else { p + 1 };
            assert(grown[q] == entries[p]);
        }
        if id == entry.id {
            assert(grown[at] == entry);
        }
    }
    assert forall|id: u16| as_map(grown).dom().contains(id) implies #[trigger] as_map(grown)[id]
        == want[id] by {
        let p = place_of(grown, id);
        lemma_place(grown, p);
        if p < at {
            assert(grown[p] == entries[p]);
            lemma_place(entries, p);
        } else if p > at {
            assert(grown[p] == entries[p - 1]);
            lemma_place(entries, p - 1);
        }
    }
    assert(as_map(grown) =~= want);
}

proof fn lemma_remove<T>(entries: Seq<Entry<T>>, at: int)
    requires
        rising(entries),
        0 <= at < entries.len(),
    ensures
        rising(entries.remove(at)),
        as_map(entries.remove(at)) == as_map(entries).remove(entries[at].id),
        forall|j: int| 0 <= j < at ==> (#[trigger] entries.remove(at)[j]).id < entries[at].id,
        forall|j: int|
            at <= j < entries.len() - 1 ==> (#[trigger] entries.remove(at)[j]).id > entries[at].id,
{
    let shrunk = entries.remove(at);
    let gone = entries[at].id;
    assert(rising(shrunk)) by {
        assert forall|i: int, j: int| 0 <= i < j < shrunk.len() implies shrunk[i].id
            < shrunk[j].id by {
            let oi = if i < at { i } else { i + 1 };
            let oj = if j < at { j } else { j + 1 };
            assert(shrunk[i] == entries[oi]);
            assert(shrunk[j] == entries[oj]);
        }
    }
    let want = as_map(entries).remove(gone);
    assert forall|id: u16| as_map(shrunk).dom().contains(id) <==> want.dom().contains(id) by {
        if holds(shrunk, id) {
            let p = place_of(shrunk, id);
            let o = if p < at { p } else { p + 1 };
            assert(shrunk[p] == entries[o]);
            lemma_place(entries, o);
            lemma_place(entries, at);
        }
        if holds(entries, id) && id != gone {
            let p = place_of(entries, id);
            let q = if p < at { p } else { p - 1 };
            assert(shrunk[q] == entries[p]);
        }
    }
    assert forall|id: u16| as_map(shrunk).dom().contains(id) implies #[trigger] as_map(
        shrunk,
    )[id] == want[id] by {
        let p = place_of(shrunk, id);
        lemma_place(shrunk, p);
        let o = if p < at { p } else { p + 1 };
        assert(shrunk[p] == entries[o]);
        lemma_place(entries, o);
    }
    assert(as_map(shrunk) =~= want);
    assert forall|j: int| 0 <= j < at implies (#[trigger] shrunk[j]).id < gone by {
        assert(shrunk[j] == entries[j]);
    }
    assert forall|j: int| at <= j < entries.len() - 1 implies (#[trigger] shrunk[j]).id
        > gone by {
        assert(shrunk[j] == entries[j + 1]);
    }
}

proof fn lemma_count<T>(entries: Seq<Entry<T>>)
    requires
        rising(entries),
    ensures
        as_map(entries).dom().finite(),
        as_map(entries).dom().len() == entries.len(),
    decreases entries.len(),
{
    if entries.len() == 0 {
        assert(as_map(entries).dom() =~= Set::<u16>::empty());
    } else {
        let last = entries.len() - 1;
        let rest = entries.remove(last);
        lemma_remove(entries, last);
        lemma_count(rest);
        lemma_place(entries, last);
        assert(as_map(entries).dom() =~= as_map(rest).dom().insert(entries[last].id));
    }
}

/// Whether `id` is a member of `ids` and no member is lower.
pub open spec fn is_lowest(ids: Set<u16>, id: u16) -> bool {
    ids.contains(id) && forall|other: u16| ids.contains(other) ==> id <= other
}

/// Whether `list` holds exactly the members of `ids`, lowest first.
pub open spec fn lists_rising(list: Seq<u16>, ids: Set<u16>) -> bool {
    &&& forall|i: int, j: int| 0 <= i < j < list.len() ==> list[i] < list[j]
    &&& forall|id: u16| list.contains(id) <==> ids.contains(id)
}

/// A rising list holds each member of its set once.
pub proof fn lemma_lists_rising_len(list: Seq<u16>, ids: Set<u16>)
    requires
        lists_rising(list, ids),
    ensures
        ids.finite(),
        list.len() == ids.len(),
        list.no_duplicates(),
        list.to_set() == ids,
{
    assert(list.no_duplicates()) by {
        assert forall|i: int, j: int| 0 <= i < list.len() && 0 <= j < list.len() && i
            != j implies list[i] != list[j] by {
            if i < j {
                assert(list[i] < list[j]);
            } else {
                assert(list[j] < list[i]);
            }
        }
    }
    assert(list.to_set() =~= ids);
    list.unique_seq_to_set();
    crate::id::lemma_id_set_bounded(ids);
}

/// A map from 16-bit identifiers to values that can be walked in rising
/// order of identifier.
pub struct IdTable<T> {
    entries: Vec<Entry<T>>,
}

impl<T> IdTable<T> {
    /// The internal invariant: it holds of every table that this module hands out.
    pub closed spec fn wf(&self) -> bool {
        rising(self.entries@)
    }

    /// What the table holds.
    pub closed spec fn map(&self) -> Map<u16, T> {
        as_map(self.entries@)
    }

    /// An empty table.
    pub fn new() -> (table: Self)
        ensures
            table.wf(),
            table.map() == Map::<u16, T>::empty(),
    {
        let table = IdTable { entries: Vec::new() };
        assert(table.map() =~= Map::<u16, T>::empty());
        table
    }

    /// Where the identifier stands, or where it would have to be put.
    fn locate(&self, id: u16) -> (at: (bool, usize))
        requires
            self.wf(),
        ensures
            at.1 <= self.entries.len(),
            at.0 ==> at.1 < self.entries.len() && self.entries[at.1 as int].id == id,
            at.0 == self.map().dom().contains(id),
            forall|j: int| 0 <= j < at.1 ==> self.entries[j].id < id,
            forall|j: int| at.1 < j < self.entries.len() ==> self.entries[j].id > id,
            !at.0 && at.1 < self.entries.len() ==> self.entries[at.1 as int].id > id,
    {
        let mut low: usize = 0;
        let mut high: usize = self.entries.len();
        while low < high
            invariant
                self.wf(),
                low <= high <= self.entries.len(),
                forall|j: int| 0 <= j < low ==> self.entries[j].id < id,
                forall|j: int| high <= j < self.entries.len() ==> self.entries[j].id >= id,
            decreases high - low,
        {
            let mid: usize = low + (high - low) / 2;
            if self.entries[mid].id < id {
                low = mid + 1;
            } else {
                high = mid;
            }
        }
        let found = low < self.entries.len() && self.entries[low].id == id;
        (found, low)
    }

    /// Whether the table has a row for the identifier.
    pub fn contains(&self, id: u16) -> (present: bool)
        requires
            self.wf(),
        ensures
            present == self.map().dom().contains(id),
    {
        self.locate(id).0
    }

    /// The value in the row of the identifier.
    pub fn get(&self, id: u16) -> (found: Option<&T>)
        requires
            self.wf(),
        ensures
            match found {
                Some(value) => self.map().dom().contains(id) && *value == self.map()[id],
                None => !self.map().dom().contains(id),
            },
    {
        let (present, at) = self.locate(id);
        if present {
            Some(&self.entries[at].value)
        } else {
            None
        }
    }

    /// Puts the value in the row of the identifier and hands back what the row held.
    pub fn insert(&mut self, id: u16, value: T) -> (displaced: Option<T>)
        requires
            old(self).wf(),
        ensures
            final(self).wf(),
            final(self).map() == old(self).map().insert(id, value),
            match displaced {
                Some(was) => old(self).map().dom().contains(id) && was == old(self).map()[id],
                None => !old(self).map().dom().contains(id),
            },
    {
        let (present, at) = self.locate(id);
        let ghost before = self.entries@;
        let entry = Entry { id, value };
        if present {
            proof {
                lemma_place(before, at as int);
                lemma_remove(before, at as int);
                lemma_insert(before.remove(at as int), at as int, entry);
                assert(as_map(before).remove(id).insert(id, value) =~= as_map(before).insert(
                    id,
                    value,
                ));
            }
            let was = self.entries.remove(at);
            self.entries.insert(at, entry);
            Some(was.value)
        } else {
            proof {
                lemma_insert(before, at as int, entry);
            }
            self.entries.insert(at, entry);
            None
        }
    }

    /// Takes the row of the identifier out of the table.
    pub fn remove(&mut self, id: u16) -> (taken: Option<T>)
        requires
            old(self).wf(),
        ensures
            final(self).wf(),
            final(self).map() == old(self).map().remove(id),
            match taken {
                Some(was) => old(self).map().dom().contains(id) && was == old(self).map()[id],
                None => !old(self).map().dom().contains(id),
            },
    {
        let (present, at) = self.locate(id);
        if !present {
            assert(self.map().remove(id) =~= self.map());
            return None;
        }
        proof {
            lemma_place(self.entries@, at as int);
            lemma_remove(self.entries@, at as int);
        }
        let was = self.entries.remove(at);
        Some(was.value)
    }

    /// The number of rows.
    pub fn len(&self) -> (n: usize)
        requires
            self.wf(),
        ensures
            n == self.map().dom().len(),
            n <= crate::id::ID_UNIVERSE,
    {
        proof {
            lemma_count(self.entries@);
            crate::id::lemma_id_set_bounded(self.map().dom());
        }
        self.entries.len()
    }

    /// Removes every row.
    pub fn clear(&mut self)
        ensures
            final(self).wf(),
            final(self).map() == Map::<u16, T>::empty(),
    {
        self.entries.clear();
        assert(self.map() =~= Map::<u16, T>::empty());
    }

    /// The lowest identifier that has a row, if any has.
    pub fn first_id(&self) -> (lowest: Option<u16>)
        requires
            self.wf(),
        ensures
            match lowest {
                Some(id) => is_lowest(self.map().dom(), id),
                None => self.map().dom().is_empty(),
            },
    {
        if self.entries.len() == 0 {
            assert(self.map().dom() =~= Set::<u16>::empty());
            return None;
        }
        Some(self.entries[0].id)
    }

    /// The identifiers that have a row, lowest first.
    pub fn ids(&self) -> (ids: Vec<u16>)
        requires
            self.wf(),
        ensures
            lists_rising(ids@, self.map().dom()),
            ids@.len() == self.map().dom().len(),
    {
        let mut ids: Vec<u16> = Vec::new();
        let mut i: usize = 0;
        while i < self.entries.len()
            invariant
                i <= self.entries.len(),
                ids@.len() == i,
                forall|k: int| 0 <= k < i ==> ids@[k] == self.entries[k].id,
            decreases self.entries.len() - i,
        {
            ids.push(self.entries[i].id);
            i += 1;
        }
        proof {
            lemma_count(self.entries@);
            assert forall|id: u16| ids@.contains(id) <==> self.map().dom().contains(id) by {
                if ids@.contains(id) {
                    let k = choose|k: int| 0 <= k < ids@.len() && ids@[k] == id;
                    lemma_place(self.entries@, k);
                }
                if holds(self.entries@, id) {
                    let p = place_of(self.entries@, id);
                    assert(ids@[p] == id);
                }
            }
        }
        ids
    }
}

} // verus!
