//! Tables of names: each name stands with the number it was entered with
//! first. They hold the child counts of operators, and the places of the
//! variables of a pattern.

use vstd::prelude::*;

verus! {

/// A name with a number.
pub type Entry = (Seq<char>, nat);

/// The number with which a name was entered first, if it was entered.
pub open spec fn first_entry(entries: Seq<Entry>, name: Seq<char>) -> Option<nat>
    decreases entries.len(),
{
    if entries.len() == 0 {
        None
    } else {
        match first_entry(entries.drop_last(), name) {
            Some(n) => Some(n),
            None => if entries.last().0 == name {
                Some(entries.last().1)
            } else {
                None
            },
        }
    }
}

/// What `first_entry` finds: `None` exactly when the name was not
/// entered; otherwise the number of one of its entries.
pub proof fn lemma_first_entry(entries: Seq<Entry>, name: Seq<char>)
    ensures
        first_entry(entries, name) is None <==> forall|i: int|
            0 <= i < entries.len() ==> (#[trigger] entries[i]).0 != name,
        first_entry(entries, name) matches Some(n) ==> entries.contains((name, n)),
    decreases entries.len(),
{
    if entries.len() > 0 {
        let rest = entries.drop_last();
        lemma_first_entry(rest, name);
        if first_entry(rest, name) is None && entries.last().0 != name {
            assert forall|i: int| 0 <= i < entries.len() implies (#[trigger] entries[i]).0
                != name by {
                if i < rest.len() {
                    assert(rest[i] == entries[i]);
                }
            }
        }
    }
}

/// Once a name has been found among the first `k` entries, looking
/// further does not change what is found.
pub proof fn lemma_first_entry_prefix(entries: Seq<Entry>, k: int, name: Seq<char>)
    requires
        0 <= k <= entries.len(),
        first_entry(entries.take(k), name) is Some,
    ensures
        first_entry(entries, name) == first_entry(entries.take(k), name),
    decreases entries.len() - k,
{
    if k < entries.len() {
        assert(entries.take(k + 1).drop_last() =~= entries.take(k));
        lemma_first_entry_prefix(entries, k + 1, name);
    } else {
        assert(entries.take(k) =~= entries);
    }
}

/// Names with numbers, in mathematical values.
pub open spec fn entry_views(entries: Seq<(String, usize)>) -> Seq<Entry> {
    Seq::new(entries.len(), |i: int| (entries[i].0@, entries[i].1 as nat))
}

/// The names met so far, each with the number it was first entered with.
#[derive(Debug)]
pub struct Table {
    entries: Vec<(String, usize)>,
}

impl Table {
    /// The names of the table with their numbers, in the order in which
    /// they were entered.
    pub closed spec fn view(&self) -> Seq<Entry> {
        entry_views(self.entries@)
    }

    /// A table without entries.
    pub fn new() -> (t: Table)
        ensures
            t@ == Seq::<Entry>::empty(),
    {
        let t = Table { entries: Vec::new() };
        t
    }

    /// A table with the same entries.
    pub fn duplicate(&self) -> (t: Table)
        ensures
            t@ == self@,
    {
        let mut entries: Vec<(String, usize)> = Vec::new();
        let mut i: usize = 0;
        while i < self.entries.len()
            invariant
                i <= self.entries@.len(),
                entries@.len() == i,
                forall|k: int|
                    0 <= k < i ==> (#[trigger] entries@[k]).0@ == self.entries@[k].0@
                        && entries@[k].1 == self.entries@[k].1,
            decreases self.entries@.len() - i,
        {
            entries.push((self.entries[i].0.clone(), self.entries[i].1));
            i += 1;
        }
        let t = Table { entries };
        t
    }

    /// The number that stands with `name`, if the name was entered.
    pub fn find(&self, name: &String) -> (r: Option<usize>)
        ensures
            match r {
                Some(n) => first_entry(self@, name@) == Some(n as nat),
                None => first_entry(self@, name@) is None,
            },
    {
        let ghost us = self@;
        let mut i: usize = 0;
        while i < self.entries.len()
            invariant
                i <= self.entries@.len(),
                us == self@,
                first_entry(us.take(i as int), name@) is None,
            decreases self.entries@.len() - i,
        {
            proof {
                assert(us.take(i + 1).drop_last() =~= us.take(i as int));
            }
            if self.entries[i].0 == *name {
                proof {
                    lemma_first_entry_prefix(us, i + 1, name@);
                }
                return Some(self.entries[i].1);
            }
            i += 1;
        }
        proof {
            assert(us.take(i as int) =~= us);
        }
        None
    }

    /// Enters `name` with the number `n`, unless the name stands in the
    /// table already. Fails, and changes nothing, where the name stands
    /// there with another number, which is returned.
    pub fn record(&mut self, name: &String, n: usize) -> (r: Result<(), usize>)
        ensures
            match r {
                Ok(()) => match first_entry(old(self)@, name@) {
                    Some(m) => m == n && final(self)@ == old(self)@,
                    None => final(self)@ == old(self)@.push((name@, n as nat)),
                },
                Err(m) => {
                    &&& first_entry(old(self)@, name@) == Some(m as nat)
                    &&& m != n
                    &&& final(self)@ == old(self)@
                },
            },
    {
        match self.find(name) {
            Some(m) => {
                if m == n {
                    Ok(())
                } else {
                    Err(m)
                }
            },
            None => {
                self.entries.push((name.clone(), n));
                Ok(())
            },
        }
    }
}

} // verus!
