//! A multiset of strings, held as its distinct names with their counts.

use vstd::prelude::*;
use vstd::multiset::*;
use vstd::seq_lib::*;
use vstd::set::*;
use crate::text::same_text;

verus! {

/// `count` copies of `name`.
spec fn copies(name: Seq<char>, count: nat) -> Multiset<Seq<char>>
    decreases count,
{
    if count == 0 {
        Multiset::empty()
    } else {
        copies(name, (count - 1) as nat).insert(name)
    }
}

/// `copies(name, count)` holds `name` exactly `count` times and nothing else.
proof fn lemma_copies(name: Seq<char>, count: nat, other: Seq<char>)
    ensures
        copies(name, count).count(name) == count,
        other != name ==> copies(name, count).count(other) == 0,
        copies(name, count).len() == count,
    decreases count,
{
    broadcast use {group_multiset_axioms, group_multiset_properties};

    if count > 0 {
        lemma_copies(name, (count - 1) as nat, other);
    }
}

/// The number of distinct members after one more copy of `name` has come in.
pub proof fn lemma_insert_distinct(bag: Multiset<Seq<char>>, name: Seq<char>)
    ensures
        bag.insert(name).dom().len() == bag.dom().len() + if bag.count(name) == 0 {
            1nat
        } else {
            0nat
        },
{
    broadcast use {group_multiset_axioms, group_multiset_properties, group_set_axioms};

    assert(bag.insert(name).dom() =~= bag.dom().insert(name)) by {
        assert forall|n: Seq<char>| bag.insert(name).count(n) > 0 <==> (bag.count(n) > 0 || n
            == name) by {
            if n != name {
                lemma_insert_other_elements_unchanged(bag, name, n);
            }
        }
    }
    axiom_set_insert_len(bag.dom(), name);
}

/// What is left of a multiset when every copy of `name` has gone.
pub open spec fn without(bag: Multiset<Seq<char>>, name: Seq<char>) -> Multiset<Seq<char>> {
    bag.update(name, 0)
}

/// Taking every copy of `name` out leaves the other members as they were,
/// lowers the size by the number of copies, and the number of distinct
/// members by one if there was a copy.
pub proof fn lemma_without(bag: Multiset<Seq<char>>, name: Seq<char>)
    ensures
        without(bag, name).count(name) == 0,
        forall|n: Seq<char>| n != name ==> #[trigger] without(bag, name).count(n) == bag.count(n),
        without(bag, name).len() + bag.count(name) == bag.len(),
        without(bag, name).dom().len() + (if bag.count(name) > 0 {
            1nat
        } else {
            0nat
        }) == bag.dom().len(),
{
    broadcast use {group_multiset_axioms, group_set_axioms};

    let rest = without(bag, name);
    lemma_update_same(bag, name, 0);
    assert forall|n: Seq<char>| n != name implies #[trigger] rest.count(n) == bag.count(n) by {
        lemma_update_different(bag, name, 0, n);
    }
    let gone = copies(name, bag.count(name));
    assert(bag =~= rest.add(gone)) by {
        assert forall|n: Seq<char>| bag.count(n) == rest.add(gone).count(n) by {
            lemma_copies(name, bag.count(name), n);
        }
    }
    lemma_copies(name, bag.count(name), name);
    assert(rest.dom() =~= bag.dom().remove(name));
    axiom_set_remove_len(bag.dom(), name);
}

/// A name with the number of times it occurs.
#[derive(Debug, Clone, PartialEq, Eq)]
pub struct Tally {
    pub name: String,
    pub count: usize,
}

/// A multiset of strings. The view is the multiset itself.
#[derive(Debug)]
pub struct Counter {
    entries: Vec<Tally>,
}

spec fn has_name(entries: Seq<Tally>, name: Seq<char>) -> bool {
    exists|i: int| 0 <= i < entries.len() && (#[trigger] entries[i]).name@ == name
}

spec fn place_of(entries: Seq<Tally>, name: Seq<char>) -> int {
    choose|i: int| 0 <= i < entries.len() && (#[trigger] entries[i]).name@ == name
}

spec fn tally_of(entries: Seq<Tally>, name: Seq<char>) -> nat {
    if has_name(entries, name) {
        entries[place_of(entries, name)].count as nat
    } else {
        0
    }
}

spec fn distinct_names(entries: Seq<Tally>) -> bool {
    forall|i: int, j: int|
        0 <= i < j < entries.len() ==> (#[trigger] entries[i]).name@ != (#[trigger] entries[j]).name@
}

spec fn positive_counts(entries: Seq<Tally>) -> bool {
    forall|i: int| 0 <= i < entries.len() ==> (#[trigger] entries[i]).count > 0
}

spec fn bag_of(entries: Seq<Tally>) -> Multiset<Seq<char>> {
    Multiset::from_map(
        Map::new(|n: Seq<char>| has_name(entries, n), |n: Seq<char>| tally_of(entries, n)),
    )
}

spec fn names_of(entries: Seq<Tally>) -> Seq<Seq<char>> {
    Seq::new(entries.len(), |i: int| entries[i].name@)
}

proof fn lemma_names(entries: Seq<Tally>)
    ensures
        forall|n: Seq<char>| has_name(entries, n) <==> #[trigger] names_of(entries).to_set().contains(n),
        distinct_names(entries) ==> names_of(entries).no_duplicates(),
{
    let names = names_of(entries);
    assert forall|n: Seq<char>| has_name(entries, n) <==> #[trigger] names.to_set().contains(
        n,
    ) by {
        if has_name(entries, n) {
            let i = place_of(entries, n);
            assert(names[i] == n);
            assert(names.contains(n));
        }
        if names.to_set().contains(n) {
            let i = choose|i: int| 0 <= i < names.len() && names[i] == n;
            assert(entries[i].name@ == n);
        }
    }
    if distinct_names(entries) {
        assert forall|i: int, j: int|
            0 <= i < names.len() && 0 <= j < names.len() && i != j implies names[i]
            != names[j] by {
            if i < j {
                assert(entries[i].name@ != entries[j].name@);
            } else {
                assert(entries[j].name@ != entries[i].name@);
            }
        }
    }
}

/// The multiset holds each name as often as its entry says.
proof fn lemma_bag_count(entries: Seq<Tally>, name: Seq<char>)
    ensures
        bag_of(entries).count(name) == tally_of(entries, name),
{
    broadcast use group_multiset_axioms;

    let m = Map::new(|n: Seq<char>| has_name(entries, n), |n: Seq<char>| tally_of(entries, n));
    lemma_names(entries);
    assert(m.dom() =~= names_of(entries).to_set());
    seq_to_set_is_finite(names_of(entries));
}

/// The entry at `i` is the one that speaks for its name.
proof fn lemma_tally_at(entries: Seq<Tally>, i: int)
    requires
        distinct_names(entries),
        0 <= i < entries.len(),
    ensures
        has_name(entries, entries[i].name@),
        tally_of(entries, entries[i].name@) == entries[i].count,
        bag_of(entries).count(entries[i].name@) == entries[i].count,
{
    let name = entries[i].name@;
    let p = place_of(entries, name);
    assert(entries[p].name@ == name);
    if p < i {
        assert(entries[p].name@ != entries[i].name@);
    } else if i < p {
        assert(entries[i].name@ != entries[p].name@);
    }
    lemma_bag_count(entries, name);
}

/// The number of entries is the number of distinct members.
proof fn lemma_distinct_len(entries: Seq<Tally>)
    requires
        distinct_names(entries),
        positive_counts(entries),
    ensures
        bag_of(entries).dom().len() == entries.len(),
{
    let names = names_of(entries);
    lemma_names(entries);
    assert(bag_of(entries).dom() =~= names.to_set()) by {
        assert forall|n: Seq<char>| bag_of(entries).count(n) > 0 <==> names.to_set().contains(
            n,
        ) by {
            lemma_bag_count(entries, n);
            if has_name(entries, n) {
                let p = place_of(entries, n);
                assert(entries[p].count > 0);
            }
        }
    }
    names.unique_seq_to_set();
}

/// No entry speaks for `name`.
proof fn lemma_absent(entries: Seq<Tally>, name: Seq<char>)
    requires
        forall|q: int| 0 <= q < entries.len() ==> (#[trigger] entries[q]).name@ != name,
    ensures
        !has_name(entries, name),
        bag_of(entries).count(name) == 0,
{
    lemma_bag_count(entries, name);
}

/// A new entry for a name that had none.
proof fn lemma_push_entry(before: Seq<Tally>, entry: Tally)
    requires
        distinct_names(before),
        positive_counts(before),
        !has_name(before, entry.name@),
        entry.count == 1,
    ensures
        distinct_names(before.push(entry)),
        positive_counts(before.push(entry)),
        bag_of(before.push(entry)) == bag_of(before).insert(entry.name@),
{
    broadcast use {group_multiset_axioms, group_multiset_properties};

    let after = before.push(entry);
    let last = before.len() as int;
    assert forall|q: int| 0 <= q < before.len() implies (#[trigger] before[q]).name@
        != entry.name@ by {}
    assert forall|a: int, b: int| 0 <= a < b < after.len() implies
        (#[trigger] after[a]).name@ != (#[trigger] after[b]).name@ by {
        if b < last {
            assert(before[a].name@ != before[b].name@);
        } else {
            assert(after[a] == before[a]);
        }
    }
    assert forall|k: int| 0 <= k < after.len() implies (#[trigger] after[k]).count > 0 by {
        if k < last {
            assert(before[k].count > 0);
        }
    }
    assert forall|n: Seq<char>| bag_of(after).count(n) == bag_of(before).insert(
        entry.name@,
    ).count(n) by {
        if n == entry.name@ {
            lemma_tally_at(after, last);
            lemma_absent(before, n);
        } else {
            lemma_insert_other_elements_unchanged(bag_of(before), entry.name@, n);
            if has_name(before, n) {
                let p = place_of(before, n);
                assert(after[p] == before[p]);
                lemma_tally_at(before, p);
                lemma_tally_at(after, p);
            } else {
                assert forall|q: int| 0 <= q < after.len() implies (#[trigger] after[q]).name@
                    != n by {
                    if q < last {
                        assert(after[q] == before[q]);
                    }
                }
                lemma_absent(after, n);
                lemma_bag_count(before, n);
            }
        }
    }
    assert(bag_of(after) =~= bag_of(before).insert(entry.name@));
}

/// One more occurrence of the name at `i`.
proof fn lemma_bump_entry(before: Seq<Tally>, i: int, entry: Tally)
    requires
        distinct_names(before),
        positive_counts(before),
        0 <= i < before.len(),
        entry.name@ == before[i].name@,
        entry.count == before[i].count + 1,
    ensures
        distinct_names(before.update(i, entry)),
        positive_counts(before.update(i, entry)),
        bag_of(before.update(i, entry)) == bag_of(before).insert(entry.name@),
{
    broadcast use {group_multiset_axioms, group_multiset_properties};

    let after = before.update(i, entry);
    assert forall|k: int| 0 <= k < after.len() implies (#[trigger] after[k]).name@
        == before[k].name@ && after[k].count >= before[k].count by {}
    assert forall|a: int, b: int| 0 <= a < b < after.len() implies
        (#[trigger] after[a]).name@ != (#[trigger] after[b]).name@ by {
        assert(before[a].name@ != before[b].name@);
    }
    assert forall|k: int| 0 <= k < after.len() implies (#[trigger] after[k]).count > 0 by {
        assert(before[k].count > 0);
    }
    assert forall|n: Seq<char>| bag_of(after).count(n) == bag_of(before).insert(
        entry.name@,
    ).count(n) by {
        if n == entry.name@ {
            lemma_tally_at(before, i);
            lemma_tally_at(after, i);
        } else {
            lemma_insert_other_elements_unchanged(bag_of(before), entry.name@, n);
            if has_name(before, n) {
                let p = place_of(before, n);
                assert(after[p] == before[p]);
                lemma_tally_at(before, p);
                lemma_tally_at(after, p);
            } else {
                assert forall|q: int| 0 <= q < after.len() implies (#[trigger] after[q]).name@
                    != n by {
                    assert(before[q].name@ != n);
                }
                lemma_absent(after, n);
                lemma_bag_count(before, n);
            }
        }
    }
    assert(bag_of(after) =~= bag_of(before).insert(entry.name@));
}

/// The entry at `i` leaves, and with it every copy of its name.
proof fn lemma_remove_entry(before: Seq<Tally>, i: int)
    requires
        distinct_names(before),
        positive_counts(before),
        0 <= i < before.len(),
    ensures
        distinct_names(before.remove(i)),
        positive_counts(before.remove(i)),
        bag_of(before).count(before[i].name@) == before[i].count,
        bag_of(before.remove(i)) == without(bag_of(before), before[i].name@),
{
    broadcast use group_multiset_axioms;

    let after = before.remove(i);
    let name = before[i].name@;
    assert forall|q: int| 0 <= q < after.len() implies #[trigger] after[q] == before[if q < i {
        q
    } else {
        q + 1
    }] by {}
    assert forall|a: int, b: int| 0 <= a < b < after.len() implies
        (#[trigger] after[a]).name@ != (#[trigger] after[b]).name@ by {
        let a0 = if a < i { a } else { a + 1 };
        let b0 = if b < i { b } else { b + 1 };
        assert(before[a0].name@ != before[b0].name@);
    }
    assert forall|k: int| 0 <= k < after.len() implies (#[trigger] after[k]).count > 0 by {
        let k0 = if k < i { k } else { k + 1 };
        assert(before[k0].count > 0);
    }
    lemma_tally_at(before, i);
    lemma_without(bag_of(before), name);
    assert forall|n: Seq<char>| bag_of(after).count(n) == without(bag_of(before), name).count(
        n,
    ) by {
        if n == name {
            assert forall|q: int| 0 <= q < after.len() implies (#[trigger] after[q]).name@
                != n by {
                let q0 = if q < i { q } else { q + 1 };
                if q0 < i {
                    assert(before[q0].name@ != before[i].name@);
                } else {
                    assert(before[i].name@ != before[q0].name@);
                }
            }
            lemma_absent(after, n);
        } else if has_name(before, n) {
            let p = place_of(before, n);
            let shifted = if p < i { p } else { p - 1 };
            assert(after[shifted] == before[p]);
            lemma_tally_at(before, p);
            lemma_tally_at(after, shifted);
        } else {
            assert forall|q: int| 0 <= q < after.len() implies (#[trigger] after[q]).name@
                != n by {
                let q0 = if q < i { q } else { q + 1 };
                assert(before[q0].name@ != n);
            }
            lemma_absent(after, n);
            lemma_bag_count(before, n);
        }
    }
    assert(bag_of(after) =~= without(bag_of(before), name));
}

impl View for Counter {
    type V = Multiset<Seq<char>>;

    closed spec fn view(&self) -> Multiset<Seq<char>> {
        bag_of(self.entries@)
    }
}

impl Default for Counter {
    fn default() -> (counter: Counter)
        ensures
            counter.wf(),
            counter@ == Multiset::<Seq<char>>::empty(),
    {
        Counter::new()
    }
}

impl Counter {
    /// No name is listed twice and no listed count is zero.
    pub closed spec fn wf(&self) -> bool {
        &&& distinct_names(self.entries@)
        &&& positive_counts(self.entries@)
    }

    /// The empty multiset.
    pub fn new() -> (counter: Counter)
        ensures
            counter.wf(),
            counter@ == Multiset::<Seq<char>>::empty(),
    {
        let counter = Counter { entries: Vec::new() };
        proof {
            broadcast use group_multiset_axioms;

            assert forall|n: Seq<char>| counter@.count(n) == 0 by {
                lemma_absent(counter.entries@, n);
            }
            assert(counter@ =~= Multiset::<Seq<char>>::empty());
        }
        counter
    }

    fn find(&self, name: &str) -> (at: Option<usize>)
        ensures
            at matches Some(i) ==> i < self.entries.len() && self.entries[i as int].name@ == name@,
            at is None ==> forall|q: int|
                0 <= q < self.entries.len() ==> (#[trigger] self.entries[q]).name@ != name@,
    {
        let mut i: usize = 0;
        while i < self.entries.len()
            invariant
                i <= self.entries.len(),
                forall|j: int| 0 <= j < i ==> (#[trigger] self.entries[j]).name@ != name@,
            decreases self.entries.len() - i,
        {
            if same_text(self.entries[i].name.as_str(), name) {
                return Some(i);
            }
            i += 1;
        }
        None
    }

    /// How many times `name` occurs.
    pub fn count(&self, name: &str) -> (n: usize)
        requires
            self.wf(),
        ensures
            n == self@.count(name@),
    {
        match self.find(name) {
            Some(i) => {
                proof {
                    lemma_tally_at(self.entries@, i as int);
                }
                self.entries[i].count
            },
            None => {
                proof {
                    lemma_absent(self.entries@, name@);
                }
                0
            },
        }
    }

    /// The number of distinct names.
    pub fn distinct_len(&self) -> (n: usize)
        requires
            self.wf(),
        ensures
            n == self@.dom().len(),
    {
        proof {
            lemma_distinct_len(self.entries@);
        }
        self.entries.len()
    }

    /// Counts one more occurrence of `name`.
    pub fn add_neighbour(&mut self, name: &str)
        requires
            old(self).wf(),
            old(self)@.count(name@) < usize::MAX,
        ensures
            final(self).wf(),
            final(self)@ == old(self)@.insert(name@),
    {
        let ghost before = self.entries@;
        match self.find(name) {
            Some(i) => {
                proof {
                    lemma_tally_at(before, i as int);
                }
                self.entries[i].count = self.entries[i].count + 1;
                proof {
                    assert(self.entries@ =~= before.update(i as int, self.entries@[i as int]));
                    lemma_bump_entry(before, i as int, self.entries@[i as int]);
                }
            },
            None => {
                let entry = Tally { name: name.to_owned(), count: 1 };
                proof {
                    lemma_absent(before, entry.name@);
                    lemma_push_entry(before, entry);
                }
                self.entries.push(entry);
            },
        }
    }

    /// Takes every occurrence of `name` out and returns how many there were.
    pub fn remove(&mut self, name: &str) -> (removed: usize)
        requires
            old(self).wf(),
        ensures
            final(self).wf(),
            removed == old(self)@.count(name@),
            final(self)@ == without(old(self)@, name@),
    {
        let ghost before = self.entries@;
        match self.find(name) {
            Some(i) => {
                proof {
                    lemma_remove_entry(before, i as int);
                }
                let entry = self.entries.remove(i);
                entry.count
            },
            None => {
                proof {
                    broadcast use group_multiset_axioms;

                    lemma_absent(before, name@);
                    lemma_without(bag_of(before), name@);
                    assert(bag_of(before) =~= without(bag_of(before), name@));
                }
                0
            },
        }
    }

    /// Takes out one name with all its occurrences, if there is any.
    pub fn pop(&mut self) -> (last: Option<Tally>)
        requires
            old(self).wf(),
        ensures
            final(self).wf(),
            last is None <==> old(self)@ == Multiset::<Seq<char>>::empty(),
            last is None ==> final(self)@ == old(self)@,
            last matches Some(entry) ==> entry.count > 0,
            last matches Some(entry) ==> old(self)@.count(entry.name@) == entry.count,
            last matches Some(entry) ==> final(self)@ == without(old(self)@, entry.name@),
    {
        let ghost before = self.entries@;
        proof {
            if before.len() > 0 {
                lemma_remove_entry(before, before.len() - 1);
                assert(before.remove(before.len() - 1) =~= before.drop_last());
            } else {
                broadcast use group_multiset_axioms;

                assert forall|n: Seq<char>| bag_of(before).count(n) == 0 by {
                    lemma_absent(before, n);
                }
                assert(bag_of(before) =~= Multiset::<Seq<char>>::empty());
            }
        }
        self.entries.pop()
    }
}

} // verus!
