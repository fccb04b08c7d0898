//! The order of scored documents: higher score first, and among equal scores
//! the smaller identifier first.

use vstd::prelude::*;
use vstd::multiset::*;
use vstd::relations::*;
use vstd::seq_lib::*;
use crate::text::{lemma_text_le_total_order, text_at_most, text_le};

verus! {

/// A document with its score. The score is an integer that orders as the
/// relevance does: a higher number is a better match. The module `key`
/// makes such integers from numbers in sign-and-magnitude form.
#[derive(Debug, Clone, PartialEq, Eq)]
pub struct Hit {
    pub id: String,
    pub score: u64,
}

/// What a `Hit` stands for.
pub struct HitView {
    pub id: Seq<char>,
    pub score: u64,
}

impl View for Hit {
    type V = HitView;

    open spec fn view(&self) -> HitView {
        HitView { id: self.id@, score: self.score }
    }
}

/// The views of a list of hits, in the same order.
pub open spec fn views(hits: Seq<Hit>) -> Seq<HitView> {
    Seq::new(hits.len(), |i: int| hits[i]@)
}

/// Whether one of the hits is the document with this identifier.
pub open spec fn lists(hits: Seq<HitView>, id: Seq<char>) -> bool {
    exists|k: int| 0 <= k < hits.len() && (#[trigger] hits[k]).id == id
}

/// `a` is listed no later than `b`: it scores higher, or the same with an
/// identifier that is not greater.
pub open spec fn ranks_before(a: HitView, b: HitView) -> bool {
    a.score > b.score || (a.score == b.score && text_le(a.id, b.id))
}

/// `ranks_before` as a relation.
pub open spec fn ranking_order() -> spec_fn(HitView, HitView) -> bool {
    |a: HitView, b: HitView| ranks_before(a, b)
}

/// Every earlier entry of `hits` is listed no later than every later one.
pub open spec fn ranked(hits: Seq<HitView>) -> bool {
    forall|i: int, j: int|
        #![trigger hits[i], hits[j]]
        0 <= i < j < hits.len() ==> ranks_before(hits[i], hits[j])
}

/// The scores never rise along the list.
pub open spec fn descending(hits: Seq<HitView>) -> bool {
    forall|i: int, j: int|
        #![trigger hits[i], hits[j]]
        0 <= i < j < hits.len() ==> hits[i].score >= hits[j].score
}

/// The hits in ranking order.
pub open spec fn ranking(hits: Seq<HitView>) -> Seq<HitView> {
    hits.sort_by(ranking_order())
}

/// How many hits a search with this limit shows out of `available`.
pub open spec fn shown(available: nat, limit: Option<usize>) -> nat {
    match limit {
        Some(k) => if k < available {
            k as nat
        } else {
            available
        },
        None => available,
    }
}

/// `ranks_before` is reflexive, total, antisymmetric and transitive.
pub proof fn lemma_ranks_before(a: HitView, b: HitView, c: HitView)
    ensures
        ranks_before(a, a),
        ranks_before(a, b) || ranks_before(b, a),
        ranks_before(a, b) && ranks_before(b, a) ==> a == b,
        ranks_before(a, b) && ranks_before(b, c) ==> ranks_before(a, c),
{
    lemma_text_le_total_order(a.id, b.id, c.id);
}

/// The ranking order is a total order on hits.
pub proof fn lemma_ranking_order_total()
    ensures
        total_ordering(ranking_order()),
{
    let r = ranking_order();
    assert forall|x: HitView| #[trigger] r(x, x) by {
        lemma_ranks_before(x, x, x);
    }
    assert forall|x: HitView, y: HitView| #[trigger] r(x, y) && #[trigger] r(y, x) implies x
        == y by {
        lemma_ranks_before(x, y, x);
    }
    assert forall|x: HitView, y: HitView| #[trigger] r(x, y) || #[trigger] r(y, x) by {
        lemma_ranks_before(x, y, x);
    }
    assert forall|x: HitView, y: HitView, z: HitView| #[trigger] r(x, y) && #[trigger] r(
        y,
        z,
    ) implies r(x, z) by {
        lemma_ranks_before(x, y, z);
    }
}

/// Along a list in ranking order the scores never rise.
pub proof fn lemma_ranked_is_descending(hits: Seq<HitView>)
    requires
        ranked(hits),
    ensures
        descending(hits),
{
    assert forall|i: int, j: int|
        #![trigger hits[i], hits[j]]
        0 <= i < j < hits.len() implies hits[i].score >= hits[j].score by {
        assert(ranks_before(hits[i], hits[j]));
    }
}

/// `ranked` says what vstd's `sorted_by` says of the ranking order.
pub proof fn lemma_ranked_is_sorted(hits: Seq<HitView>)
    ensures
        ranked(hits) <==> sorted_by(hits, ranking_order()),
{
    let r = ranking_order();
    if ranked(hits) {
        assert forall|i: int, j: int| 0 <= i < j < hits.len() implies #[trigger] r(
            hits[i],
            hits[j],
        ) by {
            assert(ranks_before(hits[i], hits[j]));
        }
    }
    if sorted_by(hits, r) {
        assert forall|i: int, j: int|
            #![trigger hits[i], hits[j]]
            0 <= i < j < hits.len() implies ranks_before(hits[i], hits[j]) by {
            assert(r(hits[i], hits[j]));
        }
    }
}

/// The ranking of a list holds the same hits, in ranking order.
pub proof fn lemma_ranking(hits: Seq<HitView>)
    ensures
        ranked(ranking(hits)),
        ranking(hits).to_multiset() == hits.to_multiset(),
        ranking(hits).len() == hits.len(),
{
    broadcast use group_to_multiset_ensures;

    lemma_ranking_order_total();
    hits.lemma_sort_by_ensures(ranking_order());
    lemma_ranked_is_sorted(ranking(hits));
    hits.to_multiset_ensures();
    ranking(hits).to_multiset_ensures();
}

/// Two lists that hold the same hits have the same ranking, whatever the
/// order in which they hold them.
pub proof fn lemma_ranking_ignores_order(hits: Seq<HitView>, other: Seq<HitView>)
    requires
        hits.to_multiset() == other.to_multiset(),
    ensures
        ranking(hits) == ranking(other),
{
    lemma_ranking(other);
    lemma_ranking_unique(hits, ranking(other));
}

/// A list has one ranking only: any list with the same hits in ranking
/// order is that ranking.
pub proof fn lemma_ranking_unique(hits: Seq<HitView>, other: Seq<HitView>)
    requires
        ranked(other),
        other.to_multiset() == hits.to_multiset(),
    ensures
        other == ranking(hits),
{
    lemma_ranking(hits);
    lemma_ranking_order_total();
    lemma_ranked_is_sorted(other);
    lemma_ranked_is_sorted(ranking(hits));
    lemma_sorted_unique(other, ranking(hits), ranking_order());
}

/// Whether `a` is listed no later than `b`.
pub fn ranks_first(a: &Hit, b: &Hit) -> (first: bool)
    ensures
        first == ranks_before(a@, b@),
{
    a.score > b.score || (a.score == b.score && text_at_most(a.id.as_str(), b.id.as_str()))
}

spec fn in_range(order: Seq<usize>, n: nat) -> bool {
    forall|k: int| 0 <= k < order.len() ==> #[trigger] order[k] < n
}

spec fn picked(hits: Seq<HitView>, order: Seq<usize>) -> Seq<HitView> {
    Seq::new(order.len(), |k: int| hits[order[k] as int])
}

fn merge(hits: &Vec<Hit>, left: &Vec<usize>, right: &Vec<usize>) -> (merged: Vec<usize>)
    requires
        in_range(left@, hits@.len()),
        in_range(right@, hits@.len()),
        ranked(picked(views(hits@), left@)),
        ranked(picked(views(hits@), right@)),
        left.len() + right.len() <= usize::MAX,
    ensures
        in_range(merged@, hits@.len()),
        merged.len() == left.len() + right.len(),
        ranked(picked(views(hits@), merged@)),
        picked(views(hits@), merged@).to_multiset() == picked(
            views(hits@),
            left@,
        ).to_multiset().add(picked(views(hits@), right@).to_multiset()),
{
    let ghost s = views(hits@);
    let mut merged: Vec<usize> = Vec::new();
    let mut i: usize = 0;
    let mut j: usize = 0;
    proof {
        broadcast use group_multiset_axioms;

        assert(picked(s, left@.take(0)) =~= Seq::<HitView>::empty());
        assert(picked(s, right@.take(0)) =~= Seq::<HitView>::empty());
        assert(picked(s, merged@) =~= Seq::<HitView>::empty());
        Seq::<HitView>::empty().to_multiset_ensures();
        lemma_multiset_empty_len(Seq::<HitView>::empty().to_multiset());
        assert(picked(s, merged@).to_multiset() =~= picked(s, left@.take(0)).to_multiset().add(
            picked(s, right@.take(0)).to_multiset(),
        ));
    }
    while i < left.len() || j < right.len()
        invariant
            s == views(hits@),
            i <= left.len(),
            j <= right.len(),
            merged.len() == i + j,
            left.len() + right.len() <= usize::MAX,
            in_range(left@, hits@.len()),
            in_range(right@, hits@.len()),
            in_range(merged@, hits@.len()),
            ranked(picked(s, left@)),
            ranked(picked(s, right@)),
            ranked(picked(s, merged@)),
            picked(s, merged@).to_multiset() == picked(s, left@.take(i as int)).to_multiset().add(
                picked(s, right@.take(j as int)).to_multiset(),
            ),
            forall|k: int|
                0 <= k < merged.len() && i < left.len() ==> ranks_before(
                    #[trigger] picked(s, merged@)[k],
                    picked(s, left@)[i as int],
                ),
            forall|k: int|
                0 <= k < merged.len() && j < right.len() ==> ranks_before(
                    #[trigger] picked(s, merged@)[k],
                    picked(s, right@)[j as int],
                ),
        decreases left.len() - i + right.len() - j,
    {
        let from_left = if i >= left.len() {
            false
        } else if j >= right.len() {
            true
        } else {
            ranks_first(&hits[left[i]], &hits[right[j]])
        };
        let ghost before = merged@;
        let ghost l = picked(s, left@);
        let ghost r = picked(s, right@);
        if from_left {
            let x = left[i];
            merged.push(x);
            proof {
                broadcast use {group_multiset_axioms, group_to_multiset_ensures};

                let m = picked(s, merged@);
                assert(m =~= picked(s, before).push(l[i as int]));
                assert(picked(s, left@.take(i + 1)) =~= picked(s, left@.take(i as int)).push(
                    l[i as int],
                ));
                assert(m.to_multiset() =~= picked(s, left@.take(i + 1)).to_multiset().add(
                    picked(s, right@.take(j as int)).to_multiset(),
                ));
                assert forall|a: int, b: int|
                    #![trigger m[a], m[b]]
                    0 <= a < b < m.len() implies ranks_before(m[a], m[b]) by {
                    if b < before.len() {
                        assert(ranks_before(picked(s, before)[a], picked(s, before)[b]));
                    } else {
                        assert(ranks_before(picked(s, before)[a], l[i as int]));
                    }
                }
                assert forall|k: int| 0 <= k < m.len() && i + 1 < left.len() implies
                    ranks_before(#[trigger] m[k],
                    l[i + 1],
                ) by {
                    assert(ranks_before(l[i as int], l[i + 1]));
                    if k < before.len() {
                        assert(ranks_before(picked(s, before)[k], l[i as int]));
                        lemma_ranks_before(m[k], l[i as int], l[i + 1]);
                    }
                }
                assert forall|k: int| 0 <= k < m.len() && j < right.len() implies
                    ranks_before(#[trigger] m[k],
                    r[j as int],
                ) by {
                    if k < before.len() {
                        assert(ranks_before(picked(s, before)[k], r[j as int]));
                    }
                }
            }
            i += 1;
        } else {
            let x = right[j];
            merged.push(x);
            proof {
                broadcast use {group_multiset_axioms, group_to_multiset_ensures};

                let m = picked(s, merged@);
                assert(m =~= picked(s, before).push(r[j as int]));
                assert(picked(s, right@.take(j + 1)) =~= picked(s, right@.take(j as int)).push(
                    r[j as int],
                ));
                assert(m.to_multiset() =~= picked(s, left@.take(i as int)).to_multiset().add(
                    picked(s, right@.take(j + 1)).to_multiset(),
                ));
                if i < left.len() {
                    lemma_ranks_before(l[i as int], r[j as int], l[i as int]);
                }
                assert forall|a: int, b: int|
                    #![trigger m[a], m[b]]
                    0 <= a < b < m.len() implies ranks_before(m[a], m[b]) by {
                    if b < before.len() {
                        assert(ranks_before(picked(s, before)[a], picked(s, before)[b]));
                    } else {
                        assert(ranks_before(picked(s, before)[a], r[j as int]));
                    }
                }
                assert forall|k: int| 0 <= k < m.len() && j + 1 < right.len() implies
                    ranks_before(#[trigger] m[k],
                    r[j + 1],
                ) by {
                    assert(ranks_before(r[j as int], r[j + 1]));
                    if k < before.len() {
                        assert(ranks_before(picked(s, before)[k], r[j as int]));
                        lemma_ranks_before(m[k], r[j as int], r[j + 1]);
                    }
                }
                assert forall|k: int| 0 <= k < m.len() && i < left.len() implies
                    ranks_before(#[trigger] m[k],
                    l[i as int],
                ) by {
                    if k < before.len() {
                        assert(ranks_before(picked(s, before)[k], l[i as int]));
                    }
                }
            }
            j += 1;
        }
    }
    proof {
        assert(left@.take(i as int) =~= left@);
        assert(right@.take(j as int) =~= right@);
    }
    merged
}

fn sort_indices(hits: &Vec<Hit>, order: Vec<usize>) -> (sorted: Vec<usize>)
    requires
        in_range(order@, hits@.len()),
    ensures
        in_range(sorted@, hits@.len()),
        sorted.len() == order.len(),
        ranked(picked(views(hits@), sorted@)),
        picked(views(hits@), sorted@).to_multiset() == picked(views(hits@), order@).to_multiset(),
    decreases order.len(),
{
    if order.len() <= 1 {
        return order;
    }
    let ghost s = views(hits@);
    let ghost whole = order@;
    let middle = order.len() / 2;
    let mut left = order;
    let right = left.split_off(middle);
    proof {
        assert(picked(s, whole) =~= picked(s, left@) + picked(s, right@));
        lemma_multiset_commutative(picked(s, left@), picked(s, right@));
    }
    let left = sort_indices(hits, left);
    let right = sort_indices(hits, right);
    merge(hits, &left, &right)
}

/// Puts the hits in ranking order and keeps the first `limit` of them, or
/// all where there is no limit.
pub fn rank(hits: &Vec<Hit>, limit: Option<usize>) -> (listed: Vec<Hit>)
    ensures
        views(listed@) == ranking(views(hits@)).take(shown(hits@.len(), limit) as int),
        listed@.len() == shown(hits@.len(), limit),
        ranked(views(listed@)),
        forall|i: int, j: int|
            0 <= i < j < listed@.len() ==> #[trigger] listed@[i].score >= #[trigger] listed@[j].score,
        forall|i: int| 0 <= i < listed@.len() ==> views(hits@).contains(#[trigger] listed@[i]@),
        shown(hits@.len(), limit) == hits@.len() ==> views(listed@).to_multiset() == views(
            hits@,
        ).to_multiset(),
{
    let ghost s = views(hits@);
    let n = hits.len();
    let mut order: Vec<usize> = Vec::new();
    let mut i: usize = 0;
    while i < n
        invariant
            i <= n,
            n == hits@.len(),
            order.len() == i,
            forall|k: int| 0 <= k < i ==> #[trigger] order[k] == k,
        decreases n - i,
    {
        order.push(i);
        i += 1;
    }
    proof {
        assert(picked(s, order@) =~= s);
    }
    let sorted = sort_indices(hits, order);
    let ghost full = picked(s, sorted@);
    proof {
        lemma_ranking_unique(s, full);
        lemma_ranking(s);
    }
    let keep = match limit {
        Some(k) => if k < n {
            k
        } else {
            n
        },
        None => n,
    };
    let mut listed: Vec<Hit> = Vec::new();
    let mut t: usize = 0;
    while t < keep
        invariant
            t <= keep <= n,
            n == hits@.len(),
            sorted.len() == n,
            in_range(sorted@, hits@.len()),
            s == views(hits@),
            full == picked(s, sorted@),
            listed.len() == t,
            forall|k: int| 0 <= k < t ==> #[trigger] listed@[k]@ == full[k],
        decreases keep - t,
    {
        let hit = &hits[sorted[t]];
        listed.push(Hit { id: hit.id.clone(), score: hit.score });
        t += 1;
    }
    proof {
        assert(views(listed@) =~= full.take(keep as int));
        assert forall|a: int, b: int|
            #![trigger views(listed@)[a], views(listed@)[b]]
            0 <= a < b < listed@.len() implies ranks_before(
            views(listed@)[a],
            views(listed@)[b],
        ) by {
            assert(ranks_before(full[a], full[b]));
        }
        assert forall|a: int, b: int| 0 <= a < b < listed@.len() implies #[trigger] listed@[a].score
            >= #[trigger] listed@[b].score by {
            assert(ranks_before(views(listed@)[a], views(listed@)[b]));
        }
        assert forall|a: int| 0 <= a < listed@.len() implies
            views(hits@).contains(#[trigger] listed@[a]@,
        ) by {
            assert(s[sorted@[a] as int] == listed@[a]@);
        }
        if shown(hits@.len(), limit) == hits@.len() {
            assert(full.take(keep as int) =~= full);
        }
    }
    listed
}

} // verus!
