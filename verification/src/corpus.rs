//! The documents of an index as mathematics: what a document is, how
//! often a token occurs, and what adding and removing a document mean.

use vstd::prelude::*;
use vstd::multiset::Multiset;

verus! {

/// What the index knows of one document: its identifier and its tokens as a
/// multiset. A token's term frequency is its count in `tokens`; the
/// document's length is the size of `tokens`.
pub struct DocumentView {
    pub id: Seq<char>,
    pub tokens: Multiset<Seq<char>>,
}

/// Whether a document with this identifier is among `docs`.
pub open spec fn has_document(docs: Seq<DocumentView>, id: Seq<char>) -> bool {
    exists|i: int| 0 <= i < docs.len() && (#[trigger] docs[i]).id == id
}

/// Where the document with this identifier stands in `docs`.
pub open spec fn position(docs: Seq<DocumentView>, id: Seq<char>) -> int {
    choose|i: int| 0 <= i < docs.len() && (#[trigger] docs[i]).id == id
}

/// No two documents share an identifier.
pub open spec fn distinct_ids(docs: Seq<DocumentView>) -> bool {
    forall|i: int, j: int|
        0 <= i < j < docs.len() ==> (#[trigger] docs[i]).id != (#[trigger] docs[j]).id
}

/// How often the document with this identifier holds the token; zero where
/// there is no such document.
pub open spec fn occurrences(docs: Seq<DocumentView>, id: Seq<char>, token: Seq<char>) -> nat {
    if has_document(docs, id) {
        docs[position(docs, id)].tokens.count(token)
    } else {
        0
    }
}

/// One if the document holds the token, zero if not.
pub open spec fn holds(doc: DocumentView, token: Seq<char>) -> nat {
    if doc.tokens.count(token) > 0 {
        1
    } else {
        0
    }
}

/// The number of documents that hold the token.
pub open spec fn document_frequency(docs: Seq<DocumentView>, token: Seq<char>) -> nat
    decreases docs.len(),
{
    if docs.len() == 0 {
        0
    } else {
        document_frequency(docs.drop_last(), token) + holds(docs.last(), token)
    }
}

/// The sum of the documents' lengths.
pub open spec fn total_length(docs: Seq<DocumentView>) -> nat
    decreases docs.len(),
{
    if docs.len() == 0 {
        0
    } else {
        total_length(docs.drop_last()) + docs.last().tokens.len()
    }
}

/// The documents after one has been added: a new identifier comes last with
/// the given tokens; a known identifier changes nothing.
pub open spec fn added(docs: Seq<DocumentView>, id: Seq<char>, tokens: Seq<Seq<char>>) -> Seq<
    DocumentView,
> {
    if has_document(docs, id) {
        docs
    } else {
        docs.push(DocumentView { id, tokens: tokens.to_multiset() })
    }
}

/// The documents after the one with this identifier has been removed.
pub open spec fn removed(docs: Seq<DocumentView>, id: Seq<char>) -> Seq<DocumentView> {
    if has_document(docs, id) {
        docs.remove(position(docs, id))
    } else {
        docs
    }
}

/// Adding a document twice is adding it once: the second call changes
/// nothing, whatever tokens it brings.
pub proof fn lemma_added_twice(
    docs: Seq<DocumentView>,
    id: Seq<char>,
    first: Seq<Seq<char>>,
    second: Seq<Seq<char>>,
)
    ensures
        added(added(docs, id, first), id, second) == added(docs, id, first),
{
    lemma_added_is_held(docs, id, first);
}

/// A document that has been added is there, and the identifiers stay
/// distinct.
pub proof fn lemma_added_is_held(docs: Seq<DocumentView>, id: Seq<char>, tokens: Seq<Seq<char>>)
    ensures
        has_document(added(docs, id, tokens), id),
        distinct_ids(docs) ==> distinct_ids(added(docs, id, tokens)),
        forall|other: Seq<char>|
            has_document(docs, other) ==> #[trigger] has_document(added(docs, id, tokens), other),
{
    let after = added(docs, id, tokens);
    if !has_document(docs, id) {
        let last = docs.len() as int;
        assert(after[last].id == id);
        if distinct_ids(docs) {
            assert forall|i: int, j: int| 0 <= i < j < after.len() implies (#[trigger] after[i]).id
                != (#[trigger] after[j]).id by {
                assert(after[i] == docs[i]);
                if j < last {
                    assert(docs[i].id != docs[j].id);
                }
            }
        }
        assert forall|other: Seq<char>| has_document(docs, other) implies #[trigger] has_document(
            after,
            other,
        ) by {
            let i = position(docs, other);
            assert(after[i].id == other);
        }
    }
}

/// A document that has been removed is gone, and every other document
/// stays.
pub proof fn lemma_removed_is_gone(docs: Seq<DocumentView>, id: Seq<char>)
    requires
        distinct_ids(docs),
    ensures
        !has_document(removed(docs, id), id),
        distinct_ids(removed(docs, id)),
        forall|other: Seq<char>|
            other != id ==> (has_document(docs, other) <==> #[trigger] has_document(
                removed(docs, id),
                other,
            )),
{
    let after = removed(docs, id);
    if has_document(docs, id) {
        let d = position(docs, id);
        assert forall|q: int| 0 <= q < after.len() implies #[trigger] after[q] == docs[if q < d {
            q
        } else {
            q + 1
        }] by {}
        assert forall|i: int, j: int| 0 <= i < j < after.len() implies
            (#[trigger] after[i]).id != (#[trigger] after[j]).id by {
            let i0 = if i < d { i } else { i + 1 };
            let j0 = if j < d { j } else { j + 1 };
            assert(docs[i0].id != docs[j0].id);
        }
        if has_document(after, id) {
            let q = position(after, id);
            let q0 = if q < d { q } else { q + 1 };
            assert(after[q] == docs[q0]);
            if q0 < d {
                assert(docs[q0].id != docs[d].id);
            } else {
                assert(docs[d].id != docs[q0].id);
            }
        }
        assert forall|other: Seq<char>| other != id implies (has_document(docs, other)
            <==> #[trigger] has_document(after, other)) by {
            if has_document(docs, other) {
                let i = position(docs, other);
                let i1 = if i < d { i } else { i - 1 };
                assert(after[i1].id == other);
            }
            if has_document(after, other) {
                let q = position(after, other);
                let q0 = if q < d { q } else { q + 1 };
                assert(docs[q0].id == other);
            }
        }
    }
}

/// Among distinct identifiers, a document stands where its identifier is
/// found.
pub proof fn lemma_position(docs: Seq<DocumentView>, i: int)
    requires
        distinct_ids(docs),
        0 <= i < docs.len(),
    ensures
        has_document(docs, docs[i].id),
        position(docs, docs[i].id) == i,
{
    let p = position(docs, docs[i].id);
    assert(docs[p].id == docs[i].id);
    if p < i {
        assert(docs[p].id != docs[i].id);
    } else if i < p {
        assert(docs[i].id != docs[p].id);
    }
}

/// Documents that keep their identifiers keep them findable.
pub proof fn lemma_same_ids(docs: Seq<DocumentView>, after: Seq<DocumentView>, id: Seq<char>)
    requires
        docs.len() <= after.len(),
        forall|i: int| 0 <= i < docs.len() ==> (#[trigger] after[i]).id == docs[i].id,
        has_document(docs, id),
    ensures
        has_document(after, id),
{
    let i = position(docs, id);
    assert(after[i].id == id);
}

/// How the document frequency moves when one document is replaced.
pub proof fn lemma_frequency_update(
    docs: Seq<DocumentView>,
    d: int,
    doc: DocumentView,
    t: Seq<char>,
)
    requires
        0 <= d < docs.len(),
    ensures
        document_frequency(docs.update(d, doc), t) + holds(docs[d], t) == document_frequency(
            docs,
            t,
        ) + holds(doc, t),
    decreases docs.len(),
{
    let after = docs.update(d, doc);
    if d == docs.len() - 1 {
        assert(after.drop_last() =~= docs.drop_last());
    } else {
        assert(after.drop_last() =~= docs.drop_last().update(d, doc));
        lemma_frequency_update(docs.drop_last(), d, doc, t);
    }
}

/// How the document frequency moves when one document leaves.
pub proof fn lemma_frequency_remove(docs: Seq<DocumentView>, d: int, t: Seq<char>)
    requires
        0 <= d < docs.len(),
    ensures
        document_frequency(docs.remove(d), t) + holds(docs[d], t) == document_frequency(docs, t),
    decreases docs.len(),
{
    let after = docs.remove(d);
    if d == docs.len() - 1 {
        assert(after =~= docs.drop_last());
    } else {
        assert(after.drop_last() =~= docs.drop_last().remove(d));
        assert(after.last() == docs.last());
        lemma_frequency_remove(docs.drop_last(), d, t);
    }
}

/// How the document frequency moves when one document comes in.
pub proof fn lemma_frequency_push(docs: Seq<DocumentView>, doc: DocumentView, t: Seq<char>)
    ensures
        document_frequency(docs.push(doc), t) == document_frequency(docs, t) + holds(doc, t),
{
    assert(docs.push(doc).drop_last() =~= docs);
}

/// A token that no document holds has document frequency zero.
pub proof fn lemma_frequency_zero(docs: Seq<DocumentView>, t: Seq<char>)
    requires
        forall|i: int| 0 <= i < docs.len() ==> (#[trigger] docs[i]).tokens.count(t) == 0,
    ensures
        document_frequency(docs, t) == 0,
    decreases docs.len(),
{
    if docs.len() > 0 {
        assert(docs.last() == docs[docs.len() - 1]);
        assert forall|i: int| 0 <= i < docs.drop_last().len() implies
            (#[trigger] docs.drop_last()[i]).tokens.count(t) == 0 by {
            assert(docs.drop_last()[i] == docs[i]);
        }
        lemma_frequency_zero(docs.drop_last(), t);
    }
}

/// A token with a positive document frequency is held by some document.
pub proof fn lemma_frequency_positive(docs: Seq<DocumentView>, t: Seq<char>)
    requires
        document_frequency(docs, t) > 0,
    ensures
        exists|i: int| 0 <= i < docs.len() && (#[trigger] docs[i]).tokens.count(t) > 0,
{
    if forall|i: int| 0 <= i < docs.len() ==> (#[trigger] docs[i]).tokens.count(t) == 0 {
        lemma_frequency_zero(docs, t);
    }
}

/// A document that holds the token makes its document frequency positive.
pub proof fn lemma_frequency_counts(docs: Seq<DocumentView>, i: int, t: Seq<char>)
    requires
        0 <= i < docs.len(),
        docs[i].tokens.count(t) > 0,
    ensures
        0 < document_frequency(docs, t) <= docs.len(),
    decreases docs.len(),
{
    lemma_frequency_bound(docs, t);
    if i < docs.len() - 1 {
        assert(docs.drop_last()[i] == docs[i]);
        lemma_frequency_counts(docs.drop_last(), i, t);
    }
}

/// No token is held by more documents than there are.
pub proof fn lemma_frequency_bound(docs: Seq<DocumentView>, t: Seq<char>)
    ensures
        document_frequency(docs, t) <= docs.len(),
    decreases docs.len(),
{
    if docs.len() > 0 {
        lemma_frequency_bound(docs.drop_last(), t);
    }
}

} // verus!
