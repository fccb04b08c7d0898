//! What the index lists under each token, and what it means that these
//! lists agree with the documents.

use vstd::prelude::*;
use vstd::multiset::*;
use crate::corpus::{
    distinct_ids, document_frequency, has_document, lemma_frequency_push, lemma_frequency_remove,
    lemma_frequency_update, lemma_frequency_zero, lemma_same_ids, position, DocumentView,
};
use crate::counter::{lemma_insert_distinct, lemma_without, without};

verus! {

/// What the index lists under one token: each document that holds it, as
/// often as it holds it.
pub(crate) struct PostingView {
    pub(crate) token: Seq<char>,
    pub(crate) documents: Multiset<Seq<char>>,
}

pub(crate) open spec fn has_posting(posts: Seq<PostingView>, token: Seq<char>) -> bool {
    exists|k: int| 0 <= k < posts.len() && (#[trigger] posts[k]).token == token
}

pub(crate) open spec fn posting_at(posts: Seq<PostingView>, token: Seq<char>) -> int {
    choose|k: int| 0 <= k < posts.len() && (#[trigger] posts[k]).token == token
}

/// The documents listed under a token; none where the token has no posting.
pub(crate) open spec fn listed(posts: Seq<PostingView>, token: Seq<char>) -> Multiset<Seq<char>> {
    if has_posting(posts, token) {
        posts[posting_at(posts, token)].documents
    } else {
        Multiset::empty()
    }
}

pub(crate) open spec fn distinct_tokens(posts: Seq<PostingView>) -> bool {
    forall|k: int, l: int|
        0 <= k < l < posts.len() ==> (#[trigger] posts[k]).token != (#[trigger] posts[l]).token
}

/// A token lists a document as often as the document holds the token.
pub(crate) open spec fn mirrored(docs: Seq<DocumentView>, posts: Seq<PostingView>) -> bool {
    forall|i: int, t: Seq<char>|
        #![trigger docs[i].tokens.count(t)]
        0 <= i < docs.len() ==> listed(posts, t).count(docs[i].id) == docs[i].tokens.count(t)
}

/// Only live documents are listed.
pub(crate) open spec fn live(docs: Seq<DocumentView>, posts: Seq<PostingView>) -> bool {
    forall|k: int, id: Seq<char>|
        #![trigger posts[k].documents.count(id)]
        0 <= k < posts.len() && posts[k].documents.count(id) > 0 ==> has_document(docs, id)
}

/// Each posting lists at least one document, and as many distinct
/// documents as hold its token.
pub(crate) open spec fn counted(docs: Seq<DocumentView>, posts: Seq<PostingView>) -> bool {
    forall|k: int|
        0 <= k < posts.len() ==> {
            &&& (#[trigger] posts[k]).documents.dom().len() > 0
            &&& posts[k].documents.dom().len() == document_frequency(docs, posts[k].token)
        }
}

/// The two halves of the index agree.
pub(crate) open spec fn consistent(docs: Seq<DocumentView>, posts: Seq<PostingView>) -> bool {
    &&& distinct_ids(docs)
    &&& distinct_tokens(posts)
    &&& mirrored(docs, posts)
    &&& live(docs, posts)
    &&& counted(docs, posts)
}

/// Among distinct tokens, a token lists what its posting holds.
pub(crate) proof fn lemma_listed_at(posts: Seq<PostingView>, k: int)
    requires
        distinct_tokens(posts),
        0 <= k < posts.len(),
    ensures
        has_posting(posts, posts[k].token),
        listed(posts, posts[k].token) == posts[k].documents,
{
    let p = posting_at(posts, posts[k].token);
    assert(posts[p].token == posts[k].token);
    if p < k {
        assert(posts[p].token != posts[k].token);
    } else if k < p {
        assert(posts[k].token != posts[p].token);
    }
}

/// What is listed after the posting at `k` has been replaced by one for the
/// same token.
pub(crate) proof fn lemma_listed_update(
    posts: Seq<PostingView>,
    k: int,
    posting: PostingView,
    t: Seq<char>,
)
    requires
        distinct_tokens(posts),
        0 <= k < posts.len(),
        posting.token == posts[k].token,
    ensures
        distinct_tokens(posts.update(k, posting)),
        listed(posts.update(k, posting), t) == if t == posting.token {
            posting.documents
        } else {
            listed(posts, t)
        },
{
    let after = posts.update(k, posting);
    assert forall|a: int, b: int| 0 <= a < b < after.len() implies
        (#[trigger] after[a]).token != (#[trigger] after[b]).token by {
        assert(posts[a].token != posts[b].token);
    }
    if t == posting.token {
        lemma_listed_at(after, k);
    } else if has_posting(posts, t) {
        let p = posting_at(posts, t);
        assert(after[p] == posts[p]);
        lemma_listed_at(posts, p);
        lemma_listed_at(after, p);
    } else {
        if has_posting(after, t) {
            let p = posting_at(after, t);
            assert(posts[p].token == t);
        }
    }
}

/// What is listed after a posting for a new token has come in.
pub(crate) proof fn lemma_listed_push(posts: Seq<PostingView>, posting: PostingView, t: Seq<char>)
    requires
        distinct_tokens(posts),
        !has_posting(posts, posting.token),
    ensures
        distinct_tokens(posts.push(posting)),
        listed(posts.push(posting), t) == if t == posting.token {
            posting.documents
        } else {
            listed(posts, t)
        },
{
    let after = posts.push(posting);
    let last = posts.len() as int;
    assert forall|a: int, b: int| 0 <= a < b < after.len() implies
        (#[trigger] after[a]).token != (#[trigger] after[b]).token by {
        assert(after[a] == posts[a]);
        if b < last {
            assert(posts[a].token != posts[b].token);
        }
    }
    if t == posting.token {
        lemma_listed_at(after, last);
    } else if has_posting(posts, t) {
        let p = posting_at(posts, t);
        assert(after[p] == posts[p]);
        lemma_listed_at(posts, p);
        lemma_listed_at(after, p);
    } else {
        if has_posting(after, t) {
            let p = posting_at(after, t);
            assert(p < last);
            assert(posts[p].token == t);
        }
    }
}

/// What is listed after the posting at `k` has gone.
pub(crate) proof fn lemma_listed_remove(posts: Seq<PostingView>, k: int, t: Seq<char>)
    requires
        distinct_tokens(posts),
        0 <= k < posts.len(),
    ensures
        distinct_tokens(posts.remove(k)),
        listed(posts.remove(k), t) == if t == posts[k].token {
            Multiset::empty()
        } else {
            listed(posts, t)
        },
{
    let after = posts.remove(k);
    assert forall|q: int| 0 <= q < after.len() implies #[trigger] after[q] == posts[if q < k {
        q
    } else {
        q + 1
    }] by {}
    assert forall|a: int, b: int| 0 <= a < b < after.len() implies
        (#[trigger] after[a]).token != (#[trigger] after[b]).token by {
        let a0 = if a < k { a } else { a + 1 };
        let b0 = if b < k { b } else { b + 1 };
        assert(posts[a0].token != posts[b0].token);
    }
    if has_posting(after, t) {
        let q = posting_at(after, t);
        let q0 = if q < k { q } else { q + 1 };
        assert(posts[q0].token == t);
        lemma_listed_at(posts, q0);
        lemma_listed_at(after, q);
        if t == posts[k].token {
            if q0 < k {
                assert(posts[q0].token != posts[k].token);
            } else {
                assert(posts[k].token != posts[q0].token);
            }
        }
    } else if has_posting(posts, t) {
        let p = posting_at(posts, t);
        if p != k {
            let shifted = if p < k { p } else { p - 1 };
            assert(after[shifted].token == t);
        }
    }
}

/// One more occurrence of `t` in the document at `d`, whose token already
/// has the posting at `k`.
pub(crate) proof fn lemma_record_known(
    docs: Seq<DocumentView>,
    posts: Seq<PostingView>,
    d: int,
    k: int,
    t: Seq<char>,
)
    requires
        consistent(docs, posts),
        0 <= d < docs.len(),
        0 <= k < posts.len(),
        posts[k].token == t,
    ensures
        consistent(
            docs.update(d, DocumentView { id: docs[d].id, tokens: docs[d].tokens.insert(t) }),
            posts.update(
                k,
                PostingView { token: t, documents: posts[k].documents.insert(docs[d].id) },
            ),
        ),
{
    broadcast use {group_multiset_axioms, group_multiset_properties};

    let x = docs[d].id;
    let doc = DocumentView { id: x, tokens: docs[d].tokens.insert(t) };
    let posting = PostingView { token: t, documents: posts[k].documents.insert(x) };
    let docs2 = docs.update(d, doc);
    let posts2 = posts.update(k, posting);
    assert forall|i: int| 0 <= i < docs.len() implies (#[trigger] docs2[i]).id == docs[i].id by {}
    assert(distinct_ids(docs2)) by {
        assert forall|i: int, j: int| 0 <= i < j < docs2.len() implies
            (#[trigger] docs2[i]).id != (#[trigger] docs2[j]).id by {
            assert(docs[i].id != docs[j].id);
        }
    }
    lemma_listed_update(posts, k, posting, t);
    lemma_listed_at(posts, k);
    assert(mirrored(docs2, posts2)) by {
        assert forall|i: int, u: Seq<char>|
            #![trigger docs2[i].tokens.count(u)]
            0 <= i < docs2.len() implies listed(posts2, u).count(docs2[i].id)
            == docs2[i].tokens.count(u) by {
            lemma_listed_update(posts, k, posting, u);
            assert(listed(posts, u).count(docs[i].id) == docs[i].tokens.count(u));
            if i != d {
                if i < d {
                    assert(docs[i].id != docs[d].id);
                } else {
                    assert(docs[d].id != docs[i].id);
                }
            }
        }
    }
    assert(live(docs2, posts2)) by {
        assert forall|j: int, id: Seq<char>|
            #![trigger posts2[j].documents.count(id)]
            0 <= j < posts2.len() && posts2[j].documents.count(id) > 0 implies has_document(
            docs2,
            id,
        ) by {
            if id == x {
                assert(docs2[d].id == x);
            } else {
                assert(posts[j].documents.count(id) > 0);
                lemma_same_ids(docs, docs2, id);
            }
        }
    }
    assert(counted(docs2, posts2)) by {
        assert forall|j: int| 0 <= j < posts2.len() implies {
            &&& (#[trigger] posts2[j]).documents.dom().len() > 0
            &&& posts2[j].documents.dom().len() == document_frequency(docs2, posts2[j].token)
        } by {
            let u = posts[j].token;
            assert(posts[j].documents.dom().len() > 0);
            lemma_frequency_update(docs, d, doc, u);
            if j == k {
                lemma_insert_distinct(posts[k].documents, x);
                assert(listed(posts, t).count(docs[d].id) == docs[d].tokens.count(t));
            } else {
                if j < k {
                    assert(posts[j].token != posts[k].token);
                } else {
                    assert(posts[k].token != posts[j].token);
                }
            }
        }
    }
}

/// One more occurrence of `t` in the document at `d`, where no posting has
/// this token yet.
pub(crate) proof fn lemma_record_new(
    docs: Seq<DocumentView>,
    posts: Seq<PostingView>,
    d: int,
    t: Seq<char>,
)
    requires
        consistent(docs, posts),
        0 <= d < docs.len(),
        !has_posting(posts, t),
    ensures
        consistent(
            docs.update(d, DocumentView { id: docs[d].id, tokens: docs[d].tokens.insert(t) }),
            posts.push(
                PostingView {
                    token: t,
                    documents: Multiset::<Seq<char>>::empty().insert(docs[d].id),
                },
            ),
        ),
{
    broadcast use {group_multiset_axioms, group_multiset_properties};

    let x = docs[d].id;
    let doc = DocumentView { id: x, tokens: docs[d].tokens.insert(t) };
    let posting = PostingView { token: t, documents: Multiset::<Seq<char>>::empty().insert(x) };
    let docs2 = docs.update(d, doc);
    let posts2 = posts.push(posting);
    let last = posts.len() as int;
    assert forall|i: int| 0 <= i < docs.len() implies (#[trigger] docs2[i]).id == docs[i].id by {}
    assert(distinct_ids(docs2)) by {
        assert forall|i: int, j: int| 0 <= i < j < docs2.len() implies
            (#[trigger] docs2[i]).id != (#[trigger] docs2[j]).id by {
            assert(docs[i].id != docs[j].id);
        }
    }
    lemma_listed_push(posts, posting, t);
    assert forall|i: int| 0 <= i < docs.len() implies (#[trigger] docs[i]).tokens.count(t)
        == 0 by {
        assert(listed(posts, t).count(docs[i].id) == docs[i].tokens.count(t));
    }
    lemma_frequency_zero(docs, t);
    assert(mirrored(docs2, posts2)) by {
        assert forall|i: int, u: Seq<char>|
            #![trigger docs2[i].tokens.count(u)]
            0 <= i < docs2.len() implies listed(posts2, u).count(docs2[i].id)
            == docs2[i].tokens.count(u) by {
            lemma_listed_push(posts, posting, u);
            assert(listed(posts, u).count(docs[i].id) == docs[i].tokens.count(u));
            if i != d {
                if i < d {
                    assert(docs[i].id != docs[d].id);
                } else {
                    assert(docs[d].id != docs[i].id);
                }
            }
        }
    }
    assert(live(docs2, posts2)) by {
        assert forall|j: int, id: Seq<char>|
            #![trigger posts2[j].documents.count(id)]
            0 <= j < posts2.len() && posts2[j].documents.count(id) > 0 implies has_document(
            docs2,
            id,
        ) by {
            if id == x {
                assert(docs2[d].id == x);
            } else {
                assert(j < last);
                assert(posts2[j] == posts[j]);
                assert(posts[j].documents.count(id) > 0);
                lemma_same_ids(docs, docs2, id);
            }
        }
    }
    assert(counted(docs2, posts2)) by {
        assert forall|j: int| 0 <= j < posts2.len() implies {
            &&& (#[trigger] posts2[j]).documents.dom().len() > 0
            &&& posts2[j].documents.dom().len() == document_frequency(docs2, posts2[j].token)
        } by {
            let u = posts2[j].token;
            lemma_frequency_update(docs, d, doc, u);
            if j == last {
                lemma_insert_distinct(Multiset::<Seq<char>>::empty(), x);
                assert(Multiset::<Seq<char>>::empty().dom() =~= Set::<Seq<char>>::empty());
            } else {
                assert(posts2[j] == posts[j]);
                assert(posts[j].documents.dom().len() > 0);
                assert(posts[j].token != t);
            }
        }
    }
}

/// The document at `d` loses every occurrence of `t`, and other documents
/// still hold `t`.
pub(crate) proof fn lemma_retract_keep(
    docs: Seq<DocumentView>,
    posts: Seq<PostingView>,
    d: int,
    k: int,
    t: Seq<char>,
)
    requires
        consistent(docs, posts),
        0 <= d < docs.len(),
        0 <= k < posts.len(),
        posts[k].token == t,
        docs[d].tokens.count(t) > 0,
        without(posts[k].documents, docs[d].id).dom().len() > 0,
    ensures
        consistent(
            docs.update(d, DocumentView { id: docs[d].id, tokens: without(docs[d].tokens, t) }),
            posts.update(
                k,
                PostingView { token: t, documents: without(posts[k].documents, docs[d].id) },
            ),
        ),
{
    let x = docs[d].id;
    let doc = DocumentView { id: x, tokens: without(docs[d].tokens, t) };
    let rest = without(posts[k].documents, x);
    let posting = PostingView { token: t, documents: rest };
    let docs2 = docs.update(d, doc);
    let posts2 = posts.update(k, posting);
    lemma_without(docs[d].tokens, t);
    lemma_without(posts[k].documents, x);
    assert forall|i: int| 0 <= i < docs.len() implies (#[trigger] docs2[i]).id == docs[i].id by {}
    assert(distinct_ids(docs2)) by {
        assert forall|i: int, j: int| 0 <= i < j < docs2.len() implies
            (#[trigger] docs2[i]).id != (#[trigger] docs2[j]).id by {
            assert(docs[i].id != docs[j].id);
        }
    }
    lemma_listed_update(posts, k, posting, t);
    lemma_listed_at(posts, k);
    assert(mirrored(docs2, posts2)) by {
        assert forall|i: int, u: Seq<char>|
            #![trigger docs2[i].tokens.count(u)]
            0 <= i < docs2.len() implies listed(posts2, u).count(docs2[i].id)
            == docs2[i].tokens.count(u) by {
            lemma_listed_update(posts, k, posting, u);
            assert(listed(posts, u).count(docs[i].id) == docs[i].tokens.count(u));
            if i != d {
                if i < d {
                    assert(docs[i].id != docs[d].id);
                } else {
                    assert(docs[d].id != docs[i].id);
                }
            }
        }
    }
    assert(live(docs2, posts2)) by {
        assert forall|j: int, id: Seq<char>|
            #![trigger posts2[j].documents.count(id)]
            0 <= j < posts2.len() && posts2[j].documents.count(id) > 0 implies has_document(
            docs2,
            id,
        ) by {
            assert(posts[j].documents.count(id) > 0);
            lemma_same_ids(docs, docs2, id);
        }
    }
    assert(counted(docs2, posts2)) by {
        assert forall|j: int| 0 <= j < posts2.len() implies {
            &&& (#[trigger] posts2[j]).documents.dom().len() > 0
            &&& posts2[j].documents.dom().len() == document_frequency(docs2, posts2[j].token)
        } by {
            let u = posts[j].token;
            assert(posts[j].documents.dom().len() > 0);
            lemma_frequency_update(docs, d, doc, u);
            if j == k {
                assert(listed(posts, t).count(docs[d].id) == docs[d].tokens.count(t));
            } else {
                if j < k {
                    assert(posts[j].token != posts[k].token);
                } else {
                    assert(posts[k].token != posts[j].token);
                }
            }
        }
    }
}

/// The document at `d` loses every occurrence of `t`, and no other document
/// holds `t`.
pub(crate) proof fn lemma_retract_drop(
    docs: Seq<DocumentView>,
    posts: Seq<PostingView>,
    d: int,
    k: int,
    t: Seq<char>,
)
    requires
        consistent(docs, posts),
        0 <= d < docs.len(),
        0 <= k < posts.len(),
        posts[k].token == t,
        docs[d].tokens.count(t) > 0,
        without(posts[k].documents, docs[d].id).dom().len() == 0,
    ensures
        consistent(
            docs.update(d, DocumentView { id: docs[d].id, tokens: without(docs[d].tokens, t) }),
            posts.remove(k),
        ),
{
    broadcast use group_multiset_axioms;

    let x = docs[d].id;
    let doc = DocumentView { id: x, tokens: without(docs[d].tokens, t) };
    let rest = without(posts[k].documents, x);
    let docs2 = docs.update(d, doc);
    let posts2 = posts.remove(k);
    lemma_without(docs[d].tokens, t);
    lemma_without(posts[k].documents, x);
    rest.dom().lemma_len0_is_empty();
    assert forall|id: Seq<char>| rest.count(id) == 0 by {
        assert(!rest.dom().contains(id));
    }
    assert forall|i: int| 0 <= i < docs.len() implies (#[trigger] docs2[i]).id == docs[i].id by {}
    assert(distinct_ids(docs2)) by {
        assert forall|i: int, j: int| 0 <= i < j < docs2.len() implies
            (#[trigger] docs2[i]).id != (#[trigger] docs2[j]).id by {
            assert(docs[i].id != docs[j].id);
        }
    }
    assert forall|q: int| 0 <= q < posts2.len() implies #[trigger] posts2[q] == posts[if q < k {
        q
    } else {
        q + 1
    }] by {}
    lemma_listed_remove(posts, k, t);
    lemma_listed_at(posts, k);
    assert(mirrored(docs2, posts2)) by {
        assert forall|i: int, u: Seq<char>|
            #![trigger docs2[i].tokens.count(u)]
            0 <= i < docs2.len() implies listed(posts2, u).count(docs2[i].id)
            == docs2[i].tokens.count(u) by {
            lemma_listed_remove(posts, k, u);
            assert(listed(posts, u).count(docs[i].id) == docs[i].tokens.count(u));
            if i != d {
                if i < d {
                    assert(docs[i].id != docs[d].id);
                } else {
                    assert(docs[d].id != docs[i].id);
                }
                assert(rest.count(docs[i].id) == 0);
            }
        }
    }
    assert(live(docs2, posts2)) by {
        assert forall|j: int, id: Seq<char>|
            #![trigger posts2[j].documents.count(id)]
            0 <= j < posts2.len() && posts2[j].documents.count(id) > 0 implies has_document(
            docs2,
            id,
        ) by {
            let j0 = if j < k { j } else { j + 1 };
            assert(posts2[j] == posts[j0]);
            assert(posts[j0].documents.count(id) > 0);
            lemma_same_ids(docs, docs2, id);
        }
    }
    assert(counted(docs2, posts2)) by {
        assert forall|j: int| 0 <= j < posts2.len() implies {
            &&& (#[trigger] posts2[j]).documents.dom().len() > 0
            &&& posts2[j].documents.dom().len() == document_frequency(docs2, posts2[j].token)
        } by {
            let j0 = if j < k { j } else { j + 1 };
            assert(posts2[j] == posts[j0]);
            let u = posts[j0].token;
            assert(posts[j0].documents.dom().len() > 0);
            lemma_frequency_update(docs, d, doc, u);
            if j0 < k {
                assert(posts[j0].token != posts[k].token);
            } else {
                assert(posts[k].token != posts[j0].token);
            }
        }
    }
}

/// A document without tokens comes in under a new identifier.
pub(crate) proof fn lemma_push_empty(
    docs: Seq<DocumentView>,
    posts: Seq<PostingView>,
    id: Seq<char>,
)
    requires
        consistent(docs, posts),
        !has_document(docs, id),
    ensures
        consistent(
            docs.push(DocumentView { id, tokens: Multiset::<Seq<char>>::empty() }),
            posts,
        ),
{
    broadcast use group_multiset_axioms;

    let doc = DocumentView { id, tokens: Multiset::<Seq<char>>::empty() };
    let docs2 = docs.push(doc);
    let last = docs.len() as int;
    assert forall|i: int| 0 <= i < docs.len() implies (#[trigger] docs2[i]).id == docs[i].id by {}
    assert(distinct_ids(docs2)) by {
        assert forall|i: int, j: int| 0 <= i < j < docs2.len() implies
            (#[trigger] docs2[i]).id != (#[trigger] docs2[j]).id by {
            assert(docs2[i] == docs[i]);
            if j < last {
                assert(docs[i].id != docs[j].id);
            }
        }
    }
    assert(mirrored(docs2, posts)) by {
        assert forall|i: int, u: Seq<char>|
            #![trigger docs2[i].tokens.count(u)]
            0 <= i < docs2.len() implies listed(posts, u).count(docs2[i].id)
            == docs2[i].tokens.count(u) by {
            if i < last {
                assert(docs2[i] == docs[i]);
                assert(listed(posts, u).count(docs[i].id) == docs[i].tokens.count(u));
            } else {
                if has_posting(posts, u) {
                    let p = posting_at(posts, u);
                    if posts[p].documents.count(id) > 0 {
                        assert(has_document(docs, id));
                    }
                }
            }
        }
    }
    assert(live(docs2, posts)) by {
        assert forall|j: int, y: Seq<char>|
            #![trigger posts[j].documents.count(y)]
            0 <= j < posts.len() && posts[j].documents.count(y) > 0 implies has_document(
            docs2,
            y,
        ) by {
            lemma_same_ids(docs, docs2, y);
        }
    }
    assert(counted(docs2, posts)) by {
        assert forall|j: int| 0 <= j < posts.len() implies {
            &&& (#[trigger] posts[j]).documents.dom().len() > 0
            &&& posts[j].documents.dom().len() == document_frequency(docs2, posts[j].token)
        } by {
            lemma_frequency_push(docs, doc, posts[j].token);
        }
    }
}

/// A document without tokens leaves.
pub(crate) proof fn lemma_remove_empty(docs: Seq<DocumentView>, posts: Seq<PostingView>, d: int)
    requires
        consistent(docs, posts),
        0 <= d < docs.len(),
        docs[d].tokens.len() == 0,
    ensures
        consistent(docs.remove(d), posts),
{
    broadcast use group_multiset_axioms;

    let docs2 = docs.remove(d);
    assert forall|u: Seq<char>| docs[d].tokens.count(u) == 0 by {
        assert(docs[d].tokens.count(u) <= docs[d].tokens.len());
    }
    assert forall|q: int| 0 <= q < docs2.len() implies #[trigger] docs2[q] == docs[if q < d {
        q
    } else {
        q + 1
    }] by {}
    assert(distinct_ids(docs2)) by {
        assert forall|i: int, j: int| 0 <= i < j < docs2.len() implies
            (#[trigger] docs2[i]).id != (#[trigger] docs2[j]).id by {
            let i0 = if i < d { i } else { i + 1 };
            let j0 = if j < d { j } else { j + 1 };
            assert(docs[i0].id != docs[j0].id);
        }
    }
    assert(mirrored(docs2, posts)) by {
        assert forall|i: int, u: Seq<char>|
            #![trigger docs2[i].tokens.count(u)]
            0 <= i < docs2.len() implies listed(posts, u).count(docs2[i].id)
            == docs2[i].tokens.count(u) by {
            let i0 = if i < d { i } else { i + 1 };
            assert(docs2[i] == docs[i0]);
            assert(listed(posts, u).count(docs[i0].id) == docs[i0].tokens.count(u));
        }
    }
    assert(live(docs2, posts)) by {
        assert forall|j: int, y: Seq<char>|
            #![trigger posts[j].documents.count(y)]
            0 <= j < posts.len() && posts[j].documents.count(y) > 0 implies has_document(
            docs2,
            y,
        ) by {
            assert(has_document(docs, y));
            let p = position(docs, y);
            lemma_listed_at(posts, j);
            assert(listed(posts, posts[j].token).count(docs[p].id) == docs[p].tokens.count(
                posts[j].token,
            ));
            assert(p != d);
            let shifted = if p < d { p } else { p - 1 };
            assert(docs2[shifted].id == y);
        }
    }
    assert(counted(docs2, posts)) by {
        assert forall|j: int| 0 <= j < posts.len() implies {
            &&& (#[trigger] posts[j]).documents.dom().len() > 0
            &&& posts[j].documents.dom().len() == document_frequency(docs2, posts[j].token)
        } by {
            lemma_frequency_remove(docs, d, posts[j].token);
        }
    }
}

} // verus!
