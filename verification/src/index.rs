//! The inverted index: for each document the tokens it holds, and for each
//! token the documents that hold it.

use vstd::prelude::*;
use vstd::multiset::*;
use crate::corpus::{
    added, distinct_ids, document_frequency, has_document, lemma_frequency_zero, lemma_position,
    occurrences, position, removed, total_length, DocumentView,
};
use crate::counter::{lemma_without, without, Counter};
use crate::postings::{
    consistent, has_posting, lemma_listed_at, lemma_push_empty, lemma_record_known,
    lemma_record_new, lemma_remove_empty, lemma_retract_drop, lemma_retract_keep, listed,
    PostingView,
};
use crate::text::{same_text, texts};

verus! {

/// A document: its identifier, its tokens with their counts, and the number
/// of its tokens.
#[derive(Debug)]
struct Document {
    id: String,
    terms: Counter,
    length: usize,
}

/// A posting: a token, and the documents that hold it, each with the number
/// of times it holds the token.
#[derive(Debug)]
struct Posting {
    token: String,
    documents: Counter,
}

/// The index. Its view is the list of its documents, in the order in which
/// they came in.
#[derive(Debug)]
pub struct InvertedIndex {
    documents: Vec<Document>,
    postings: Vec<Posting>,
}

spec fn document_views(documents: Seq<Document>) -> Seq<DocumentView> {
    Seq::new(
        documents.len(),
        |i: int| DocumentView { id: documents[i].id@, tokens: documents[i].terms@ },
    )
}

spec fn posting_views(postings: Seq<Posting>) -> Seq<PostingView> {
    Seq::new(
        postings.len(),
        |k: int| PostingView { token: postings[k].token@, documents: postings[k].documents@ },
    )
}

spec fn sound_documents(documents: Seq<Document>) -> bool {
    forall|i: int|
        0 <= i < documents.len() ==> (#[trigger] documents[i]).terms.wf() && documents[i].length
            == documents[i].terms@.len()
}

spec fn sound_postings(postings: Seq<Posting>) -> bool {
    forall|k: int| 0 <= k < postings.len() ==> (#[trigger] postings[k]).documents.wf()
}

impl View for InvertedIndex {
    type V = Seq<DocumentView>;

    closed spec fn view(&self) -> Seq<DocumentView> {
        document_views(self.documents@)
    }
}

impl Default for InvertedIndex {
    fn default() -> (index: InvertedIndex)
        ensures
            index.wf(),
            index@ == Seq::<DocumentView>::empty(),
    {
        InvertedIndex::new()
    }
}

impl InvertedIndex {
    /// Each record is sound, and a token lists exactly the documents that
    /// hold it, each as often as it holds the token.
    pub closed spec fn wf(&self) -> bool {
        &&& sound_documents(self.documents@)
        &&& sound_postings(self.postings@)
        &&& consistent(self@, posting_views(self.postings@))
    }

    /// No two documents of an index share an identifier, and each length
    /// fits the machine.
    pub proof fn lemma_documents(&self)
        requires
            self.wf(),
        ensures
            distinct_ids(self@),
            forall|i: int| 0 <= i < self@.len() ==> (#[trigger] self@[i]).tokens.len() <= usize::MAX,
    {
        assert forall|i: int| 0 <= i < self@.len() implies (#[trigger] self@[i]).tokens.len()
            <= usize::MAX by {
            assert(self.documents@[i].length == self.documents@[i].terms@.len());
        }
    }

    /// The index without documents.
    pub fn new() -> (index: InvertedIndex)
        ensures
            index.wf(),
            index@ == Seq::<DocumentView>::empty(),
    {
        let index = InvertedIndex { documents: Vec::new(), postings: Vec::new() };
        proof {
            assert(index@ =~= Seq::<DocumentView>::empty());
        }
        index
    }

    /// The number of documents.
    pub fn document_count(&self) -> (n: usize)
        ensures
            n == self@.len(),
    {
        self.documents.len()
    }

    /// Where the document with this identifier stands, if there is one.
    pub fn find_document(&self, id: &str) -> (at: Option<usize>)
        requires
            self.wf(),
        ensures
            at is Some <==> has_document(self@, id@),
            at matches Some(i) ==> i < self@.len() && i == position(self@, id@) && self@[i as int].id
                == id@,
    {
        let mut i: usize = 0;
        while i < self.documents.len()
            invariant
                self.wf(),
                i <= self.documents.len(),
                forall|j: int| 0 <= j < i ==> (#[trigger] self@[j]).id != id@,
            decreases self.documents.len() - i,
        {
            if same_text(self.documents[i].id.as_str(), id) {
                proof {
                    assert(self@[i as int].id == id@);
                    lemma_position(self@, i as int);
                }
                return Some(i);
            }
            i += 1;
        }
        None
    }

    fn find_posting(&self, token: &str) -> (at: Option<usize>)
        ensures
            at is Some <==> has_posting(posting_views(self.postings@), token@),
            at matches Some(k) ==> k < self.postings.len() && self.postings[k as int].token@
                == token@,
    {
        let mut k: usize = 0;
        while k < self.postings.len()
            invariant
                k <= self.postings.len(),
                forall|j: int|
                    0 <= j < k ==> (#[trigger] posting_views(self.postings@)[j]).token != token@,
            decreases self.postings.len() - k,
        {
            if same_text(self.postings[k].token.as_str(), token) {
                proof {
                    assert(posting_views(self.postings@)[k as int].token == token@);
                }
                return Some(k);
            }
            k += 1;
        }
        None
    }

    /// The identifier of the document at `i`.
    pub fn document_id(&self, i: usize) -> (id: &String)
        requires
            i < self@.len(),
        ensures
            id@ == self@[i as int].id,
    {
        &self.documents[i].id
    }

    /// The length of the document at `i`: the number of its tokens.
    pub fn document_length(&self, i: usize) -> (length: usize)
        requires
            self.wf(),
            i < self@.len(),
        ensures
            length == self@[i as int].tokens.len(),
    {
        self.documents[i].length
    }

    /// How often the document at `i` holds the token.
    pub fn term_frequency(&self, i: usize, token: &str) -> (n: usize)
        requires
            self.wf(),
            i < self@.len(),
        ensures
            n == self@[i as int].tokens.count(token@),
    {
        self.documents[i].terms.count(token)
    }

    /// The number of documents that hold the token.
    pub fn document_frequency(&self, token: &str) -> (n: usize)
        requires
            self.wf(),
        ensures
            n == document_frequency(self@, token@),
    {
        let ghost posts = posting_views(self.postings@);
        match self.find_posting(token) {
            Some(k) => {
                proof {
                    assert(posts[k as int].documents.dom().len() == document_frequency(
                        self@,
                        posts[k as int].token,
                    ));
                }
                self.postings[k].documents.distinct_len()
            },
            None => {
                proof {
                    broadcast use group_multiset_axioms;

                    assert forall|i: int| 0 <= i < self@.len() implies
                        (#[trigger] self@[i]).tokens.count(token@) == 0 by {
                        assert(listed(posts, token@).count(self@[i].id) == self@[i].tokens.count(
                            token@,
                        ));
                    }
                    lemma_frequency_zero(self@, token@);
                }
                0
            },
        }
    }

    /// Whether the index lists anything under the token: it does where a
    /// document holds the token, and only there.
    pub fn has_token(&self, token: &str) -> (listed: bool)
        requires
            self.wf(),
        ensures
            listed == (document_frequency(self@, token@) > 0),
    {
        self.document_frequency(token) > 0
    }

    /// How often the token lists the document with this identifier: as
    /// often as the document holds the token.
    pub fn posting_count(&self, token: &str, id: &str) -> (n: usize)
        requires
            self.wf(),
        ensures
            n == occurrences(self@, id@, token@),
    {
        let ghost posts = posting_views(self.postings@);
        proof {
            broadcast use group_multiset_axioms;

            if has_document(self@, id@) {
                let i = position(self@, id@);
                assert(listed(posts, token@).count(self@[i].id) == self@[i].tokens.count(token@));
            }
        }
        match self.find_posting(token) {
            Some(k) => {
                proof {
                    lemma_listed_at(posts, k as int);
                    if posts[k as int].documents.count(id@) > 0 {
                        assert(has_document(self@, id@));
                    }
                }
                self.postings[k].documents.count(id)
            },
            None => 0,
        }
    }

    /// The sum of the documents' lengths.
    pub fn total_length(&self) -> (sum: u128)
        requires
            self.wf(),
        ensures
            sum == total_length(self@),
    {
        let mut sum: u128 = 0;
        let mut i: usize = 0;
        proof {
            assert(self@.take(0) =~= Seq::<DocumentView>::empty());
        }
        while i < self.documents.len()
            invariant
                self.wf(),
                i <= self.documents.len(),
                sum == total_length(self@.take(i as int)),
                sum <= i * usize::MAX,
            decreases self.documents.len() - i,
        {
            let length = self.documents[i].length;
            proof {
                assert(self@.take(i + 1).drop_last() =~= self@.take(i as int));
                assert(self@.take(i + 1).last() == self@[i as int]);
                assert(sum + length <= (i + 1) * usize::MAX) by (nonlinear_arith)
                    requires
                        sum <= i * usize::MAX,
                        length <= usize::MAX,
                ;
                assert((i + 1) * usize::MAX <= u128::MAX) by (nonlinear_arith)
                    requires
                        i + 1 <= usize::MAX,
                        usize::MAX <= 0xffff_ffff_ffff_ffff,
                ;
            }
            sum = sum + length as u128;
            i += 1;
        }
        proof {
            assert(self@.take(i as int) =~= self@);
        }
        sum
    }

    /// One more occurrence of `token` in the document at `d`.
    fn record(&mut self, d: usize, token: &str)
        requires
            old(self).wf(),
            d < old(self)@.len(),
            old(self)@[d as int].tokens.len() < usize::MAX,
        ensures
            final(self).wf(),
            final(self)@ == old(self)@.update(
                d as int,
                DocumentView {
                    id: old(self)@[d as int].id,
                    tokens: old(self)@[d as int].tokens.insert(token@),
                },
            ),
    {
        let ghost docs = self@;
        let ghost posts = posting_views(self.postings@);
        let ghost t = token@;
        let ghost posts2;
        proof {
            broadcast use group_multiset_axioms;

            assert(docs[d as int].tokens.count(t) <= docs[d as int].tokens.len());
            assert(listed(posts, t).count(docs[d as int].id) == docs[d as int].tokens.count(t));
        }
        match self.find_posting(token) {
            Some(k) => {
                proof {
                    lemma_listed_at(posts, k as int);
                    lemma_record_known(docs, posts, d as int, k as int, t);
                    posts2 = posts.update(
                        k as int,
                        PostingView {
                            token: t,
                            documents: posts[k as int].documents.insert(docs[d as int].id),
                        },
                    );
                }
                self.postings[k].documents.add_neighbour(self.documents[d].id.as_str());
                proof {
                    assert(posting_views(self.postings@) =~= posts2);
                }
            },
            None => {
                proof {
                    lemma_record_new(docs, posts, d as int, t);
                    posts2 = posts.push(
                        PostingView {
                            token: t,
                            documents: Multiset::<Seq<char>>::empty().insert(docs[d as int].id),
                        },
                    );
                }
                let mut documents = Counter::new();
                documents.add_neighbour(self.documents[d].id.as_str());
                self.postings.push(Posting { token: token.to_owned(), documents });
                proof {
                    assert(posting_views(self.postings@) =~= posts2);
                }
            },
        }
        self.documents[d].terms.add_neighbour(token);
        self.documents[d].length = self.documents[d].length + 1;
        proof {
            broadcast use {group_multiset_axioms, group_multiset_properties};

            assert(self@ =~= docs.update(
                d as int,
                DocumentView { id: docs[d as int].id, tokens: docs[d as int].tokens.insert(t) },
            ));
        }
    }

    /// The document at `d` loses every occurrence of one of its tokens.
    /// Returns false, and changes nothing, where it has no token left.
    fn retract(&mut self, d: usize) -> (more: bool)
        requires
            old(self).wf(),
            d < old(self)@.len(),
        ensures
            final(self).wf(),
            final(self)@.len() == old(self)@.len(),
            forall|i: int|
                0 <= i < old(self)@.len() && i != d ==> #[trigger] final(self)@[i] == old(self)@[i],
            final(self)@[d as int].id == old(self)@[d as int].id,
            more ==> final(self)@[d as int].tokens.len() < old(self)@[d as int].tokens.len(),
            !more ==> final(self)@[d as int].tokens.len() == 0 && final(self)@ == old(self)@,
    {
        let ghost docs = self@;
        let ghost posts = posting_views(self.postings@);
        match self.documents[d].terms.pop() {
            None => {
                proof {
                    broadcast use group_multiset_axioms;

                    assert(self@ =~= docs);
                }
                false
            },
            Some(entry) => {
                let ghost t = entry.name@;
                proof {
                    broadcast use group_multiset_axioms;

                    lemma_without(docs[d as int].tokens, t);
                    assert(docs[d as int].tokens.count(t) <= docs[d as int].tokens.len());
                    assert(listed(posts, t).count(docs[d as int].id) == docs[d as int].tokens.count(
                        t,
                    ));
                    assert(has_posting(posts, t));
                }
                self.documents[d].length = self.documents[d].length - entry.count;
                proof {
                    assert(self@ =~= docs.update(
                        d as int,
                        DocumentView {
                            id: docs[d as int].id,
                            tokens: without(docs[d as int].tokens, t),
                        },
                    ));
                }
                match self.find_posting(entry.name.as_str()) {
                    Some(k) => {
                        let _count = self.postings[k].documents.remove(
                            self.documents[d].id.as_str(),
                        );
                        if self.postings[k].documents.distinct_len() == 0 {
                            let _posting = self.postings.remove(k);
                            proof {
                                lemma_retract_drop(docs, posts, d as int, k as int, t);
                                assert(posting_views(self.postings@) =~= posts.remove(k as int));
                            }
                        } else {
                            proof {
                                lemma_retract_keep(docs, posts, d as int, k as int, t);
                                assert(posting_views(self.postings@) =~= posts.update(
                                    k as int,
                                    PostingView {
                                        token: t,
                                        documents: without(
                                            posts[k as int].documents,
                                            docs[d as int].id,
                                        ),
                                    },
                                ));
                            }
                        }
                    },
                    None => {},
                }
                true
            },
        }
    }

    /// Adds a document with the given tokens. Where the index already has a
    /// document with this identifier, nothing changes.
    pub fn upsert_document(&mut self, id: &str, tokens: &Vec<String>)
        requires
            old(self).wf(),
        ensures
            final(self).wf(),
            final(self)@ == added(old(self)@, id@, texts(tokens@)),
    {
        let ghost docs = self@;
        let ghost posts = posting_views(self.postings@);
        let ghost words = texts(tokens@);
        if self.find_document(id).is_some() {
            return;
        }
        let d = self.documents.len();
        self.documents.push(Document { id: id.to_owned(), terms: Counter::new(), length: 0 });
        proof {
            broadcast use group_multiset_axioms;

            lemma_push_empty(docs, posts, id@);
            assert(self@ =~= docs.push(
                DocumentView { id: id@, tokens: Multiset::<Seq<char>>::empty() },
            ));
            assert(words.take(0) =~= Seq::<Seq<char>>::empty());
            Seq::<Seq<char>>::empty().to_multiset_ensures();
            lemma_multiset_empty_len(Seq::<Seq<char>>::empty().to_multiset());
        }
        let mut j: usize = 0;
        while j < tokens.len()
            invariant
                self.wf(),
                j <= tokens.len(),
                d == docs.len(),
                words == texts(tokens@),
                self@ == docs.push(
                    DocumentView { id: id@, tokens: words.take(j as int).to_multiset() },
                ),
            decreases tokens.len() - j,
        {
            proof {
                words.take(j as int).to_multiset_ensures();
            }
            self.record(d, tokens[j].as_str());
            proof {
                assert(words.take(j + 1) =~= words.take(j as int).push(tokens[j as int]@));
                words.take(j as int).to_multiset_ensures();
                assert(self@ =~= docs.push(
                    DocumentView { id: id@, tokens: words.take(j + 1).to_multiset() },
                ));
            }
            j += 1;
        }
        proof {
            assert(words.take(j as int) =~= words);
        }
    }

    /// Removes the document with this identifier, if there is one, and with
    /// it what the tokens list of it.
    pub fn remove_document(&mut self, id: &str)
        requires
            old(self).wf(),
        ensures
            final(self).wf(),
            final(self)@ == removed(old(self)@, id@),
    {
        let ghost docs = self@;
        match self.find_document(id) {
            None => {},
            Some(d) => {
                let mut more = true;
                while more
                    invariant
                        self.wf(),
                        d < docs.len(),
                        self@.len() == docs.len(),
                        forall|i: int| 0 <= i < docs.len() && i != d ==> #[trigger] self@[i] == docs[i],
                        !more ==> self@[d as int].tokens.len() == 0,
                    decreases self@[d as int].tokens.len() + if more { 1nat } else { 0nat },
                {
                    more = self.retract(d);
                }
                proof {
                    lemma_remove_empty(self@, posting_views(self.postings@), d as int);
                }
                let ghost emptied = self@;
                let _document = self.documents.remove(d);
                proof {
                    assert(self@ =~= emptied.remove(d as int));
                    assert(self@ =~= docs.remove(d as int));
                }
            },
        }
    }
}

} // verus!
