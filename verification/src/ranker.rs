//! The ranker: it owns an index and hands out, for a query, the numbers
//! that the BM25 formula reads.

use vstd::prelude::*;
use vstd::multiset::*;
use vstd::seq_lib::*;
use crate::corpus::{
    added, distinct_ids, document_frequency, has_document, lemma_added_is_held,
    lemma_frequency_counts, lemma_removed_is_gone, position, removed, total_length, DocumentView,
};
use crate::index::InvertedIndex;
use crate::ranking::{
    descending, lemma_ranked_is_descending, lemma_ranking, lists, rank, ranked, ranking,
    ranks_before, shown, views, Hit, HitView,
};
use crate::text::texts;

verus! {

/// Why a search gave no result.
#[derive(Debug, Clone, Copy, PartialEq, Eq, Structural)]
pub enum SearchError {
    /// The index holds no document, so there is no average length.
    EmptyCorpus,
}

impl SearchError {
    /// What went wrong, in words.
    pub fn message(&self) -> (text: String)
        ensures
            text@ == "the ranker holds no document"@,
    {
        match self {
            SearchError::EmptyCorpus => "the ranker holds no document".to_owned(),
        }
    }
}

/// One occurrence of a query token that the document holds: how often the
/// document holds it, and how many documents hold it.
#[derive(Debug, Clone, Copy, PartialEq, Eq)]
pub struct TermStatistics {
    pub term_frequency: usize,
    pub document_frequency: usize,
}

/// What a `TermStatistics` stands for.
pub struct TermStatisticsView {
    pub term_frequency: nat,
    pub document_frequency: nat,
}

impl View for TermStatistics {
    type V = TermStatisticsView;

    open spec fn view(&self) -> TermStatisticsView {
        TermStatisticsView {
            term_frequency: self.term_frequency as nat,
            document_frequency: self.document_frequency as nat,
        }
    }
}

/// What the formula reads of one document: its length, and one entry for
/// each query token that it holds, in the order of the query. A token that
/// the query repeats has an entry for each repetition.
#[derive(Debug, Clone, PartialEq, Eq)]
pub struct DocumentStatistics {
    pub id: String,
    pub length: usize,
    pub terms: Vec<TermStatistics>,
}

/// What a `DocumentStatistics` stands for.
pub struct DocumentStatisticsView {
    pub id: Seq<char>,
    pub length: nat,
    pub terms: Seq<TermStatisticsView>,
}

/// The views of a list of term statistics, in the same order.
pub open spec fn term_views(terms: Seq<TermStatistics>) -> Seq<TermStatisticsView> {
    Seq::new(terms.len(), |j: int| terms[j]@)
}

impl View for DocumentStatistics {
    type V = DocumentStatisticsView;

    open spec fn view(&self) -> DocumentStatisticsView {
        DocumentStatisticsView {
            id: self.id@,
            length: self.length as nat,
            terms: term_views(self.terms@),
        }
    }
}

/// What the formula reads for one query: the number of documents, the sum of
/// their lengths, and the statistics of each document, in the order of the
/// index. The average length is `total_length / document_count`.
#[derive(Debug, Clone, PartialEq, Eq)]
pub struct QueryStatistics {
    pub document_count: usize,
    pub total_length: u128,
    pub documents: Vec<DocumentStatistics>,
}

/// What a `QueryStatistics` stands for.
pub struct QueryStatisticsView {
    pub document_count: nat,
    pub total_length: nat,
    pub documents: Seq<DocumentStatisticsView>,
}

/// The views of a list of document statistics, in the same order.
pub open spec fn statistics_views(documents: Seq<DocumentStatistics>) -> Seq<
    DocumentStatisticsView,
> {
    Seq::new(documents.len(), |i: int| documents[i]@)
}

impl View for QueryStatistics {
    type V = QueryStatisticsView;

    open spec fn view(&self) -> QueryStatisticsView {
        QueryStatisticsView {
            document_count: self.document_count as nat,
            total_length: self.total_length as nat,
            documents: statistics_views(self.documents@),
        }
    }
}

/// The entries of a document for a query: one for each place of the query
/// whose token the document holds.
pub open spec fn matched_terms(
    docs: Seq<DocumentView>,
    doc: DocumentView,
    query: Seq<Seq<char>>,
) -> Seq<TermStatisticsView>
    decreases query.len(),
{
    if query.len() == 0 {
        Seq::empty()
    } else {
        let earlier = matched_terms(docs, doc, query.drop_last());
        let token = query.last();
        if doc.tokens.count(token) > 0 {
            earlier.push(
                TermStatisticsView {
                    term_frequency: doc.tokens.count(token),
                    document_frequency: document_frequency(docs, token),
                },
            )
        } else {
            earlier
        }
    }
}

/// The statistics of the document at `i` for a query.
pub open spec fn document_statistics(
    docs: Seq<DocumentView>,
    i: int,
    query: Seq<Seq<char>>,
) -> DocumentStatisticsView {
    DocumentStatisticsView {
        id: docs[i].id,
        length: docs[i].tokens.len(),
        terms: matched_terms(docs, docs[i], query),
    }
}

/// The statistics of a query over the documents of an index.
pub open spec fn query_statistics(
    docs: Seq<DocumentView>,
    query: Seq<Seq<char>>,
) -> QueryStatisticsView {
    QueryStatisticsView {
        document_count: docs.len(),
        total_length: total_length(docs),
        documents: Seq::new(docs.len(), |i: int| document_statistics(docs, i, query)),
    }
}

/// The documents with their scores, in the order of the index.
pub open spec fn scored(docs: Seq<DocumentView>, scores: Seq<u64>) -> Seq<HitView> {
    Seq::new(docs.len(), |i: int| HitView { id: docs[i].id, score: scores[i] })
}

/// What a search returns when the documents have these scores: the
/// documents in ranking order, cut to the limit.
pub open spec fn search_result(
    docs: Seq<DocumentView>,
    scores: Seq<u64>,
    limit: Option<usize>,
) -> Seq<HitView> {
    ranking(scored(docs, scores)).take(shown(docs.len(), limit) as int)
}

/// `scores` holds, for each document of `statistics`, a score that the
/// scorer may give it.
pub open spec fn scores_of<F: Fn(&QueryStatistics, usize) -> u64>(
    scorer: F,
    statistics: QueryStatistics,
    scores: Seq<u64>,
) -> bool {
    &&& scores.len() == statistics.documents@.len()
    &&& forall|i: int|
        0 <= i < scores.len() ==> call_ensures(scorer, (&statistics, i as usize), #[trigger] scores[i])
}

/// The scorer takes every document of the statistics of this query.
pub open spec fn accepts<F: Fn(&QueryStatistics, usize) -> u64>(
    scorer: F,
    docs: Seq<DocumentView>,
    query: Seq<Seq<char>>,
) -> bool {
    forall|statistics: QueryStatistics, i: usize|
        statistics@ == query_statistics(docs, query) && i < statistics.documents@.len()
            ==> call_requires(scorer, (&statistics, i))
}

/// `hits` is what a search for `query` over `docs` returns, with scores
/// that the scorer may give.
pub open spec fn answers<F: Fn(&QueryStatistics, usize) -> u64>(
    scorer: F,
    docs: Seq<DocumentView>,
    query: Seq<Seq<char>>,
    limit: Option<usize>,
    hits: Seq<HitView>,
) -> bool {
    exists|statistics: QueryStatistics, scores: Seq<u64>|
        {
            &&& #[trigger] scores_of(scorer, statistics, scores)
            &&& statistics@ == query_statistics(docs, query)
            &&& hits == search_result(docs, scores, limit)
        }
}

/// The documents of an index that was filled from a list of identifiers
/// with their tokens, one after the other.
pub open spec fn built(entries: Seq<(Seq<char>, Seq<Seq<char>>)>) -> Seq<DocumentView>
    decreases entries.len(),
{
    if entries.len() == 0 {
        Seq::empty()
    } else {
        added(built(entries.drop_last()), entries.last().0, entries.last().1)
    }
}

/// What a list of identifiers with their tokens holds.
pub open spec fn entry_views(entries: Seq<(String, Vec<String>)>) -> Seq<
    (Seq<char>, Seq<Seq<char>>),
> {
    Seq::new(entries.len(), |i: int| (entries[i].0@, texts(entries[i].1@)))
}

/// The BM25 ranker. Its view is the list of its documents, in the order in
/// which they came in; no two of them share an identifier.
#[derive(Debug)]
pub struct BM25 {
    index: InvertedIndex,
}

impl View for BM25 {
    type V = Seq<DocumentView>;

    closed spec fn view(&self) -> Seq<DocumentView> {
        self.index@
    }
}

impl Default for BM25 {
    fn default() -> (ranker: BM25)
        ensures
            ranker@ == Seq::<DocumentView>::empty(),
    {
        BM25::new()
    }
}

impl BM25 {
    #[verifier::type_invariant]
    spec fn well_formed(self) -> bool {
        self.index.wf()
    }

    /// A ranker without documents.
    pub fn new() -> (ranker: BM25)
        ensures
            ranker@ == Seq::<DocumentView>::empty(),
    {
        BM25 { index: InvertedIndex::new() }
    }

    /// A ranker that holds the given documents, added in their order.
    pub fn from_documents(entries: &Vec<(String, Vec<String>)>) -> (ranker: BM25)
        ensures
            ranker@ == built(entry_views(entries@)),
            distinct_ids(ranker@),
    {
        let ghost all = entry_views(entries@);
        let mut index = InvertedIndex::new();
        let mut i: usize = 0;
        proof {
            assert(all.take(0) =~= Seq::<(Seq<char>, Seq<Seq<char>>)>::empty());
        }
        while i < entries.len()
            invariant
                index.wf(),
                i <= entries.len(),
                all == entry_views(entries@),
                index@ == built(all.take(i as int)),
            decreases entries.len() - i,
        {
            index.upsert_document(entries[i].0.as_str(), &entries[i].1);
            proof {
                assert(all.take(i + 1).drop_last() =~= all.take(i as int));
                assert(all.take(i + 1).last() == all[i as int]);
            }
            i += 1;
        }
        proof {
            assert(all.take(i as int) =~= all);
            index.lemma_documents();
        }
        BM25 { index }
    }

    /// The number of documents.
    pub fn document_count(&self) -> (n: usize)
        ensures
            n == self@.len(),
            distinct_ids(self@),
    {
        proof {
            use_type_invariant(self);
            self.index.lemma_documents();
        }
        self.index.document_count()
    }

    /// Whether the ranker holds a document with this identifier.
    pub fn contains(&self, id: &str) -> (found: bool)
        ensures
            found == has_document(self@, id@),
            distinct_ids(self@),
    {
        proof {
            use_type_invariant(self);
            self.index.lemma_documents();
        }
        self.index.find_document(id).is_some()
    }

    /// Adds a document with the given tokens. Where the ranker already
    /// holds a document with this identifier, nothing changes.
    pub fn add_document(&mut self, id: String, tokens: Vec<String>)
        ensures
            final(self)@ == added(old(self)@, id@, texts(tokens@)),
            distinct_ids(final(self)@),
    {
        proof {
            use_type_invariant(&*self);
        }
        let mut index = InvertedIndex::new();
        std::mem::swap(&mut index, &mut self.index);
        index.upsert_document(id.as_str(), &tokens);
        proof {
            index.lemma_documents();
        }
        self.index = index;
    }

    /// Removes the document with this identifier, if there is one.
    pub fn remove_document(&mut self, id: String)
        ensures
            final(self)@ == removed(old(self)@, id@),
            distinct_ids(old(self)@),
            distinct_ids(final(self)@),
    {
        proof {
            use_type_invariant(&*self);
            self.index.lemma_documents();
        }
        let mut index = InvertedIndex::new();
        std::mem::swap(&mut index, &mut self.index);
        index.remove_document(id.as_str());
        proof {
            index.lemma_documents();
        }
        self.index = index;
    }

    /// The numbers that the formula reads for this query, for every
    /// document of the ranker. Fails where the ranker holds no document.
    pub fn statistics(&self, query: &Vec<String>) -> (result: Result<QueryStatistics, SearchError>)
        ensures
            result is Err <==> self@.len() == 0,
            result matches Err(error) ==> error == SearchError::EmptyCorpus,
            result matches Ok(statistics) ==> statistics@ == query_statistics(self@, texts(query@)),
            result matches Ok(statistics) ==> statistics.documents@.len() == self@.len(),
            distinct_ids(self@),
    {
        proof {
            use_type_invariant(self);
            self.index.lemma_documents();
        }
        let n = self.index.document_count();
        if n == 0 {
            return Err(SearchError::EmptyCorpus);
        }
        let ghost words = texts(query@);
        let mut frequencies: Vec<usize> = Vec::new();
        let mut j: usize = 0;
        while j < query.len()
            invariant
                self.index.wf(),
                j <= query.len(),
                frequencies.len() == j,
                forall|q: int|
                    0 <= q < j ==> #[trigger] frequencies[q] == document_frequency(
                        self@,
                        query[q]@,
                    ),
            decreases query.len() - j,
        {
            frequencies.push(self.index.document_frequency(query[j].as_str()));
            j += 1;
        }
        let total = self.index.total_length();
        let mut documents: Vec<DocumentStatistics> = Vec::new();
        let mut i: usize = 0;
        while i < n
            invariant
                self.index.wf(),
                n == self@.len(),
                i <= n,
                words == texts(query@),
                frequencies.len() == query.len(),
                forall|q: int|
                    0 <= q < query.len() ==> #[trigger] frequencies[q] == document_frequency(
                        self@,
                        query[q]@,
                    ),
                documents.len() == i,
                forall|p: int|
                    0 <= p < i ==> (#[trigger] documents@[p])@ == document_statistics(
                        self@,
                        p,
                        words,
                    ),
            decreases n - i,
        {
            let mut terms: Vec<TermStatistics> = Vec::new();
            let mut j: usize = 0;
            proof {
                assert(words.take(0) =~= Seq::<Seq<char>>::empty());
                assert(term_views(terms@) =~= Seq::<TermStatisticsView>::empty());
            }
            while j < query.len()
                invariant
                    self.index.wf(),
                    i < n,
                    n == self@.len(),
                    j <= query.len(),
                    words == texts(query@),
                    frequencies.len() == query.len(),
                    forall|q: int|
                        0 <= q < query.len() ==> #[trigger] frequencies[q] == document_frequency(
                            self@,
                            query[q]@,
                        ),
                    term_views(terms@) == matched_terms(self@, self@[i as int], words.take(j as int)),
                decreases query.len() - j,
            {
                let held = self.index.term_frequency(i, query[j].as_str());
                let ghost earlier = term_views(terms@);
                if held > 0 {
                    terms.push(
                        TermStatistics { term_frequency: held, document_frequency: frequencies[j] },
                    );
                    proof {
                        assert(term_views(terms@) =~= earlier.push(
                            TermStatisticsView {
                                term_frequency: held as nat,
                                document_frequency: frequencies[j as int] as nat,
                            },
                        ));
                    }
                }
                proof {
                    assert(words.take(j + 1).drop_last() =~= words.take(j as int));
                    assert(words.take(j + 1).last() == query[j as int]@);
                }
                j += 1;
            }
            proof {
                assert(words.take(j as int) =~= words);
            }
            documents.push(
                DocumentStatistics {
                    id: self.index.document_id(i).clone(),
                    length: self.index.document_length(i),
                    terms,
                },
            );
            i += 1;
        }
        let statistics = QueryStatistics { document_count: n, total_length: total, documents };
        proof {
            assert(statistics@.documents =~= query_statistics(self@, words).documents);
        }
        Ok(statistics)
    }

    /// Searches with the scores that `scorer` gives: `scorer(statistics, i)`
    /// is the score of the document at `i` of `statistics`. Returns the
    /// documents in ranking order, cut to the limit, each with its score.
    /// Fails where the ranker holds no document.
    pub fn search<F: Fn(&QueryStatistics, usize) -> u64>(
        &self,
        query: &Vec<String>,
        limit: Option<usize>,
        scorer: &F,
    ) -> (result: Result<Vec<Hit>, SearchError>)
        requires
            accepts(*scorer, self@, texts(query@)),
        ensures
            result is Err <==> self@.len() == 0,
            result matches Err(error) ==> error == SearchError::EmptyCorpus,
            result matches Ok(hits) ==> answers(
                *scorer,
                self@,
                texts(query@),
                limit,
                views(hits@),
            ),
            result matches Ok(hits) ==> hits@.len() == shown(self@.len(), limit),
            result matches Ok(hits) ==> ranked(views(hits@)),
            result matches Ok(hits) ==> forall|k: int|
                0 <= k < hits@.len() ==> has_document(self@, #[trigger] hits@[k].id@),
            result matches Ok(hits) ==> forall|k: int, l: int|
                0 <= k < l < hits@.len() ==> #[trigger] hits@[k].score >= #[trigger] hits@[l].score,
            result matches Ok(hits) ==> shown(self@.len(), limit) == self@.len() ==> forall|i: int|
                0 <= i < self@.len() ==> lists(views(hits@), (#[trigger] self@[i]).id),
            distinct_ids(self@),
    {
        let statistics = match self.statistics(query) {
            Ok(statistics) => statistics,
            Err(error) => {
                return Err(error);
            },
        };
        let ghost docs = self@;
        let n = statistics.documents.len();
        let mut hits: Vec<Hit> = Vec::new();
        let mut i: usize = 0;
        while i < n
            invariant
                i <= n,
                n == statistics.documents@.len(),
                n == docs.len(),
                statistics@ == query_statistics(docs, texts(query@)),
                accepts(*scorer, docs, texts(query@)),
                hits.len() == i,
                forall|p: int|
                    0 <= p < i ==> (#[trigger] hits@[p]).id@ == docs[p].id && call_ensures(
                        *scorer,
                        (&statistics, p as usize),
                        hits@[p].score,
                    ),
            decreases n - i,
        {
            let score = scorer(&statistics, i);
            proof {
                assert(statistics@.documents[i as int].id == docs[i as int].id);
            }
            hits.push(Hit { id: statistics.documents[i].id.clone(), score });
            i += 1;
        }
        let listed = rank(&hits, limit);
        proof {
            let scores = Seq::new(n as nat, |p: int| hits@[p].score);
            assert(scores_of(*scorer, statistics, scores));
            assert(views(hits@) =~= scored(docs, scores));
            assert forall|k: int| 0 <= k < listed@.len() implies has_document(
                docs,
                #[trigger] listed@[k].id@,
            ) by {
                assert(views(hits@).contains(listed@[k]@));
                let p = choose|p: int| 0 <= p < views(hits@).len() && views(hits@)[p] == listed@[k]@;
                assert(docs[p].id == listed@[k].id@);
            }
            if shown(docs.len(), limit) == docs.len() {
                assert forall|q: int| 0 <= q < docs.len() implies lists(
                    views(listed@),
                    (#[trigger] docs[q]).id,
                ) by {
                    lemma_every_document_is_listed(docs, scores, limit, q);
                    let hit = HitView { id: docs[q].id, score: scores[q] };
                    let k = choose|k: int| 0 <= k < views(listed@).len() && views(listed@)[k] == hit;
                    assert(views(listed@)[k].id == docs[q].id);
                }
            }
        }
        Ok(listed)
    }
}

/// The lists of tokens as the search reads them.
pub open spec fn query_views(queries: Seq<Vec<String>>) -> Seq<Seq<Seq<char>>> {
    Seq::new(queries.len(), |q: int| texts(queries[q]@))
}

/// Builds one ranker from the documents and searches it once for each
/// query: the results stand in the order of the queries. Fails where there
/// is a query but no document.
pub fn calculate_bm25<F: Fn(&QueryStatistics, usize) -> u64>(
    queries: &Vec<Vec<String>>,
    documents: &Vec<(String, Vec<String>)>,
    limit: Option<usize>,
    scorer: &F,
) -> (result: Result<Vec<Vec<Hit>>, SearchError>)
    requires
        forall|q: int|
            0 <= q < queries@.len() ==> accepts(
                *scorer,
                built(entry_views(documents@)),
                #[trigger] query_views(queries@)[q],
            ),
    ensures
        result is Err <==> documents@.len() == 0 && queries@.len() > 0,
        result matches Err(error) ==> error == SearchError::EmptyCorpus,
        result matches Ok(found) ==> found@.len() == queries@.len(),
        result matches Ok(found) ==> forall|q: int|
            0 <= q < queries@.len() ==> (#[trigger] found@[q])@.len() == shown(
                built(entry_views(documents@)).len(),
                limit,
            ),
        result matches Ok(found) ==> forall|q: int|
            0 <= q < queries@.len() ==> answers(
                *scorer,
                built(entry_views(documents@)),
                query_views(queries@)[q],
                limit,
                views((#[trigger] found@[q])@),
            ),
{
    let ranker = BM25::from_documents(documents);
    proof {
        lemma_built_len(entry_views(documents@));
    }
    let mut found: Vec<Vec<Hit>> = Vec::new();
    let mut q: usize = 0;
    while q < queries.len()
        invariant
            ranker@ == built(entry_views(documents@)),
            ranker@.len() == 0 <==> documents@.len() == 0,
            q <= queries.len(),
            found.len() == q,
            q > 0 ==> ranker@.len() > 0,
            forall|p: int|
                0 <= p < queries@.len() ==> accepts(
                    *scorer,
                    ranker@,
                    #[trigger] query_views(queries@)[p],
                ),
            forall|p: int|
                0 <= p < q ==> answers(
                    *scorer,
                    ranker@,
                    query_views(queries@)[p],
                    limit,
                    views((#[trigger] found@[p])@),
                ),
            forall|p: int| 0 <= p < q ==> (#[trigger] found@[p])@.len() == shown(ranker@.len(), limit),
        decreases queries.len() - q,
    {
        proof {
            assert(query_views(queries@)[q as int] == texts(queries@[q as int]@));
        }
        match ranker.search(&queries[q], limit, scorer) {
            Ok(hits) => {
                found.push(hits);
            },
            Err(error) => {
                return Err(error);
            },
        }
        q += 1;
    }
    Ok(found)
}

/// An index that was filled from a list holds a document exactly where the
/// list is not empty, and no two of its documents share an identifier.
pub proof fn lemma_built_len(entries: Seq<(Seq<char>, Seq<Seq<char>>)>)
    ensures
        built(entries).len() == 0 <==> entries.len() == 0,
        built(entries).len() <= entries.len(),
        distinct_ids(built(entries)),
    decreases entries.len(),
{
    if entries.len() > 0 {
        lemma_built_len(entries.drop_last());
        lemma_added_is_held(built(entries.drop_last()), entries.last().0, entries.last().1);
    }
}

/// A search whose limit cuts nothing lists every document.
pub proof fn lemma_every_document_is_listed(
    docs: Seq<DocumentView>,
    scores: Seq<u64>,
    limit: Option<usize>,
    i: int,
)
    requires
        scores.len() == docs.len(),
        shown(docs.len(), limit) == docs.len(),
        0 <= i < docs.len(),
    ensures
        search_result(docs, scores, limit).contains(HitView { id: docs[i].id, score: scores[i] }),
{
    broadcast use group_to_multiset_ensures;

    let all = scored(docs, scores);
    let hit = HitView { id: docs[i].id, score: scores[i] };
    lemma_ranking(all);
    assert(all[i] == hit);
    assert(all.contains(hit));
    assert(ranking(all).take(docs.len() as int) =~= ranking(all));
    assert(all.to_multiset().count(hit) > 0);
    assert(ranking(all).to_multiset().count(hit) > 0);
}

/// A search lists documents of the index only.
pub proof fn lemma_only_documents_are_listed(
    docs: Seq<DocumentView>,
    scores: Seq<u64>,
    limit: Option<usize>,
    id: Seq<char>,
)
    requires
        scores.len() == docs.len(),
        !has_document(docs, id),
    ensures
        !lists(search_result(docs, scores, limit), id),
{
    broadcast use group_to_multiset_ensures;

    let all = scored(docs, scores);
    let result = search_result(docs, scores, limit);
    lemma_ranking(all);
    if lists(result, id) {
        let k = choose|k: int| 0 <= k < result.len() && (#[trigger] result[k]).id == id;
        let hit = result[k];
        assert(ranking(all)[k] == hit);
        assert(ranking(all).contains(hit));
        assert(ranking(all).to_multiset().count(hit) > 0);
        assert(all.to_multiset().count(hit) > 0);
        assert(all.contains(hit));
        let p = choose|p: int| 0 <= p < all.len() && all[p] == hit;
        assert(docs[p].id == id);
    }
}

/// After a document has been added, a search whose limit cuts nothing
/// lists it, whatever the query and the scores are.
pub proof fn lemma_added_document_is_listed(
    docs: Seq<DocumentView>,
    id: Seq<char>,
    tokens: Seq<Seq<char>>,
    scores: Seq<u64>,
    limit: Option<usize>,
)
    requires
        scores.len() == added(docs, id, tokens).len(),
        shown(added(docs, id, tokens).len(), limit) == added(docs, id, tokens).len(),
    ensures
        lists(search_result(added(docs, id, tokens), scores, limit), id),
{
    let after = added(docs, id, tokens);
    lemma_added_is_held(docs, id, tokens);
    let i = position(after, id);
    lemma_every_document_is_listed(after, scores, limit, i);
    let result = search_result(after, scores, limit);
    let hit = HitView { id, score: scores[i] };
    let k = choose|k: int| 0 <= k < result.len() && result[k] == hit;
    assert(result[k].id == id);
}

/// After a document has been removed, no search lists it, whatever the
/// scores and the limit are.
pub proof fn lemma_removed_document_is_not_listed(
    docs: Seq<DocumentView>,
    id: Seq<char>,
    scores: Seq<u64>,
    limit: Option<usize>,
)
    requires
        distinct_ids(docs),
        scores.len() == removed(docs, id).len(),
    ensures
        !lists(search_result(removed(docs, id), scores, limit), id),
{
    lemma_removed_is_gone(docs, id);
    lemma_only_documents_are_listed(removed(docs, id), scores, limit, id);
}

/// A search with a limit lists no more documents than the limit, by
/// descending score, and among equal scores by ascending identifier.
pub proof fn lemma_limit_is_respected(docs: Seq<DocumentView>, scores: Seq<u64>, limit: usize)
    requires
        scores.len() == docs.len(),
    ensures
        search_result(docs, scores, Some(limit)).len() <= limit,
        search_result(docs, scores, Some(limit)).len() == shown(docs.len(), Some(limit)),
        ranked(search_result(docs, scores, Some(limit))),
        descending(search_result(docs, scores, Some(limit))),
{
    let all = scored(docs, scores);
    let result = search_result(docs, scores, Some(limit));
    lemma_ranking(all);
    assert forall|a: int, b: int|
        #![trigger result[a], result[b]]
        0 <= a < b < result.len() implies ranks_before(result[a], result[b]) by {
        assert(ranks_before(ranking(all)[a], ranking(all)[b]));
    }
    lemma_ranked_is_descending(result);
}

/// A document has no entry for an empty query: its score is the empty sum.
pub proof fn lemma_empty_query(docs: Seq<DocumentView>, i: int)
    ensures
        document_statistics(docs, i, Seq::empty()).terms == Seq::<TermStatisticsView>::empty(),
{
}

/// A document that holds a token of the query has an entry for it.
pub proof fn lemma_held_token_is_matched(
    docs: Seq<DocumentView>,
    doc: DocumentView,
    query: Seq<Seq<char>>,
    j: int,
)
    requires
        0 <= j < query.len(),
        doc.tokens.count(query[j]) > 0,
    ensures
        matched_terms(docs, doc, query).len() > 0,
    decreases query.len(),
{
    if j < query.len() - 1 {
        assert(query.drop_last()[j] == query[j]);
        lemma_held_token_is_matched(docs, doc, query.drop_last(), j);
    }
}

/// Two documents that hold each token of the query equally often have the
/// same entries for it.
pub proof fn lemma_same_counts_same_terms(
    docs: Seq<DocumentView>,
    first: DocumentView,
    second: DocumentView,
    query: Seq<Seq<char>>,
)
    requires
        forall|j: int|
            0 <= j < query.len() ==> first.tokens.count(#[trigger] query[j]) == second.tokens.count(
                query[j],
            ),
    ensures
        matched_terms(docs, first, query) == matched_terms(docs, second, query),
    decreases query.len(),
{
    if query.len() > 0 {
        assert forall|j: int| 0 <= j < query.drop_last().len() implies
            first.tokens.count(#[trigger] query.drop_last()[j],
        ) == second.tokens.count(query.drop_last()[j]) by {
            assert(query.drop_last()[j] == query[j]);
        }
        lemma_same_counts_same_terms(docs, first, second, query.drop_last());
        assert(query.last() == query[query.len() - 1]);
    }
}

/// Two documents of one index with equal lengths that hold each token of
/// the query equally often have the same statistics but for the identifier:
/// the formula reads the same numbers for both.
pub proof fn lemma_equal_documents_read_equally(
    docs: Seq<DocumentView>,
    i: int,
    j: int,
    query: Seq<Seq<char>>,
)
    requires
        0 <= i < docs.len(),
        0 <= j < docs.len(),
        docs[i].tokens.len() == docs[j].tokens.len(),
        forall|q: int|
            0 <= q < query.len() ==> docs[i].tokens.count(#[trigger] query[q])
                == docs[j].tokens.count(query[q]),
    ensures
        document_statistics(docs, i, query).length == document_statistics(docs, j, query).length,
        document_statistics(docs, i, query).terms == document_statistics(docs, j, query).terms,
{
    lemma_same_counts_same_terms(docs, docs[i], docs[j], query);
}

/// In each entry of a document's statistics the term frequency lies between
/// one and the document's length, and the document frequency between one
/// and the number of documents.
pub proof fn lemma_entries_in_range(docs: Seq<DocumentView>, i: int, query: Seq<Seq<char>>, k: int)
    requires
        0 <= i < docs.len(),
        0 <= k < matched_terms(docs, docs[i], query).len(),
    ensures
        1 <= matched_terms(docs, docs[i], query)[k].term_frequency <= docs[i].tokens.len(),
        1 <= matched_terms(docs, docs[i], query)[k].document_frequency <= docs.len(),
    decreases query.len(),
{
    broadcast use group_multiset_axioms;

    if query.len() > 0 {
        let earlier = matched_terms(docs, docs[i], query.drop_last());
        let token = query.last();
        if k < earlier.len() {
            lemma_entries_in_range(docs, i, query.drop_last(), k);
        } else {
            assert(docs[i].tokens.count(token) <= docs[i].tokens.len());
            lemma_frequency_counts(docs, i, token);
        }
    }
}

} // verus!
