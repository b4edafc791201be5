//! The document corpus: ingestion, relevance feedback and ranked search.
use crate::prime_hilbert::{
    biorthogonal_score, build_biorthogonal_vector, build_vector, dot_den, dot_num, dot_product,
    occurrences, to_dense_vector, BiorthogonalVector, Fraction, PrimeVector,
};
use crate::crawler::CrawledDocument;
use crate::snippet::{preview, preview_of};
use crate::tokenizer::{PrimeTokenizer, lower_of, words_of, no_prime_between};
use vstd::prelude::*;

verus! {

/// How many dense snapshots a document keeps.
pub const HISTORY_CAPACITY: usize = 5;

/// A fixed-capacity ring of snapshots; once full, each new one evicts the
/// oldest.
pub struct History<T> {
    slots: Vec<T>,
    next: usize,
}

impl<T> View for History<T> {
    type V = Seq<T>;

    /// The snapshots, oldest first.
    closed spec fn view(&self) -> Seq<T> {
        if self.slots@.len() < HISTORY_CAPACITY {
            self.slots@
        } else {
            self.slots@.skip(self.next as int) + self.slots@.take(self.next as int)
        }
    }
}

impl<T> History<T> {
    pub closed spec fn wf(&self) -> bool {
        &&& self.slots@.len() <= HISTORY_CAPACITY
        &&& self.next < HISTORY_CAPACITY
        &&& self.slots@.len() < HISTORY_CAPACITY ==> self.next == 0
    }

    pub fn new() -> (r: Self)
        ensures
            r.wf(),
            r@ == Seq::<T>::empty(),
    {
        History { slots: Vec::new(), next: 0 }
    }

    pub fn len(&self) -> (r: usize)
        requires
            self.wf(),
        ensures
            r == self@.len(),
    {
        self.slots.len()
    }

    /// The `i`-th snapshot, oldest first.
    pub fn get(&self, i: usize) -> (r: &T)
        requires
            self.wf(),
            i < self@.len(),
        ensures
            *r == self@[i as int],
    {
        if self.slots.len() < HISTORY_CAPACITY {
            &self.slots[i]
        } else {
            let k = self.next + i;
            if k < HISTORY_CAPACITY {
                &self.slots[k]
            } else {
                &self.slots[k - HISTORY_CAPACITY]
            }
        }
    }

    /// Appends a snapshot, evicting the oldest when the ring is full.
    pub fn push(&mut self, item: T)
        requires
            old(self).wf(),
        ensures
            final(self).wf(),
            final(self)@ == (if old(self)@.len() < HISTORY_CAPACITY {
                old(self)@.push(item)
            } else {
                old(self)@.drop_first().push(item)
            }),
    {
        if self.slots.len() < HISTORY_CAPACITY {
            self.slots.push(item);
            if self.slots.len() == HISTORY_CAPACITY {
                assert(self.slots@.skip(0) =~= self.slots@);
                assert(self.slots@.take(0) =~= Seq::<T>::empty());
                assert(self.slots@.skip(0) + self.slots@.take(0) =~= self.slots@);
            }
        } else {
            let ghost before = self@;
            let ghost n = self.next as int;
            self.slots.set(self.next, item);
            if self.next + 1 == HISTORY_CAPACITY {
                self.next = 0;
            } else {
                self.next = self.next + 1;
            }
            assert(self@ =~= before.drop_first().push(item));
        }
    }
}

/// A document of the corpus. `meta` is the caller's own per-document data
/// (scores that the library does not compute).
pub struct IndexedDocument<M> {
    pub title: String,
    pub text: String,
    pub path: String,
    pub tokens: Vec<u64>,
    pub vector: PrimeVector,
    pub biorthogonal: BiorthogonalVector,
    pub timestamp: u64,
    pub history: History<Vec<u64>>,
    pub meta: M,
}

impl<M> IndexedDocument<M> {
    pub open spec fn wf(&self) -> bool {
        &&& self.vector.wf()
        &&& self.biorthogonal.wf()
        &&& self.history.wf()
        &&& self.tokens@.len() > 0
        &&& self.vector.total == self.tokens@.len()
        &&& forall|t: u64| #[trigger] self.vector.count(t) == occurrences(self.tokens@, t)
        &&& dual_follows(self.biorthogonal, self.tokens@)
    }
}

/// Both halves of a dual pair weigh each term at its occurrences over
/// twice the token count.
pub open spec fn dual_follows(b: BiorthogonalVector, tokens: Seq<u64>) -> bool {
    &&& b.left.total == 2 * tokens.len()
    &&& b.right.total == 2 * tokens.len()
    &&& forall|t: u64| #[trigger] b.left.count(t) == occurrences(tokens, t)
    &&& forall|t: u64| #[trigger] b.right.count(t) == occurrences(tokens, t)
}

/// The term ids of a word sequence under a vocabulary.
pub open spec fn ids_of(vocab: Map<Seq<char>, u64>, words: Seq<Seq<char>>) -> Seq<u64> {
    words.map_values(|w: Seq<char>| vocab[w])
}

/// A query made ready for scoring.
pub struct QueryVectors {
    pub tokens: Vec<u64>,
    pub vector: PrimeVector,
    pub biorthogonal: BiorthogonalVector,
}

impl QueryVectors {
    pub open spec fn wf(&self) -> bool {
        &&& self.vector.wf()
        &&& self.biorthogonal.wf()
        &&& self.vector.total == self.tokens@.len()
        &&& forall|t: u64| #[trigger] self.vector.count(t) == occurrences(self.tokens@, t)
        &&& dual_follows(self.biorthogonal, self.tokens@)
    }
}

/// The exact parts of a document's score against a query.
#[derive(Clone, Copy, Debug, PartialEq, Eq, Structural)]
pub struct ExactScores {
    /// The dot product of the query and document vectors.
    pub dot: Fraction,
    /// The dual score of their biorthogonal pairs.
    pub dual: Fraction,
}

/// The exact scores of `d` against `q`.
pub open spec fn exact_scores_of<M>(q: QueryVectors, d: IndexedDocument<M>) -> ExactScores {
    ExactScores {
        dot: Fraction {
            num: dot_num(q.vector, d.vector) as u128,
            den: dot_den(q.vector, d.vector) as u128,
        },
        dual: Fraction {
            num: (dot_num(q.biorthogonal.left, d.biorthogonal.left) + dot_num(
                q.biorthogonal.right,
                d.biorthogonal.right,
            )) as u128,
            den: dot_den(q.biorthogonal.left, d.biorthogonal.left) as u128,
        },
    }
}

/// One ranked document.
pub struct SearchResult {
    /// Its position in the corpus.
    pub index: usize,
    pub title: String,
    pub path: String,
    pub snippet: String,
    pub scores: ExactScores,
    /// The ordering key the caller's scoring gave it.
    pub key: u64,
}

pub open spec fn result_indices(r: Seq<SearchResult>) -> Seq<usize> {
    r.map_values(|x: SearchResult| x.index)
}

/// A relevance-feedback jump applies where the dot product exceeds 1/10.
pub open spec fn jump_applies(f: Fraction) -> bool {
    f.num * 10 > f.den
}

/// The timestamp after a jump: a document older than a day has its age
/// halved (rounding the age up).
pub open spec fn jumped_timestamp(ts: u64, now: u64) -> u64 {
    if now > ts && now - ts > 86400 {
        (now - (now - ts) / 2) as u64
    } else {
        ts
    }
}

/// `b` is `a` with, at most, another timestamp.
pub open spec fn same_but_timestamp<M>(a: IndexedDocument<M>, b: IndexedDocument<M>) -> bool {
    &&& a.title == b.title
    &&& a.text == b.text
    &&& a.path == b.path
    &&& a.tokens == b.tokens
    &&& a.vector == b.vector
    &&& a.biorthogonal == b.biorthogonal
    &&& a.history == b.history
    &&& a.meta == b.meta
}

/// The order-preserving integer key of an IEEE-754 double given by its bit
/// pattern: negative values (sign bit set) are mirrored below the
/// non-negative ones.
pub open spec fn order_key_of(bits: u64) -> u64 {
    if bits >= 0x8000_0000_0000_0000 {
        (u64::MAX - bits) as u64
    } else {
        (bits + 0x8000_0000_0000_0000) as u64
    }
}

/// Maps the bit pattern of a double to a key whose integer order is the
/// numeric order of the doubles (NaNs aside), so that scores can be ranked
/// as integers.
pub fn score_order_key(bits: u64) -> (r: u64)
    ensures
        r == order_key_of(bits),
{
    if bits >= 0x8000_0000_0000_0000 {
        u64::MAX - bits
    } else {
        bits + 0x8000_0000_0000_0000
    }
}

/// The weights, in percent, of the standard, quantum and persistence
/// scores for the given switches.
pub open spec fn weights_for(use_quantum: bool, use_persistence: bool) -> (u32, u32, u32) {
    if use_quantum && use_persistence {
        (50u32, 25u32, 25u32)
    } else if use_quantum {
        (70u32, 30u32, 0u32)
    } else if use_persistence {
        (70u32, 0u32, 30u32)
    } else {
        (100u32, 0u32, 0u32)
    }
}

/// The weights, in percent, of the standard, quantum and persistence
/// scores in the combined score: 50/25/25 with both extra scores, 70/30
/// with one, the standard score alone with none.
pub fn combination_weights(use_quantum: bool, use_persistence: bool) -> (r: (u32, u32, u32))
    ensures
        r == weights_for(use_quantum, use_persistence),
        r.0 + r.1 + r.2 == 100,
{
    if use_quantum && use_persistence {
        (50, 25, 25)
    } else if use_quantum {
        (70, 30, 0)
    } else if use_persistence {
        (70, 0, 30)
    } else {
        (100, 0, 0)
    }
}

/// `r` is the ranking of `docs` against `q` under `score`: the `top_n`
/// best documents, best first, ties in corpus order, each with its exact
/// scores and the key `score` gave it.
pub open spec fn ranked_results<M, F: Fn(&IndexedDocument<M>, &QueryVectors, ExactScores) -> u64>(
    docs: Seq<IndexedDocument<M>>,
    q: QueryVectors,
    top_n: usize,
    score: F,
    r: Seq<SearchResult>,
) -> bool {
    &&& r.len() == (if top_n < docs.len() { top_n as int } else { docs.len() as int })
    &&& forall|i: int| 0 <= i < r.len() ==> {
        let x = #[trigger] r[i];
        let d = docs[x.index as int];
        &&& x.index < docs.len()
        &&& x.title == d.title
        &&& x.path == d.path
        &&& x.snippet@ == preview_of(d.text@)
        &&& x.scores == exact_scores_of(q, d)
        &&& score.ensures((&d, &q, x.scores), x.key)
    }
    &&& forall|i: int, j: int| 0 <= i < j < r.len() ==> #[trigger] r[i].key >= #[trigger] r[j].key
    &&& exists|keys: Seq<u64>| {
        &&& keys.len() == docs.len()
        &&& forall|d: int| 0 <= d < keys.len() ==> score.ensures(
            (&docs[d], &q, exact_scores_of(q, docs[d])),
            #[trigger] keys[d],
        )
        &&& forall|i: int| 0 <= i < r.len() ==> #[trigger] r[i].key == keys[r[i].index as int]
        &&& forall|i: int, j: int| 0 <= i < j < r.len() ==> ranks_before(
            keys,
            #[trigger] r[i].index as int,
            #[trigger] r[j].index as int,
        )
        &&& forall|x: int, i: int|
            0 <= x < keys.len() && !result_indices(r).contains(x as usize) && 0 <= i
                < r.len() ==> #[trigger] ranks_before(keys, r[i].index as int, x)
    }
}

/// The ranking engine: a tokenizer, the corpus and the scoring switches.
pub struct ResonantEngine<M> {
    tokenizer: PrimeTokenizer,
    documents: Vec<IndexedDocument<M>>,
    use_quantum_score: bool,
    use_persistence_score: bool,
}

impl<M> ResonantEngine<M> {
    pub closed spec fn wf(&self) -> bool {
        &&& self.tokenizer.wf()
        &&& forall|i: int| 0 <= i < self.documents@.len() ==> #[trigger] self.documents@[i].wf()
    }

    /// The corpus, in insertion order.
    pub closed spec fn docs(&self) -> Seq<IndexedDocument<M>> {
        self.documents@
    }

    /// The vocabulary of the engine's tokenizer.
    pub closed spec fn vocab(&self) -> Map<Seq<char>, u64> {
        self.tokenizer.vocab()
    }

    /// The largest term id handed out so far.
    pub closed spec fn counter(&self) -> u64 {
        self.tokenizer.counter()
    }

    pub closed spec fn quantum_enabled(&self) -> bool {
        self.use_quantum_score
    }

    pub closed spec fn persistence_enabled(&self) -> bool {
        self.use_persistence_score
    }

    /// An empty corpus with both extra scores enabled.
    pub fn new() -> (r: Self)
        ensures
            r.wf(),
            r.docs() == Seq::<IndexedDocument<M>>::empty(),
            r.quantum_enabled(),
            r.persistence_enabled(),
    {
        ResonantEngine {
            tokenizer: PrimeTokenizer::new(),
            documents: Vec::new(),
            use_quantum_score: true,
            use_persistence_score: true,
        }
    }

    pub fn len(&self) -> (r: usize)
        ensures
            r == self.docs().len(),
    {
        self.documents.len()
    }

    /// The `i`-th document.
    pub fn document(&self, i: usize) -> (r: &IndexedDocument<M>)
        requires
            i < self.docs().len(),
        ensures
            *r == self.docs()[i as int],
    {
        &self.documents[i]
    }

    /// Replaces the caller's data of the `i`-th document.
    pub fn set_meta(&mut self, i: usize, meta: M)
        requires
            old(self).wf(),
            i < old(self).docs().len(),
        ensures
            final(self).wf(),
            final(self).vocab() == old(self).vocab(),
            final(self).docs().len() == old(self).docs().len(),
            final(self).docs()[i as int].meta == meta,
            forall|j: int| 0 <= j < old(self).docs().len() && j != i ==> final(self).docs()[j]
                == old(self).docs()[j],
            final(self).docs()[i as int].title == old(self).docs()[i as int].title,
            final(self).docs()[i as int].text == old(self).docs()[i as int].text,
            final(self).docs()[i as int].path == old(self).docs()[i as int].path,
            final(self).docs()[i as int].tokens == old(self).docs()[i as int].tokens,
            final(self).docs()[i as int].vector == old(self).docs()[i as int].vector,
            final(self).docs()[i as int].biorthogonal == old(self).docs()[i as int].biorthogonal,
            final(self).docs()[i as int].timestamp == old(self).docs()[i as int].timestamp,
            final(self).docs()[i as int].history == old(self).docs()[i as int].history,
            final(self).quantum_enabled() == old(self).quantum_enabled(),
            final(self).persistence_enabled() == old(self).persistence_enabled(),
    {
        let ghost before = self.documents@[i as int];
        self.documents[i].meta = meta;
        proof {
            let d = self.documents@[i as int];
            assert(d.vector == before.vector && d.tokens == before.tokens);
            assert(d.biorthogonal == before.biorthogonal && d.history == before.history);
            assert(before.wf());
            assert forall|t: u64| #[trigger] d.vector.count(t) == occurrences(d.tokens@, t) by {
                assert(before.vector.count(t) == occurrences(before.tokens@, t));
            }
            assert(d.wf());
            assert forall|j: int| 0 <= j < self.documents@.len() implies #[trigger]
                self.documents@[j].wf() by {
                if j != i {
                    assert(self.documents@[j] == old(self).documents@[j]);
                }
            }
        }
    }

    pub fn set_use_quantum_score(&mut self, enabled: bool)
        ensures
            final(self).quantum_enabled() == enabled,
            final(self).persistence_enabled() == old(self).persistence_enabled(),
            final(self).docs() == old(self).docs(),
            final(self).vocab() == old(self).vocab(),
            old(self).wf() ==> final(self).wf(),
    {
        self.use_quantum_score = enabled;
    }

    pub fn set_use_persistence_score(&mut self, enabled: bool)
        ensures
            final(self).persistence_enabled() == enabled,
            final(self).quantum_enabled() == old(self).quantum_enabled(),
            final(self).docs() == old(self).docs(),
            final(self).vocab() == old(self).vocab(),
            old(self).wf() ==> final(self).wf(),
    {
        self.use_persistence_score = enabled;
    }

    /// The percentages of the standard, quantum and persistence scores in
    /// the combined score under the engine's switches.
    pub fn combination_weights(&self) -> (r: (u32, u32, u32))
        ensures
            r == weights_for(self.quantum_enabled(), self.persistence_enabled()),
    {
        combination_weights(self.use_quantum_score, self.use_persistence_score)
    }

    pub fn use_quantum_score(&self) -> (r: bool)
        ensures
            r == self.quantum_enabled(),
    {
        self.use_quantum_score
    }

    pub fn use_persistence_score(&self) -> (r: bool)
        ensures
            r == self.persistence_enabled(),
    {
        self.use_persistence_score
    }

    /// Ingests a document stamped `now`: its words are tokenized and, unless
    /// there are none, it joins the corpus with its vectors and an empty
    /// history. A document without words is dropped (the result is
    /// `false`), as is one whose tokens could not be numbered.
    pub fn add_document(&mut self, title: String, text: String, path: String, now: u64, meta: M) -> (r:
        bool)
        requires
            old(self).wf(),
        ensures
            final(self).wf(),
            old(self).vocab() <= final(self).vocab(),
            final(self).quantum_enabled() == old(self).quantum_enabled(),
            final(self).persistence_enabled() == old(self).persistence_enabled(),
            words_of(lower_of(text@)).len() == 0 ==> !r,
            !r ==> final(self).docs() == old(self).docs(),
            r ==> {
                let words = words_of(lower_of(text@));
                let d = final(self).docs().last();
                &&& final(self).docs().drop_last() == old(self).docs()
                &&& d.title == title
                &&& d.text == text
                &&& d.path == path
                &&& d.timestamp == now
                &&& d.meta == meta
                &&& d.history@ == Seq::<Vec<u64>>::empty()
                &&& d.wf()
                &&& d.tokens@ == ids_of(final(self).vocab(), words)
                &&& forall|i: int| 0 <= i < words.len() ==> #[trigger] final(self).vocab().contains_key(
                    words[i])
            },
            !r && words_of(lower_of(text@)).len() > 0 ==> no_prime_between(
                final(self).counter(),
                u64::MAX,
            ) || words_of(lower_of(text@)).len() > usize::MAX / 2,
    {
        let tokens = match self.tokenizer.tokenize(text.as_str()) {
            Some(t) => t,
            None => {
                return false;
            },
        };
        if tokens.len() == 0 || tokens.len() > usize::MAX / 2 {
            return false;
        }
        let ghost words = words_of(lower_of(text@));
        proof {
            assert forall|i: int| 0 <= i < words.len() implies tokens@[i] == ids_of(self.vocab(), words)[i] by {
                assert(self.tokenizer.vocab().contains_key(words[i]));
            }
            assert(tokens@ =~= ids_of(self.vocab(), words));
        }
        let vector = build_vector(tokens.as_slice());
        let biorthogonal = build_biorthogonal_vector(tokens.as_slice());
        let doc = IndexedDocument {
            title,
            text,
            path,
            tokens,
            vector,
            biorthogonal,
            timestamp: now,
            history: History::new(),
            meta,
        };
        let ghost before = self.documents@;
        self.documents.push(doc);
        proof {
            assert(self.documents@.drop_last() =~= before);
            assert forall|i: int| 0 <= i < self.documents@.len() implies #[trigger]
                self.documents@[i].wf() by {
                if i < before.len() {
                    assert(self.documents@[i] == before[i]);
                }
            }
        }
        true
    }

    /// Tokenizes a query and builds its vectors; `None` when it has no
    /// words or its words could not be numbered.
    pub fn prepare_query(&mut self, query: &str) -> (r: Option<QueryVectors>)
        requires
            old(self).wf(),
        ensures
            final(self).wf(),
            old(self).vocab() <= final(self).vocab(),
            final(self).docs() == old(self).docs(),
            final(self).quantum_enabled() == old(self).quantum_enabled(),
            final(self).persistence_enabled() == old(self).persistence_enabled(),
            words_of(lower_of(query@)).len() == 0 ==> r is None,
            forall|w: Seq<char>| #[trigger] final(self).vocab().contains_key(w) ==> old(self).vocab().contains_key(w)
                || words_of(lower_of(query@)).contains(w),
            r is None && words_of(lower_of(query@)).len() > 0 ==> no_prime_between(
                final(self).counter(),
                u64::MAX,
            ) || words_of(lower_of(query@)).len() > usize::MAX / 2,
            r matches Some(q) ==> {
                &&& q.wf()
                &&& q.tokens@ == ids_of(final(self).vocab(), words_of(lower_of(query@)))
                &&& q.tokens@.len() > 0
            },
    {
        let tokens = match self.tokenizer.tokenize(query) {
            Some(t) => t,
            None => {
                return None;
            },
        };
        if tokens.len() == 0 || tokens.len() > usize::MAX / 2 {
            return None;
        }
        let ghost words = words_of(lower_of(query@));
        proof {
            assert forall|i: int| 0 <= i < words.len() implies tokens@[i] == ids_of(self.vocab(), words)[i] by {
                assert(self.tokenizer.vocab().contains_key(words[i]));
            }
            assert(tokens@ =~= ids_of(self.vocab(), words));
        }
        let vector = build_vector(tokens.as_slice());
        let biorthogonal = build_biorthogonal_vector(tokens.as_slice());
        Some(QueryVectors { tokens, vector, biorthogonal })
    }

    /// The exact scores of the `i`-th document against `q`.
    pub fn exact_scores(&self, q: &QueryVectors, i: usize) -> (r: ExactScores)
        requires
            self.wf(),
            q.wf(),
            i < self.docs().len(),
        ensures
            r == exact_scores_of(*q, self.docs()[i as int]),
    {
        let d = &self.documents[i];
        assert(d.wf());
        let dot = dot_product(&q.vector, &d.vector);
        let dual = biorthogonal_score(&q.biorthogonal, &d.biorthogonal);
        ExactScores { dot, dual }
    }

    /// Ranks the corpus against a prepared query. `score` turns a document,
    /// the query and their exact scores into an ordering key; the result
    /// holds the `top_n` best documents, best first, ties in corpus order.
    pub fn search_prepared<F: Fn(&IndexedDocument<M>, &QueryVectors, ExactScores) -> u64>(
        &self,
        q: &QueryVectors,
        top_n: usize,
        score: F,
    ) -> (r: Vec<SearchResult>)
        requires
            self.wf(),
            q.wf(),
            forall|d: &IndexedDocument<M>, qq: &QueryVectors, s: ExactScores| #[trigger]
                score.requires((d, qq, s)),
        ensures
            ranked_results(self.docs(), *q, top_n, score, r@),
    {
        let n = self.documents.len();
        let mut keys: Vec<u64> = Vec::new();
        let mut exact: Vec<ExactScores> = Vec::new();
        let mut i: usize = 0;
        while i < n
            invariant
                self.wf(),
                q.wf(),
                n == self.docs().len(),
                i <= n,
                keys@.len() == i,
                exact@.len() == i,
                forall|d: &IndexedDocument<M>, qq: &QueryVectors, s: ExactScores| #[trigger]
                    score.requires((d, qq, s)),
                forall|d: int| 0 <= d < i ==> #[trigger] exact@[d] == exact_scores_of(*q, self.docs()[d]),
                forall|d: int| 0 <= d < i ==> score.ensures(
                    (&self.docs()[d], q, exact_scores_of(*q, self.docs()[d])),
                    #[trigger] keys@[d],
                ),
            decreases n - i,
        {
            let s = self.exact_scores(q, i);
            let key = score(&self.documents[i], q, s);
            keys.push(key);
            exact.push(s);
            i = i + 1;
        }
        let order = rank(&keys, top_n);
        let mut r: Vec<SearchResult> = Vec::new();
        let mut j: usize = 0;
        while j < order.len()
            invariant
                self.wf(),
                n == self.docs().len(),
                keys@.len() == n,
                exact@.len() == n,
                j <= order@.len(),
                r@.len() == j,
                forall|d: int| 0 <= d < n ==> #[trigger] exact@[d] == exact_scores_of(*q, self.docs()[d]),
                forall|i: int| 0 <= i < order@.len() ==> #[trigger] order@[i] < n,
                forall|i: int| 0 <= i < j ==> {
                    let x = #[trigger] r@[i];
                    let d = self.docs()[x.index as int];
                    &&& x.index == order@[i]
                    &&& x.title == d.title
                    &&& x.path == d.path
                    &&& x.snippet@ == preview_of(d.text@)
                    &&& x.scores == exact_scores_of(*q, d)
                    &&& x.key == keys@[x.index as int]
                },
            decreases order@.len() - j,
        {
            let idx = order[j];
            let d = &self.documents[idx];
            r.push(
                SearchResult {
                    index: idx,
                    title: d.title.clone(),
                    path: d.path.clone(),
                    snippet: preview(d.text.as_str()),
                    scores: exact[idx],
                    key: keys[idx],
                },
            );
            j = j + 1;
        }
        proof {
            assert(result_indices(r@) =~= order@);
            assert forall|i: int, j: int| 0 <= i < j < r@.len() implies #[trigger] r@[i].key >= #[trigger] r@[j].key by {
                assert(ranks_before(keys@, order@[i] as int, order@[j] as int));
            }
            assert forall|i: int, j: int| 0 <= i < j < r@.len() implies ranks_before(
                keys@,
                #[trigger] r@[i].index as int,
                #[trigger] r@[j].index as int,
            ) by {
                assert(ranks_before(keys@, order@[i] as int, order@[j] as int));
            }
            assert forall|x: int, i: int|
                0 <= x < keys@.len() && !result_indices(r@).contains(x as usize) && 0 <= i
                    < r@.len() implies #[trigger] ranks_before(keys@, r@[i].index as int, x) by {
                assert(ranks_before(keys@, order@[i] as int, x));
            }
        }
        r
    }

    /// Ranked search: the query is tokenized (which may grow the vocabulary)
    /// and the corpus ranked by the caller's `score`, as `search_prepared`
    /// does. An empty corpus or a query without words gives no results.
    pub fn search<F: Fn(&IndexedDocument<M>, &QueryVectors, ExactScores) -> u64>(
        &mut self,
        query: &str,
        top_n: usize,
        score: F,
    ) -> (r: Vec<SearchResult>)
        requires
            old(self).wf(),
            forall|d: &IndexedDocument<M>, qq: &QueryVectors, s: ExactScores| #[trigger]
                score.requires((d, qq, s)),
        ensures
            final(self).wf(),
            old(self).vocab() <= final(self).vocab(),
            final(self).docs() == old(self).docs(),
            old(self).docs().len() == 0 ==> r@.len() == 0,
            words_of(lower_of(query@)).len() == 0 ==> r@.len() == 0,
            r@.len() <= top_n,
            r@.len() <= old(self).docs().len(),
            forall|w: Seq<char>| #[trigger] final(self).vocab().contains_key(w) ==> old(self).vocab().contains_key(w)
                || words_of(lower_of(query@)).contains(w),
            old(self).docs().len() > 0 && words_of(lower_of(query@)).len() > 0 ==> (exists|q: QueryVectors|
                q.wf() && q.tokens@ == ids_of(final(self).vocab(), words_of(lower_of(query@)))
                && #[trigger] ranked_results(final(self).docs(), q, top_n, score, r@)) || (r@.len() == 0 && (
            no_prime_between(final(self).counter(), u64::MAX) || words_of(lower_of(query@)).len() > usize::MAX
                / 2)),
            forall|i: int| 0 <= i < r@.len() ==> {
                let x = #[trigger] r@[i];
                let d = final(self).docs()[x.index as int];
                &&& x.index < final(self).docs().len()
                &&& x.title == d.title
                &&& x.path == d.path
                &&& x.snippet@ == preview_of(d.text@)
            },
            forall|i: int, j: int| 0 <= i < j < r@.len() ==> #[trigger] r@[i].key >= #[trigger] r@[j].key,
    {
        if self.documents.len() == 0 {
            return Vec::new();
        }
        match self.prepare_query(query) {
            Some(q) => {
                let r = self.search_prepared(&q, top_n, score);
                assert(ranked_results(self.docs(), q, top_n, score, r@));
                r
            },
            None => Vec::new(),
        }
    }

    /// Relevance feedback: each document whose dot product with `q`
    /// exceeds 1/10 is returned with that dot product, in corpus order, and
    /// has its age halved when older than a day. Every other document is
    /// left untouched.
    pub fn apply_quantum_jump(&mut self, q: &QueryVectors, now: u64) -> (r: Vec<(usize, Fraction)>)
        requires
            old(self).wf(),
            q.wf(),
        ensures
            final(self).wf(),
            final(self).vocab() == old(self).vocab(),
            final(self).docs().len() == old(self).docs().len(),
            final(self).quantum_enabled() == old(self).quantum_enabled(),
            final(self).persistence_enabled() == old(self).persistence_enabled(),
            forall|i: int| 0 <= i < old(self).docs().len() ==> {
                let a = old(self).docs()[i];
                let b = #[trigger] final(self).docs()[i];
                let f = exact_scores_of(*q, a).dot;
                if jump_applies(f) {
                    same_but_timestamp(a, b) && b.timestamp == jumped_timestamp(a.timestamp, now)
                } else {
                    b == a
                }
            },
            forall|k: int| 0 <= k < r@.len() ==> {
                let (i, f) = #[trigger] r@[k];
                &&& i < old(self).docs().len()
                &&& f == exact_scores_of(*q, old(self).docs()[i as int]).dot
                &&& jump_applies(f)
            },
            forall|k: int, l: int| 0 <= k < l < r@.len() ==> (#[trigger] r@[k]).0 < (#[trigger] r@[l]).0,
            forall|i: int| 0 <= i < old(self).docs().len() && jump_applies(
                exact_scores_of(*q, old(self).docs()[i]).dot,
            ) ==> exists|k: int| 0 <= k < r@.len() && (#[trigger] r@[k]).0 == i,
    {
        let n = self.documents.len();
        let mut r: Vec<(usize, Fraction)> = Vec::new();
        let mut i: usize = 0;
        while i < n
            invariant
                self.wf(),
                q.wf(),
                n == self.docs().len(),
                n == old(self).docs().len(),
                i <= n,
                self.vocab() == old(self).vocab(),
                self.quantum_enabled() == old(self).quantum_enabled(),
                self.persistence_enabled() == old(self).persistence_enabled(),
                forall|j: int| i <= j < n ==> #[trigger] self.docs()[j] == old(self).docs()[j],
                forall|j: int| 0 <= j < i ==> {
                    let a = old(self).docs()[j];
                    let b = #[trigger] self.docs()[j];
                    let f = exact_scores_of(*q, a).dot;
                    if jump_applies(f) {
                        same_but_timestamp(a, b) && b.timestamp == jumped_timestamp(a.timestamp, now)
                    } else {
                        b == a
                    }
                },
                forall|k: int| 0 <= k < r@.len() ==> {
                    let (j, f) = #[trigger] r@[k];
                    &&& j < i
                    &&& f == exact_scores_of(*q, old(self).docs()[j as int]).dot
                    &&& jump_applies(f)
                },
                forall|k: int, l: int| 0 <= k < l < r@.len() ==> (#[trigger] r@[k]).0 < (#[trigger] r@[l]).0,
                forall|j: int| 0 <= j < i && jump_applies(exact_scores_of(*q, old(self).docs()[j]).dot)
                    ==> exists|k: int| 0 <= k < r@.len() && (#[trigger] r@[k]).0 == j,
            decreases n - i,
        {
            let s = self.exact_scores(q, i);
            let f = s.dot;
            if f.num > f.den / 10 {
                let ts = self.documents[i].timestamp;
                let ghost before = self.documents@;
                if now > ts && now - ts > 86400 {
                    self.documents[i].timestamp = now - (now - ts) / 2;
                }
                proof {
                    let d = self.documents@[i as int];
                    let b = before[i as int];
                    assert(b.wf());
                    assert forall|t: u64| #[trigger] d.vector.count(t) == occurrences(d.tokens@, t) by {
                        assert(b.vector.count(t) == occurrences(b.tokens@, t));
                    }
                    assert forall|j: int| 0 <= j < self.documents@.len() implies #[trigger]
                        self.documents@[j].wf() by {
                        if j != i {
                            assert(self.documents@[j] == before[j]);
                        }
                    }
                }
                let ghost r0 = r@;
                r.push((i, f));
                proof {
                    assert forall|j: int| 0 <= j < i + 1 && jump_applies(exact_scores_of(*q, old(self).docs()[j]).dot)
                        implies exists|k: int| 0 <= k < r@.len() && (#[trigger] r@[k]).0 == j by {
                        if j == i {
                            assert(r@[r0.len() as int].0 == j);
                        } else {
                            let k = choose|k: int| 0 <= k < r0.len() && (#[trigger] r0[k]).0 == j;
                            assert(r@[k].0 == j);
                        }
                    }
                }
            }
            i = i + 1;
        }
        r
    }

    /// Appends to every document's history its current dense projection of
    /// dimension `max_prime_value + 1`.
    pub fn refresh_history(&mut self, max_prime_value: u64)
        requires
            old(self).wf(),
            max_prime_value < usize::MAX,
        ensures
            final(self).wf(),
            final(self).vocab() == old(self).vocab(),
            final(self).docs().len() == old(self).docs().len(),
            forall|i: int| 0 <= i < old(self).docs().len() ==> {
                let a = old(self).docs()[i];
                let b = #[trigger] final(self).docs()[i];
                let h = b.history@;
                &&& b.title == a.title && b.text == a.text && b.path == a.path
                &&& b.tokens == a.tokens && b.vector == a.vector && b.biorthogonal == a.biorthogonal
                &&& b.timestamp == a.timestamp && b.meta == a.meta
                &&& h.drop_last() == (if a.history@.len() < HISTORY_CAPACITY { a.history@ } else { a.history@.drop_first() })
                &&& h.len() > 0
                &&& h.last()@.len() == max_prime_value + 1
                &&& forall|t: int| 0 <= t <= max_prime_value ==> h.last()@[t] == a.vector.count(t as u64)
            },
    {
        let n = self.documents.len();
        let mut i: usize = 0;
        while i < n
            invariant
                self.wf(),
                max_prime_value < usize::MAX,
                n == self.docs().len(),
                n == old(self).docs().len(),
                i <= n,
                self.vocab() == old(self).vocab(),
                forall|j: int| i <= j < n ==> #[trigger] self.docs()[j] == old(self).docs()[j],
                forall|j: int| 0 <= j < i ==> {
                    let a = old(self).docs()[j];
                    let b = #[trigger] self.docs()[j];
                    let h = b.history@;
                    &&& b.title == a.title && b.text == a.text && b.path == a.path
                    &&& b.tokens == a.tokens && b.vector == a.vector && b.biorthogonal == a.biorthogonal
                    &&& b.timestamp == a.timestamp && b.meta == a.meta
                    &&& h.drop_last() == (if a.history@.len() < HISTORY_CAPACITY { a.history@ } else { a.history@.drop_first() })
                    &&& h.len() > 0
                    &&& h.last()@.len() == max_prime_value + 1
                    &&& forall|t: int| 0 <= t <= max_prime_value ==> h.last()@[t] == a.vector.count(t as u64)
                },
            decreases n - i,
        {
            assert(self.documents@[i as int].wf());
            let dense = to_dense_vector(&self.documents[i].vector, max_prime_value);
            let ghost before = self.documents@;
            let ghost dv = dense;
            self.documents[i].history.push(dense);
            proof {
                let d = self.documents@[i as int];
                let b = before[i as int];
                assert(b.wf());
                assert(d.history@ == (if b.history@.len() < HISTORY_CAPACITY { b.history@.push(dv) } else { b.history@.drop_first().push(dv) }));
                assert(d.history@.drop_last() =~= (if b.history@.len() < HISTORY_CAPACITY { b.history@ } else { b.history@.drop_first() }));
                assert forall|t: u64| #[trigger] d.vector.count(t) == occurrences(d.tokens@, t) by {
                    assert(b.vector.count(t) == occurrences(b.tokens@, t));
                }
                assert forall|j: int| 0 <= j < self.documents@.len() implies #[trigger]
                    self.documents@[j].wf() by {
                    if j != i {
                        assert(self.documents@[j] == before[j]);
                    }
                }
            }
            i = i + 1;
        }
    }

    /// Ingests a crawled page, its URL as the path.
    pub fn add_crawled_document(&mut self, doc: CrawledDocument, now: u64, meta: M) -> (r: bool)
        requires
            old(self).wf(),
        ensures
            final(self).wf(),
            old(self).vocab() <= final(self).vocab(),
            final(self).quantum_enabled() == old(self).quantum_enabled(),
            final(self).persistence_enabled() == old(self).persistence_enabled(),
            words_of(lower_of(doc.text@)).len() == 0 ==> !r,
            !r ==> final(self).docs() == old(self).docs(),
            !r && words_of(lower_of(doc.text@)).len() > 0 ==> no_prime_between(
                final(self).counter(),
                u64::MAX,
            ) || words_of(lower_of(doc.text@)).len() > usize::MAX / 2,
            r ==> {
                let d = final(self).docs().last();
                &&& final(self).docs().drop_last() == old(self).docs()
                &&& d.title == doc.title
                &&& d.text == doc.text
                &&& d.path == doc.url
                &&& d.timestamp == now
                &&& d.meta == meta
                &&& d.history@ == Seq::<Vec<u64>>::empty()
                &&& d.wf()
                &&& d.tokens@ == ids_of(final(self).vocab(), words_of(lower_of(doc.text@)))
            },
    {
        let CrawledDocument { url, title, text } = doc;
        self.add_document(title, text, url, now, meta)
    }
}

/// Document `a` ranks before document `b`: a higher key, or an equal key
/// and an earlier position.
pub open spec fn ranks_before(keys: Seq<u64>, a: int, b: int) -> bool {
    keys[a] > keys[b] || (keys[a] == keys[b] && a < b)
}

/// The indices of the `top_n` best keys, best first, ties kept in index
/// order: a stable sort by descending key, cut to `top_n`.
pub fn rank(keys: &Vec<u64>, top_n: usize) -> (r: Vec<usize>)
    ensures
        r@.len() == (if top_n < keys@.len() { top_n as int } else { keys@.len() as int }),
        forall|i: int| 0 <= i < r@.len() ==> #[trigger] r@[i] < keys@.len(),
        forall|i: int, j: int| 0 <= i < j < r@.len() ==> ranks_before(keys@, #[trigger] r@[i] as int, #[trigger] r@[j] as int),
        forall|x: int, i: int|
            0 <= x < keys@.len() && !r@.contains(x as usize) && 0 <= i < r@.len() ==> #[trigger] ranks_before(keys@, r@[i] as int, x),
{
    let n = keys.len();
    let mut order: Vec<usize> = Vec::new();
    let mut k: usize = 0;
    while k < n
        invariant
            n == keys@.len(),
            k <= n,
            order@.len() == k,
            forall|i: int| 0 <= i < k ==> #[trigger] order@[i] < k,
            forall|x: int| 0 <= x < k ==> #[trigger] order@.contains(x as usize),
            forall|i: int, j: int| 0 <= i < j < k ==> ranks_before(keys@, #[trigger] order@[i] as int, #[trigger] order@[j] as int),
        decreases n - k,
    {
        let key = keys[k];
        let mut p: usize = 0;
        while p < order.len() && keys[order[p]] >= key
            invariant
                p <= order@.len(),
                order@.len() == k,
                k < n,
                n == keys@.len(),
                forall|i: int| 0 <= i < k ==> #[trigger] order@[i] < k,
                forall|i: int| 0 <= i < p ==> keys@[#[trigger] order@[i] as int] >= key,
            decreases order@.len() - p,
        {
            p = p + 1;
        }
        let ghost before = order@;
        order.insert(p, k);
        proof {
            assert forall|i: int| 0 <= i < k + 1 implies #[trigger] order@[i] < k + 1 by {
                if i < p {
                    assert(order@[i] == before[i]);
                } else if i > p {
                    assert(order@[i] == before[i - 1]);
                }
            }
            assert forall|x: int| 0 <= x < k + 1 implies #[trigger] order@.contains(x as usize) by {
                if x == k {
                    assert(order@[p as int] == k);
                } else {
                    assert(before.contains(x as usize));
                    let i = choose|i: int| 0 <= i < before.len() && before[i] == x as usize;
                    if i < p {
                        assert(order@[i] == x as usize);
                    } else {
                        assert(order@[i + 1] == x as usize);
                    }
                }
            }
            assert forall|i: int, j: int| 0 <= i < j < k + 1 implies ranks_before(keys@, #[trigger] order@[i] as int, #[trigger] order@[j] as int) by {
                if j < p {
                    assert(order@[i] == before[i] && order@[j] == before[j]);
                } else if j == p {
                    assert(order@[i] == before[i]);
                    assert(before[i] < k);
                } else if i < p {
                    assert(order@[i] == before[i] && order@[j] == before[j - 1]);
                    assert(ranks_before(keys@, before[i] as int, before[j - 1] as int));
                } else if i == p {
                    assert(order@[j] == before[j - 1]);
                    assert(p < k);
                    assert(keys@[before[p as int] as int] < key);
                    if j - 1 > p {
                        assert(ranks_before(keys@, before[p as int] as int, before[j - 1] as int));
                    }
                } else {
                    assert(order@[i] == before[i - 1] && order@[j] == before[j - 1]);
                }
            }
        }
        k = k + 1;
    }
    let m = if top_n < n { top_n } else { n };
    let mut r: Vec<usize> = Vec::new();
    let mut i: usize = 0;
    while i < m
        invariant
            m <= n,
            n == keys@.len(),
            order@.len() == n,
            i <= m,
            r@ == order@.take(i as int),
        decreases m - i,
    {
        r.push(order[i]);
        i = i + 1;
        assert(r@ =~= order@.take(i as int));
    }
    proof {
        assert forall|x: int, i: int|
            0 <= x < keys@.len() && !r@.contains(x as usize) && 0 <= i < r@.len() implies #[trigger] ranks_before(keys@, r@[i] as int, x) by {
            assert(order@.contains(x as usize));
            let q = choose|q: int| 0 <= q < order@.len() && order@[q] == x as usize;
            if q < m {
                assert(r@[q] == x as usize);
            }
            assert(r@[i] == order@[i]);
            assert(ranks_before(keys@, order@[i] as int, order@[q] as int));
        }
    }
    r
}

} // verus!
