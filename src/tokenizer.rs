//! Assigns each distinct word a prime number as its stable term id.
use vstd::hash_map::{HashMapWithView, StringHashMap};
use vstd::prelude::*;

verus! {

broadcast use vstd::std_specs::hash::group_hash_axioms;

/// `n` is a prime number.
pub open spec fn is_prime_spec(n: nat) -> bool {
    &&& n >= 2
    &&& forall|d: nat| 2 <= d < n ==> #[trigger] (n % d) != 0
}

/// The lower-case form of a text, as `str::to_lowercase` gives it.
pub uninterp spec fn lower_of(s: Seq<char>) -> Seq<char>;

/// The words of a text, in order: the matches of `\b\w+\b`.
pub uninterp spec fn words_of(s: Seq<char>) -> Seq<Seq<char>>;

/// Relies on `str::to_lowercase`: the result depends on the characters alone.
#[verifier::external_body]
pub(crate) fn lowercase(s: &str) -> (r: String)
    ensures
        r@ == lower_of(s@),
        s@.len() == 0 ==> r@.len() == 0,
{
    s.to_lowercase()
}

/// Relies on `regex::Regex::find_iter` for the word-boundary pattern
/// `\b\w+\b`: the matched words, in order.
#[verifier::external_body]
fn word_matches(s: &str) -> (r: Vec<String>)
    ensures
        r@.map_values(|w: String| w@) == words_of(s@),
        s@.len() == 0 ==> r@.len() == 0,
{
    match regex::Regex::new(r"\b\w+\b") {
        Ok(re) => re.find_iter(s).map(|m| m.as_str().to_string()).collect(),
        Err(_) => Vec::new(),
    }
}

/// Relies on `primal::is_prime`, a deterministic primality test exact on
/// every `u64`.
#[verifier::external_body]
fn check_prime(n: u64) -> (r: bool)
    ensures
        r == is_prime_spec(n as nat),
{
    primal::is_prime(n)
}

/// The word → prime vocabulary, with its inverse.
pub struct PrimeTokenizer {
    token_to_prime: StringHashMap<u64>,
    prime_to_token: HashMapWithView<u64, String>,
    current_prime: u64,
}

/// No prime lies in the range `(lo, hi]`.
pub open spec fn no_prime_between(lo: u64, hi: u64) -> bool {
    forall|p: u64| lo < p <= hi ==> !is_prime_spec(p as nat)
}

impl PrimeTokenizer {
    /// The vocabulary: each known word and its term id.
    pub closed spec fn vocab(&self) -> Map<Seq<char>, u64> {
        self.token_to_prime@
    }

    /// The largest id handed out so far (2 before any word).
    pub closed spec fn counter(&self) -> u64 {
        self.current_prime
    }

    /// Well-formed: words and the primes in `(2, counter]` are in one-to-one
    /// correspondence.
    pub closed spec fn wf(&self) -> bool {
        let fwd = self.token_to_prime@;
        let rev = self.prime_to_token@;
        &&& self.current_prime >= 2
        &&& (self.current_prime == 2 || self.current_prime % 2 == 1)
        &&& forall|p: u64| #[trigger]
            rev.contains_key(p) <==> (2 < p <= self.current_prime && is_prime_spec(p as nat))
        &&& forall|w: Seq<char>| #[trigger]
            fwd.contains_key(w) ==> rev.contains_key(fwd[w]) && rev[fwd[w]]@ == w
        &&& forall|p: u64| #[trigger]
            rev.contains_key(p) ==> fwd.contains_key(rev[p]@) && fwd[rev[p]@] == p
    }

    /// The ids of the vocabulary are exactly the primes in `(2, counter]`,
    /// one word each.
    pub proof fn lemma_ids_are_primes(&self, w: Seq<char>)
        requires
            self.wf(),
            self.vocab().contains_key(w),
        ensures
            is_prime_spec(self.vocab()[w] as nat),
            2 < self.vocab()[w] <= self.counter(),
            forall|v: Seq<char>| #[trigger]
                self.vocab().contains_key(v) && self.vocab()[v] == self.vocab()[w] ==> v == w,
    {
        let fwd = self.token_to_prime@;
        let rev = self.prime_to_token@;
        assert(rev.contains_key(fwd[w]));
        assert forall|v: Seq<char>| #[trigger]
            self.vocab().contains_key(v) && self.vocab()[v] == self.vocab()[w] implies v == w by {
            assert(rev[fwd[v]]@ == v);
        }
    }

    /// An empty vocabulary with the counter at 2.
    pub fn new() -> (r: Self)
        ensures
            r.wf(),
            r.vocab() == Map::<Seq<char>, u64>::empty(),
            r.counter() == 2,
    {
        PrimeTokenizer {
            token_to_prime: StringHashMap::new(),
            prime_to_token: HashMapWithView::new(),
            current_prime: 2,
        }
    }

    /// The largest id handed out so far (2 before any word).
    pub fn current_prime(&self) -> (r: u64)
        ensures
            r == self.counter(),
    {
        self.current_prime
    }

    /// Advances the counter to the next prime above it; `None`, with the
    /// tokenizer unchanged, when no prime above it fits in a `u64`.
    fn next_prime(&mut self) -> (r: Option<u64>)
        requires
            old(self).current_prime >= 2,
            old(self).current_prime == 2 || old(self).current_prime % 2 == 1,
        ensures
            match r {
                Some(p) => {
                    &&& is_prime_spec(p as nat)
                    &&& p > old(self).current_prime
                    &&& no_prime_between(old(self).current_prime, (p - 1) as u64)
                    &&& final(self).current_prime == p
                    &&& p % 2 == 1
                },
                None => {
                    &&& no_prime_between(old(self).current_prime, u64::MAX)
                    &&& final(self).current_prime == old(self).current_prime
                },
            },
            final(self).token_to_prime == old(self).token_to_prime,
            final(self).prime_to_token == old(self).prime_to_token,
    {
        let start = self.current_prime;
        let mut c = start;
        if c == 2 {
            c = 3;
            proof {
                assert(is_prime_spec(3)) by {
                    assert forall|d: nat| 2 <= d < 3 implies #[trigger] (3nat % d) != 0 by {
                        assert(d == 2);
                    }
                }
            }
            self.current_prime = 3;
            return Some(3);
        }
        loop
            invariant
                start < u64::MAX ==> start <= c,
                c % 2 == 1,
                c >= 3,
                c == start || start < c,
                no_prime_between(start, c),
                self.current_prime == start,
                start == old(self).current_prime,
                self.token_to_prime == old(self).token_to_prime,
                self.prime_to_token == old(self).prime_to_token,
            decreases u64::MAX - c,
        {
            if c > u64::MAX - 2 {
                proof {
                    assert forall|p: u64| start < p <= u64::MAX implies !is_prime_spec(p as nat) by {
                        if p > c {
                            assert(p == c + 1);
                            assert((p as nat) % 2 == 0);
                        }
                    }
                }
                return None;
            }
            let next = c + 2;
            proof {
                let mid = (c + 1) as u64;
                assert((mid as nat) % 2nat == 0);
                assert(!is_prime_spec(mid as nat));
            }
            if check_prime(next) {
                self.current_prime = next;
                return Some(next);
            }
            c = next;
        }
    }

    /// Splits a text into words (lower-cased, the `\b\w+\b` matches) and maps
    /// each to its id. A word seen for the first time gets the next prime
    /// above the counter. `None` only when the primes of `u64` run out.
    pub fn tokenize(&mut self, text: &str) -> (r: Option<Vec<u64>>)
        requires
            old(self).wf(),
        ensures
            final(self).wf(),
            old(self).vocab() <= final(self).vocab(),
            old(self).counter() <= final(self).counter(),
            forall|w: Seq<char>| #[trigger] final(self).vocab().contains_key(w) ==> old(self).vocab().contains_key(w)
                || words_of(lower_of(text@)).contains(w),
            match r {
                Some(ids) => {
                    let words = words_of(lower_of(text@));
                    &&& ids@.len() == words.len()
                    &&& forall|i: int| 0 <= i < ids@.len() ==> is_prime_spec(#[trigger] ids@[i] as nat)
                        && ids@[i] <= final(self).counter()
                    &&& forall|j: int, p: u64|
                        0 <= j < words.len() && #[trigger] ids@[j] > old(self).counter()
                            && !words.take(j).contains(words[j]) && old(self).counter() < p < ids@[j]
                            && #[trigger] is_prime_spec(p as nat) ==> exists|i: int|
                            0 <= i < j && #[trigger] ids@[i] == p
                    &&& forall|i: int| 0 <= i < words.len() ==>
                        #[trigger] final(self).vocab().contains_key(words[i])
                        && ids@[i] == final(self).vocab()[words[i]]
                    &&& forall|w: Seq<char>| #[trigger] final(self).vocab().contains_key(w) <==> (
                        old(self).vocab().contains_key(w) || words.contains(w))
                    &&& forall|j: int, i: int| 0 <= i < j < words.len() && #[trigger] ids@[j]
                        > old(self).counter() && !words.take(j).contains(words[j])
                        ==> #[trigger] ids@[i] < ids@[j]
                },
                None => no_prime_between(final(self).counter(), u64::MAX),
            },
    {
        let lower = lowercase(text);
        let words = word_matches(lower.as_str());
        let ghost ws = words_of(lower_of(text@));
        let ghost old_vocab = self.vocab();
        let ghost old_counter = self.counter();
        proof {
            assert forall|v: Seq<char>| #[trigger] old_vocab.contains_key(v) implies old_vocab[v]
                <= old_counter by {
                assert(self.prime_to_token@.contains_key(old_vocab[v]));
            }
        }
        let mut ids: Vec<u64> = Vec::new();
        let mut k: usize = 0;
        while k < words.len()
            invariant
                ws == words_of(lower_of(text@)),
                old_vocab == old(self).vocab(),
                old_counter == old(self).counter(),
                forall|v: Seq<char>| #[trigger] old_vocab.contains_key(v) ==> old_vocab[v]
                    <= old_counter,
                words@.map_values(|w: String| w@) == ws,
                k <= words@.len(),
                ids@.len() == k,
                self.wf(),
                old_vocab <= self.vocab(),
                old_counter <= self.counter(),
                forall|i: int| 0 <= i < k ==> #[trigger] self.vocab().contains_key(ws[i])
                    && ids@[i] == self.vocab()[ws[i]],
                forall|w: Seq<char>| #[trigger] self.vocab().contains_key(w) <==> (
                    old_vocab.contains_key(w) || ws.take(k as int).contains(w)),
                forall|i: int| 0 <= i < k ==> #[trigger] ids@[i] <= self.counter(),
                forall|j: int, i: int| 0 <= i < j < k && #[trigger] ids@[j] > old_counter
                    && !ws.take(j).contains(ws[j]) ==> #[trigger] ids@[i] < ids@[j],
                forall|q: u64| old_counter < q <= self.counter() && #[trigger] is_prime_spec(q as nat)
                    ==> exists|i: int| 0 <= i < k && #[trigger] ids@[i] == q,
                forall|j: int, q: u64|
                    0 <= j < k && #[trigger] ids@[j] > old_counter && !ws.take(j).contains(ws[j])
                        && old_counter < q < ids@[j] && #[trigger] is_prime_spec(q as nat)
                        ==> exists|i: int| 0 <= i < j && #[trigger] ids@[i] == q,
            decreases words@.len() - k,
        {
            let ghost c0 = self.counter();
            let ghost ids0 = ids@;
            let ghost fresh: bool;
            let word = &words[k];
            let ghost w = ws[k as int];
            assert(word@ == w);
            assert(ws.take(k as int + 1) =~= ws.take(k as int).push(w));
            proof {
                let (a, b) = (ws.take(k as int), ws.take(k as int + 1));
                assert forall|v: Seq<char>| #[trigger] b.contains(v) <==> (a.contains(v) || v == w) by {
                    if a.contains(v) {
                        let i = choose|i: int| 0 <= i < a.len() && a[i] == v;
                        assert(b[i] == v);
                    }
                    if v == w {
                        assert(b[k as int] == v);
                    }
                    if b.contains(v) {
                        let i = choose|i: int| 0 <= i < b.len() && b[i] == v;
                        if i < k {
                            assert(a[i] == v);
                        }
                    }
                }
            }
            let id: u64;
            match self.token_to_prime.get(word.as_str()) {
                Some(p) => {
                    id = *p;
                    proof {
                        if id > old_counter && !ws.take(k as int).contains(w) {
                            assert(old_vocab.contains_key(w));
                            let rv = self.prime_to_token@;
                            assert(rv.contains_key(old_vocab[w]));
                            assert(false);
                        }
                        assert(id <= old_counter || ws.take(k as int).contains(w));
                        assert(self.prime_to_token@.contains_key(self.token_to_prime@[w]));
                        assert(id <= c0);
                        fresh = false;
                    }
                },
                None => {
                    match self.next_prime() {
                        Some(p) => {
                            id = p;
                            let ghost fwd0 = self.token_to_prime@;
                            let ghost rev0 = self.prime_to_token@;
                            proof {
                                assert(!rev0.contains_key(p));
                            }
                            self.token_to_prime.insert(word.clone(), p);
                            self.prime_to_token.insert(p, word.clone());
                            proof {
                                let fwd = self.token_to_prime@;
                                let rev = self.prime_to_token@;
                                assert(fwd == fwd0.insert(w, p));
                                assert(rev[p]@ == w);
                                assert forall|q: u64| #[trigger]
                                    rev.contains_key(q) <==> (2 < q <= p && is_prime_spec(q as nat)) by {
                                    if q != p {
                                        assert(rev.contains_key(q) == rev0.contains_key(q));
                                    }
                                }
                                assert forall|v: Seq<char>| #[trigger] fwd.contains_key(v) implies
                                    rev.contains_key(fwd[v]) && rev[fwd[v]]@ == v by {
                                    if v != w {
                                        assert(fwd0.contains_key(v));
                                        assert(rev0.contains_key(fwd0[v]));
                                        assert(fwd0[v] != p);
                                    }
                                }
                                assert forall|q: u64| #[trigger] rev.contains_key(q) implies
                                    fwd.contains_key(rev[q]@) && fwd[rev[q]@] == q by {
                                    if q != p {
                                        assert(rev0.contains_key(q));
                                        assert(fwd0.contains_key(rev0[q]@));
                                        assert(rev0[q]@ != w);
                                    }
                                }
                                assert forall|i: int| 0 <= i < k implies #[trigger] fwd.contains_key(ws[i])
                                    && ids@[i] == fwd[ws[i]] by {
                                    assert(fwd0.contains_key(ws[i]));
                                }
                                fresh = true;
                            }
                        },
                        None => {
                            proof {
                                assert forall|v: Seq<char>| #[trigger] self.vocab().contains_key(v) implies old_vocab.contains_key(v)
                                    || ws.contains(v) by {
                                    if !old_vocab.contains_key(v) {
                                        assert(ws.take(k as int).contains(v));
                                        let i = choose|i: int| 0 <= i < k && ws.take(k as int)[i] == v;
                                        assert(ws[i] == v);
                                    }
                                }
                            }
                            return None;
                        },
                    }
                },
            }
            ids.push(id);
            proof {
                assert(ids@[k as int] == id);
                assert forall|i: int| 0 <= i < k implies ids@[i] == ids0[i] by {}
                assert forall|q: u64| old_counter < q <= self.counter() && #[trigger] is_prime_spec(q as nat)
                    implies exists|i: int| 0 <= i < k + 1 && #[trigger] ids@[i] == q by {
                    if q <= c0 {
                        let i = choose|i: int| 0 <= i < k && #[trigger] ids0[i] == q;
                        assert(ids@[i] == q);
                    } else {
                        assert(fresh);
                        assert(q == id);
                        assert(ids@[k as int] == q);
                    }
                }
                assert forall|j: int, q: u64|
                    0 <= j < k + 1 && #[trigger] ids@[j] > old_counter && !ws.take(j).contains(ws[j])
                        && old_counter < q < ids@[j] && #[trigger] is_prime_spec(q as nat)
                        implies exists|i: int| 0 <= i < j && #[trigger] ids@[i] == q by {
                    if j < k {
                        assert(ids@[j] == ids0[j]);
                        let i = choose|i: int| 0 <= i < j && #[trigger] ids0[i] == q;
                        assert(ids@[i] == q);
                    } else {
                        assert(fresh);
                        assert(q <= c0);
                        let i = choose|i: int| 0 <= i < k && #[trigger] ids0[i] == q;
                        assert(ids@[i] == q);
                    }
                }
            }
            k = k + 1;
        }
        proof {
            assert(ws.take(ws.len() as int) =~= ws);
            assert forall|i: int| 0 <= i < ids@.len() implies is_prime_spec(#[trigger] ids@[i] as nat)
                && ids@[i] <= self.counter() by {
                assert(self.vocab().contains_key(ws[i]));
                assert(self.prime_to_token@.contains_key(self.token_to_prime@[ws[i]]));
            }
            assert forall|v: Seq<char>| #[trigger] self.vocab().contains_key(v) implies old_vocab.contains_key(v)
                || ws.contains(v) by {}
        }
        Some(ids)
    }

    /// Hands back an id sequence that is already known, leaving the
    /// vocabulary untouched.
    pub fn tokenize_without_update(&self, primes: &[u64]) -> (r: Vec<u64>)
        ensures
            r@ == primes@,
    {
        let mut r: Vec<u64> = Vec::new();
        let mut i: usize = 0;
        while i < primes.len()
            invariant
                i <= primes@.len(),
                r@ == primes@.take(i as int),
            decreases primes@.len() - i,
        {
            r.push(primes[i]);
            i = i + 1;
            assert(r@ =~= primes@.take(i as int));
        }
        assert(primes@.take(primes@.len() as int) =~= primes@);
        r
    }

    /// The word whose id is `prime`, if any.
    pub fn get_token(&self, prime: u64) -> (r: Option<&String>)
        requires
            self.wf(),
        ensures
            match r {
                Some(w) => self.vocab().contains_key(w@) && self.vocab()[w@] == prime,
                None => forall|w: Seq<char>| #[trigger] self.vocab().contains_key(w) ==> self.vocab()[w]
                    != prime,
            },
    {
        let r = self.prime_to_token.get(&prime);
        proof {
            if r.is_none() {
                assert forall|w: Seq<char>| #[trigger] self.vocab().contains_key(w) implies self.vocab()[w]
                    != prime by {
                    assert(self.prime_to_token@.contains_key(self.token_to_prime@[w]));
                }
            }
        }
        r
    }

    /// The id of `token`, if it is in the vocabulary.
    pub fn get_prime(&self, token: &str) -> (r: Option<&u64>)
        ensures
            match r {
                Some(p) => self.vocab().contains_key(token@) && *p == self.vocab()[token@],
                None => !self.vocab().contains_key(token@),
            },
    {
        self.token_to_prime.get(token)
    }
}

} // verus!
