//! The mutable in-memory search index: postings, vocabulary, autocorrect
//! expansion and the two query entry points.
//!
//! The engine is an owned value. Mutation takes the engine exclusively
//! (`&mut self`) and establishes the complete post-state in one step, so a
//! reader holding the engine between mutations observes either the full
//! pre-mutation or the full post-mutation index, never a document with
//! only some of its fields indexed. A host that shares one engine across
//! tasks guards it with one reader/writer lock around whole calls.

use vstd::prelude::*;
use crate::levenshtein::{lev, spec_budget, LimitOption};
use crate::score::{
    corpus_avgdl, doc_score_exec, results_of, results_upto, DocView, Field, FieldBoosts,
    IndexedDoc,
};
use crate::tokenize::{
    lemma_split_of_join, lemma_tokens_of_len, lemma_tokens_of_space_free_tokens, space_free,
    tokenizer, tokens_of,
};
use crate::types::{description_tokens, title_tokens, ItemSearch};

verus! {

/// The abstract state of the index: the corpus of indexed documents in
/// insertion order, the vocabulary of distinct tokens in first-observed
/// order, and the configured vocabulary-pruning behavior.
pub ghost struct EngineView {
    pub corpus: Seq<DocView>,
    pub vocab: Seq<Seq<char>>,
    pub prune_on_remove: bool,
}

/// Whether token `w` occurs in some field of some document of `corpus`.
pub open spec fn present_in(corpus: Seq<DocView>, w: Seq<char>) -> bool {
    exists|i: int|
        0 <= i < corpus.len() && (#[trigger] corpus[i].title.contains(w)
            || corpus[i].description.contains(w))
}

impl EngineView {
    /// The engine's internal invariant: vocabulary entries are distinct
    /// and delimiter-free, and under the pruning configuration every
    /// vocabulary entry still occurs in the corpus.
    pub open spec fn wf(self) -> bool {
        &&& forall|i: int, j: int|
            #![trigger self.vocab[i], self.vocab[j]]
            0 <= i < j < self.vocab.len() ==> self.vocab[i] != self.vocab[j]
        &&& forall|i: int| 0 <= i < self.vocab.len() ==> space_free(#[trigger] self.vocab[i])
        &&& self.prune_on_remove ==> forall|i: int|
            0 <= i < self.vocab.len() ==> present_in(self.corpus, #[trigger] self.vocab[i])
    }
}

/// The document view an insert call of `key` and `d` adds to the corpus:
/// both fields extracted and tokenized in full.
pub open spec fn doc_view_of(key: i64, d: ItemSearch) -> DocView {
    DocView { key, title: title_tokens(&d), description: description_tokens(&d) }
}

/// All tokens an insert call of `d` observes, title field first.
pub open spec fn doc_words(d: ItemSearch) -> Seq<Seq<char>> {
    title_tokens(&d) + description_tokens(&d)
}

/// The vocabulary after observing `ws` in order: each token not yet
/// present is appended once, at its first occurrence.
pub open spec fn vocab_plus(vocab: Seq<Seq<char>>, ws: Seq<Seq<char>>) -> Seq<Seq<char>>
    decreases ws.len(),
{
    if ws.len() == 0 {
        vocab
    } else {
        let prev = vocab_plus(vocab, ws.drop_last());
        if prev.contains(ws.last()) {
            prev
        } else {
            prev.push(ws.last())
        }
    }
}

/// The corpus with every document keyed `key` removed, order kept.
pub open spec fn remove_key_spec(corpus: Seq<DocView>, key: i64) -> Seq<DocView>
    decreases corpus.len(),
{
    if corpus.len() == 0 {
        corpus
    } else {
        let prev = remove_key_spec(corpus.drop_last(), key);
        if corpus.last().key == key {
            prev
        } else {
            prev.push(corpus.last())
        }
    }
}

/// Whether some document of `corpus` is keyed `key`.
pub open spec fn corpus_has_key(corpus: Seq<DocView>, key: i64) -> bool {
    exists|i: int| 0 <= i < corpus.len() && corpus[i].key == key
}

/// The vocabulary restricted to tokens that still occur in `corpus`,
/// order kept.
pub open spec fn prune_spec(vocab: Seq<Seq<char>>, corpus: Seq<DocView>) -> Seq<Seq<char>>
    decreases vocab.len(),
{
    if vocab.len() == 0 {
        vocab
    } else {
        let prev = prune_spec(vocab.drop_last(), corpus);
        if present_in(corpus, vocab.last()) {
            prev.push(vocab.last())
        } else {
            prev
        }
    }
}

/// A corpus index that holds `w` in either field witnesses its presence.
pub proof fn lemma_present_witness(corpus: Seq<DocView>, i: int, w: Seq<char>)
    requires
        0 <= i < corpus.len(),
        corpus[i].title.contains(w) || corpus[i].description.contains(w),
    ensures
        present_in(corpus, w),
{
}

/// A token present in a corpus stays present when a document is appended.
pub proof fn lemma_present_push(corpus: Seq<DocView>, d: DocView, w: Seq<char>)
    requires
        present_in(corpus, w),
    ensures
        present_in(corpus.push(d), w),
{
    let x = choose|i: int|
        0 <= i < corpus.len() && (#[trigger] corpus[i].title.contains(w)
            || corpus[i].description.contains(w));
    assert(corpus.push(d)[x] == corpus[x]);
    assert(corpus.push(d)[x].title.contains(w) || corpus.push(d)[x].description.contains(w));
}

/// What `vocab_plus` holds: exactly the old entries and the observed
/// tokens, with distinctness and delimiter-freedom carried through, and
/// the old vocabulary kept as a prefix.
pub proof fn lemma_vocab_plus_ensures(vocab: Seq<Seq<char>>, ws: Seq<Seq<char>>)
    ensures
        forall|w: Seq<char>|
            #[trigger] vocab_plus(vocab, ws).contains(w) <==> vocab.contains(w) || ws.contains(w),
        (forall|i: int, j: int|
            #![trigger vocab[i], vocab[j]]
            0 <= i < j < vocab.len() ==> vocab[i] != vocab[j]) ==> (forall|i: int, j: int|
            #![trigger vocab_plus(vocab, ws)[i], vocab_plus(vocab, ws)[j]]
            0 <= i < j < vocab_plus(vocab, ws).len() ==> vocab_plus(vocab, ws)[i]
                != vocab_plus(vocab, ws)[j]),
        (forall|i: int| 0 <= i < vocab.len() ==> space_free(#[trigger] vocab[i])) && (forall|i: int|
            0 <= i < ws.len() ==> space_free(#[trigger] ws[i])) ==> (forall|i: int|
            0 <= i < vocab_plus(vocab, ws).len() ==> space_free(#[trigger] vocab_plus(vocab, ws)[i])),
        vocab_plus(vocab, ws).len() >= vocab.len(),
        forall|i: int| 0 <= i < vocab.len() ==> #[trigger] vocab_plus(vocab, ws)[i] == vocab[i],
    decreases ws.len(),
{
    if ws.len() == 0 {
        assert forall|w: Seq<char>| ws.contains(w) implies false by {}
    } else {
        lemma_vocab_plus_ensures(vocab, ws.drop_last());
        let prev = vocab_plus(vocab, ws.drop_last());
        let res = vocab_plus(vocab, ws);
        assert forall|w: Seq<char>| #[trigger] res.contains(w) implies vocab.contains(w)
            || ws.contains(w) by {
            if prev.contains(w) {
                if ws.drop_last().contains(w) {
                    let k = choose|k: int| 0 <= k < ws.drop_last().len() && ws.drop_last()[k] == w;
                    assert(ws[k] == w);
                }
            } else {
                assert(w == ws.last());
                assert(ws[ws.len() - 1] == w);
            }
        }
        assert forall|w: Seq<char>| vocab.contains(w) || ws.contains(w) implies #[trigger] res.contains(
            w,
        ) by {
            if vocab.contains(w) || ws.drop_last().contains(w) {
                assert(prev.contains(w));
                if !prev.contains(ws.last()) {
                    let k = choose|k: int| 0 <= k < prev.len() && prev[k] == w;
                    assert(res[k] == w);
                }
            } else {
                assert(ws.contains(w));
                let k = choose|k: int| 0 <= k < ws.len() && ws[k] == w;
                if k < ws.len() - 1 {
                    assert(ws.drop_last()[k] == w);
                } else {
                    assert(w == ws.last());
                    if prev.contains(ws.last()) {
                    } else {
                        assert(res[res.len() - 1] == w);
                    }
                }
            }
        }
    }
}

/// Observing a concatenation is observing its parts in turn.
pub proof fn lemma_vocab_plus_concat(vocab: Seq<Seq<char>>, a: Seq<Seq<char>>, b: Seq<Seq<char>>)
    ensures
        vocab_plus(vocab, a + b) == vocab_plus(vocab_plus(vocab, a), b),
    decreases b.len(),
{
    if b.len() == 0 {
        assert(a + b =~= a);
    } else {
        lemma_vocab_plus_concat(vocab, a, b.drop_last());
        assert((a + b).drop_last() =~= a + b.drop_last());
        assert((a + b).last() == b.last());
    }
}

/// Removing an absent key leaves the corpus unchanged.
pub proof fn lemma_remove_key_noop(corpus: Seq<DocView>, key: i64)
    requires
        !corpus_has_key(corpus, key),
    ensures
        remove_key_spec(corpus, key) == corpus,
    decreases corpus.len(),
{
    if corpus.len() > 0 {
        assert(corpus[corpus.len() - 1].key != key);
        assert forall|i: int| 0 <= i < corpus.drop_last().len() implies corpus.drop_last()[i].key
            != key by {
            assert(corpus.drop_last()[i] == corpus[i]);
        }
        lemma_remove_key_noop(corpus.drop_last(), key);
        assert(remove_key_spec(corpus, key) =~= corpus.drop_last().push(corpus.last()));
        assert(corpus.drop_last().push(corpus.last()) =~= corpus);
    }
}

/// No document of the pruned-down corpus carries the removed key.
pub proof fn lemma_remove_key_ensures(corpus: Seq<DocView>, key: i64)
    ensures
        forall|i: int|
            0 <= i < remove_key_spec(corpus, key).len() ==> #[trigger] remove_key_spec(
                corpus,
                key,
            )[i].key != key,
        forall|i: int|
            0 <= i < remove_key_spec(corpus, key).len() ==> corpus.contains(
                #[trigger] remove_key_spec(corpus, key)[i],
            ),
    decreases corpus.len(),
{
    if corpus.len() > 0 {
        lemma_remove_key_ensures(corpus.drop_last(), key);
        let prev = remove_key_spec(corpus.drop_last(), key);
        assert forall|i: int| 0 <= i < prev.len() implies corpus.contains(#[trigger] prev[i]) by {
            assert(corpus.drop_last().contains(prev[i]));
            let x = choose|x: int|
                0 <= x < corpus.drop_last().len() && corpus.drop_last()[x] == prev[i];
            assert(corpus[x] == prev[i]);
        }
        if corpus.last().key != key {
            let res = remove_key_spec(corpus, key);
            assert(corpus[corpus.len() - 1] == corpus.last());
            assert forall|i: int| 0 <= i < res.len() implies corpus.contains(#[trigger] res[i]) by {
                if i < prev.len() {
                    assert(res[i] == prev[i]);
                } else {
                    assert(res[i] == corpus.last());
                }
            }
        }
    }
}

/// What pruning holds: the result keeps order, distinctness and
/// delimiter-freedom, and holds exactly the old entries still present in
/// the corpus.
pub proof fn lemma_prune_ensures(vocab: Seq<Seq<char>>, corpus: Seq<DocView>)
    ensures
        forall|i: int|
            0 <= i < prune_spec(vocab, corpus).len() ==> vocab.contains(
                #[trigger] prune_spec(vocab, corpus)[i],
            ) && present_in(corpus, prune_spec(vocab, corpus)[i]),
        (forall|i: int, j: int|
            #![trigger vocab[i], vocab[j]]
            0 <= i < j < vocab.len() ==> vocab[i] != vocab[j]) ==> (forall|i: int, j: int|
            #![trigger prune_spec(vocab, corpus)[i], prune_spec(vocab, corpus)[j]]
            0 <= i < j < prune_spec(vocab, corpus).len() ==> prune_spec(vocab, corpus)[i]
                != prune_spec(vocab, corpus)[j]),
        (forall|i: int| 0 <= i < vocab.len() ==> space_free(#[trigger] vocab[i])) ==> (forall|
            i: int,
        |
            0 <= i < prune_spec(vocab, corpus).len() ==> space_free(
                #[trigger] prune_spec(vocab, corpus)[i],
            )),
    decreases vocab.len(),
{
    if vocab.len() > 0 {
        lemma_prune_ensures(vocab.drop_last(), corpus);
        let prev = prune_spec(vocab.drop_last(), corpus);
        let res = prune_spec(vocab, corpus);
        assert forall|i: int| 0 <= i < prev.len() implies vocab.contains(#[trigger] prev[i]) by {
            assert(vocab.drop_last().contains(prev[i]));
            let x = choose|x: int|
                0 <= x < vocab.drop_last().len() && vocab.drop_last()[x] == prev[i];
            assert(vocab[x] == prev[i]);
        }
        if present_in(corpus, vocab.last()) {
            assert(vocab[vocab.len() - 1] == vocab.last());
            assert forall|i: int| 0 <= i < res.len() implies vocab.contains(#[trigger] res[i])
                && present_in(corpus, res[i]) by {
                if i < prev.len() {
                    assert(res[i] == prev[i]);
                } else {
                    assert(res[i] == vocab.last());
                }
            }
            if (forall|i: int, j: int|
                #![trigger vocab[i], vocab[j]]
                0 <= i < j < vocab.len() ==> vocab[i] != vocab[j]) {
                assert forall|i: int, j: int|
                    #![trigger res[i], res[j]]
                    0 <= i < j < res.len() implies res[i] != res[j] by {
                    if j < prev.len() {
                    } else {
                        assert(res[j] == vocab.last());
                        assert(vocab.drop_last().contains(res[i]));
                        let x = choose|x: int|
                            0 <= x < vocab.drop_last().len() && vocab.drop_last()[x] == res[i];
                        assert(vocab[x] == res[i]);
                        assert(vocab[vocab.len() - 1] == vocab.last());
                    }
                }
            }
        }
    }
}

/// When every vocabulary entry is still present, pruning changes nothing.
pub proof fn lemma_prune_noop(vocab: Seq<Seq<char>>, corpus: Seq<DocView>)
    requires
        forall|i: int| 0 <= i < vocab.len() ==> present_in(corpus, #[trigger] vocab[i]),
    ensures
        prune_spec(vocab, corpus) == vocab,
    decreases vocab.len(),
{
    if vocab.len() > 0 {
        assert forall|i: int| 0 <= i < vocab.drop_last().len() implies present_in(
            corpus,
            #[trigger] vocab.drop_last()[i],
        ) by {
            assert(vocab.drop_last()[i] == vocab[i]);
        }
        lemma_prune_noop(vocab.drop_last(), corpus);
        assert(present_in(corpus, vocab[vocab.len() - 1]));
        assert(prune_spec(vocab, corpus) =~= vocab.drop_last().push(vocab.last()));
        assert(vocab.drop_last().push(vocab.last()) =~= vocab);
    }
}

/// The autocorrect candidates of one query token: every vocabulary word,
/// in vocabulary order, whose edit distance to the token is within the
/// policy's budget; with no numeric budget, the whole vocabulary.
pub open spec fn candidates_for(vocab: Seq<Seq<char>>, t: Seq<char>, limit: LimitOption) -> Seq<
    Seq<char>,
>
    decreases vocab.len(),
{
    if vocab.len() == 0 {
        Seq::empty()
    } else {
        let prev = candidates_for(vocab.drop_last(), t, limit);
        match spec_budget(limit, t) {
            Option::None => prev.push(vocab.last()),
            Some(b) => if lev(t, vocab.last()) <= b {
                prev.push(vocab.last())
            } else {
                prev
            },
        }
    }
}

/// The expanded query: for each token in order, its candidates followed by
/// the token itself, concatenated.
pub open spec fn expansion_of(vocab: Seq<Seq<char>>, q: Seq<Seq<char>>, limit: LimitOption) -> Seq<
    Seq<char>,
>
    decreases q.len(),
{
    if q.len() == 0 {
        Seq::empty()
    } else {
        expansion_of(vocab, q.drop_last(), limit) + candidates_for(vocab, q.last(), limit) + seq![
            q.last(),
        ]
    }
}

/// Which words are candidates: exactly the vocabulary words within the
/// token's budget.
pub proof fn lemma_candidates_contains(vocab: Seq<Seq<char>>, t: Seq<char>, limit: LimitOption)
    ensures
        forall|w: Seq<char>|
            #[trigger] candidates_for(vocab, t, limit).contains(w) <==> (vocab.contains(w) && (
            match spec_budget(limit, t) {
                Option::None => true,
                Some(b) => lev(t, w) <= b,
            })),
        forall|i: int|
            0 <= i < candidates_for(vocab, t, limit).len() ==> vocab.contains(
                #[trigger] candidates_for(vocab, t, limit)[i],
            ),
    decreases vocab.len(),
{
    if vocab.len() > 0 {
        lemma_candidates_contains(vocab.drop_last(), t, limit);
        let prev = candidates_for(vocab.drop_last(), t, limit);
        let res = candidates_for(vocab, t, limit);
        assert(vocab[vocab.len() - 1] == vocab.last());
        assert forall|i: int| 0 <= i < vocab.drop_last().len() implies vocab.contains(
            #[trigger] vocab.drop_last()[i],
        ) by {
            assert(vocab.drop_last()[i] == vocab[i]);
        }
        assert forall|i: int| 0 <= i < res.len() implies vocab.contains(#[trigger] res[i]) by {
            if i < prev.len() {
                assert(res[i] == prev[i]);
                assert(vocab.drop_last().contains(prev[i]));
                let x = choose|x: int|
                    0 <= x < vocab.drop_last().len() && vocab.drop_last()[x] == prev[i];
                assert(vocab[x] == prev[i]);
            } else {
                assert(res[i] == vocab.last());
            }
        }
        assert forall|w: Seq<char>| #[trigger] res.contains(w) implies (vocab.contains(w) && (
        match spec_budget(limit, t) {
            Option::None => true,
            Some(b) => lev(t, w) <= b,
        })) by {
            let x = choose|x: int| 0 <= x < res.len() && res[x] == w;
            if x < prev.len() {
                assert(prev[x] == w);
                assert(prev.contains(w));
                assert(vocab.drop_last().contains(w));
                let y = choose|y: int|
                    0 <= y < vocab.drop_last().len() && vocab.drop_last()[y] == w;
                assert(vocab[y] == w);
            } else {
                assert(w == vocab.last());
            }
        }
        assert forall|w: Seq<char>| (vocab.contains(w) && (match spec_budget(limit, t) {
            Option::None => true,
            Some(b) => lev(t, w) <= b,
        })) implies #[trigger] res.contains(w) by {
            let x = choose|x: int| 0 <= x < vocab.len() && vocab[x] == w;
            if x < vocab.len() - 1 {
                assert(vocab.drop_last()[x] == w);
                assert(vocab.drop_last().contains(w));
                assert(prev.contains(w));
                let y = choose|y: int| 0 <= y < prev.len() && prev[y] == w;
                assert(res[y] == w);
            } else {
                assert(w == vocab.last());
                assert(res[res.len() - 1] == w);
            }
        }
    }
}

/// What an expansion holds: every original query token, and every
/// candidate of every query token, so in particular every vocabulary word
/// within a token's edit-distance budget.
pub proof fn lemma_expansion_contains(vocab: Seq<Seq<char>>, q: Seq<Seq<char>>, limit: LimitOption)
    ensures
        forall|i: int| 0 <= i < q.len() ==> expansion_of(vocab, q, limit).contains(#[trigger] q[i]),
        forall|i: int, w: Seq<char>|
            0 <= i < q.len() && #[trigger] candidates_for(vocab, q[i], limit).contains(w)
                ==> expansion_of(vocab, q, limit).contains(w),
    decreases q.len(),
{
    if q.len() > 0 {
        lemma_expansion_contains(vocab, q.drop_last(), limit);
        let prev = expansion_of(vocab, q.drop_last(), limit);
        let cands = candidates_for(vocab, q.last(), limit);
        let res = expansion_of(vocab, q, limit);
        assert(q[q.len() - 1] == q.last());
        assert forall|k: int| 0 <= k < prev.len() implies res.contains(#[trigger] prev[k]) by {
            assert(res[k] == prev[k]);
        }
        assert forall|i: int| 0 <= i < q.len() implies res.contains(#[trigger] q[i]) by {
            if i < q.len() - 1 {
                assert(q.drop_last()[i] == q[i]);
                assert(prev.contains(q[i]));
                let k = choose|k: int| 0 <= k < prev.len() && prev[k] == q[i];
                assert(res.contains(prev[k]));
            } else {
                assert(res[res.len() - 1] == q.last());
            }
        }
        assert forall|i: int, w: Seq<char>|
            0 <= i < q.len() && #[trigger] candidates_for(vocab, q[i], limit).contains(w) implies res.contains(
            w,
        ) by {
            if i < q.len() - 1 {
                assert(q.drop_last()[i] == q[i]);
                assert(candidates_for(vocab, q.drop_last()[i], limit).contains(w));
                assert(prev.contains(w));
                let k = choose|k: int| 0 <= k < prev.len() && prev[k] == w;
                assert(res.contains(prev[k]));
            } else {
                let x = choose|x: int| 0 <= x < cands.len() && cands[x] == w;
                assert(res[prev.len() + x] == w);
            }
        }
    }
}

/// An expansion of a non-empty query is non-empty, and its tokens are
/// delimiter-free whenever the vocabulary and the query tokens are.
pub proof fn lemma_expansion_props(vocab: Seq<Seq<char>>, q: Seq<Seq<char>>, limit: LimitOption)
    requires
        forall|i: int| 0 <= i < vocab.len() ==> space_free(#[trigger] vocab[i]),
        forall|i: int| 0 <= i < q.len() ==> space_free(#[trigger] q[i]),
    ensures
        q.len() >= 1 ==> expansion_of(vocab, q, limit).len() >= 1,
        forall|i: int|
            0 <= i < expansion_of(vocab, q, limit).len() ==> space_free(
                #[trigger] expansion_of(vocab, q, limit)[i],
            ),
    decreases q.len(),
{
    if q.len() > 0 {
        assert forall|i: int| 0 <= i < q.drop_last().len() implies space_free(
            #[trigger] q.drop_last()[i],
        ) by {
            assert(q.drop_last()[i] == q[i]);
        }
        lemma_expansion_props(vocab, q.drop_last(), limit);
        lemma_candidates_contains(vocab, q.last(), limit);
        let prev = expansion_of(vocab, q.drop_last(), limit);
        let cands = candidates_for(vocab, q.last(), limit);
        let res = expansion_of(vocab, q, limit);
        assert(q[q.len() - 1] == q.last());
        assert forall|i: int| 0 <= i < res.len() implies space_free(#[trigger] res[i]) by {
            if i < prev.len() {
                assert(res[i] == prev[i]);
            } else if i < prev.len() + cands.len() {
                assert(res[i] == cands[i - prev.len()]);
                assert(vocab.contains(cands[i - prev.len()]));
                let x = choose|x: int| 0 <= x < vocab.len() && vocab[x] == cands[i - prev.len()];
                assert(space_free(vocab[x]));
            } else {
                assert(res[i] == q.last());
            }
        }
    }
}

/// The search index over searchable catalog items. One instance owns its
/// postings and vocabulary outright; independent instances are unrelated.
pub struct IndexEngine {
    docs: Vec<IndexedDoc>,
    words: Vec<String>,
    prune_on_remove: bool,
}

impl View for IndexEngine {
    type V = EngineView;

    closed spec fn view(&self) -> EngineView {
        EngineView {
            corpus: self.docs.deep_view(),
            vocab: self.words.deep_view(),
            prune_on_remove: self.prune_on_remove,
        }
    }
}

/// Whether the vocabulary list `words` holds the token `w`.
fn contains_word(words: &Vec<String>, w: &String) -> (r: bool)
    ensures
        r == words.deep_view().contains(w@),
{
    let ghost dv = words.deep_view();
    let mut i: usize = 0;
    while i < words.len()
        invariant
            0 <= i <= words.len(),
            dv == words.deep_view(),
            forall|j: int| 0 <= j < i ==> dv[j] != w@,
        decreases words.len() - i,
    {
        if words[i] == *w {
            proof {
                assert(dv[i as int] == w@);
            }
            return true;
        }
        i = i + 1;
    }
    proof {
        assert(!dv.contains(w@));
    }
    false
}

/// Appends `w` to the vocabulary unless it is already there.
fn maybe_add(words: &mut Vec<String>, w: &String)
    ensures
        final(words).deep_view() == (if old(words).deep_view().contains(w@) {
            old(words).deep_view()
        } else {
            old(words).deep_view().push(w@)
        }),
{
    if !contains_word(words, w) {
        let owned = w.clone();
        words.push(owned);
        proof {
            assert(words.deep_view() =~= old(words).deep_view().push(w@));
        }
    }
}

impl IndexEngine {
    /// A fresh, empty index. `prune_on_remove` chooses whether removing a
    /// document also drops vocabulary tokens that no remaining document
    /// contains; without it the vocabulary only ever grows.
    pub fn new(prune_on_remove: bool) -> (r: IndexEngine)
        ensures
            r@.corpus == Seq::<DocView>::empty(),
            r@.vocab == Seq::<Seq<char>>::empty(),
            r@.prune_on_remove == prune_on_remove,
            r@.wf(),
    {
        let r = IndexEngine { docs: Vec::new(), words: Vec::new(), prune_on_remove };
        proof {
            assert(r@.corpus =~= Seq::<DocView>::empty());
            assert(r@.vocab =~= Seq::<Seq<char>>::empty());
        }
        r
    }

    /// Indexes one document under `key`: both fields are extracted,
    /// tokenized and appended to the corpus in one step, and every distinct
    /// new token joins the vocabulary. The caller keeps keys unique: this
    /// call does not check for a live duplicate, and re-indexing a live key
    /// duplicates its postings.
    pub fn index(&mut self, key: i64, document: &ItemSearch)
        requires
            old(self)@.wf(),
        ensures
            final(self)@.wf(),
            final(self)@.corpus == old(self)@.corpus.push(doc_view_of(key, *document)),
            final(self)@.vocab == vocab_plus(old(self)@.vocab, doc_words(*document)),
            final(self)@.prune_on_remove == old(self)@.prune_on_remove,
    {
        let ghost old_vocab = self.words.deep_view();
        let ghost old_corpus = self.docs.deep_view();
        let title_toks = tokenizer(name_str(document));
        let desc_toks = match &document.description {
            Some(s) => tokenizer(s.as_str()),
            None => Vec::new(),
        };
        proof {
            assert(title_toks.deep_view() == title_tokens(document));
            assert(desc_toks.deep_view() =~= description_tokens(document));
        }
        let ghost tv = title_toks.deep_view();
        let ghost dv = desc_toks.deep_view();
        let mut i: usize = 0;
        proof {
            assert(tv.take(0) =~= Seq::<Seq<char>>::empty());
            assert(vocab_plus(old_vocab, tv.take(0)) == old_vocab);
        }
        while i < title_toks.len()
            invariant
                0 <= i <= title_toks.len(),
                tv == title_toks.deep_view(),
                self.words.deep_view() == vocab_plus(old_vocab, tv.take(i as int)),
                self.docs.deep_view() == old_corpus,
                self.prune_on_remove == old(self).prune_on_remove,
            decreases title_toks.len() - i,
        {
            proof {
                assert(tv.take(i as int + 1).drop_last() =~= tv.take(i as int));
                assert(tv.take(i as int + 1).last() == title_toks@[i as int]@);
            }
            maybe_add(&mut self.words, &title_toks[i]);
            i = i + 1;
        }
        proof {
            assert(tv.take(title_toks.len() as int) =~= tv);
        }
        let mut j: usize = 0;
        proof {
            assert(dv.take(0) =~= Seq::<Seq<char>>::empty());
        }
        while j < desc_toks.len()
            invariant
                0 <= j <= desc_toks.len(),
                tv == title_toks.deep_view(),
                dv == desc_toks.deep_view(),
                self.words.deep_view() == vocab_plus(vocab_plus(old_vocab, tv), dv.take(j as int)),
                self.docs.deep_view() == old_corpus,
                self.prune_on_remove == old(self).prune_on_remove,
            decreases desc_toks.len() - j,
        {
            proof {
                assert(dv.take(j as int + 1).drop_last() =~= dv.take(j as int));
                assert(dv.take(j as int + 1).last() == desc_toks@[j as int]@);
            }
            maybe_add(&mut self.words, &desc_toks[j]);
            j = j + 1;
        }
        proof {
            assert(dv.take(desc_toks.len() as int) =~= dv);
            lemma_vocab_plus_concat(old_vocab, tv, dv);
            assert(self.words.deep_view() == vocab_plus(old_vocab, tv + dv));
            assert(tv + dv == doc_words(*document));
        }
        let ghost doc_v = doc_view_of(key, *document);
        let entry = IndexedDoc { key, title: title_toks, description: desc_toks };
        proof {
            assert(entry@ == doc_v);
        }
        self.docs.push(entry);
        proof {
            assert(self.docs.deep_view() =~= old_corpus.push(doc_v));
            lemma_vocab_plus_ensures(old_vocab, doc_words(*document));
            crate::tokenize::lemma_tokens_of_space_free_tokens(document.name@);
            if document.description is Some {
                crate::tokenize::lemma_tokens_of_space_free_tokens(document.description->0@);
            }
            let ws = doc_words(*document);
            assert forall|k: int| 0 <= k < ws.len() implies space_free(#[trigger] ws[k]) by {
                if k < tv.len() {
                    assert(ws[k] == tv[k]);
                } else {
                    assert(ws[k] == dv[k - tv.len()]);
                }
            }
            let new_corpus = self.docs.deep_view();
            let new_vocab = self.words.deep_view();
            assert forall|i: int, j: int|
                #![trigger old_vocab[i], old_vocab[j]]
                0 <= i < j < old_vocab.len() implies old_vocab[i] != old_vocab[j] by {
                assert(old(self)@.vocab[i] == old_vocab[i]);
                assert(old(self)@.vocab[j] == old_vocab[j]);
            }
            assert forall|i: int| 0 <= i < old_vocab.len() implies space_free(
                #[trigger] old_vocab[i],
            ) by {
                assert(old(self)@.vocab[i] == old_vocab[i]);
            }
            assert(new_vocab == vocab_plus(old_vocab, ws));
            assert(forall|i: int, j: int|
                #![trigger new_vocab[i], new_vocab[j]]
                0 <= i < j < new_vocab.len() ==> new_vocab[i] != new_vocab[j]);
            assert(forall|i: int| 0 <= i < new_vocab.len() ==> space_free(#[trigger] new_vocab[i]));
            if self.prune_on_remove {
                assert forall|k: int| 0 <= k < new_vocab.len() implies present_in(
                    new_corpus,
                    #[trigger] new_vocab[k],
                ) by {
                    let w = new_vocab[k];
                    assert(new_vocab.contains(w));
                    if old_vocab.contains(w) {
                        let idx = choose|x: int| 0 <= x < old_vocab.len() && old_vocab[x] == w;
                        assert(old(self)@.vocab[idx] == w);
                        assert(present_in(old_corpus, old(self)@.vocab[idx]));
                        lemma_present_push(old_corpus, doc_v, w);
                        assert(new_corpus == old_corpus.push(doc_v));
                        assert(present_in(new_corpus, w));
                    } else {
                        assert(ws.contains(w));
                        let x = choose|x: int| 0 <= x < ws.len() && ws[x] == w;
                        let nd = new_corpus[new_corpus.len() - 1];
                        if x < tv.len() {
                            assert(nd.title[x] == w);
                            assert(nd.title.contains(w));
                        } else {
                            assert(nd.description[x - tv.len()] == w);
                            assert(nd.description.contains(w));
                        }
                        assert(new_corpus[new_corpus.len() - 1].title.contains(w)
                            || new_corpus[new_corpus.len() - 1].description.contains(w));
                        lemma_present_witness(new_corpus, new_corpus.len() - 1, w);
                        assert(present_in(new_corpus, w));
                    }
                }
            }
            assert(self@.vocab == new_vocab);
            assert(self@.corpus == new_corpus);
            assert(self@.wf());
        }
    }

    /// Deletes every posting of `key`, in one step. Removing a key that
    /// was never indexed is a no-op, not an error. Under the pruning
    /// configuration, vocabulary tokens that no remaining document
    /// contains are dropped as well; otherwise the vocabulary is kept
    /// whole.
    pub fn remove_document(&mut self, key: i64)
        requires
            old(self)@.wf(),
        ensures
            final(self)@.wf(),
            final(self)@.corpus == remove_key_spec(old(self)@.corpus, key),
            final(self)@.prune_on_remove == old(self)@.prune_on_remove,
            final(self)@.vocab == (if old(self)@.prune_on_remove {
                prune_spec(old(self)@.vocab, remove_key_spec(old(self)@.corpus, key))
            } else {
                old(self)@.vocab
            }),
            !corpus_has_key(old(self)@.corpus, key) ==> final(self)@ == old(self)@,
    {
        let ghost orig = self.docs.deep_view();
        let ghost old_vocab = self.words.deep_view();
        let mut i: usize = 0;
        let ghost mut processed: int = 0;
        proof {
            assert(orig.take(0) =~= Seq::<DocView>::empty());
            assert(orig.skip(0) =~= orig);
            assert(self.docs.deep_view() =~= remove_key_spec(orig.take(0), key) + orig.skip(0));
        }
        while i < self.docs.len()
            invariant
                0 <= processed <= orig.len(),
                i == remove_key_spec(orig.take(processed), key).len(),
                self.docs.deep_view() == remove_key_spec(orig.take(processed), key) + orig.skip(
                    processed,
                ),
                self.docs.len() - i == orig.len() - processed,
                self.words.deep_view() == old_vocab,
                self.prune_on_remove == old(self).prune_on_remove,
            decreases self.docs.len() - i,
        {
            let ghost pre = self.docs.deep_view();
            let ghost kept = remove_key_spec(orig.take(processed), key);
            proof {
                assert(pre[i as int] == orig.skip(processed)[0]);
                assert(orig.skip(processed)[0] == orig[processed]);
                assert(orig.take(processed + 1).drop_last() =~= orig.take(processed));
                assert(orig.take(processed + 1).last() == orig[processed]);
                assert(self.docs@[i as int]@ == pre[i as int]);
            }
            if self.docs[i].key == key {
                self.docs.remove(i);
                proof {
                    assert(self.docs.deep_view() =~= pre.remove(i as int));
                    assert(remove_key_spec(orig.take(processed + 1), key) == kept);
                    assert(pre.remove(i as int) =~= kept + orig.skip(processed + 1));
                }
            } else {
                proof {
                    assert(remove_key_spec(orig.take(processed + 1), key) =~= kept.push(
                        orig[processed],
                    ));
                    assert(kept.push(orig[processed]) + orig.skip(processed + 1) =~= kept
                        + orig.skip(processed));
                }
                i = i + 1;
            }
            proof {
                processed = processed + 1;
            }
        }
        proof {
            assert(processed == orig.len());
            assert(orig.take(processed) =~= orig);
            assert(orig.skip(processed) =~= Seq::<DocView>::empty());
            assert(self.docs.deep_view() =~= remove_key_spec(orig, key));
            lemma_remove_key_ensures(orig, key);
        }
        let ghost new_corpus = self.docs.deep_view();
        if self.prune_on_remove {
            let mut kept_words: Vec<String> = Vec::new();
            let ghost vv = old_vocab;
            let mut k: usize = 0;
            proof {
                assert(vv.take(0) =~= Seq::<Seq<char>>::empty());
                assert(kept_words.deep_view() =~= prune_spec(vv.take(0), new_corpus));
            }
            while k < self.words.len()
                invariant
                    0 <= k <= self.words.len(),
                    vv == self.words.deep_view(),
                    new_corpus == self.docs.deep_view(),
                    kept_words.deep_view() == prune_spec(vv.take(k as int), new_corpus),
                    self.prune_on_remove == old(self).prune_on_remove,
                decreases self.words.len() - k,
            {
                proof {
                    assert(vv.take(k as int + 1).drop_last() =~= vv.take(k as int));
                    assert(vv.take(k as int + 1).last() == vv[k as int]);
                    assert(self.words@[k as int]@ == vv[k as int]);
                }
                if word_present(&self.docs, &self.words[k]) {
                    let owned = self.words[k].clone();
                    kept_words.push(owned);
                    proof {
                        assert(kept_words.deep_view() =~= prune_spec(
                            vv.take(k as int),
                            new_corpus,
                        ).push(vv[k as int]));
                    }
                }
                k = k + 1;
            }
            proof {
                assert(vv.take(self.words.len() as int) =~= vv);
            }
            self.words = kept_words;
        }
        proof {
            lemma_prune_ensures(old_vocab, new_corpus);
            assert forall|i2: int, j2: int|
                #![trigger old_vocab[i2], old_vocab[j2]]
                0 <= i2 < j2 < old_vocab.len() implies old_vocab[i2] != old_vocab[j2] by {
                assert(old(self)@.vocab[i2] == old_vocab[i2]);
                assert(old(self)@.vocab[j2] == old_vocab[j2]);
            }
            assert forall|i2: int| 0 <= i2 < old_vocab.len() implies space_free(
                #[trigger] old_vocab[i2],
            ) by {
                assert(old(self)@.vocab[i2] == old_vocab[i2]);
            }
            let nv = self.words.deep_view();
            assert(forall|i2: int, j2: int|
                #![trigger nv[i2], nv[j2]]
                0 <= i2 < j2 < nv.len() ==> nv[i2] != nv[j2]);
            assert(forall|i2: int| 0 <= i2 < nv.len() ==> space_free(#[trigger] nv[i2]));
            if self.prune_on_remove {
                assert(forall|i2: int|
                    0 <= i2 < nv.len() ==> present_in(new_corpus, #[trigger] nv[i2]));
            }
            assert(self@.wf());
            if !corpus_has_key(old(self)@.corpus, key) {
                lemma_remove_key_noop(orig, key);
                assert(self@.corpus == old(self)@.corpus);
                if old(self)@.prune_on_remove {
                    assert forall|i2: int| 0 <= i2 < old_vocab.len() implies present_in(
                        orig,
                        #[trigger] old_vocab[i2],
                    ) by {
                        assert(old(self)@.vocab[i2] == old_vocab[i2]);
                    }
                    lemma_prune_noop(old_vocab, orig);
                }
                assert(self@.vocab == old(self)@.vocab);
                assert(self@ == old(self)@);
            }
        }
    }

    /// The autocorrect expansion of a raw query: the query is tokenized,
    /// and each token is followed into the result by every vocabulary
    /// word within its edit-distance budget, the original token last, in
    /// token order.
    pub fn find_best_matching_autocorrect(&self, query: &str, limit: &LimitOption) -> (r: Vec<
        String,
    >)
        ensures
            r.deep_view() == expansion_of(self@.vocab, tokens_of(query@), *limit),
    {
        let tokens = tokenizer(query);
        let ghost qv = tokens.deep_view();
        let ghost vocab = self.words.deep_view();
        let mut matches: Vec<String> = Vec::new();
        let mut ti: usize = 0;
        proof {
            assert(qv.take(0) =~= Seq::<Seq<char>>::empty());
            assert(matches.deep_view() =~= expansion_of(vocab, qv.take(0), *limit));
        }
        while ti < tokens.len()
            invariant
                0 <= ti <= tokens.len(),
                qv == tokens.deep_view(),
                vocab == self.words.deep_view(),
                matches.deep_view() == expansion_of(vocab, qv.take(ti as int), *limit),
            decreases tokens.len() - ti,
        {
            let token = &tokens[ti];
            proof {
                assert(qv[ti as int] == tokens@[ti as int]@);
            }
            let budget = token_budget(limit, token);
            let ghost expansion_pre = matches.deep_view();
            let mut wi: usize = 0;
            proof {
                assert(vocab.take(0) =~= Seq::<Seq<char>>::empty());
                assert(matches.deep_view() =~= expansion_pre + candidates_for(
                    vocab.take(0),
                    qv[ti as int],
                    *limit,
                ));
            }
            while wi < self.words.len()
                invariant
                    0 <= wi <= self.words.len(),
                    qv == tokens.deep_view(),
                    vocab == self.words.deep_view(),
                    ti < tokens.len(),
                    token@ == qv[ti as int],
                    budget matches Some(b) ==> spec_budget(*limit, qv[ti as int]) == Some(
                        b as nat,
                    ),
                    budget is None <==> spec_budget(*limit, qv[ti as int]) is None,
                    matches.deep_view() == expansion_pre + candidates_for(
                        vocab.take(wi as int),
                        qv[ti as int],
                        *limit,
                    ),
                decreases self.words.len() - wi,
            {
                let w = &self.words[wi];
                proof {
                    assert(vocab.take(wi as int + 1).drop_last() =~= vocab.take(wi as int));
                    assert(vocab.take(wi as int + 1).last() == vocab[wi as int]);
                    assert(vocab[wi as int] == self.words@[wi as int]@);
                }
                let keep = match budget {
                    Some(b) => {
                        let d = distance::levenshtein(token.as_str(), w.as_str());
                        d <= b
                    },
                    None => true,
                };
                if keep {
                    let owned = w.clone();
                    matches.push(owned);
                    proof {
                        assert(matches.deep_view() =~= (expansion_pre + candidates_for(
                            vocab.take(wi as int),
                            qv[ti as int],
                            *limit,
                        )).push(vocab[wi as int]));
                        assert(matches.deep_view() =~= expansion_pre + candidates_for(
                            vocab.take(wi as int + 1),
                            qv[ti as int],
                            *limit,
                        ));
                    }
                } else {
                    proof {
                        assert(candidates_for(vocab.take(wi as int + 1), qv[ti as int], *limit)
                            == candidates_for(vocab.take(wi as int), qv[ti as int], *limit));
                    }
                }
                wi = wi + 1;
            }
            proof {
                assert(vocab.take(self.words.len() as int) =~= vocab);
            }
            let own_token = token.clone();
            matches.push(own_token);
            proof {
                assert(qv.take(ti as int + 1).drop_last() =~= qv.take(ti as int));
                assert(qv.take(ti as int + 1).last() == qv[ti as int]);
                assert(matches.deep_view() =~= (expansion_pre + candidates_for(
                    vocab,
                    qv[ti as int],
                    *limit,
                )).push(qv[ti as int]));
                assert(matches.deep_view() =~= expansion_of(vocab, qv.take(ti as int), *limit)
                    + candidates_for(vocab, qv[ti as int], *limit) + seq![qv[ti as int]]);
            }
            ti = ti + 1;
        }
        proof {
            assert(qv.take(tokens.len() as int) =~= qv);
        }
        matches
    }

    /// Scores the raw query as given against every indexed document: the
    /// matches in corpus order, each with its positive score.
    pub fn query(&self, query: &str, fields_boost: FieldBoosts) -> (r: Vec<(i64, u64)>)
        ensures
            r@ == results_of(self@.corpus, tokens_of(query@), fields_boost),
    {
        let tokens = tokenizer(query);
        let ad_t = corpus_avgdl(&self.docs, Field::Title);
        let ad_d = corpus_avgdl(&self.docs, Field::Description);
        let ghost corpus = self.docs.deep_view();
        let ghost qv = tokens.deep_view();
        let mut results: Vec<(i64, u64)> = Vec::new();
        let mut di: usize = 0;
        proof {
            assert(results@ =~= results_upto(corpus, qv, fields_boost, 0));
        }
        while di < self.docs.len()
            invariant
                0 <= di <= self.docs.len(),
                corpus == self.docs.deep_view(),
                qv == tokens.deep_view(),
                ad_t as int == crate::score::avgdl(corpus, Field::Title),
                ad_d as int == crate::score::avgdl(corpus, Field::Description),
                results@ == results_upto(corpus, qv, fields_boost, di as int),
            decreases self.docs.len() - di,
        {
            let s = doc_score_exec(&self.docs, &self.docs[di], &tokens, fields_boost, ad_t, ad_d);
            proof {
                assert(corpus[di as int] == self.docs@[di as int]@);
            }
            if s > 0 {
                let key = self.docs[di].key;
                results.push((key, s));
                proof {
                    assert(s as int == crate::score::doc_score(
                        corpus,
                        corpus[di as int],
                        qv,
                        fields_boost,
                    ));
                    assert(results@ =~= results_upto(corpus, qv, fields_boost, di as int).push((
                        corpus[di as int].key,
                        s,
                    )));
                }
            }
            di = di + 1;
        }
        results
    }

    /// Scores the query after autocorrect expansion: the expanded token
    /// list is joined with spaces and scored as a query of its own.
    pub fn query_with_autocorrect(
        &self,
        query: &str,
        fields_boost: FieldBoosts,
        limit: &LimitOption,
    ) -> (r: Vec<(i64, u64)>)
        requires
            self@.wf(),
        ensures
            r@ == results_of(
                self@.corpus,
                expansion_of(self@.vocab, tokens_of(query@), *limit),
                fields_boost,
            ),
    {
        let expanded = self.find_best_matching_autocorrect(query, limit);
        let joined = crate::tokenize::join_spaces(&expanded);
        proof {
            let qv = tokens_of(query@);
            lemma_tokens_of_len(query@);
            lemma_tokens_of_space_free_tokens(query@);
            lemma_expansion_props(self@.vocab, qv, *limit);
            lemma_split_of_join(expanded.deep_view());
        }
        self.query(joined.as_str(), fields_boost)
    }
}

/// Whether token `w` occurs in either field of some stored document.
fn word_present(docs: &Vec<IndexedDoc>, w: &String) -> (r: bool)
    ensures
        r == present_in(docs.deep_view(), w@),
{
    let ghost corpus = docs.deep_view();
    let mut i: usize = 0;
    while i < docs.len()
        invariant
            0 <= i <= docs.len(),
            corpus == docs.deep_view(),
            forall|j: int|
                0 <= j < i ==> !(#[trigger] corpus[j].title.contains(w@))
                    && !corpus[j].description.contains(w@),
        decreases docs.len() - i,
    {
        proof {
            assert(corpus[i as int] == docs@[i as int]@);
        }
        if contains_word(&docs[i].title, w) || contains_word(&docs[i].description, w) {
            proof {
                lemma_present_witness(corpus, i as int, w@);
            }
            return true;
        }
        i = i + 1;
    }
    proof {
        if present_in(corpus, w@) {
            let x = choose|x: int|
                0 <= x < corpus.len() && (#[trigger] corpus[x].title.contains(w@)
                    || corpus[x].description.contains(w@));
            assert(false);
        }
    }
    false
}

/// The numeric edit-distance budget the policy grants one query token.
fn token_budget(limit: &LimitOption, token: &String) -> (r: Option<usize>)
    ensures
        r matches Some(b) ==> spec_budget(*limit, token@) == Some(b as nat),
        r is None <==> spec_budget(*limit, token@) is None,
{
    limit.into_option(token.as_str())
}

/// The title text of a document, as a borrowed slice.
fn name_str(d: &ItemSearch) -> (r: &str)
    ensures
        r@ == d.name@,
{
    d.name.as_str()
}

} // verus!
