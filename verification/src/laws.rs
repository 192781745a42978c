//! The laws the index keeps, stated over the same views and spec
//! functions its contracts use and proved once for all inputs.

use vstd::prelude::*;
use vstd::relations::sorted_by;
use crate::engine::{doc_view_of, remove_key_spec, lemma_remove_key_ensures};
use crate::score::{
    doc_score, lemma_count_contains, lemma_score_positive, matches_query, results_of,
    results_upto, DocView, Field, FieldBoosts,
};
use crate::search::{rank_le, rank_leq};
use crate::tokenize::{lemma_tokens_of_space_free, lemma_tokens_of_space_free_tokens, tokens_of};
use crate::types::{title_tokens, ItemSearch};

verus! {

/// Each document that scores positively appears in the query results with
/// its key and score, and every result entry is such a document.
pub proof fn lemma_results_members(
    corpus: Seq<DocView>,
    q: Seq<Seq<char>>,
    b: FieldBoosts,
    n: int,
)
    requires
        0 <= n <= corpus.len(),
    ensures
        forall|i: int|
            0 <= i < n && doc_score(corpus, corpus[i], q, b) > 0 ==> #[trigger] results_upto(
                corpus,
                q,
                b,
                n,
            ).contains((corpus[i].key, doc_score(corpus, corpus[i], q, b) as u64)),
        forall|j: int|
            0 <= j < results_upto(corpus, q, b, n).len() ==> exists|i: int|
                0 <= i < n && doc_score(corpus, corpus[i], q, b) > 0 && #[trigger] results_upto(
                    corpus,
                    q,
                    b,
                    n,
                )[j] == (corpus[i].key, doc_score(corpus, corpus[i], q, b) as u64),
    decreases n,
{
    if n > 0 {
        lemma_results_members(corpus, q, b, n - 1);
        let prev = results_upto(corpus, q, b, n - 1);
        let res = results_upto(corpus, q, b, n);
        assert forall|i: int|
            0 <= i < n && doc_score(corpus, corpus[i], q, b) > 0 implies #[trigger] res.contains((
            corpus[i].key,
            doc_score(corpus, corpus[i], q, b) as u64,
        )) by {
            let p = (corpus[i].key, doc_score(corpus, corpus[i], q, b) as u64);
            if i < n - 1 {
                assert(prev.contains(p));
                let x = choose|x: int| 0 <= x < prev.len() && prev[x] == p;
                assert(res[x] == p);
            } else {
                assert(res[res.len() - 1] == p);
            }
        }
        assert forall|j: int| 0 <= j < res.len() implies exists|i: int|
            0 <= i < n && doc_score(corpus, corpus[i], q, b) > 0 && #[trigger] res[j] == (
            corpus[i].key,
            doc_score(corpus, corpus[i], q, b) as u64,
        ) by {
            if j < prev.len() {
                assert(prev[j] == res[j]);
                let i = choose|i: int|
                    0 <= i < n - 1 && doc_score(corpus, corpus[i], q, b) > 0 && #[trigger] prev[j]
                        == (corpus[i].key, doc_score(corpus, corpus[i], q, b) as u64);
                assert(0 <= i < n && doc_score(corpus, corpus[i], q, b) > 0 && res[j] == (
                    corpus[i].key,
                    doc_score(corpus, corpus[i], q, b) as u64,
                ));
            } else {
                assert(doc_score(corpus, corpus[n - 1], q, b) > 0);
                assert(res[j] == (corpus[n - 1].key, doc_score(corpus, corpus[n - 1], q, b) as u64));
            }
        }
    }
}

/// Inserting a document and then querying one of its title tokens as the
/// whole query returns that document's key with a positive score, for any
/// corpus, any such token and any positive boosts.
pub proof fn lemma_insert_then_query_finds(
    corpus: Seq<DocView>,
    key: i64,
    d: ItemSearch,
    qtext: Seq<char>,
    b: FieldBoosts,
)
    requires
        b.title >= 1,
        b.description >= 1,
        title_tokens(&d).contains(qtext),
        qtext.len() > 0,
    ensures
        exists|j: int|
            #![trigger results_of(corpus.push(doc_view_of(key, d)), tokens_of(qtext), b)[j]]
            {
                let rs = results_of(corpus.push(doc_view_of(key, d)), tokens_of(qtext), b);
                0 <= j < rs.len() && rs[j].0 == key && rs[j].1 > 0
            },
{
    let c2 = corpus.push(doc_view_of(key, d));
    let dv = doc_view_of(key, d);
    lemma_tokens_of_space_free_tokens(d.name@);
    let x = choose|x: int| 0 <= x < title_tokens(&d).len() && title_tokens(&d)[x] == qtext;
    assert(crate::tokenize::space_free(qtext)) by {
        assert(crate::tokenize::space_free(tokens_of(d.name@)[x]));
    }
    lemma_tokens_of_space_free(qtext);
    let q = tokens_of(qtext);
    assert(q =~= seq![qtext]);
    lemma_count_contains(dv.title, qtext);
    assert(crate::score::tf(dv, Field::Title, qtext) >= 1);
    assert(q[0] == qtext);
    assert(matches_query(dv, q));
    lemma_score_positive(c2, dv, q, b);
    assert(doc_score(c2, dv, q, b) > 0);
    assert(c2[c2.len() - 1] == dv);
    lemma_results_members(c2, q, b, c2.len() as int);
    let rs = results_of(c2, q, b);
    assert(rs.contains((dv.key, doc_score(c2, dv, q, b) as u64)));
    let j = choose|j: int|
        0 <= j < rs.len() && rs[j] == (dv.key, doc_score(c2, dv, q, b) as u64);
    assert(rs[j].0 == key && rs[j].1 > 0);
}

/// After a document's key is removed, no query, exact or
/// autocorrect-expanded, returns that key: the law holds for every token
/// sequence `q`, so in particular for an expansion that still carries the
/// removed document's former tokens.
pub proof fn lemma_removed_unreachable(
    corpus: Seq<DocView>,
    key: i64,
    q: Seq<Seq<char>>,
    b: FieldBoosts,
)
    ensures
        forall|j: int|
            0 <= j < results_of(remove_key_spec(corpus, key), q, b).len() ==> (
            #[trigger] results_of(remove_key_spec(corpus, key), q, b)[j]).0 != key,
{
    let c2 = remove_key_spec(corpus, key);
    lemma_remove_key_ensures(corpus, key);
    lemma_results_members(c2, q, b, c2.len() as int);
    let rs = results_of(c2, q, b);
    assert forall|j: int| 0 <= j < rs.len() implies (#[trigger] rs[j]).0 != key by {
        let i = choose|i: int|
            0 <= i < c2.len() && doc_score(c2, c2[i], q, b) > 0 && #[trigger] rs[j] == (
            c2[i].key,
            doc_score(c2, c2[i], q, b) as u64,
        );
        assert(c2[i].key != key);
    }
}

/// An autocorrect-expanded query reaches a document through the
/// vocabulary: if some query token's budget admits a non-empty vocabulary
/// word that a document contains, the expanded query returns that
/// document's key with a positive score, for any positive boosts.
pub proof fn lemma_autocorrect_reaches(
    corpus: Seq<DocView>,
    di: int,
    vocab: Seq<Seq<char>>,
    q: Seq<Seq<char>>,
    ti: int,
    w: Seq<char>,
    limit: crate::levenshtein::LimitOption,
    b: FieldBoosts,
)
    requires
        b.title >= 1,
        b.description >= 1,
        0 <= di < corpus.len(),
        0 <= ti < q.len(),
        w.len() > 0,
        vocab.contains(w),
        match crate::levenshtein::spec_budget(limit, q[ti]) {
            Option::None => true,
            Some(bd) => crate::levenshtein::lev(q[ti], w) <= bd,
        },
        corpus[di].title.contains(w) || corpus[di].description.contains(w),
    ensures
        exists|j: int|
            #![trigger results_of(corpus, crate::engine::expansion_of(vocab, q, limit), b)[j]]
            {
                let rs = results_of(corpus, crate::engine::expansion_of(vocab, q, limit), b);
                0 <= j < rs.len() && rs[j].0 == corpus[di].key && rs[j].1 > 0
            },
{
    let eq = crate::engine::expansion_of(vocab, q, limit);
    crate::engine::lemma_candidates_contains(vocab, q[ti], limit);
    assert(crate::engine::candidates_for(vocab, q[ti], limit).contains(w));
    crate::engine::lemma_expansion_contains(vocab, q, limit);
    assert(eq.contains(w));
    let k = choose|k: int| 0 <= k < eq.len() && eq[k] == w;
    let d = corpus[di];
    lemma_count_contains(d.title, w);
    lemma_count_contains(d.description, w);
    assert(crate::score::tf(d, Field::Title, w) >= 1 || crate::score::tf(
        d,
        Field::Description,
        w,
    ) >= 1);
    assert(eq[k].len() > 0);
    assert(matches_query(d, eq));
    lemma_score_positive(corpus, d, eq, b);
    lemma_results_members(corpus, eq, b, corpus.len() as int);
    let rs = results_of(corpus, eq, b);
    assert(rs.contains((d.key, doc_score(corpus, d, eq, b) as u64)));
    let j = choose|j: int| 0 <= j < rs.len() && rs[j] == (d.key, doc_score(corpus, d, eq, b) as u64);
    assert(rs[j].0 == d.key && rs[j].1 > 0);
}

/// A query whose tokens are all empty, the empty query included, scores
/// no document: searching it is the distinguished no-matches outcome.
pub proof fn lemma_empty_query_no_matches(corpus: Seq<DocView>, s: Seq<char>, b: FieldBoosts)
    requires
        forall|i: int| 0 <= i < tokens_of(s).len() ==> (#[trigger] tokens_of(s)[i]).len() == 0,
    ensures
        results_of(corpus, tokens_of(s), b).len() == 0,
{
    lemma_all_empty_results(corpus, tokens_of(s), b, corpus.len() as int);
}

proof fn lemma_all_empty_sum(corpus: Seq<DocView>, d: DocView, q: Seq<Seq<char>>, b: FieldBoosts)
    requires
        forall|i: int| 0 <= i < q.len() ==> (#[trigger] q[i]).len() == 0,
    ensures
        crate::score::sum_scores(corpus, d, q, b) == 0,
    decreases q.len(),
{
    if q.len() > 0 {
        assert forall|i: int| 0 <= i < q.drop_last().len() implies (
        #[trigger] q.drop_last()[i]).len() == 0 by {
            assert(q.drop_last()[i] == q[i]);
        }
        lemma_all_empty_sum(corpus, d, q.drop_last(), b);
        assert(q[q.len() - 1] == q.last());
        assert(q.last().len() == 0);
        assert(crate::score::term_score(corpus, d, q.last(), b) == 0);
    }
}

proof fn lemma_all_empty_results(corpus: Seq<DocView>, q: Seq<Seq<char>>, b: FieldBoosts, n: int)
    requires
        0 <= n <= corpus.len(),
        forall|i: int| 0 <= i < q.len() ==> (#[trigger] q[i]).len() == 0,
    ensures
        results_upto(corpus, q, b, n).len() == 0,
    decreases n,
{
    if n > 0 {
        lemma_all_empty_results(corpus, q, b, n - 1);
        lemma_all_empty_sum(corpus, corpus[n - 1], q, b);
    }
}

/// In a ranked result list, a strictly higher-scored entry stands
/// strictly before a lower-scored one.
pub proof fn lemma_ranked_order(ranked: Seq<(i64, u64)>)
    requires
        sorted_by(ranked, rank_leq()),
    ensures
        forall|i: int, j: int|
            #![trigger ranked[i], ranked[j]]
            0 <= i < ranked.len() && 0 <= j < ranked.len() && ranked[i].1 > ranked[j].1 ==> i < j,
{
    assert forall|i: int, j: int|
        #![trigger ranked[i], ranked[j]]
        0 <= i < ranked.len() && 0 <= j < ranked.len() && ranked[i].1 > ranked[j].1 implies i
        < j by {
        if i > j {
            assert(rank_leq()(ranked[j], ranked[i]));
            assert(rank_le(ranked[j], ranked[i]));
        }
    }
}

} // verus!
