//! Postings and BM25-style relevance scoring over exact integer
//! arithmetic.
//!
//! A score combines, per query token and per field, an inverse document
//! frequency factor with a saturating, length-normalized term frequency
//! weight, multiplied by the field's boost and summed. All intermediate
//! quantities are clamped to fixed scales so that every score is computed
//! exactly, without rounding drift: two runs over the same corpus and
//! query give identical scores.

use vstd::prelude::*;

verus! {

/// Upper clamp applied to term frequencies, field lengths, average field
/// lengths and document counts before they enter the score formula.
pub const STAT_CLAMP: u64 = 1000000;

/// Scale of the inverse-document-frequency factor.
pub const IDF_SCALE: u64 = 1000;

/// Scale of the saturating term-frequency weight.
pub const TF_SCALE: u64 = 1000;

/// The two indexed fields of a searchable document.
#[derive(Clone, Copy, PartialEq, Eq, Structural)]
pub enum Field {
    Title,
    Description,
}

/// The per-field boost weights supplied at query time. Each must be
/// positive: a field with no weight would silently drop matches.
#[derive(Clone, Copy, PartialEq, Eq, Structural)]
pub struct FieldBoosts {
    pub title: u64,
    pub description: u64,
}

/// One indexed document as the scorer sees it: its key and the token
/// sequences of its two fields, fixed at insert time.
pub ghost struct DocView {
    pub key: i64,
    pub title: Seq<Seq<char>>,
    pub description: Seq<Seq<char>>,
}

/// The stored postings of one document: per-field token sequences keyed by
/// the document key. A missing description yields no tokens at all.
pub struct IndexedDoc {
    pub key: i64,
    pub title: Vec<String>,
    pub description: Vec<String>,
}

impl View for IndexedDoc {
    type V = DocView;

    open spec fn view(&self) -> DocView {
        DocView { key: self.key, title: self.title.deep_view(), description: self.description.deep_view() }
    }
}

impl DeepView for IndexedDoc {
    type V = DocView;

    open spec fn deep_view(&self) -> DocView {
        self.view()
    }
}

/// The token sequence of field `f` of document `d`.
pub open spec fn field_tokens(d: DocView, f: Field) -> Seq<Seq<char>> {
    match f {
        Field::Title => d.title,
        Field::Description => d.description,
    }
}

/// `x` clamped to the statistics cap.
pub open spec fn clamp_stat(x: int) -> int {
    if x > STAT_CLAMP as int {
        STAT_CLAMP as int
    } else {
        x
    }
}

/// `s` clamped to the largest representable score.
pub open spec fn clamp_score(s: int) -> int {
    if s > u64::MAX as int {
        u64::MAX as int
    } else {
        s
    }
}

/// How many entries of `ts` equal `t`.
pub open spec fn count_sq(ts: Seq<Seq<char>>, t: Seq<char>) -> int
    decreases ts.len(),
{
    if ts.len() == 0 {
        0
    } else {
        count_sq(ts.drop_last(), t) + if ts.last() == t {
            1int
        } else {
            0int
        }
    }
}

/// Term frequency: how often token `t` occurs in field `f` of `d`.
pub open spec fn tf(d: DocView, f: Field, t: Seq<char>) -> int {
    count_sq(field_tokens(d, f), t)
}

/// Field length: the token count of field `f` of `d`.
pub open spec fn dl(d: DocView, f: Field) -> int {
    field_tokens(d, f).len() as int
}

/// Document frequency over the first `n` documents: how many contain `t`
/// in field `f`.
pub open spec fn df_upto(corpus: Seq<DocView>, f: Field, t: Seq<char>, n: int) -> int
    decreases n,
{
    if n <= 0 {
        0
    } else {
        df_upto(corpus, f, t, n - 1) + if tf(corpus[n - 1], f, t) >= 1 {
            1int
        } else {
            0int
        }
    }
}

/// Document frequency of token `t` in field `f` over the whole corpus.
pub open spec fn df(corpus: Seq<DocView>, f: Field, t: Seq<char>) -> int {
    df_upto(corpus, f, t, corpus.len() as int)
}

/// The clamped lengths of field `f` of the first `n` documents, summed.
pub open spec fn total_dl_upto(corpus: Seq<DocView>, f: Field, n: int) -> int
    decreases n,
{
    if n <= 0 {
        0
    } else {
        total_dl_upto(corpus, f, n - 1) + clamp_stat(dl(corpus[n - 1], f))
    }
}

/// The average length of field `f` over the corpus, at least 1 and capped.
pub open spec fn avgdl(corpus: Seq<DocView>, f: Field) -> int {
    let n = corpus.len() as int;
    let total = total_dl_upto(corpus, f, n);
    let avg = total / (if n < 1 {
        1int
    } else {
        n
    });
    clamp_stat(
        if avg < 1 {
            1int
        } else {
            avg
        },
    )
}

/// The inverse-document-frequency factor of token `t` in field `f`: a
/// rarer token weighs more. Always at least 1 and at most
/// `1 + IDF_SCALE`.
pub open spec fn idf(corpus: Seq<DocView>, f: Field, t: Seq<char>) -> int {
    let nc = clamp_stat(corpus.len() as int);
    let dfc = clamp_stat(df(corpus, f, t));
    1 + (IDF_SCALE as int * (nc - dfc)) / (if nc < 1 {
        1int
    } else {
        nc
    })
}

/// The saturating, length-normalized term-frequency weight: repeated
/// occurrences gain less and less, and matches in a long field gain less
/// than matches in a short one. Always at least 1 and at most
/// `3 * TF_SCALE` when the term occurs at all.
pub open spec fn sat_weight(tf_v: int, dl_v: int, ad: int) -> int {
    let tfc = clamp_stat(tf_v);
    let dlc = clamp_stat(dl_v);
    let prod = tfc * ad;
    let num = 12 * TF_SCALE as int * prod;
    let den = 4 * prod + 2 * (ad + 3 * dlc);
    let q = num / den;
    if q < 1 {
        1int
    } else {
        q
    }
}

/// The unboosted weight of token `t` in field `f` of document `d`: zero
/// when the token is empty or absent from the field, else IDF times the
/// saturating term-frequency weight.
pub open spec fn weight(corpus: Seq<DocView>, d: DocView, f: Field, t: Seq<char>) -> int {
    if t.len() == 0 {
        0
    } else {
        let tf_v = tf(d, f, t);
        if tf_v == 0 {
            0
        } else {
            idf(corpus, f, t) * sat_weight(tf_v, dl(d, f), avgdl(corpus, f))
        }
    }
}

/// The boosted score contribution of one query token against one document:
/// the weighted sum over both fields.
pub open spec fn term_score(corpus: Seq<DocView>, d: DocView, t: Seq<char>, b: FieldBoosts) -> int {
    b.title as int * weight(corpus, d, Field::Title, t) + b.description as int * weight(
        corpus,
        d,
        Field::Description,
        t,
    )
}

/// The contributions of all query tokens against one document, summed.
pub open spec fn sum_scores(
    corpus: Seq<DocView>,
    d: DocView,
    q: Seq<Seq<char>>,
    b: FieldBoosts,
) -> int
    decreases q.len(),
{
    if q.len() == 0 {
        0
    } else {
        sum_scores(corpus, d, q.drop_last(), b) + term_score(corpus, d, q.last(), b)
    }
}

/// The relevance score of document `d` for query tokens `q`: the clamped
/// sum of all boosted token contributions.
pub open spec fn doc_score(corpus: Seq<DocView>, d: DocView, q: Seq<Seq<char>>, b: FieldBoosts) -> int {
    clamp_score(sum_scores(corpus, d, q, b))
}

/// The scored matches among the first `n` documents, in corpus order: each
/// document with a positive score, paired with that score. Documents that
/// share no token with the query are excluded.
pub open spec fn results_upto(
    corpus: Seq<DocView>,
    q: Seq<Seq<char>>,
    b: FieldBoosts,
    n: int,
) -> Seq<(i64, u64)>
    decreases n,
{
    if n <= 0 {
        Seq::empty()
    } else {
        let prev = results_upto(corpus, q, b, n - 1);
        let s = doc_score(corpus, corpus[n - 1], q, b);
        if s > 0 {
            prev.push((corpus[n - 1].key, s as u64))
        } else {
            prev
        }
    }
}

/// The scored matches of the whole corpus, in corpus order.
pub open spec fn results_of(corpus: Seq<DocView>, q: Seq<Seq<char>>, b: FieldBoosts) -> Seq<
    (i64, u64),
> {
    results_upto(corpus, q, b, corpus.len() as int)
}

/// Whether document `d` shares at least one non-empty token with the query
/// `q`, in either field. Exactly these documents score positively.
pub open spec fn matches_query(d: DocView, q: Seq<Seq<char>>) -> bool {
    exists|i: int|
        0 <= i < q.len() && q[i].len() > 0 && (tf(d, Field::Title, q[i]) >= 1 || tf(
            d,
            Field::Description,
            q[i],
        ) >= 1)
}

/// The largest unboosted weight one token can contribute in one field.
pub open spec fn weight_max() -> int {
    (1 + IDF_SCALE as int) * (3 * TF_SCALE as int)
}

pub proof fn lemma_count_sq_bounds(ts: Seq<Seq<char>>, t: Seq<char>)
    ensures
        0 <= count_sq(ts, t) <= ts.len(),
    decreases ts.len(),
{
    if ts.len() > 0 {
        lemma_count_sq_bounds(ts.drop_last(), t);
    }
}

/// A token occurs in a field exactly when its count there is positive.
pub proof fn lemma_count_contains(ts: Seq<Seq<char>>, t: Seq<char>)
    ensures
        count_sq(ts, t) >= 1 <==> ts.contains(t),
    decreases ts.len(),
{
    lemma_count_sq_bounds(ts, t);
    if ts.len() > 0 {
        lemma_count_contains(ts.drop_last(), t);
        lemma_count_sq_bounds(ts.drop_last(), t);
        if count_sq(ts, t) >= 1 {
            if ts.last() == t {
                assert(ts[ts.len() - 1] == t);
            } else {
                assert(ts.drop_last().contains(t));
                let x = choose|x: int| 0 <= x < ts.drop_last().len() && ts.drop_last()[x] == t;
                assert(ts[x] == t);
            }
        }
        if ts.contains(t) {
            let x = choose|x: int| 0 <= x < ts.len() && ts[x] == t;
            if x < ts.len() - 1 {
                assert(ts.drop_last()[x] == t);
                assert(ts.drop_last().contains(t));
            } else {
                assert(ts.last() == t);
            }
        }
    }
}

pub proof fn lemma_df_upto_bounds(corpus: Seq<DocView>, f: Field, t: Seq<char>, n: int)
    requires
        n >= 0,
    ensures
        0 <= df_upto(corpus, f, t, n) <= n,
    decreases n,
{
    if n > 0 {
        lemma_df_upto_bounds(corpus, f, t, n - 1);
    }
}

pub proof fn lemma_total_dl_bounds(corpus: Seq<DocView>, f: Field, n: int)
    requires
        n >= 0,
    ensures
        0 <= total_dl_upto(corpus, f, n) <= n * (STAT_CLAMP as int),
    decreases n,
{
    if n > 0 {
        lemma_total_dl_bounds(corpus, f, n - 1);
        assert(clamp_stat(dl(corpus[n - 1], f)) <= STAT_CLAMP as int);
        assert(n * (STAT_CLAMP as int) == (n - 1) * (STAT_CLAMP as int) + STAT_CLAMP as int)
            by (nonlinear_arith);
    }
}

pub proof fn lemma_avgdl_bounds(corpus: Seq<DocView>, f: Field)
    ensures
        1 <= avgdl(corpus, f) <= STAT_CLAMP as int,
{
    let n = corpus.len() as int;
    lemma_total_dl_bounds(corpus, f, n);
    let total = total_dl_upto(corpus, f, n);
    let m = if n < 1 {
        1int
    } else {
        n
    };
    vstd::arithmetic::div_mod::lemma_div_pos_is_pos(total, m);
}

pub proof fn lemma_idf_bounds(corpus: Seq<DocView>, f: Field, t: Seq<char>)
    ensures
        1 <= idf(corpus, f, t) <= 1 + IDF_SCALE as int,
{
    let n = corpus.len() as int;
    lemma_df_upto_bounds(corpus, f, t, n);
    let nc = clamp_stat(n);
    let dfc = clamp_stat(df(corpus, f, t));
    assert(0 <= dfc <= nc);
    let m = if nc < 1 {
        1int
    } else {
        nc
    };
    let num = IDF_SCALE as int * (nc - dfc);
    vstd::arithmetic::div_mod::lemma_div_pos_is_pos(num, m);
    if nc < 1 {
        assert(num == 0);
    } else {
        vstd::arithmetic::mul::lemma_mul_inequality(nc - dfc, nc, IDF_SCALE as int);
        assert(num <= nc * IDF_SCALE as int);
        vstd::arithmetic::div_mod::lemma_div_is_ordered(num, nc * IDF_SCALE as int, nc);
        vstd::arithmetic::div_mod::lemma_div_by_multiple(IDF_SCALE as int, nc);
        assert((IDF_SCALE as int * nc) / nc == IDF_SCALE as int);
        assert(nc * IDF_SCALE as int == IDF_SCALE as int * nc);
    }
}

pub proof fn lemma_sat_weight_bounds(tf_v: int, dl_v: int, ad: int)
    requires
        tf_v >= 1,
        dl_v >= 0,
        1 <= ad <= STAT_CLAMP as int,
    ensures
        1 <= sat_weight(tf_v, dl_v, ad) <= 3 * TF_SCALE as int,
{
    let tfc = clamp_stat(tf_v);
    let dlc = clamp_stat(dl_v);
    assert(tfc >= 1);
    assert(tfc * ad >= 1) by (nonlinear_arith)
        requires
            tfc >= 1,
            ad >= 1,
    ;
    let prod = tfc * ad;
    let num = 12 * TF_SCALE as int * prod;
    let den = 4 * prod + 2 * (ad + 3 * dlc);
    assert(den >= 4 * prod);
    assert(num >= 0);
    vstd::arithmetic::div_mod::lemma_div_is_ordered_by_denominator(num, 4 * prod, den);
    vstd::arithmetic::div_mod::lemma_div_by_multiple(3 * TF_SCALE as int, 4 * prod);
    assert((3 * TF_SCALE as int) * (4 * (tfc * ad)) == 12 * TF_SCALE as int * (tfc * ad))
        by (nonlinear_arith);
    assert(num / (4 * prod) == 3 * TF_SCALE as int);
    assert(num / den <= 3 * TF_SCALE as int);
}

pub proof fn lemma_weight_bounds(corpus: Seq<DocView>, d: DocView, f: Field, t: Seq<char>)
    ensures
        0 <= weight(corpus, d, f, t) <= weight_max(),
        weight(corpus, d, f, t) > 0 <==> (t.len() > 0 && tf(d, f, t) >= 1),
{
    lemma_count_sq_bounds(field_tokens(d, f), t);
    if t.len() > 0 && tf(d, f, t) >= 1 {
        lemma_idf_bounds(corpus, f, t);
        lemma_avgdl_bounds(corpus, f);
        lemma_sat_weight_bounds(tf(d, f, t), dl(d, f), avgdl(corpus, f));
        let iv = idf(corpus, f, t);
        let sv = sat_weight(tf(d, f, t), dl(d, f), avgdl(corpus, f));
        assert(iv * sv >= 1) by (nonlinear_arith)
            requires
                iv >= 1,
                sv >= 1,
        ;
        assert(iv * sv <= weight_max()) by (nonlinear_arith)
            requires
                1 <= iv <= 1 + IDF_SCALE as int,
                1 <= sv <= 3 * TF_SCALE as int,
        ;
    }
}

pub proof fn lemma_term_score_bounds(corpus: Seq<DocView>, d: DocView, t: Seq<char>, b: FieldBoosts)
    ensures
        0 <= term_score(corpus, d, t, b) <= (b.title as int + b.description as int) * weight_max(),
        b.title >= 1 && b.description >= 1 ==> (term_score(corpus, d, t, b) > 0 <==> (t.len() > 0
            && (tf(d, Field::Title, t) >= 1 || tf(d, Field::Description, t) >= 1))),
{
    lemma_weight_bounds(corpus, d, Field::Title, t);
    lemma_weight_bounds(corpus, d, Field::Description, t);
    let wt = weight(corpus, d, Field::Title, t);
    let wd = weight(corpus, d, Field::Description, t);
    let bt = b.title as int;
    let bd = b.description as int;
    assert(0 <= bt * wt <= bt * weight_max()) by (nonlinear_arith)
        requires
            0 <= wt <= weight_max(),
            bt >= 0,
    ;
    assert(0 <= bd * wd <= bd * weight_max()) by (nonlinear_arith)
        requires
            0 <= wd <= weight_max(),
            bd >= 0,
    ;
    assert((bt + bd) * weight_max() == bt * weight_max() + bd * weight_max()) by (nonlinear_arith);
    if bt >= 1 && bd >= 1 {
        assert(wt > 0 ==> bt * wt > 0) by (nonlinear_arith)
            requires
                bt >= 1,
        ;
        assert(wd > 0 ==> bd * wd > 0) by (nonlinear_arith)
            requires
                bd >= 1,
        ;
        assert(wt == 0 ==> bt * wt == 0) by (nonlinear_arith);
        assert(wd == 0 ==> bd * wd == 0) by (nonlinear_arith);
    }
}

pub proof fn lemma_sum_scores_nonneg(corpus: Seq<DocView>, d: DocView, q: Seq<Seq<char>>, b: FieldBoosts)
    ensures
        sum_scores(corpus, d, q, b) >= 0,
    decreases q.len(),
{
    if q.len() > 0 {
        lemma_sum_scores_nonneg(corpus, d, q.drop_last(), b);
        lemma_term_score_bounds(corpus, d, q.last(), b);
    }
}

/// A document scores positively exactly when it shares a non-empty token
/// with the query, given positive boosts.
pub proof fn lemma_score_positive(corpus: Seq<DocView>, d: DocView, q: Seq<Seq<char>>, b: FieldBoosts)
    requires
        b.title >= 1,
        b.description >= 1,
    ensures
        doc_score(corpus, d, q, b) > 0 <==> matches_query(d, q),
    decreases q.len(),
{
    lemma_sum_scores_nonneg(corpus, d, q, b);
    if q.len() == 0 {
        assert(!matches_query(d, q));
    } else {
        let qd = q.drop_last();
        lemma_score_positive(corpus, d, qd, b);
        lemma_sum_scores_nonneg(corpus, d, qd, b);
        lemma_term_score_bounds(corpus, d, q.last(), b);
        if sum_scores(corpus, d, q, b) > 0 {
            if sum_scores(corpus, d, qd, b) > 0 {
                assert(matches_query(d, qd));
                let i = choose|i: int|
                    0 <= i < qd.len() && qd[i].len() > 0 && (tf(d, Field::Title, qd[i]) >= 1 || tf(
                        d,
                        Field::Description,
                        qd[i],
                    ) >= 1);
                assert(q[i] == qd[i]);
                assert(matches_query(d, q));
            } else {
                assert(term_score(corpus, d, q.last(), b) > 0);
                assert(q[q.len() - 1] == q.last());
                assert(matches_query(d, q));
            }
        }
        if matches_query(d, q) {
            let i = choose|i: int|
                0 <= i < q.len() && q[i].len() > 0 && (tf(d, Field::Title, q[i]) >= 1 || tf(
                    d,
                    Field::Description,
                    q[i],
                ) >= 1);
            if i < q.len() - 1 {
                assert(qd[i] == q[i]);
                assert(matches_query(d, qd));
                assert(sum_scores(corpus, d, qd, b) > 0);
            } else {
                assert(q[i] == q.last());
                assert(term_score(corpus, d, q.last(), b) > 0);
            }
            assert(sum_scores(corpus, d, q, b) > 0);
        }
    }
}

/// The token list of the requested field.
fn field_of<'a>(d: &'a IndexedDoc, f: Field) -> (r: &'a Vec<String>)
    ensures
        r.deep_view() == field_tokens(d@, f),
{
    match f {
        Field::Title => &d.title,
        Field::Description => &d.description,
    }
}

/// Counts how often the token `t` occurs in `ts`.
fn count_token(ts: &Vec<String>, t: &String) -> (r: usize)
    ensures
        r as int == count_sq(ts.deep_view(), t@),
        r <= ts.len(),
{
    let ghost dv = ts.deep_view();
    let mut c: usize = 0;
    let mut i: usize = 0;
    proof {
        assert(dv.take(0) =~= Seq::empty());
    }
    while i < ts.len()
        invariant
            0 <= i <= ts.len(),
            c <= i,
            dv == ts.deep_view(),
            c as int == count_sq(dv.take(i as int), t@),
        decreases ts.len() - i,
    {
        proof {
            assert(dv.take(i as int + 1).drop_last() =~= dv.take(i as int));
            assert(dv.take(i as int + 1).last() == ts@[i as int]@);
        }
        if ts[i] == *t {
            c = c + 1;
        }
        i = i + 1;
    }
    proof {
        assert(dv.take(ts.len() as int) =~= dv);
    }
    c
}

/// Term frequency of `t` in field `f` of the stored document `d`.
fn doc_tf(d: &IndexedDoc, f: Field, t: &String) -> (r: usize)
    ensures
        r as int == tf(d@, f, t@),
{
    count_token(field_of(d, f), t)
}

/// Document frequency of `t` in field `f` over all stored documents.
fn corpus_df(docs: &Vec<IndexedDoc>, f: Field, t: &String) -> (r: usize)
    ensures
        r as int == df(docs.deep_view(), f, t@),
        r <= docs.len(),
{
    let ghost corpus = docs.deep_view();
    let mut c: usize = 0;
    let mut i: usize = 0;
    while i < docs.len()
        invariant
            0 <= i <= docs.len(),
            c <= i,
            corpus == docs.deep_view(),
            c as int == df_upto(corpus, f, t@, i as int),
        decreases docs.len() - i,
    {
        let tf_v = doc_tf(&docs[i], f, t);
        proof {
            assert(corpus[i as int] == docs@[i as int]@);
        }
        if tf_v >= 1 {
            c = c + 1;
        }
        i = i + 1;
    }
    c
}

/// `x` clamped to the statistics cap, as an exec value.
fn clamp_stat_exec(x: usize) -> (r: u64)
    ensures
        r as int == clamp_stat(x as int),
        r <= STAT_CLAMP,
{
    if x > STAT_CLAMP as usize {
        STAT_CLAMP
    } else {
        x as u64
    }
}

/// The average clamped length of field `f` over all stored documents.
pub(crate) fn corpus_avgdl(docs: &Vec<IndexedDoc>, f: Field) -> (r: u64)
    ensures
        r as int == avgdl(docs.deep_view(), f),
{
    let ghost corpus = docs.deep_view();
    let mut total: u128 = 0;
    let mut i: usize = 0;
    while i < docs.len()
        invariant
            0 <= i <= docs.len(),
            corpus == docs.deep_view(),
            total as int == total_dl_upto(corpus, f, i as int),
            total as int <= i as int * (STAT_CLAMP as int),
        decreases docs.len() - i,
    {
        let dlv = field_of(&docs[i], f).len();
        let dlc = clamp_stat_exec(dlv);
        proof {
            assert(corpus[i as int] == docs@[i as int]@);
            assert((i as int + 1) * (STAT_CLAMP as int) == i as int * (STAT_CLAMP as int)
                + STAT_CLAMP as int) by (nonlinear_arith);
            assert(i as int * (STAT_CLAMP as int) <= u64::MAX as int * (STAT_CLAMP as int))
                by (nonlinear_arith)
                requires
                    0 <= i as int <= u64::MAX as int,
            ;
        }
        total = total + dlc as u128;
        i = i + 1;
    }
    let n = docs.len();
    let m: u128 = if n < 1 {
        1
    } else {
        n as u128
    };
    let avg = total / m;
    let a1: u128 = if avg < 1 {
        1
    } else {
        avg
    };
    if a1 > STAT_CLAMP as u128 {
        STAT_CLAMP
    } else {
        a1 as u64
    }
}

/// The unboosted weight of query token `t` in field `f` of document `d`,
/// given the precomputed average field length.
fn token_field_weight(docs: &Vec<IndexedDoc>, d: &IndexedDoc, f: Field, t: &String, ad: u64) -> (r:
    u64)
    requires
        ad as int == avgdl(docs.deep_view(), f),
    ensures
        r as int == weight(docs.deep_view(), d@, f, t@),
{
    let ghost corpus = docs.deep_view();
    proof {
        lemma_avgdl_bounds(corpus, f);
        lemma_weight_bounds(corpus, d@, f, t@);
    }
    if t.as_str().is_empty() {
        return 0;
    }
    let tf_v = doc_tf(d, f, t);
    if tf_v == 0 {
        return 0;
    }
    let df_v = corpus_df(docs, f, t);
    let n = docs.len();
    proof {
        lemma_df_upto_bounds(corpus, f, t@, corpus.len() as int);
    }
    let nc = clamp_stat_exec(n);
    let dfc = clamp_stat_exec(df_v);
    let m: u64 = if nc < 1 {
        1
    } else {
        nc
    };
    proof {
        lemma_idf_bounds(corpus, f, t@);
    }
    let idf_v: u64 = 1 + (IDF_SCALE * (nc - dfc)) / m;
    let tfc = clamp_stat_exec(tf_v);
    let dlc = clamp_stat_exec(field_of(d, f).len());
    proof {
        assert(tfc as int * ad as int <= STAT_CLAMP as int * STAT_CLAMP as int)
            by (nonlinear_arith)
            requires
                0 <= tfc as int <= STAT_CLAMP as int,
                0 <= ad as int <= STAT_CLAMP as int,
        ;
        assert(tfc as int * ad as int >= 1) by (nonlinear_arith)
            requires
                tfc as int >= 1,
                ad as int >= 1,
        ;
        lemma_sat_weight_bounds(tf_v as int, field_tokens(d@, f).len() as int, ad as int);
    }
    let prod: u64 = tfc * ad;
    let num: u64 = 12 * TF_SCALE * prod;
    let den: u64 = 4 * prod + 2 * (ad + 3 * dlc);
    let q = num / den;
    let sat: u64 = if q < 1 {
        1
    } else {
        q
    };
    idf_v * sat
}

/// The relevance score of the stored document `d` for the query tokens
/// `q`, given both precomputed average field lengths.
pub(crate) fn doc_score_exec(
    docs: &Vec<IndexedDoc>,
    d: &IndexedDoc,
    q: &Vec<String>,
    b: FieldBoosts,
    ad_title: u64,
    ad_description: u64,
) -> (r: u64)
    requires
        ad_title as int == avgdl(docs.deep_view(), Field::Title),
        ad_description as int == avgdl(docs.deep_view(), Field::Description),
    ensures
        r as int == doc_score(docs.deep_view(), d@, q.deep_view(), b),
{
    let ghost corpus = docs.deep_view();
    let ghost qv = q.deep_view();
    let mut acc: u64 = 0;
    let mut i: usize = 0;
    proof {
        assert(qv.take(0) =~= Seq::empty());
    }
    while i < q.len()
        invariant
            0 <= i <= q.len(),
            corpus == docs.deep_view(),
            qv == q.deep_view(),
            ad_title as int == avgdl(corpus, Field::Title),
            ad_description as int == avgdl(corpus, Field::Description),
            acc as int == clamp_score(sum_scores(corpus, d@, qv.take(i as int), b)),
        decreases q.len() - i,
    {
        let t = &q[i];
        proof {
            assert(qv[i as int] == q@[i as int]@);
        }
        let wt = token_field_weight(docs, d, Field::Title, t, ad_title);
        let wd = token_field_weight(docs, d, Field::Description, t, ad_description);
        proof {
            lemma_weight_bounds(corpus, d@, Field::Title, t@);
            lemma_weight_bounds(corpus, d@, Field::Description, t@);
            assert(b.title as int * wt as int <= u64::MAX as int * weight_max())
                by (nonlinear_arith)
                requires
                    0 <= b.title as int <= u64::MAX as int,
                    0 <= wt as int <= weight_max(),
            ;
            assert(b.description as int * wd as int <= u64::MAX as int * weight_max())
                by (nonlinear_arith)
                requires
                    0 <= b.description as int <= u64::MAX as int,
                    0 <= wd as int <= weight_max(),
            ;
            assert(b.title as int * wt as int >= 0) by (nonlinear_arith)
                requires
                    b.title as int >= 0,
                    wt as int >= 0,
            ;
            assert(b.description as int * wd as int >= 0) by (nonlinear_arith)
                requires
                    b.description as int >= 0,
                    wd as int >= 0,
            ;
            assert(qv.take(i as int + 1).drop_last() =~= qv.take(i as int));
            assert(qv.take(i as int + 1).last() == qv[i as int]);
        }
        let term: u128 = (b.title as u128) * (wt as u128) + (b.description as u128) * (wd
            as u128);
        proof {
            assert(term as int == term_score(corpus, d@, qv[i as int], b));
        }
        let headroom: u64 = u64::MAX - acc;
        if term > headroom as u128 {
            acc = u64::MAX;
        } else {
            acc = acc + (term as u64);
        }
        i = i + 1;
    }
    proof {
        assert(qv.take(q.len() as int) =~= qv);
    }
    acc
}

} // verus!
