//! The query orchestrator: one `search` operation over the index, and the
//! merge of its ranked keys with records fetched from the external store.
//!
//! A full search runs in three steps. `search_ranked` expands and scores
//! the query and orders the matches; the caller fetches the records for
//! the ranked keys from its store in one batched lookup; `merge_records`
//! then lines the fetched records up in ranked order, silently dropping
//! keys the store no longer knows.

use vstd::prelude::*;
use vstd::relations::{sorted_by, total_ordering};
use crate::engine::{expansion_of, IndexEngine};
use crate::error::SearchError;
use crate::levenshtein::LimitOption;
use crate::score::{results_of, FieldBoosts};
use crate::tokenize::tokens_of;
use crate::types::{ItemSearch, ItemView};

verus! {

/// Whether a query is scored as written or autocorrect-expanded first,
/// and with which budget policy.
pub enum AutocorrectPolicy {
    Off,
    On(LimitOption),
}

/// The token sequence a search actually scores: the raw query's tokens,
/// expanded when the policy asks for it.
pub open spec fn effective_query(
    vocab: Seq<Seq<char>>,
    q: Seq<Seq<char>>,
    policy: AutocorrectPolicy,
) -> Seq<Seq<char>> {
    match policy {
        AutocorrectPolicy::Off => q,
        AutocorrectPolicy::On(l) => expansion_of(vocab, q, l),
    }
}

/// The ranking order: strictly higher scores first, equal scores by
/// ascending document key. The explicit key tie-break makes the final
/// order deterministic and independent of sort internals.
pub open spec fn rank_le(a: (i64, u64), b: (i64, u64)) -> bool {
    a.1 > b.1 || (a.1 == b.1 && a.0 <= b.0)
}

/// The ranking order as a relation value, for sorting specifications.
pub open spec fn rank_leq() -> spec_fn((i64, u64), (i64, u64)) -> bool {
    |x: (i64, u64), y: (i64, u64)| rank_le(x, y)
}

/// The ranking order is total, so it sorts every result list into exactly
/// one order.
pub proof fn lemma_rank_le_total()
    ensures
        total_ordering(rank_leq()),
{
    let leq = rank_leq();
    assert forall|x: (i64, u64), y: (i64, u64)| #[trigger] leq(x, y) && #[trigger] leq(y, x)
        implies x == y by {
        assert(x.1 == y.1 && x.0 == y.0);
        assert(x == (x.0, x.1));
        assert(y == (y.0, y.1));
    }
}

fn rank_le_exec(a: (i64, u64), b: (i64, u64)) -> (r: bool)
    ensures
        r == rank_le(a, b),
{
    a.1 > b.1 || (a.1 == b.1 && a.0 <= b.0)
}

/// Sorts ranked results into the ranking order in place.
fn sort_ranked(v: &mut Vec<(i64, u64)>)
    ensures
        final(v)@.to_multiset() == old(v)@.to_multiset(),
        sorted_by(final(v)@, rank_leq()),
{
    proof {
        lemma_rank_le_total();
    }
    if v.len() < 2 {
        return;
    }
    let mut i: usize = 1;
    while i < v.len()
        invariant
            1 <= i <= v.len(),
            v@.len() == old(v)@.len(),
            v@.to_multiset() == old(v)@.to_multiset(),
            sorted_by(v@.take(i as int), rank_leq()),
        decreases v.len() - i,
    {
        let mut j: usize = i;
        proof {
            assert forall|k: int, l: int|
                #![trigger v@[k], v@[l]]
                0 <= k < l <= i && l != i implies rank_le(v@[k], v@[l]) by {
                assert(v@.take(i as int)[k] == v@[k]);
                assert(v@.take(i as int)[l] == v@[l]);
                assert(rank_leq()(v@.take(i as int)[k], v@.take(i as int)[l]));
            }
        }
        while j > 0 && !rank_le_exec(v[j - 1], v[j])
            invariant
                0 <= j <= i < v.len(),
                v@.len() == old(v)@.len(),
                v@.to_multiset() == old(v)@.to_multiset(),
                forall|k: int, l: int|
                    #![trigger v@[k], v@[l]]
                    0 <= k < l <= i && l != j ==> rank_le(v@[k], v@[l]),
            decreases j,
        {
            let ghost pre = v@;
            proof {
                lemma_rank_le_total();
                assert(!rank_le(pre[j - 1], pre[j as int]));
                assert(rank_leq()(pre[j as int], pre[j - 1]) || rank_leq()(
                    pre[j - 1],
                    pre[j as int],
                ));
                assert(rank_le(pre[j as int], pre[j - 1]));
            }
            let x = v.remove(j);
            v.insert(j - 1, x);
            proof {
                let mid = pre.remove(j as int);
                assert(v@ == mid.insert(j - 1, x));
                pre.remove_ensures(j as int);
                mid.insert_ensures(j - 1, x);
                vstd::seq_lib::to_multiset_remove(pre, j as int);
                vstd::seq_lib::to_multiset_insert(mid, j - 1, x);
                broadcast use vstd::multiset::group_multiset_axioms;
                vstd::seq_lib::to_multiset_contains(pre, pre[j as int]);
                assert(pre.contains(pre[j as int]));
                assert(v@.to_multiset() =~= pre.to_multiset());
                assert(v@[j - 1] == pre[j as int]);
                assert(v@[j as int] == mid[j - 1]);
                assert(mid[j - 1] == pre[j - 1]);
                assert forall|t: int| 0 <= t < pre.len() && t != j - 1 && t != j implies v@[t]
                    == pre[t] by {
                    if t < j - 1 {
                        assert(v@[t] == mid[t]);
                        assert(mid[t] == pre[t]);
                    } else {
                        assert(v@[t] == mid[t - 1]);
                        assert(mid[t - 1] == pre[t]);
                    }
                }
                assert forall|k: int, l: int|
                    #![trigger v@[k], v@[l]]
                    0 <= k < l <= i && l != j - 1 implies rank_le(v@[k], v@[l]) by {
                    if l == j {
                        if k < j - 1 {
                            assert(rank_le(pre[k], pre[j - 1]));
                        }
                    } else {
                        if k == j - 1 {
                            assert(rank_le(pre[j as int], pre[l]));
                        } else if k == j {
                            assert(rank_le(pre[j - 1], pre[l]));
                        } else {
                            assert(rank_le(pre[k], pre[l]));
                        }
                    }
                }
            }
            j = j - 1;
        }
        proof {
            lemma_rank_le_total();
            if j > 0 {
                assert(rank_le(v@[j - 1], v@[j as int]));
            }
            assert forall|k: int, l: int|
                #![trigger v@[k], v@[l]]
                0 <= k < l <= i implies rank_le(v@[k], v@[l]) by {
                if l == j && k < j - 1 {
                    assert(rank_le(v@[k], v@[j - 1]));
                    assert(rank_leq()(v@[k], v@[j - 1]));
                    assert(rank_leq()(v@[j - 1], v@[j as int]));
                }
            }
            assert forall|k: int, l: int|
                0 <= k < l < i + 1 implies rank_leq()(
                #[trigger] v@.take(i as int + 1)[k],
                #[trigger] v@.take(i as int + 1)[l],
            ) by {
                assert(v@.take(i as int + 1)[k] == v@[k]);
                assert(v@.take(i as int + 1)[l] == v@[l]);
                assert(rank_le(v@[k], v@[l]));
            }
        }
        i = i + 1;
    }
    proof {
        assert(v@.take(v@.len() as int) =~= v@);
    }
}

impl IndexEngine {
    /// The sole read entry point: scores the query under the autocorrect
    /// policy and returns the matching document keys with their scores,
    /// best first. A query that scores no document at all, the empty
    /// query included, is the distinguished no-matches outcome, not an
    /// error.
    pub fn search_ranked(
        &self,
        query: &str,
        fields_boost: FieldBoosts,
        policy: &AutocorrectPolicy,
    ) -> (r: Result<Vec<(i64, u64)>, SearchError>)
        requires
            self@.wf(),
        ensures
            ({
                let rs = results_of(
                    self@.corpus,
                    effective_query(self@.vocab, tokens_of(query@), *policy),
                    fields_boost,
                );
                match r {
                    Ok(ranked) => rs.len() > 0 && ranked@ == rs.sort_by(rank_leq()),
                    Err(e) => e == SearchError::NoMatches && rs.len() == 0,
                }
            }),
    {
        let mut results = match policy {
            AutocorrectPolicy::Off => self.query(query, fields_boost),
            AutocorrectPolicy::On(limit) => self.query_with_autocorrect(
                query,
                fields_boost,
                limit,
            ),
        };
        if results.is_empty() {
            return Err(SearchError::NoMatches);
        }
        let ghost rs = results@;
        sort_ranked(&mut results);
        proof {
            lemma_rank_le_total();
            rs.lemma_sort_by_ensures(rank_leq());
            vstd::seq_lib::lemma_sorted_unique(results@, rs.sort_by(rank_leq()), rank_leq());
        }
        Ok(results)
    }
}

/// The first record of `recs` whose key equals `id`, if any.
pub open spec fn first_with(recs: Seq<ItemView>, id: i64) -> Option<ItemView>
    decreases recs.len(),
{
    if recs.len() == 0 {
        Option::None
    } else if recs[0].id as i64 == id {
        Some(recs[0])
    } else {
        first_with(recs.drop_first(), id)
    }
}

/// The fetched records lined up in ranked order: for each ranked key in
/// turn, its record if the store returned one; keys the store does not
/// know are dropped.
pub open spec fn merge_spec(ids: Seq<i64>, recs: Seq<ItemView>) -> Seq<ItemView>
    decreases ids.len(),
{
    if ids.len() == 0 {
        Seq::empty()
    } else {
        merge_spec(ids.drop_last(), recs) + (match first_with(recs, ids.last()) {
            Some(r) => seq![r],
            Option::None => Seq::empty(),
        })
    }
}

/// The first stored record keyed `id`, cloned, if the store returned one.
fn find_record(records: &Vec<ItemSearch>, id: i64) -> (r: Option<ItemSearch>)
    ensures
        match r {
            Some(rec) => first_with(records.deep_view(), id) == Some(rec@),
            Option::None => first_with(records.deep_view(), id) is None,
        },
{
    let ghost rv = records.deep_view();
    let mut j: usize = 0;
    proof {
        assert(rv.skip(0) =~= rv);
    }
    while j < records.len()
        invariant
            0 <= j <= records.len(),
            rv == records.deep_view(),
            first_with(rv, id) == first_with(rv.skip(j as int), id),
        decreases records.len() - j,
    {
        proof {
            assert(rv.skip(j as int)[0] == rv[j as int]);
            assert(rv[j as int] == records@[j as int]@);
            assert(rv.skip(j as int).drop_first() =~= rv.skip(j as int + 1));
        }
        if records[j].id as i64 == id {
            let found = records[j].clone();
            return Some(found);
        }
        j = j + 1;
    }
    proof {
        assert(rv.skip(records.len() as int) =~= Seq::<ItemView>::empty());
    }
    Option::None
}

/// Orders the fetched records by the ranked key list: each key's record
/// in ranked position, keys absent from the store silently dropped, so
/// the output keeps the score-descending order of the ranking.
pub fn merge_records(ids: &Vec<i64>, records: &Vec<ItemSearch>) -> (r: Vec<ItemSearch>)
    ensures
        r.deep_view() == merge_spec(ids@, records.deep_view()),
{
    let ghost iv = ids@;
    let ghost rv = records.deep_view();
    let mut out: Vec<ItemSearch> = Vec::new();
    let mut i: usize = 0;
    proof {
        assert(iv.take(0) =~= Seq::<i64>::empty());
        assert(out.deep_view() =~= merge_spec(iv.take(0), rv));
    }
    while i < ids.len()
        invariant
            0 <= i <= ids.len(),
            iv == ids@,
            rv == records.deep_view(),
            out.deep_view() == merge_spec(iv.take(i as int), rv),
        decreases ids.len() - i,
    {
        proof {
            assert(iv.take(i as int + 1).drop_last() =~= iv.take(i as int));
            assert(iv.take(i as int + 1).last() == iv[i as int]);
        }
        match find_record(records, ids[i]) {
            Some(rec) => {
                out.push(rec);
                proof {
                    assert(out.deep_view() =~= merge_spec(iv.take(i as int), rv) + seq![
                        first_with(rv, iv[i as int])->0,
                    ]);
                }
            },
            Option::None => {
                proof {
                    assert(merge_spec(iv.take(i as int + 1), rv) =~= merge_spec(
                        iv.take(i as int),
                        rv,
                    ));
                }
            },
        }
        i = i + 1;
    }
    proof {
        assert(iv.take(ids.len() as int) =~= iv);
    }
    out
}

/// The ranked keys alone, in ranked order.
pub fn ranked_ids(ranked: &Vec<(i64, u64)>) -> (r: Vec<i64>)
    ensures
        r@ == ranked@.map_values(|p: (i64, u64)| p.0),
{
    let ghost pv = ranked@;
    let mut out: Vec<i64> = Vec::new();
    let mut i: usize = 0;
    while i < ranked.len()
        invariant
            0 <= i <= ranked.len(),
            pv == ranked@,
            out@ == pv.take(i as int).map_values(|p: (i64, u64)| p.0),
        decreases ranked.len() - i,
    {
        out.push(ranked[i].0);
        proof {
            assert(out@ =~= pv.take(i as int + 1).map_values(|p: (i64, u64)| p.0));
        }
        i = i + 1;
    }
    proof {
        assert(pv.take(ranked.len() as int) =~= pv);
    }
    out
}

} // verus!
