//! The answer to a request to score.

use crate::dataset::{Dataset, PADDED_DIMS};
use crate::neighbours::K;
use crate::response::{
    not_found_response, not_found_text, verdict_response, verdict_text,
};
use crate::search::{
    distance, is_vote, knn_search, lemma_votes_are_not_negative, the_nearest_records_vote,
    vote_counts_frauds,
};
use vstd::prelude::*;

verus! {

/// Answers a request to score a transaction: with the verdict of its neighbours, or
/// that there is no such thing if it could not be turned into a query. There is no
/// answer, and `None` is returned, where the votes add up to more than `K`, which
/// takes labels above 1.
pub fn score(ds: &Dataset, query: Option<[u8; PADDED_DIMS]>) -> (resp: Option<&'static str>)
    requires
        ds.wf(),
    ensures
        match query {
            Some(query) => exists|fraud: int| #[trigger]
                is_vote(fraud, ds@, query@) && match resp {
                    Some(resp) => fraud <= K && resp@ == verdict_text(fraud),
                    None => fraud > K,
                },
            None => resp matches Some(resp) && resp@ == not_found_text(),
        },
        (forall|i: int| 0 <= i < ds@.len() ==> (#[trigger] ds@[i]).label <= 1) ==> resp is Some,
{
    match query {
        Some(query) => {
            let fraud: u32 = knn_search(ds, &query);
            assert(is_vote(fraud as int, ds@, query@));
            if fraud <= K as u32 {
                Some(verdict_response(fraud))
            } else {
                proof {
                    if forall|i: int| 0 <= i < ds@.len() ==> (#[trigger] ds@[i]).label <= 1 {
                        vote_counts_frauds(fraud as int, ds@, query@);
                    }
                }
                None
            }
        },
        None => Some(not_found_response()),
    }
}

/// A transaction that could not be read is answered as any request for nothing, and one
/// that could with the verdict on the frauds among the five records nearest to it: they
/// are `near`, no record that is not among them is closer, and their labels add up to
/// the frauds. More than five frauds have no verdict.
pub proof fn the_nearest_records_decide(
    ds: &Dataset,
    query: Option<[u8; PADDED_DIMS]>,
    resp: Option<&'static str>,
    not_found: &'static str,
) -> (near: Seq<int>)
    requires
        call_ensures(score, (ds, query), resp),
        call_ensures(not_found_response, (), not_found),
    ensures
        ds.wf() ==> call_requires(score, (ds, query)),
        query is None ==> (resp matches Some(resp) && resp@ == not_found@),
        query matches Some(query) ==> {
            let fraud = near.fold_left(0int, |sum: int, i: int| sum + ds@[i].label);
            &&& near.no_duplicates()
            &&& near.len() == if ds@.len() < 5 {
                ds@.len()
            } else {
                5
            }
            &&& forall|k: int| 0 <= k < near.len() ==> 0 <= #[trigger] near[k] < ds@.len()
            &&& forall|k: int, j: int|
                0 <= k < near.len() && 0 <= j < ds@.len() && !near.contains(j) ==> distance(
                    query@,
                    ds@[#[trigger] near[k]].vector,
                ) <= distance(query@, (#[trigger] ds@[j]).vector)
            &&& resp is Some <==> fraud <= 5
            &&& forall|verdict: &'static str|
                #![trigger call_ensures(verdict_response, (fraud as u32,), verdict)]
                fraud <= 5 && call_ensures(verdict_response, (fraud as u32,), verdict)
                    ==> resp->0@ == verdict@
        },
{
    match query {
        Some(query) => {
            let fraud = choose|fraud: int| #[trigger]
                is_vote(fraud, ds@, query@) && match resp {
                    Some(resp) => fraud <= K && resp@ == verdict_text(fraud),
                    None => fraud > K,
                };
            lemma_votes_are_not_negative(fraud, ds@, query@);
            the_nearest_records_vote(fraud, ds@, query@)
        },
        None => Seq::empty(),
    }
}

} // verus!
