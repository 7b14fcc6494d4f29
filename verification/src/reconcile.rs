//! The barcode reconciler.  The table is partitioned once into endpoints
//! (count strictly above `threshold_count`) and candidates (the rest); each
//! candidate, taken in ascending order of count, is folded into an endpoint
//! at least edit distance from it when that distance is within
//! `threshold_distance`, the endpoint being drawn from the tied nearest ones.
//! Endpoints are frozen at partition time: merging never removes one nor
//! promotes a candidate.

use vstd::prelude::*;

use crate::distance::at_distance;
use crate::distance::edit_distance;
use crate::distance::endpoints_at_distance;
use crate::distance::lemma_at_distance_members;
use crate::distance::lemma_min_achieved;
use crate::distance::min_distance;
use crate::distance::min_edit_distance;
use crate::table::distinct_keys;
use crate::table::lemma_count_at_index;
use crate::table::lemma_pair_le_sum;
use crate::table::lemma_count_absent;
use crate::table::same_entries;
use crate::table::sort_entries_ascending;
use crate::table::tbl_contains;
use crate::table::tbl_count;
use crate::table::tbl_sum;
use crate::table::FreqTable;

verus! {

/// `k` is an endpoint of `t`: present with a count strictly above the
/// threshold.
pub open spec fn is_endpoint(t: Seq<(Seq<char>, u64)>, tc: u64, k: Seq<char>) -> bool {
    tbl_contains(t, k) && tbl_count(t, k) > tc
}

/// Whether `t` has any endpoint at all.
pub open spec fn has_endpoint(t: Seq<(Seq<char>, u64)>, tc: u64) -> bool {
    exists|k: Seq<char>| is_endpoint(t, tc, k)
}

/// The endpoint barcodes of `t`, in table order.
pub open spec fn endpoint_keys(t: Seq<(Seq<char>, u64)>, tc: u64) -> Seq<Seq<char>>
    decreases t.len(),
{
    if t.len() == 0 {
        Seq::empty()
    } else {
        let rest = endpoint_keys(t.drop_last(), tc);
        if t.last().1 > tc {
            rest.push(t.last().0)
        } else {
            rest
        }
    }
}

/// The candidate entries of `t` (count at or below the threshold), in table
/// order, each with its pre-merge count.
pub open spec fn candidate_entries(t: Seq<(Seq<char>, u64)>, tc: u64) -> Seq<(Seq<char>, u64)>
    decreases t.len(),
{
    if t.len() == 0 {
        Seq::empty()
    } else {
        let rest = candidate_entries(t.drop_last(), tc);
        if t.last().1 <= tc {
            rest.push(t.last())
        } else {
            rest
        }
    }
}

/// A candidate barcode merges exactly when some endpoint exists and the
/// nearest endpoint is within the distance threshold.
pub open spec fn mergeable(t: Seq<(Seq<char>, u64)>, tc: u64, td: usize, k: Seq<char>) -> bool {
    has_endpoint(t, tc) && min_edit_distance(k, endpoint_keys(t, tc)) <= td
}

/// `t1` is `t0` with candidate `cand` folded into endpoint `e`: the
/// candidate's entry is gone and its count now sits on `e`.
pub open spec fn merged_into(
    t0: Seq<(Seq<char>, u64)>,
    t1: Seq<(Seq<char>, u64)>,
    cand: Seq<char>,
    e: Seq<char>,
) -> bool {
    &&& forall|k: Seq<char>| tbl_contains(t1, k) == (tbl_contains(t0, k) && k != cand)
    &&& forall|k: Seq<char>|
        tbl_count(t1, k) == if k == cand {
            0u64
        } else if k == e {
            (tbl_count(t0, e) + tbl_count(t0, cand)) as u64
        } else {
            tbl_count(t0, k)
        }
}

/// The total candidate count that the assignment `tg` folds into endpoint
/// `k`, over the first `upto` candidates of `cands`.
pub open spec fn absorbed_sum(
    cands: Seq<(Seq<char>, u64)>,
    tg: Seq<Option<Seq<char>>>,
    upto: int,
    k: Seq<char>,
) -> int
    decreases upto,
{
    if upto <= 0 {
        0
    } else {
        absorbed_sum(cands, tg, upto - 1, k) + if 0 <= upto - 1 < tg.len() && tg[upto - 1]
            == Some(k) {
            cands[upto - 1].1 as int
        } else {
            0int
        }
    }
}

/// `tg` records, for each candidate of `cands`, either that no endpoint was
/// near enough, or which endpoint took its count — always one at the least
/// edit distance, itself within the distance threshold.
pub open spec fn valid_assignment(
    t0: Seq<(Seq<char>, u64)>,
    tc: u64,
    td: usize,
    cands: Seq<(Seq<char>, u64)>,
    tg: Seq<Option<Seq<char>>>,
) -> bool {
    &&& tg.len() == cands.len()
    &&& forall|j: int|
        #![trigger tg[j]]
        0 <= j < tg.len() ==> match tg[j] {
            Some(e) => is_endpoint(t0, tc, e) && edit_distance(cands[j].0, e)
                == min_edit_distance(cands[j].0, endpoint_keys(t0, tc)) && min_edit_distance(
                cands[j].0,
                endpoint_keys(t0, tc),
            ) <= td,
            None => min_edit_distance(cands[j].0, endpoint_keys(t0, tc)) > td,
        }
}

/// The endpoint counts of `t1` are explained by a valid absorption record:
/// an enumeration `cands` of `t0`'s candidates and an assignment `tg` of
/// each to a nearest endpoint (or to none), with every endpoint's new count
/// being its old count plus exactly what was assigned to it.
pub open spec fn absorb_record(
    t0: Seq<(Seq<char>, u64)>,
    tc: u64,
    td: usize,
    t1: Seq<(Seq<char>, u64)>,
    cands: Seq<(Seq<char>, u64)>,
    tg: Seq<Option<Seq<char>>>,
) -> bool {
    &&& same_entries(candidate_entries(t0, tc), cands)
    &&& distinct_keys(cands)
    &&& valid_assignment(t0, tc, td, cands, tg)
    &&& forall|k: Seq<char>|
        is_endpoint(t0, tc, k) ==> tbl_count(t1, k) == tbl_count(t0, k) + absorbed_sum(
            cands,
            tg,
            cands.len() as int,
            k,
        )
}

/// What reconciliation guarantees of the output table `t1` against the input
/// `t0`: the total count is conserved; a barcode survives exactly when it is
/// an endpoint or a candidate that no endpoint is near enough to absorb;
/// surviving candidates keep their counts; endpoint counts never shrink and
/// are accounted for by an absorption record over nearest endpoints; and
/// with no endpoint at all the table is returned untouched.
pub open spec fn reconciled(
    t0: Seq<(Seq<char>, u64)>,
    t1: Seq<(Seq<char>, u64)>,
    tc: u64,
    td: usize,
) -> bool {
    &&& tbl_sum(t1) == tbl_sum(t0)
    &&& forall|k: Seq<char>|
        tbl_contains(t1, k) == (tbl_contains(t0, k) && (tbl_count(t0, k) > tc || !mergeable(
            t0,
            tc,
            td,
            k,
        )))
    &&& forall|k: Seq<char>|
        tbl_contains(t1, k) && tbl_count(t0, k) <= tc ==> tbl_count(t1, k) == tbl_count(t0, k)
    &&& forall|k: Seq<char>| is_endpoint(t0, tc, k) ==> tbl_count(t1, k) >= tbl_count(t0, k)
    &&& (has_endpoint(t0, tc) ==> exists|cands: Seq<(Seq<char>, u64)>, tg: Seq<Option<Seq<char>>>|
        absorb_record(t0, tc, td, t1, cands, tg))
    &&& (!has_endpoint(t0, tc) ==> t1 == t0)
}

/// Extending an assignment never changes what the candidates already
/// assigned contributed.
pub proof fn lemma_absorbed_push(
    cands: Seq<(Seq<char>, u64)>,
    tg: Seq<Option<Seq<char>>>,
    x: Option<Seq<char>>,
    upto: int,
    k: Seq<char>,
)
    requires
        0 <= upto <= tg.len(),
    ensures
        absorbed_sum(cands, tg.push(x), upto, k) == absorbed_sum(cands, tg, upto, k),
    decreases upto,
{
    if upto > 0 {
        lemma_absorbed_push(cands, tg, x, upto - 1, k);
    }
}

/// The partition of a distinct-keyed table into endpoint barcodes and
/// candidate entries is exact: each side carries entries of `t` on its side
/// of the threshold, covers all of them, and keeps barcodes distinct.
pub proof fn lemma_partition(t: Seq<(Seq<char>, u64)>, tc: u64)
    requires
        distinct_keys(t),
    ensures
        forall|j: int|
            0 <= j < endpoint_keys(t, tc).len() ==> tbl_contains(
                t,
                #[trigger] endpoint_keys(t, tc)[j],
            ) && tbl_count(t, endpoint_keys(t, tc)[j]) > tc,
        forall|j: int|
            0 <= j < candidate_entries(t, tc).len() ==> tbl_contains(
                t,
                (#[trigger] candidate_entries(t, tc)[j]).0,
            ) && tbl_count(t, candidate_entries(t, tc)[j].0) == candidate_entries(t, tc)[j].1
                && candidate_entries(t, tc)[j].1 <= tc,
        forall|k: Seq<char>|
            tbl_contains(t, k) && tbl_count(t, k) > tc ==> endpoint_keys(t, tc).contains(k),
        forall|k: Seq<char>|
            tbl_contains(t, k) && tbl_count(t, k) <= tc ==> exists|j: int|
                0 <= j < candidate_entries(t, tc).len() && candidate_entries(t, tc)[j].0 == k,
        distinct_keys(candidate_entries(t, tc)),
    decreases t.len(),
{
    if t.len() > 0 {
        let s = t.drop_last();
        let last = t.last();
        assert(forall|a: int, b: int| 0 <= a < b < s.len() ==> s[a].0 != s[b].0);
        lemma_partition(s, tc);
        let es = endpoint_keys(t, tc);
        let cs = candidate_entries(t, tc);
        let es0 = endpoint_keys(s, tc);
        let cs0 = candidate_entries(s, tc);
        // the last entry's barcode is fresh in `s`
        assert(!tbl_contains(s, last.0)) by {
            if tbl_contains(s, last.0) {
                let j = choose|j: int| 0 <= j < s.len() && s[j].0 == last.0;
                assert(t[j].0 == t[t.len() - 1].0);
            }
        }
        // counts and membership in `t` against `s`
        assert forall|k: Seq<char>| tbl_contains(s, k) implies tbl_contains(t, k) by {
            let j = choose|j: int| 0 <= j < s.len() && s[j].0 == k;
            assert(t[j].0 == k);
        }
        assert forall|k: Seq<char>| tbl_contains(t, k) implies (tbl_contains(s, k) || k
            == last.0) by {
            let j = choose|j: int| 0 <= j < t.len() && t[j].0 == k;
            if j < t.len() - 1 {
                assert(s[j].0 == k);
            }
        }
        assert(tbl_count(t, last.0) == last.1);
        assert forall|k: Seq<char>| k != last.0 implies tbl_count(t, k) == tbl_count(s, k) by {}
        // entry-wise facts transfer
        assert forall|j: int|
            0 <= j < es.len() implies tbl_contains(t, #[trigger] es[j]) && tbl_count(t, es[j])
            > tc by {
            if last.1 > tc {
                if j < es0.len() {
                    assert(es[j] == es0[j]);
                    assert(es0[j] != last.0);
                } else {
                    assert(es[j] == last.0);
                    assert(t[t.len() - 1].0 == last.0);
                }
            } else {
                assert(es[j] == es0[j]);
                assert(es0[j] != last.0);
            }
        }
        assert forall|j: int|
            0 <= j < cs.len() implies tbl_contains(t, (#[trigger] cs[j]).0) && tbl_count(
            t,
            cs[j].0,
        ) == cs[j].1 && cs[j].1 <= tc by {
            if last.1 <= tc {
                if j < cs0.len() {
                    assert(cs[j] == cs0[j]);
                    assert(cs0[j].0 != last.0);
                } else {
                    assert(cs[j] == last);
                    assert(t[t.len() - 1].0 == last.0);
                }
            } else {
                assert(cs[j] == cs0[j]);
                assert(cs0[j].0 != last.0);
            }
        }
        // coverage
        assert forall|k: Seq<char>| tbl_contains(t, k) && tbl_count(t, k) > tc implies es.contains(
            k,
        ) by {
            if k == last.0 {
                assert(last.1 > tc);
                assert(es[es.len() - 1] == k);
            } else {
                assert(tbl_contains(s, k));
                assert(es0.contains(k));
                let j = choose|j: int| 0 <= j < es0.len() && es0[j] == k;
                assert(es[j] == k);
            }
        }
        assert forall|k: Seq<char>| tbl_contains(t, k) && tbl_count(t, k) <= tc implies exists|
            j: int,
        | 0 <= j < cs.len() && cs[j].0 == k by {
            if k == last.0 {
                assert(last.1 <= tc);
                assert(cs[cs.len() - 1].0 == k);
            } else {
                assert(tbl_contains(s, k));
                let j = choose|j: int| 0 <= j < cs0.len() && cs0[j].0 == k;
                assert(cs[j].0 == k);
            }
        }
        // distinctness of candidate barcodes
        assert forall|a: int, b: int| 0 <= a < b < cs.len() implies cs[a].0 != cs[b].0 by {
            if last.1 <= tc && b == cs.len() - 1 {
                assert(cs[a] == cs0[a]);
                assert(cs0[a].0 != last.0);
            } else {
                assert(cs[a] == cs0[a]);
                assert(cs[b] == cs0[b]);
            }
        }
    }
}

/// Split the table's entries into the endpoint barcodes and the candidate
/// entries, without touching the table.
fn partition(table: &FreqTable, threshold_count: u64) -> (r: (Vec<String>, Vec<(String, u64)>))
    ensures
        r.0.deep_view() == endpoint_keys(table@, threshold_count),
        r.1.deep_view() == candidate_entries(table@, threshold_count),
{
    let n: usize = table.len();
    let mut endpoints: Vec<String> = Vec::new();
    let mut candidates: Vec<(String, u64)> = Vec::new();
    let mut i: usize = 0;
    proof {
        assert(endpoints.deep_view() =~= endpoint_keys(table@.take(0), threshold_count));
        assert(candidates.deep_view() =~= candidate_entries(table@.take(0), threshold_count));
    }
    while i < n
        invariant
            i <= n,
            n == table@.len(),
            endpoints.deep_view() == endpoint_keys(table@.take(i as int), threshold_count),
            candidates.deep_view() == candidate_entries(table@.take(i as int), threshold_count),
        decreases n - i,
    {
        proof {
            assert(table@.take(i + 1).drop_last() =~= table@.take(i as int));
            assert(table@.take(i + 1).last() == table@[i as int]);
        }
        let c: u64 = table.entry_count(i);
        let k: &String = table.entry_key(i);
        if c > threshold_count {
            endpoints.push(k.clone());
            proof {
                assert(endpoints.deep_view() =~= endpoint_keys(
                    table@.take(i + 1),
                    threshold_count,
                ));
                assert(candidates.deep_view() =~= candidate_entries(
                    table@.take(i + 1),
                    threshold_count,
                ));
            }
        } else {
            candidates.push((k.clone(), c));
            proof {
                assert(endpoints.deep_view() =~= endpoint_keys(
                    table@.take(i + 1),
                    threshold_count,
                ));
                assert(candidates.deep_view() =~= candidate_entries(
                    table@.take(i + 1),
                    threshold_count,
                ));
            }
        }
        i += 1;
    }
    proof {
        assert(table@.take(n as int) =~= table@);
    }
    (endpoints, candidates)
}

#[verifier::external_type_specification]
#[verifier::external_body]
pub struct ExThreadRng(rand::rngs::ThreadRng);

/// Relies on rand::Rng::gen_range: a value drawn from the half-open range
/// `0..n`, which is non-empty by the precondition.
#[verifier::external_body]
fn pick_index(rng: &mut rand::rngs::ThreadRng, n: usize) -> (i: usize)
    requires
        n >= 1,
    ensures
        i < n,
{
    rand::Rng::gen_range(rng, 0..n)
}

/// Fold candidate `cand`'s count into endpoint `target`: the candidate's
/// entry leaves the table and its count moves onto the target's.
pub fn absorb(table: &mut FreqTable, cand: &String, target: &String)
    requires
        old(table).wf(),
        tbl_contains(old(table)@, cand@),
        tbl_contains(old(table)@, target@),
        cand@ != target@,
        tbl_count(old(table)@, cand@) + tbl_count(old(table)@, target@) <= u64::MAX,
    ensures
        final(table).wf(),
        tbl_sum(final(table)@) == tbl_sum(old(table)@),
        merged_into(old(table)@, final(table)@, cand@, target@),
{
    let t0 = Ghost(table@);
    let ci: usize = match table.find_index(cand) {
        Some(i) => i,
        None => {
            proof {
                assert(false);
            }
            0
        },
    };
    let ti: usize = match table.find_index(target) {
        Some(i) => i,
        None => {
            proof {
                assert(false);
            }
            0
        },
    };
    proof {
        lemma_count_at_index(t0@, ci as int);
        lemma_count_at_index(t0@, ti as int);
    }
    let cc: u64 = table.entry_count(ci);
    table.add_at(ti, cc);
    proof {
        assert(table@[ci as int] == t0@[ci as int]);
    }
    table.remove_at(ci);
}

/// Try to merge one candidate into the nearest endpoint.  Returns `true`
/// exactly when the least edit distance to an endpoint is within
/// `threshold_distance`; the absorbing endpoint is then one of those at that
/// least distance, and nothing else says which, the draw being random.
pub fn merge_step(
    table: &mut FreqTable,
    cand: &String,
    endpoints: &Vec<String>,
    threshold_distance: usize,
    rng: &mut rand::rngs::ThreadRng,
) -> (merged: bool)
    requires
        old(table).wf(),
        endpoints.deep_view().len() > 0,
        tbl_contains(old(table)@, cand@),
        forall|j: int|
            0 <= j < endpoints.deep_view().len() ==> tbl_contains(
                old(table)@,
                #[trigger] endpoints.deep_view()[j],
            ) && endpoints.deep_view()[j] != cand@,
        tbl_sum(old(table)@) <= u64::MAX,
    ensures
        final(table).wf(),
        tbl_sum(final(table)@) == tbl_sum(old(table)@),
        merged == (min_edit_distance(cand@, endpoints.deep_view()) <= threshold_distance),
        !merged ==> final(table)@ == old(table)@,
        merged ==> exists|e: Seq<char>|
            endpoints.deep_view().contains(e) && edit_distance(cand@, e) == min_edit_distance(
                cand@,
                endpoints.deep_view(),
            ) && merged_into(old(table)@, final(table)@, cand@, e),
{
    let es = Ghost(endpoints.deep_view());
    let d: usize = min_distance(cand, endpoints);
    if d > threshold_distance {
        return false;
    }
    let tied: Vec<String> = endpoints_at_distance(cand, endpoints, d);
    proof {
        lemma_min_achieved(cand@, es@);
        lemma_at_distance_members(cand@, es@, d as nat);
        let j = choose|j: int|
            0 <= j < es@.len() && edit_distance(cand@, es@[j]) == min_edit_distance(cand@, es@);
        assert(at_distance(cand@, es@, d as nat).contains(es@[j]));
        assert(tied.deep_view().len() > 0);
    }
    let pick: usize = pick_index(rng, tied.len());
    let target: &String = &tied[pick];
    proof {
        assert(tied.deep_view()[pick as int] == target@);
        assert(edit_distance(cand@, target@) == d && es@.contains(target@));
        let w = choose|w: int| 0 <= w < es@.len() && es@[w] == target@;
        assert(tbl_contains(table@, target@) && target@ != cand@);
        lemma_pair_le_sum(table@, cand@, target@);
    }
    absorb(table, cand, target);
    proof {
        assert(es@.contains(target@) && edit_distance(cand@, target@) == min_edit_distance(
            cand@,
            es@,
        ) && merged_into(old(table)@, table@, cand@, target@));
    }
    true
}

/// Reconcile the frequency table.  Endpoints (count strictly above
/// `threshold_count`) are frozen up front; every other barcode is a
/// candidate and is taken in ascending order of count.  A candidate whose
/// nearest endpoint lies within `threshold_distance` (inclusive) is folded
/// into one endpoint drawn at random from those nearest; otherwise it stays
/// untouched.  With no endpoint at all the table is returned as it came.
pub fn reconcile(
    table: FreqTable,
    threshold_count: u64,
    threshold_distance: usize,
    rng: &mut rand::rngs::ThreadRng,
) -> (r: FreqTable)
    requires
        table.wf(),
        tbl_sum(table@) <= u64::MAX,
    ensures
        r.wf(),
        reconciled(table@, r@, threshold_count, threshold_distance),
{
    let t0 = Ghost(table@);
    let (endpoints, candidates) = partition(&table, threshold_count);
    proof {
        lemma_partition(t0@, threshold_count);
    }
    if endpoints.len() == 0 {
        proof {
            if has_endpoint(t0@, threshold_count) {
                let k = choose|k: Seq<char>| is_endpoint(t0@, threshold_count, k);
                assert(endpoint_keys(t0@, threshold_count).contains(k));
            }
        }
        return table;
    }
    let mut table = table;
    let candidates = sort_entries_ascending(candidates);
    let ep = Ghost(endpoints.deep_view());
    let cs = Ghost(candidates.deep_view());
    proof {
        let orig = candidate_entries(t0@, threshold_count);
        assert forall|j: int|
            0 <= j < cs@.len() implies tbl_contains(t0@, (#[trigger] cs@[j]).0) && tbl_count(
            t0@,
            cs@[j].0,
        ) == cs@[j].1 && cs@[j].1 <= threshold_count by {
            assert(cs@.contains(cs@[j]));
            assert(orig.contains(cs@[j]));
            let w = choose|w: int| 0 <= w < orig.len() && orig[w] == cs@[j];
        }
        assert forall|k: Seq<char>|
            tbl_contains(t0@, k) && tbl_count(t0@, k) <= threshold_count implies exists|j: int|
            0 <= j < cs@.len() && (#[trigger] cs@[j]).0 == k by {
            let w = choose|w: int| 0 <= w < orig.len() && orig[w].0 == k;
            assert(orig.contains(orig[w]));
            assert(cs@.contains(orig[w]));
            let j = choose|j: int| 0 <= j < cs@.len() && cs@[j] == orig[w];
            assert(cs@[j].0 == k);
        }
        assert forall|j: int|
            0 <= j < ep@.len() implies is_endpoint(t0@, threshold_count, #[trigger] ep@[j]) by {}
        assert(has_endpoint(t0@, threshold_count)) by {
            assert(is_endpoint(t0@, threshold_count, ep@[0]));
        }
    }
    let cn: usize = candidates.len();
    let ghost mut targets: Seq<Option<Seq<char>>> = Seq::empty();
    let mut i: usize = 0;
    while i < cn
        invariant
            i <= cn,
            cn == cs@.len(),
            cs@ == candidates.deep_view(),
            ep@ == endpoints.deep_view(),
            ep@ == endpoint_keys(t0@, threshold_count),
            ep@.len() > 0,
            distinct_keys(cs@),
            distinct_keys(t0@),
            forall|j: int|
                0 <= j < cs@.len() ==> tbl_contains(t0@, (#[trigger] cs@[j]).0) && tbl_count(
                    t0@,
                    cs@[j].0,
                ) == cs@[j].1 && cs@[j].1 <= threshold_count,
            forall|k: Seq<char>|
                tbl_contains(t0@, k) && tbl_count(t0@, k) <= threshold_count ==> exists|j: int|
                    0 <= j < cs@.len() && (#[trigger] cs@[j]).0 == k,
            forall|j: int|
                0 <= j < ep@.len() ==> is_endpoint(t0@, threshold_count, #[trigger] ep@[j]),
            forall|k: Seq<char>|
                is_endpoint(t0@, threshold_count, k) ==> ep@.contains(k),
            table.wf(),
            tbl_sum(table@) == tbl_sum(t0@),
            tbl_sum(t0@) <= u64::MAX,
            forall|j: int|
                i <= j < cs@.len() ==> tbl_contains(table@, (#[trigger] cs@[j]).0) && tbl_count(
                    table@,
                    cs@[j].0,
                ) == cs@[j].1,
            forall|j: int|
                0 <= j < i ==> (if min_edit_distance((#[trigger] cs@[j]).0, ep@)
                    > threshold_distance {
                    tbl_contains(table@, cs@[j].0) && tbl_count(table@, cs@[j].0) == cs@[j].1
                } else {
                    !tbl_contains(table@, cs@[j].0)
                }),
            forall|k: Seq<char>|
                is_endpoint(t0@, threshold_count, k) ==> tbl_contains(table@, k) && tbl_count(
                    table@,
                    k,
                ) >= tbl_count(t0@, k),
            forall|k: Seq<char>| tbl_contains(table@, k) ==> tbl_contains(t0@, k),
            targets.len() == i as int,
            forall|j: int|
                #![trigger targets[j]]
                0 <= j < i ==> match targets[j] {
                    Some(e) => is_endpoint(t0@, threshold_count, e) && edit_distance(
                        cs@[j].0,
                        e,
                    ) == min_edit_distance(cs@[j].0, ep@) && min_edit_distance(cs@[j].0, ep@)
                        <= threshold_distance,
                    None => min_edit_distance(cs@[j].0, ep@) > threshold_distance,
                },
            forall|k: Seq<char>|
                is_endpoint(t0@, threshold_count, k) ==> tbl_count(table@, k) == tbl_count(
                    t0@,
                    k,
                ) + absorbed_sum(cs@, targets, i as int, k),
        decreases cn - i,
    {
        let cand: &String = &candidates[i].0;
        proof {
            assert(cand@ == cs@[i as int].0);
            assert forall|j: int|
                0 <= j < endpoints.deep_view().len() implies tbl_contains(
                table@,
                #[trigger] endpoints.deep_view()[j],
            ) && endpoints.deep_view()[j] != cand@ by {
                assert(is_endpoint(t0@, threshold_count, ep@[j]));
                assert(tbl_count(t0@, ep@[j]) > threshold_count);
                assert(tbl_count(t0@, cs@[i as int].0) <= threshold_count);
            }
        }
        let tpre = Ghost(table@);
        let merged: bool = merge_step(&mut table, cand, &endpoints, threshold_distance, rng);
        proof {
            let ck = cs@[i as int].0;
            if merged {
                let e = choose|e: Seq<char>|
                    ep@.contains(e) && edit_distance(ck, e) == min_edit_distance(ck, ep@)
                        && merged_into(tpre@, table@, ck, e);
                let w = choose|w: int| 0 <= w < ep@.len() && ep@[w] == e;
                assert(is_endpoint(t0@, threshold_count, e));
                assert(tbl_count(t0@, e) > threshold_count);
                assert forall|j: int|
                    i + 1 <= j < cs@.len() implies tbl_contains(
                    table@,
                    (#[trigger] cs@[j]).0,
                ) && tbl_count(table@, cs@[j].0) == cs@[j].1 by {
                    assert(cs@[j].0 != ck);
                    assert(cs@[j].0 != e);
                }
                assert forall|j: int|
                    0 <= j < i + 1 implies (if min_edit_distance((#[trigger] cs@[j]).0, ep@)
                    > threshold_distance {
                    tbl_contains(table@, cs@[j].0) && tbl_count(table@, cs@[j].0) == cs@[j].1
                } else {
                    !tbl_contains(table@, cs@[j].0)
                }) by {
                    if j < i {
                        assert(cs@[j].0 != ck);
                        assert(cs@[j].0 != e);
                    }
                }
                lemma_pair_le_sum(tpre@, ck, e);
                assert forall|k: Seq<char>|
                    is_endpoint(t0@, threshold_count, k) implies tbl_contains(table@, k)
                    && tbl_count(table@, k) >= tbl_count(t0@, k) by {
                    assert(tbl_count(t0@, k) > threshold_count);
                    assert(k != ck);
                    assert(tbl_count(tpre@, e) + tbl_count(tpre@, ck) <= u64::MAX);
                }
                let tg0 = targets;
                targets = tg0.push(Some(e));
                assert forall|k: Seq<char>|
                    is_endpoint(t0@, threshold_count, k) implies tbl_count(table@, k)
                    == tbl_count(t0@, k) + absorbed_sum(cs@, targets, i + 1, k) by {
                    lemma_absorbed_push(cs@, tg0, Some(e), i as int, k);
                    assert(tbl_count(tpre@, e) + tbl_count(tpre@, ck) <= u64::MAX);
                    if k == e {
                        assert(tbl_count(tpre@, ck) == cs@[i as int].1);
                    } else {
                        assert(k != ck);
                        assert(targets[i as int] != Some(k));
                    }
                }
            } else {
                let tg0 = targets;
                targets = tg0.push(None);
                assert forall|k: Seq<char>|
                    is_endpoint(t0@, threshold_count, k) implies tbl_count(table@, k)
                    == tbl_count(t0@, k) + absorbed_sum(cs@, targets, i + 1, k) by {
                    lemma_absorbed_push(cs@, tg0, None, i as int, k);
                }
            }
        }
        i += 1;
    }
    proof {
        assert forall|k: Seq<char>|
            tbl_contains(table@, k) == (tbl_contains(t0@, k) && (tbl_count(t0@, k)
                > threshold_count || !mergeable(t0@, threshold_count, threshold_distance, k))) by {
            if tbl_contains(t0@, k) && tbl_count(t0@, k) <= threshold_count {
                let j = choose|j: int| 0 <= j < cs@.len() && (#[trigger] cs@[j]).0 == k;
                assert(if min_edit_distance(cs@[j].0, ep@) > threshold_distance {
                    tbl_contains(table@, cs@[j].0) && tbl_count(table@, cs@[j].0) == cs@[j].1
                } else {
                    !tbl_contains(table@, cs@[j].0)
                });
            }
        }
        assert forall|k: Seq<char>|
            tbl_contains(table@, k) && tbl_count(t0@, k) <= threshold_count implies tbl_count(
            table@,
            k,
        ) == tbl_count(t0@, k) by {
            assert(tbl_contains(t0@, k));
            let j = choose|j: int| 0 <= j < cs@.len() && (#[trigger] cs@[j]).0 == k;
            assert(if min_edit_distance(cs@[j].0, ep@) > threshold_distance {
                tbl_contains(table@, cs@[j].0) && tbl_count(table@, cs@[j].0) == cs@[j].1
            } else {
                !tbl_contains(table@, cs@[j].0)
            });
        }
        assert(absorb_record(t0@, threshold_count, threshold_distance, table@, cs@, targets));
    }
    table
}

/// Conservation: reconciliation redistributes counts among surviving
/// barcodes but never creates or destroys observations.  Where the collected
/// table accounted for every observation, the reconciled table still does.
pub proof fn lemma_conservation(
    t0: Seq<(Seq<char>, u64)>,
    t1: Seq<(Seq<char>, u64)>,
    tc: u64,
    td: usize,
    unmatched: u64,
    total: u64,
)
    requires
        reconciled(t0, t1, tc, td),
        tbl_sum(t0) + unmatched == total,
    ensures
        tbl_sum(t1) + unmatched == total,
{
}

/// Endpoint immutability: a barcode in the endpoint set at partition time is
/// never removed by reconciliation, and its count can only grow or stay.
pub proof fn lemma_endpoint_immutable(
    t0: Seq<(Seq<char>, u64)>,
    t1: Seq<(Seq<char>, u64)>,
    tc: u64,
    td: usize,
    k: Seq<char>,
)
    requires
        reconciled(t0, t1, tc, td),
        is_endpoint(t0, tc, k),
    ensures
        tbl_contains(t1, k),
        tbl_count(t1, k) >= tbl_count(t0, k),
{
}

/// Threshold boundaries are strict on counts and inclusive on distances: a
/// barcode whose count equals `tc` is a candidate, not an endpoint, and such
/// a candidate whose nearest-endpoint distance equals `td` is merged away.
pub proof fn lemma_threshold_boundary(
    t0: Seq<(Seq<char>, u64)>,
    t1: Seq<(Seq<char>, u64)>,
    tc: u64,
    td: usize,
    k: Seq<char>,
)
    requires
        reconciled(t0, t1, tc, td),
        tbl_contains(t0, k),
        tbl_count(t0, k) == tc,
        has_endpoint(t0, tc),
        min_edit_distance(k, endpoint_keys(t0, tc)) == td,
    ensures
        !is_endpoint(t0, tc, k),
        !tbl_contains(t1, k),
{
}

/// Passthrough: when no barcode's count exceeds the threshold there is no
/// endpoint, and reconciliation returns the table exactly as it came.
pub proof fn lemma_no_endpoint_passthrough(
    t0: Seq<(Seq<char>, u64)>,
    t1: Seq<(Seq<char>, u64)>,
    tc: u64,
    td: usize,
)
    requires
        reconciled(t0, t1, tc, td),
        forall|k: Seq<char>| tbl_contains(t0, k) ==> tbl_count(t0, k) <= tc,
    ensures
        t1 == t0,
{
    if has_endpoint(t0, tc) {
        let k = choose|k: Seq<char>| is_endpoint(t0, tc, k);
        assert(tbl_count(t0, k) <= tc);
    }
}

/// Determinism modulo tie-break, over a whole run: two reconciliation
/// outcomes that absorb by the same record — the same candidates assigned to
/// the same nearest endpoints — agree on the membership and the count of
/// every barcode.  All the freedom lies in the record, and a valid record
/// only ever assigns a candidate to an endpoint at the least edit distance.
pub proof fn lemma_reconcile_deterministic(
    t0: Seq<(Seq<char>, u64)>,
    a: Seq<(Seq<char>, u64)>,
    b: Seq<(Seq<char>, u64)>,
    tc: u64,
    td: usize,
    cands: Seq<(Seq<char>, u64)>,
    tg: Seq<Option<Seq<char>>>,
)
    requires
        reconciled(t0, a, tc, td),
        reconciled(t0, b, tc, td),
        absorb_record(t0, tc, td, a, cands, tg),
        absorb_record(t0, tc, td, b, cands, tg),
    ensures
        forall|k: Seq<char>| tbl_contains(a, k) == tbl_contains(b, k),
        forall|k: Seq<char>| tbl_count(a, k) == tbl_count(b, k),
{
    assert forall|k: Seq<char>| tbl_count(a, k) == tbl_count(b, k) by {
        if is_endpoint(t0, tc, k) {
        } else if tbl_contains(a, k) {
            assert(tbl_contains(t0, k));
            assert(tbl_count(t0, k) <= tc);
            assert(tbl_contains(b, k));
        } else {
            assert(!tbl_contains(b, k));
            lemma_count_absent(a, k);
            lemma_count_absent(b, k);
        }
    }
}

/// Determinism modulo tie-break: for one starting table, one candidate and
/// one chosen endpoint, the folded table is uniquely determined — any two
/// outcomes agree on the membership and the count of every barcode.  Which
/// endpoint is chosen is the only freedom, and `merge_step` confines it to
/// the endpoints at the least edit distance.
pub proof fn lemma_merge_deterministic(
    t0: Seq<(Seq<char>, u64)>,
    a: Seq<(Seq<char>, u64)>,
    b: Seq<(Seq<char>, u64)>,
    cand: Seq<char>,
    e: Seq<char>,
)
    requires
        merged_into(t0, a, cand, e),
        merged_into(t0, b, cand, e),
    ensures
        forall|k: Seq<char>| tbl_contains(a, k) == tbl_contains(b, k),
        forall|k: Seq<char>| tbl_count(a, k) == tbl_count(b, k),
{
}

} // verus!

