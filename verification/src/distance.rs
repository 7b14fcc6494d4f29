//! Edit distance between barcodes.  `edit_distance` is the mathematical
//! Levenshtein distance over character sequences; the executable distance
//! comes from an outside implementation trusted to compute exactly that.
//! On top of it stand the least distance from a barcode to a set of
//! endpoints, and the tie set of endpoints that attain it.

use vstd::prelude::*;

verus! {

/// The smaller of two naturals.
pub open spec fn nat_min(a: nat, b: nat) -> nat {
    if a < b {
        a
    } else {
        b
    }
}

/// Levenshtein edit distance: the least number of single-character
/// insertions, deletions and substitutions that turns `a` into `b`.
pub open spec fn edit_distance(a: Seq<char>, b: Seq<char>) -> nat
    decreases a.len() + b.len(),
{
    if a.len() == 0 {
        b.len()
    } else if b.len() == 0 {
        a.len()
    } else {
        let sub_cost: nat = if a[0] == b[0] {
            0
        } else {
            1
        };
        nat_min(
            edit_distance(a.skip(1), b.skip(1)) + sub_cost,
            nat_min(edit_distance(a.skip(1), b) + 1, edit_distance(a, b.skip(1)) + 1),
        )
    }
}

/// Relies on levenshtein::levenshtein: the Levenshtein edit distance between
/// the two strings' character sequences.
#[verifier::external_body]
pub(crate) fn lev(a: &str, b: &str) -> (d: usize)
    ensures
        d == edit_distance(a@, b@),
{
    levenshtein::levenshtein(a, b)
}

/// The least edit distance from `c` to any member of the non-empty `es`.
pub open spec fn min_edit_distance(c: Seq<char>, es: Seq<Seq<char>>) -> nat
    recommends
        es.len() > 0,
    decreases es.len(),
{
    if es.len() <= 1 {
        edit_distance(c, es[0])
    } else {
        nat_min(min_edit_distance(c, es.drop_last()), edit_distance(c, es.last()))
    }
}

/// Some endpoint attains the least distance.
pub proof fn lemma_min_achieved(c: Seq<char>, es: Seq<Seq<char>>)
    requires
        es.len() > 0,
    ensures
        exists|j: int|
            0 <= j < es.len() && edit_distance(c, es[j]) == min_edit_distance(c, es),
    decreases es.len(),
{
    if es.len() == 1 {
        assert(edit_distance(c, es[0]) == min_edit_distance(c, es));
    } else {
        lemma_min_achieved(c, es.drop_last());
        let j = choose|j: int|
            0 <= j < es.drop_last().len() && edit_distance(c, es.drop_last()[j])
                == min_edit_distance(c, es.drop_last());
        if edit_distance(c, es.last()) < min_edit_distance(c, es.drop_last()) {
            assert(edit_distance(c, es[es.len() - 1]) == min_edit_distance(c, es));
        } else {
            assert(es.drop_last()[j] == es[j]);
            assert(edit_distance(c, es[j]) == min_edit_distance(c, es));
        }
    }
}

/// The members of `es` whose edit distance to `c` is exactly `d`, in order.
pub open spec fn at_distance(c: Seq<char>, es: Seq<Seq<char>>, d: nat) -> Seq<Seq<char>>
    decreases es.len(),
{
    if es.len() == 0 {
        Seq::empty()
    } else {
        let rest = at_distance(c, es.drop_last(), d);
        if edit_distance(c, es.last()) == d {
            rest.push(es.last())
        } else {
            rest
        }
    }
}

/// What stands in the tie set: exactly the endpoints at distance `d`.
pub proof fn lemma_at_distance_members(c: Seq<char>, es: Seq<Seq<char>>, d: nat)
    ensures
        forall|j: int|
            0 <= j < at_distance(c, es, d).len() ==> edit_distance(
                c,
                #[trigger] at_distance(c, es, d)[j],
            ) == d && es.contains(at_distance(c, es, d)[j]),
        forall|j: int|
            0 <= j < es.len() && edit_distance(c, #[trigger] es[j]) == d ==> at_distance(
                c,
                es,
                d,
            ).contains(es[j]),
    decreases es.len(),
{
    if es.len() > 0 {
        let s = es.drop_last();
        lemma_at_distance_members(c, s, d);
        let r = at_distance(c, es, d);
        let rest = at_distance(c, s, d);
        assert(forall|j: int| 0 <= j < s.len() ==> s[j] == es[j]);
        assert forall|j: int|
            0 <= j < r.len() implies edit_distance(c, #[trigger] r[j]) == d && es.contains(
            r[j],
        ) by {
            if j < rest.len() {
                assert(r[j] == rest[j]);
                let w = choose|w: int| 0 <= w < s.len() && s[w] == rest[j];
                assert(es[w] == rest[j]);
            } else {
                assert(r[j] == es.last());
                assert(es[es.len() - 1] == es.last());
            }
        }
        assert forall|j: int|
            0 <= j < es.len() && edit_distance(c, #[trigger] es[j]) == d implies at_distance(
            c,
            es,
            d,
        ).contains(es[j]) by {
            if j < es.len() - 1 {
                assert(s[j] == es[j]);
                assert(rest.contains(es[j]));
                let w = choose|w: int| 0 <= w < rest.len() && rest[w] == es[j];
                assert(r[w] == es[j]);
            } else {
                assert(r[r.len() - 1] == es.last());
            }
        }
    }
}

/// The least edit distance from barcode `c` to any of the endpoints.
pub fn min_distance(c: &String, endpoints: &Vec<String>) -> (d: usize)
    requires
        endpoints.deep_view().len() > 0,
    ensures
        d == min_edit_distance(c@, endpoints.deep_view()),
{
    let es = Ghost(endpoints.deep_view());
    let n: usize = endpoints.len();
    let mut best: usize = lev(c.as_str(), endpoints[0].as_str());
    let mut i: usize = 1;
    proof {
        assert(es@.take(1).len() == 1);
        assert(es@.take(1)[0] == es@[0]);
    }
    while i < n
        invariant
            1 <= i <= n,
            n == es@.len(),
            es@ == endpoints.deep_view(),
            best == min_edit_distance(c@, es@.take(i as int)),
        decreases n - i,
    {
        let d: usize = lev(c.as_str(), endpoints[i].as_str());
        proof {
            assert(es@.take(i + 1).drop_last() =~= es@.take(i as int));
            assert(es@.take(i + 1).last() == es@[i as int]);
        }
        if d < best {
            best = d;
        }
        i += 1;
    }
    proof {
        assert(es@.take(n as int) =~= es@);
    }
    best
}

/// All endpoints at edit distance exactly `d` from `c`, in endpoint order.
pub fn endpoints_at_distance(c: &String, endpoints: &Vec<String>, d: usize) -> (tied: Vec<
    String,
>)
    ensures
        tied.deep_view() == at_distance(c@, endpoints.deep_view(), d as nat),
{
    let es = Ghost(endpoints.deep_view());
    let n: usize = endpoints.len();
    let mut tied: Vec<String> = Vec::new();
    let mut i: usize = 0;
    proof {
        assert(tied.deep_view() =~= at_distance(c@, es@.take(0), d as nat));
    }
    while i < n
        invariant
            i <= n,
            n == es@.len(),
            es@ == endpoints.deep_view(),
            tied.deep_view() == at_distance(c@, es@.take(i as int), d as nat),
        decreases n - i,
    {
        proof {
            assert(es@.take(i + 1).drop_last() =~= es@.take(i as int));
            assert(es@.take(i + 1).last() == es@[i as int]);
        }
        let di: usize = lev(c.as_str(), endpoints[i].as_str());
        if di == d {
            tied.push(endpoints[i].clone());
            proof {
                assert(tied.deep_view() =~= at_distance(c@, es@.take(i + 1), d as nat));
            }
        }
        i += 1;
    }
    proof {
        assert(es@.take(n as int) =~= es@);
    }
    tied
}

} // verus!
