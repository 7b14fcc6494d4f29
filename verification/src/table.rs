//! The frequency table: a list of `(barcode, count)` entries with pairwise
//! distinct barcodes.  The mathematical model of a table is a sequence of
//! `(Seq<char>, u64)` pairs; `tbl_count`, `tbl_contains` and `tbl_sum` read
//! that model, and the lemmas here relate them to the sequence operations the
//! executable code performs.

use vstd::prelude::*;

verus! {

/// Pairwise distinct barcode keys: the table invariant.
pub open spec fn distinct_keys(t: Seq<(Seq<char>, u64)>) -> bool {
    forall|i: int, j: int| 0 <= i < j < t.len() ==> t[i].0 != t[j].0
}

/// Whether some entry of `t` carries the barcode `k`.
pub open spec fn tbl_contains(t: Seq<(Seq<char>, u64)>, k: Seq<char>) -> bool {
    exists|i: int| 0 <= i < t.len() && t[i].0 == k
}

/// The count recorded for barcode `k`, or 0 where `k` is absent.
/// The last matching entry decides; under `distinct_keys` there is at most one.
pub open spec fn tbl_count(t: Seq<(Seq<char>, u64)>, k: Seq<char>) -> u64
    decreases t.len(),
{
    if t.len() == 0 {
        0
    } else if t.last().0 == k {
        t.last().1
    } else {
        tbl_count(t.drop_last(), k)
    }
}

/// The sum of all counts in the table.
pub open spec fn tbl_sum(t: Seq<(Seq<char>, u64)>) -> int
    decreases t.len(),
{
    if t.len() == 0 {
        0
    } else {
        tbl_sum(t.drop_last()) + t.last().1
    }
}

/// The recorded count of a barcode that is present is the entry it sits in.
pub proof fn lemma_count_at_index(t: Seq<(Seq<char>, u64)>, i: int)
    requires
        distinct_keys(t),
        0 <= i < t.len(),
    ensures
        tbl_count(t, t[i].0) == t[i].1,
    decreases t.len(),
{
    if i < t.len() - 1 {
        let s = t.drop_last();
        assert(forall|a: int, b: int| 0 <= a < b < s.len() ==> s[a].0 != s[b].0);
        lemma_count_at_index(s, i);
        assert(s[i] == t[i]);
    }
}

/// An absent barcode has count 0.
pub proof fn lemma_count_absent(t: Seq<(Seq<char>, u64)>, k: Seq<char>)
    requires
        !tbl_contains(t, k),
    ensures
        tbl_count(t, k) == 0,
    decreases t.len(),
{
    if t.len() > 0 {
        assert(t.last().0 != k);
        let s = t.drop_last();
        assert(forall|i: int| 0 <= i < s.len() ==> s[i] == t[i]);
        lemma_count_absent(s, k);
    }
}

/// Overwriting the count at position `i` changes `tbl_count` at that entry's
/// barcode alone.
pub proof fn lemma_count_update(t: Seq<(Seq<char>, u64)>, i: int, c: u64, k: Seq<char>)
    requires
        distinct_keys(t),
        0 <= i < t.len(),
    ensures
        tbl_count(t.update(i, (t[i].0, c)), k) == if k == t[i].0 {
            c
        } else {
            tbl_count(t, k)
        },
    decreases t.len(),
{
    let u = t.update(i, (t[i].0, c));
    if i == t.len() - 1 {
        assert(u.drop_last() =~= t.drop_last());
    } else {
        assert(u.last() == t.last());
        assert(u.drop_last() =~= t.drop_last().update(i, (t[i].0, c)));
        let s = t.drop_last();
        assert(forall|a: int, b: int| 0 <= a < b < s.len() ==> s[a].0 != s[b].0);
        assert(s[i] == t[i]);
        lemma_count_update(s, i, c, k);
        assert(t.last().0 != t[i].0);
    }
}

/// Overwriting a count keeps the keys, hence membership and distinctness.
pub proof fn lemma_update_keys(t: Seq<(Seq<char>, u64)>, i: int, c: u64)
    requires
        distinct_keys(t),
        0 <= i < t.len(),
    ensures
        distinct_keys(t.update(i, (t[i].0, c))),
        forall|k: Seq<char>|
            tbl_contains(t.update(i, (t[i].0, c)), k) == tbl_contains(t, k),
{
    let u = t.update(i, (t[i].0, c));
    assert(forall|j: int| 0 <= j < t.len() ==> u[j].0 == t[j].0);
    assert forall|k: Seq<char>| tbl_contains(u, k) == tbl_contains(t, k) by {
        if tbl_contains(u, k) {
            let j = choose|j: int| 0 <= j < u.len() && u[j].0 == k;
            assert(t[j].0 == k);
        }
        if tbl_contains(t, k) {
            let j = choose|j: int| 0 <= j < t.len() && t[j].0 == k;
            assert(u[j].0 == k);
        }
    }
}

/// Overwriting the count at position `i` shifts the total by the difference.
pub proof fn lemma_sum_update(t: Seq<(Seq<char>, u64)>, i: int, c: u64)
    requires
        0 <= i < t.len(),
    ensures
        tbl_sum(t.update(i, (t[i].0, c))) == tbl_sum(t) - t[i].1 + c,
    decreases t.len(),
{
    let u = t.update(i, (t[i].0, c));
    if i == t.len() - 1 {
        assert(u.drop_last() =~= t.drop_last());
    } else {
        assert(u.last() == t.last());
        assert(u.drop_last() =~= t.drop_last().update(i, (t[i].0, c)));
        assert(t.drop_last()[i] == t[i]);
        lemma_sum_update(t.drop_last(), i, c);
    }
}

/// Removing the entry at position `i` zeroes that barcode's count and leaves
/// every other count alone.
pub proof fn lemma_count_remove(t: Seq<(Seq<char>, u64)>, i: int, k: Seq<char>)
    requires
        distinct_keys(t),
        0 <= i < t.len(),
    ensures
        tbl_count(t.remove(i), k) == if k == t[i].0 {
            0u64
        } else {
            tbl_count(t, k)
        },
    decreases t.len(),
{
    let r = t.remove(i);
    if i == t.len() - 1 {
        assert(r =~= t.drop_last());
        if k == t[i].0 {
            assert(!tbl_contains(r, k)) by {
                if tbl_contains(r, k) {
                    let j = choose|j: int| 0 <= j < r.len() && r[j].0 == k;
                    assert(t[j].0 == t[i].0);
                }
            }
            lemma_count_absent(r, k);
        }
    } else {
        assert(r.last() == t.last());
        assert(r.drop_last() =~= t.drop_last().remove(i));
        let s = t.drop_last();
        assert(forall|a: int, b: int| 0 <= a < b < s.len() ==> s[a].0 != s[b].0);
        assert(s[i] == t[i]);
        lemma_count_remove(s, i, k);
    }
}

/// Removing an entry removes its barcode from the key set and nothing else.
pub proof fn lemma_remove_keys(t: Seq<(Seq<char>, u64)>, i: int)
    requires
        distinct_keys(t),
        0 <= i < t.len(),
    ensures
        distinct_keys(t.remove(i)),
        forall|k: Seq<char>|
            tbl_contains(t.remove(i), k) == (tbl_contains(t, k) && k != t[i].0),
{
    let r = t.remove(i);
    assert(forall|j: int| 0 <= j < r.len() ==> r[j] == (if j < i {
        t[j]
    } else {
        t[j + 1]
    }));
    assert forall|k: Seq<char>|
        tbl_contains(r, k) == (tbl_contains(t, k) && k != t[i].0) by {
        if tbl_contains(r, k) {
            let j = choose|j: int| 0 <= j < r.len() && r[j].0 == k;
            if j < i {
                assert(t[j].0 == k);
            } else {
                assert(t[j + 1].0 == k);
            }
        }
        if tbl_contains(t, k) && k != t[i].0 {
            let j = choose|j: int| 0 <= j < t.len() && t[j].0 == k;
            if j < i {
                assert(r[j].0 == k);
            } else {
                assert(r[j - 1].0 == k);
            }
        }
    }
}

/// Removing the entry at position `i` subtracts its count from the total.
pub proof fn lemma_sum_remove(t: Seq<(Seq<char>, u64)>, i: int)
    requires
        0 <= i < t.len(),
    ensures
        tbl_sum(t.remove(i)) == tbl_sum(t) - t[i].1,
    decreases t.len(),
{
    let r = t.remove(i);
    if i == t.len() - 1 {
        assert(r =~= t.drop_last());
    } else {
        assert(r.last() == t.last());
        assert(r.drop_last() =~= t.drop_last().remove(i));
        assert(t.drop_last()[i] == t[i]);
        lemma_sum_remove(t.drop_last(), i);
    }
}

/// Appending a fresh entry sets its barcode's count and leaves the others.
pub proof fn lemma_count_push(t: Seq<(Seq<char>, u64)>, e: (Seq<char>, u64), k: Seq<char>)
    ensures
        tbl_count(t.push(e), k) == if k == e.0 {
            e.1
        } else {
            tbl_count(t, k)
        },
        tbl_sum(t.push(e)) == tbl_sum(t) + e.1,
{
    assert(t.push(e).drop_last() =~= t);
}

/// The total count is never negative.
pub proof fn lemma_sum_nonneg(t: Seq<(Seq<char>, u64)>)
    ensures
        tbl_sum(t) >= 0,
    decreases t.len(),
{
    if t.len() > 0 {
        lemma_sum_nonneg(t.drop_last());
    }
}

/// Each single count is bounded by the total.
pub proof fn lemma_count_le_sum(t: Seq<(Seq<char>, u64)>, k: Seq<char>)
    ensures
        tbl_count(t, k) <= tbl_sum(t),
    decreases t.len(),
{
    if t.len() == 0 {
    } else if t.last().0 == k {
        lemma_sum_nonneg(t.drop_last());
    } else {
        lemma_count_le_sum(t.drop_last(), k);
    }
}

/// Two counts of distinct present barcodes are together bounded by the total.
pub proof fn lemma_pair_le_sum(t: Seq<(Seq<char>, u64)>, k1: Seq<char>, k2: Seq<char>)
    requires
        k1 != k2,
    ensures
        tbl_count(t, k1) + tbl_count(t, k2) <= tbl_sum(t),
    decreases t.len(),
{
    if t.len() == 0 {
    } else if t.last().0 == k1 {
        lemma_count_le_sum(t.drop_last(), k2);
    } else if t.last().0 == k2 {
        lemma_count_le_sum(t.drop_last(), k1);
    } else {
        lemma_pair_le_sum(t.drop_last(), k1, k2);
    }
}

/// A prefix of the table never sums to more than the whole table.
pub proof fn lemma_sum_take_le(t: Seq<(Seq<char>, u64)>, i: int)
    requires
        0 <= i <= t.len(),
    ensures
        tbl_sum(t.take(i)) <= tbl_sum(t),
    decreases t.len() - i,
{
    if i == t.len() {
        assert(t.take(i) =~= t);
    } else {
        assert(t.take(i + 1).drop_last() =~= t.take(i));
        assert(t.take(i + 1).last() == t[i]);
        lemma_sum_take_le(t, i + 1);
    }
}

/// No barcode occurs on both sides.
pub open spec fn disjoint_keys(a: Seq<(Seq<char>, u64)>, b: Seq<(Seq<char>, u64)>) -> bool {
    forall|i: int, j: int| 0 <= i < a.len() && 0 <= j < b.len() ==> a[i].0 != b[j].0
}

/// Counts never increase along the list.
pub open spec fn sorted_desc(s: Seq<(Seq<char>, u64)>) -> bool {
    forall|i: int, j: int| 0 <= i < j < s.len() ==> s[i].1 >= s[j].1
}

/// Counts never decrease along the list.
pub open spec fn sorted_asc(s: Seq<(Seq<char>, u64)>) -> bool {
    forall|i: int, j: int| 0 <= i < j < s.len() ==> s[i].1 <= s[j].1
}

/// `a` and `b` list the same entries, possibly in another order.  For
/// distinct-keyed lists this makes them permutations of one another.
pub open spec fn same_entries(a: Seq<(Seq<char>, u64)>, b: Seq<(Seq<char>, u64)>) -> bool {
    a.len() == b.len() && forall|p: (Seq<char>, u64)| a.contains(p) == b.contains(p)
}

/// The entries of `s` whose count is exactly `c`, in their order in `s`.
/// A sort preserving this for every `c` moves entries with all their
/// multiplicity and keeps equal counts in their relative order: stability.
pub open spec fn entries_with_count(s: Seq<(Seq<char>, u64)>, c: u64) -> Seq<(Seq<char>, u64)>
    decreases s.len(),
{
    if s.len() == 0 {
        Seq::empty()
    } else {
        let rest = entries_with_count(s.drop_last(), c);
        if s.last().1 == c {
            rest.push(s.last())
        } else {
            rest
        }
    }
}

/// A list with no entry of count `c` has an empty count class for `c`.
pub proof fn lemma_ewc_empty(s: Seq<(Seq<char>, u64)>, c: u64)
    requires
        forall|j: int| 0 <= j < s.len() ==> s[j].1 != c,
    ensures
        entries_with_count(s, c) == Seq::<(Seq<char>, u64)>::empty(),
    decreases s.len(),
{
    if s.len() > 0 {
        let t = s.drop_last();
        assert(forall|j: int| 0 <= j < t.len() ==> t[j] == s[j]);
        lemma_ewc_empty(t, c);
    }
}

/// Appending an entry extends exactly its own count class.
pub proof fn lemma_ewc_push(s: Seq<(Seq<char>, u64)>, e: (Seq<char>, u64), c: u64)
    ensures
        entries_with_count(s.push(e), c) == if e.1 == c {
            entries_with_count(s, c).push(e)
        } else {
            entries_with_count(s, c)
        },
{
    assert(s.push(e).drop_last() =~= s);
}

/// Removing an entry of another count leaves the count class of `c` alone.
pub proof fn lemma_ewc_remove_other(s: Seq<(Seq<char>, u64)>, m: int, c: u64)
    requires
        0 <= m < s.len(),
        s[m].1 != c,
    ensures
        entries_with_count(s.remove(m), c) == entries_with_count(s, c),
    decreases s.len(),
{
    let r = s.remove(m);
    if m == s.len() - 1 {
        assert(r =~= s.drop_last());
    } else {
        assert(r.last() == s.last());
        assert(r.drop_last() =~= s.drop_last().remove(m));
        assert(s.drop_last()[m] == s[m]);
        lemma_ewc_remove_other(s.drop_last(), m, c);
    }
}

/// Removing the first entry of its count class takes exactly the head of
/// that class.
pub proof fn lemma_ewc_remove_first(s: Seq<(Seq<char>, u64)>, m: int)
    requires
        0 <= m < s.len(),
        forall|j: int| 0 <= j < m ==> s[j].1 != s[m].1,
    ensures
        entries_with_count(s, s[m].1) == seq![s[m]] + entries_with_count(
            s.remove(m),
            s[m].1,
        ),
    decreases s.len(),
{
    let c = s[m].1;
    let r = s.remove(m);
    if m == s.len() - 1 {
        assert(r =~= s.drop_last());
        lemma_ewc_empty(r, c);
        assert(entries_with_count(s, c) == entries_with_count(r, c).push(s[m]));
        assert(Seq::<(Seq<char>, u64)>::empty().push(s[m]) =~= seq![s[m]] + Seq::<(
            Seq<char>,
            u64,
        )>::empty());
    } else {
        assert(r.last() == s.last());
        assert(r.drop_last() =~= s.drop_last().remove(m));
        let t = s.drop_last();
        assert(forall|j: int| 0 <= j <= m ==> t[j] == s[j]);
        lemma_ewc_remove_first(t, m);
        if s.last().1 == c {
            assert((seq![s[m]] + entries_with_count(t.remove(m), c)).push(s.last()) =~= seq![
                s[m],
            ] + entries_with_count(t.remove(m), c).push(s.last()));
        }
    }
}

/// Removing one entry from a distinct-keyed list takes exactly that entry
/// out and keeps the barcodes distinct.
pub proof fn lemma_entry_remove(s: Seq<(Seq<char>, u64)>, m: int)
    requires
        distinct_keys(s),
        0 <= m < s.len(),
    ensures
        distinct_keys(s.remove(m)),
        forall|p: (Seq<char>, u64)| s.remove(m).contains(p) == (s.contains(p) && p != s[m]),
    decreases s.len(),
{
    let r = s.remove(m);
    assert(forall|j: int| 0 <= j < r.len() ==> r[j] == (if j < m {
        s[j]
    } else {
        s[j + 1]
    }));
    assert forall|p: (Seq<char>, u64)| r.contains(p) == (s.contains(p) && p != s[m]) by {
        if r.contains(p) {
            let j = choose|j: int| 0 <= j < r.len() && r[j] == p;
            if j < m {
                assert(s[j] == p);
            } else {
                assert(s[j + 1] == p);
            }
        }
        if s.contains(p) && p != s[m] {
            let j = choose|j: int| 0 <= j < s.len() && s[j] == p;
            if j < m {
                assert(r[j] == p);
            } else {
                assert(r[j - 1] == p);
            }
        }
    }
}

/// A frequency table from barcode to number of observations.
pub struct FreqTable {
    entries: Vec<(String, u64)>,
}

impl View for FreqTable {
    type V = Seq<(Seq<char>, u64)>;

    closed spec fn view(&self) -> Seq<(Seq<char>, u64)> {
        self.entries.deep_view()
    }
}

impl FreqTable {
    /// The table invariant: no barcode occurs twice.
    pub open spec fn wf(&self) -> bool {
        distinct_keys(self@)
    }

    pub fn new() -> (r: FreqTable)
        ensures
            r@ == Seq::<(Seq<char>, u64)>::empty(),
            r.wf(),
    {
        let r = FreqTable { entries: Vec::new() };
        proof {
            assert(r@ =~= Seq::<(Seq<char>, u64)>::empty());
        }
        r
    }

    pub fn len(&self) -> (n: usize)
        ensures
            n == self@.len(),
    {
        self.entries.len()
    }

    /// The barcode stored at position `i`.
    pub fn entry_key(&self, i: usize) -> (r: &String)
        requires
            i < self@.len(),
        ensures
            r@ == self@[i as int].0,
    {
        &self.entries[i].0
    }

    /// The count stored at position `i`.
    pub fn entry_count(&self, i: usize) -> (r: u64)
        requires
            i < self@.len(),
        ensures
            r == self@[i as int].1,
    {
        self.entries[i].1
    }

    /// The position of barcode `k` in the table, where it is present.
    pub fn find_index(&self, k: &String) -> (r: Option<usize>)
        ensures
            match r {
                Some(i) => i < self@.len() && self@[i as int].0 == k@,
                None => !tbl_contains(self@, k@),
            },
    {
        let n: usize = self.entries.len();
        let mut i: usize = 0;
        while i < n
            invariant
                i <= n,
                n == self@.len(),
                forall|j: int| 0 <= j < i ==> self@[j].0 != k@,
            decreases n - i,
        {
            if self.entries[i].0 == *k {
                return Some(i);
            }
            i += 1;
        }
        None
    }

    /// Add `amount` to the count stored at position `i`.
    pub fn add_at(&mut self, i: usize, amount: u64)
        requires
            old(self).wf(),
            i < old(self)@.len(),
            old(self)@[i as int].1 + amount <= u64::MAX,
        ensures
            final(self)@ == old(self)@.update(
                i as int,
                (old(self)@[i as int].0, (old(self)@[i as int].1 + amount) as u64),
            ),
            final(self).wf(),
            tbl_sum(final(self)@) == tbl_sum(old(self)@) + amount,
            forall|k: Seq<char>| tbl_contains(final(self)@, k) == tbl_contains(old(self)@, k),
            forall|k: Seq<char>|
                tbl_count(final(self)@, k) == if k == old(self)@[i as int].0 {
                    (old(self)@[i as int].1 + amount) as u64
                } else {
                    tbl_count(old(self)@, k)
                },
    {
        let c: u64 = self.entries[i].1;
        self.entries[i].1 = c + amount;
        proof {
            let t = old(self)@;
            let nc = (t[i as int].1 + amount) as u64;
            assert(self@ =~= t.update(i as int, (t[i as int].0, nc)));
            lemma_update_keys(t, i as int, nc);
            lemma_sum_update(t, i as int, nc);
            assert forall|k: Seq<char>|
                tbl_count(self@, k) == if k == t[i as int].0 {
                    nc
                } else {
                    tbl_count(t, k)
                } by {
                lemma_count_update(t, i as int, nc, k);
            }
        }
    }

    /// Remove the entry at position `i` from the table.
    pub fn remove_at(&mut self, i: usize)
        requires
            old(self).wf(),
            i < old(self)@.len(),
        ensures
            final(self)@ == old(self)@.remove(i as int),
            final(self).wf(),
            tbl_sum(final(self)@) == tbl_sum(old(self)@) - old(self)@[i as int].1,
            forall|k: Seq<char>|
                tbl_contains(final(self)@, k) == (tbl_contains(old(self)@, k) && k
                    != old(self)@[i as int].0),
            forall|k: Seq<char>|
                tbl_count(final(self)@, k) == if k == old(self)@[i as int].0 {
                    0u64
                } else {
                    tbl_count(old(self)@, k)
                },
    {
        self.entries.remove(i);
        proof {
            let t = old(self)@;
            assert(self@ =~= t.remove(i as int));
            lemma_remove_keys(t, i as int);
            lemma_sum_remove(t, i as int);
            assert forall|k: Seq<char>|
                tbl_count(self@, k) == if k == t[i as int].0 {
                    0u64
                } else {
                    tbl_count(t, k)
                } by {
                lemma_count_remove(t, i as int, k);
            }
        }
    }

    /// Record one more observation of barcode `k`, starting it at 1 when new.
    pub fn bump(&mut self, k: &String)
        requires
            old(self).wf(),
            tbl_count(old(self)@, k@) < u64::MAX,
        ensures
            final(self).wf(),
            tbl_sum(final(self)@) == tbl_sum(old(self)@) + 1,
            forall|k2: Seq<char>|
                tbl_contains(final(self)@, k2) == (tbl_contains(old(self)@, k2) || k2 == k@),
            forall|k2: Seq<char>|
                tbl_count(final(self)@, k2) == if k2 == k@ {
                    (tbl_count(old(self)@, k2) + 1) as u64
                } else {
                    tbl_count(old(self)@, k2)
                },
    {
        let t = Ghost(self@);
        match self.find_index(k) {
            Some(i) => {
                proof {
                    lemma_count_at_index(t@, i as int);
                }
                self.add_at(i, 1);
                proof {
                    assert forall|k2: Seq<char>|
                        tbl_contains(self@, k2) == (tbl_contains(t@, k2) || k2 == k@) by {
                        if k2 == k@ {
                            assert(tbl_contains(t@, k2));
                        }
                    }
                }
            },
            None => {
                let e: (String, u64) = (k.clone(), 1);
                self.entries.push(e);
                proof {
                    assert(self@ =~= t@.push((k@, 1u64)));
                    lemma_count_absent(t@, k@);
                    assert forall|k2: Seq<char>|
                        tbl_count(self@, k2) == if k2 == k@ {
                            (tbl_count(t@, k2) + 1) as u64
                        } else {
                            tbl_count(t@, k2)
                        } by {
                        lemma_count_push(t@, (k@, 1u64), k2);
                    }
                    lemma_count_push(t@, (k@, 1u64), k@);
                    assert forall|a: int, b: int|
                        0 <= a < b < self@.len() implies self@[a].0 != self@[b].0 by {
                        if b == self@.len() - 1 {
                            assert(!tbl_contains(t@, k@));
                            assert(t@[a].0 != k@);
                        }
                    }
                    assert forall|k2: Seq<char>|
                        tbl_contains(self@, k2) == (tbl_contains(t@, k2) || k2 == k@) by {
                        if tbl_contains(self@, k2) {
                            let j = choose|j: int| 0 <= j < self@.len() && self@[j].0 == k2;
                            if j < t@.len() {
                                assert(t@[j].0 == k2);
                            }
                        }
                        if tbl_contains(t@, k2) {
                            let j = choose|j: int| 0 <= j < t@.len() && t@[j].0 == k2;
                            assert(self@[j].0 == k2);
                        }
                        if k2 == k@ {
                            assert(self@[t@.len() as int].0 == k2);
                        }
                    }
                }
            },
        }
    }

    /// Hand the table's entries over for reporting.
    pub fn into_entries(self) -> (v: Vec<(String, u64)>)
        ensures
            v.deep_view() == self@,
    {
        self.entries
    }

    /// Build a table directly from a list of entries with distinct barcodes.
    pub fn from_entries(entries: Vec<(String, u64)>) -> (r: FreqTable)
        requires
            distinct_keys(entries.deep_view()),
        ensures
            r@ == entries.deep_view(),
            r.wf(),
    {
        FreqTable { entries }
    }
}

/// Reorder entries so that counts never decrease, by repeatedly moving the
/// first entry of least count across: a stable sort.  Every count class is
/// kept whole and in its input order; for a distinct-keyed list the result
/// is moreover a distinct-keyed permutation.
pub fn sort_entries_ascending(src: Vec<(String, u64)>) -> (out: Vec<(String, u64)>)
    ensures
        out.deep_view().len() == src.deep_view().len(),
        sorted_asc(out.deep_view()),
        forall|c: u64|
            entries_with_count(out.deep_view(), c) == entries_with_count(src.deep_view(), c),
        distinct_keys(src.deep_view()) ==> distinct_keys(out.deep_view()) && same_entries(
            src.deep_view(),
            out.deep_view(),
        ),
{
    let s0 = Ghost(src.deep_view());
    let mut rest = src;
    let mut out: Vec<(String, u64)> = Vec::new();
    proof {
        assert(out.deep_view() =~= Seq::<(Seq<char>, u64)>::empty());
        assert forall|c: u64|
            entries_with_count(out.deep_view(), c) + entries_with_count(rest.deep_view(), c)
                == entries_with_count(s0@, c) by {
            assert(entries_with_count(out.deep_view(), c) + entries_with_count(
                rest.deep_view(),
                c,
            ) =~= entries_with_count(s0@, c));
        }
    }
    while rest.len() > 0
        invariant
            out.deep_view().len() + rest.deep_view().len() == s0@.len(),
            sorted_asc(out.deep_view()),
            forall|i: int, j: int|
                0 <= i < out.deep_view().len() && 0 <= j < rest.deep_view().len()
                    ==> out.deep_view()[i].1 <= rest.deep_view()[j].1,
            forall|c: u64|
                entries_with_count(out.deep_view(), c) + entries_with_count(rest.deep_view(), c)
                    == entries_with_count(s0@, c),
            distinct_keys(s0@) ==> distinct_keys(out.deep_view()) && distinct_keys(
                rest.deep_view(),
            ) && disjoint_keys(out.deep_view(), rest.deep_view()) && forall|p: (Seq<char>, u64)|
                s0@.contains(p) == (out.deep_view().contains(p) || rest.deep_view().contains(p)),
        decreases rest.len(),
    {
        let rv = Ghost(rest.deep_view());
        let ov = Ghost(out.deep_view());
        let rn: usize = rest.len();
        let mut m: usize = 0;
        let mut i: usize = 1;
        while i < rn
            invariant
                m < i <= rn,
                rn == rest.deep_view().len(),
                rv@ == rest.deep_view(),
                forall|j: int| 0 <= j < i ==> rv@[m as int].1 <= rv@[j].1,
                forall|j: int| 0 <= j < m ==> rv@[j].1 > rv@[m as int].1,
            decreases rn - i,
        {
            if rest[i].1 < rest[m].1 {
                m = i;
            }
            i += 1;
        }
        let e: (String, u64) = rest.remove(m);
        out.push(e);
        proof {
            let ep = rv@[m as int];
            assert(rest.deep_view() =~= rv@.remove(m as int));
            assert(out.deep_view() =~= ov@.push(ep));
            let no = out.deep_view();
            let nr = rest.deep_view();
            assert(forall|j: int| 0 <= j < nr.len() ==> nr[j] == (if j < m {
                rv@[j]
            } else {
                rv@[j + 1]
            }));
            lemma_ewc_remove_first(rv@, m as int);
            assert forall|c: u64|
                entries_with_count(no, c) + entries_with_count(nr, c) == entries_with_count(
                    s0@,
                    c,
                ) by {
                lemma_ewc_push(ov@, ep, c);
                if c == ep.1 {
                    assert(entries_with_count(ov@, c).push(ep) + entries_with_count(nr, c) =~= (
                    entries_with_count(ov@, c) + (seq![ep] + entries_with_count(nr, c))));
                } else {
                    lemma_ewc_remove_other(rv@, m as int, c);
                }
            }
            if distinct_keys(s0@) {
                lemma_entry_remove(rv@, m as int);
                assert forall|a: int, b: int| 0 <= a < b < no.len() implies no[a].0 != no[b].0 by {
                    if b == no.len() - 1 {
                        assert(no[a] == ov@[a] && no[b] == ep);
                    }
                }
                assert forall|p: (Seq<char>, u64)|
                    s0@.contains(p) == (no.contains(p) || nr.contains(p)) by {
                    if no.contains(p) {
                        let j = choose|j: int| 0 <= j < no.len() && no[j] == p;
                        if j < ov@.len() {
                            assert(ov@[j] == p);
                        } else {
                            assert(p == ep);
                            assert(rv@.contains(p));
                        }
                    }
                    if ov@.contains(p) {
                        let j = choose|j: int| 0 <= j < ov@.len() && ov@[j] == p;
                        assert(no[j] == p);
                    }
                    if p == ep {
                        assert(no[no.len() - 1] == p);
                    }
                }
            }
        }
    }
    proof {
        assert(rest.deep_view().len() == 0);
        assert forall|c: u64|
            entries_with_count(out.deep_view(), c) == entries_with_count(s0@, c) by {
            assert(entries_with_count(out.deep_view(), c) =~= entries_with_count(
                out.deep_view(),
                c,
            ) + entries_with_count(rest.deep_view(), c));
        }
        if distinct_keys(s0@) {
            assert forall|p: (Seq<char>, u64)|
                s0@.contains(p) == out.deep_view().contains(p) by {
                if rest.deep_view().contains(p) {
                    let j = choose|j: int|
                        0 <= j < rest.deep_view().len() && rest.deep_view()[j] == p;
                }
            }
        }
    }
    out
}

/// Order report entries by count, largest first, by repeatedly moving the
/// first entry of greatest count across: a stable sort.  Every count class
/// is kept whole and in its input order; for a distinct-keyed list the
/// result is moreover a distinct-keyed permutation.
pub fn sort_barcodes(s: &mut Vec<(String, u64)>)
    ensures
        final(s).deep_view().len() == old(s).deep_view().len(),
        sorted_desc(final(s).deep_view()),
        forall|c: u64|
            entries_with_count(final(s).deep_view(), c) == entries_with_count(
                old(s).deep_view(),
                c,
            ),
        distinct_keys(old(s).deep_view()) ==> distinct_keys(final(s).deep_view())
            && same_entries(old(s).deep_view(), final(s).deep_view()),
{
    let s0 = Ghost(s.deep_view());
    let mut rest: Vec<(String, u64)> = Vec::new();
    core::mem::swap(s, &mut rest);
    let mut out: Vec<(String, u64)> = Vec::new();
    proof {
        assert(out.deep_view() =~= Seq::<(Seq<char>, u64)>::empty());
        assert forall|c: u64|
            entries_with_count(out.deep_view(), c) + entries_with_count(rest.deep_view(), c)
                == entries_with_count(s0@, c) by {
            assert(entries_with_count(out.deep_view(), c) + entries_with_count(
                rest.deep_view(),
                c,
            ) =~= entries_with_count(s0@, c));
        }
    }
    while rest.len() > 0
        invariant
            out.deep_view().len() + rest.deep_view().len() == s0@.len(),
            sorted_desc(out.deep_view()),
            forall|i: int, j: int|
                0 <= i < out.deep_view().len() && 0 <= j < rest.deep_view().len()
                    ==> out.deep_view()[i].1 >= rest.deep_view()[j].1,
            forall|c: u64|
                entries_with_count(out.deep_view(), c) + entries_with_count(rest.deep_view(), c)
                    == entries_with_count(s0@, c),
            distinct_keys(s0@) ==> distinct_keys(out.deep_view()) && distinct_keys(
                rest.deep_view(),
            ) && disjoint_keys(out.deep_view(), rest.deep_view()) && forall|p: (Seq<char>, u64)|
                s0@.contains(p) == (out.deep_view().contains(p) || rest.deep_view().contains(p)),
        decreases rest.len(),
    {
        let rv = Ghost(rest.deep_view());
        let ov = Ghost(out.deep_view());
        let rn: usize = rest.len();
        let mut m: usize = 0;
        let mut i: usize = 1;
        while i < rn
            invariant
                m < i <= rn,
                rn == rest.deep_view().len(),
                rv@ == rest.deep_view(),
                forall|j: int| 0 <= j < i ==> rv@[m as int].1 >= rv@[j].1,
                forall|j: int| 0 <= j < m ==> rv@[j].1 < rv@[m as int].1,
            decreases rn - i,
        {
            if rest[i].1 > rest[m].1 {
                m = i;
            }
            i += 1;
        }
        let e: (String, u64) = rest.remove(m);
        out.push(e);
        proof {
            let ep = rv@[m as int];
            assert(rest.deep_view() =~= rv@.remove(m as int));
            assert(out.deep_view() =~= ov@.push(ep));
            let no = out.deep_view();
            let nr = rest.deep_view();
            assert(forall|j: int| 0 <= j < nr.len() ==> nr[j] == (if j < m {
                rv@[j]
            } else {
                rv@[j + 1]
            }));
            lemma_ewc_remove_first(rv@, m as int);
            assert forall|c: u64|
                entries_with_count(no, c) + entries_with_count(nr, c) == entries_with_count(
                    s0@,
                    c,
                ) by {
                lemma_ewc_push(ov@, ep, c);
                if c == ep.1 {
                    assert(entries_with_count(ov@, c).push(ep) + entries_with_count(nr, c) =~= (
                    entries_with_count(ov@, c) + (seq![ep] + entries_with_count(nr, c))));
                } else {
                    lemma_ewc_remove_other(rv@, m as int, c);
                }
            }
            if distinct_keys(s0@) {
                lemma_entry_remove(rv@, m as int);
                assert forall|a: int, b: int| 0 <= a < b < no.len() implies no[a].0 != no[b].0 by {
                    if b == no.len() - 1 {
                        assert(no[a] == ov@[a] && no[b] == ep);
                    }
                }
                assert forall|p: (Seq<char>, u64)|
                    s0@.contains(p) == (no.contains(p) || nr.contains(p)) by {
                    if no.contains(p) {
                        let j = choose|j: int| 0 <= j < no.len() && no[j] == p;
                        if j < ov@.len() {
                            assert(ov@[j] == p);
                        } else {
                            assert(p == ep);
                            assert(rv@.contains(p));
                        }
                    }
                    if ov@.contains(p) {
                        let j = choose|j: int| 0 <= j < ov@.len() && ov@[j] == p;
                        assert(no[j] == p);
                    }
                    if p == ep {
                        assert(no[no.len() - 1] == p);
                    }
                }
            }
        }
    }
    proof {
        assert(rest.deep_view().len() == 0);
        assert forall|c: u64|
            entries_with_count(out.deep_view(), c) == entries_with_count(s0@, c) by {
            assert(entries_with_count(out.deep_view(), c) =~= entries_with_count(
                out.deep_view(),
                c,
            ) + entries_with_count(rest.deep_view(), c));
        }
        if distinct_keys(s0@) {
            assert forall|p: (Seq<char>, u64)|
                s0@.contains(p) == out.deep_view().contains(p) by {
                if rest.deep_view().contains(p) {
                    let j = choose|j: int|
                        0 <= j < rest.deep_view().len() && rest.deep_view()[j] == p;
                }
            }
        }
    }
    core::mem::swap(s, &mut out);
}

/// The number of observations a frequency table accounts for: the sum of all
/// its counts.
pub fn count_barcodes(m: &FreqTable) -> (r: u64)
    requires
        tbl_sum(m@) <= u64::MAX,
    ensures
        r == tbl_sum(m@),
{
    let n: usize = m.len();
    let mut acc: u64 = 0;
    let mut i: usize = 0;
    while i < n
        invariant
            i <= n,
            n == m@.len(),
            tbl_sum(m@) <= u64::MAX,
            acc == tbl_sum(m@.take(i as int)),
        decreases n - i,
    {
        proof {
            assert(m@.take(i + 1).drop_last() =~= m@.take(i as int));
            assert(m@.take(i + 1).last() == m@[i as int]);
            lemma_sum_take_le(m@, i + 1);
            lemma_sum_nonneg(m@.take(i as int));
        }
        let c: u64 = m.entry_count(i);
        acc = acc + c;
        i += 1;
    }
    proof {
        assert(m@.take(n as int) =~= m@);
    }
    acc
}

} // verus!
