//! The frequency collector.  An `Extractor` holds a compiled barcode
//! pattern and a capture-group replacement template; what it yields on a
//! line is modelled by the uninterpreted function `extraction`, a function
//! of the pattern, the template and the line alone.  `collect_counts` runs
//! the extractor over every observation and tallies the labels.

use vstd::prelude::*;

use crate::table::tbl_contains;
use crate::table::tbl_count;
use crate::table::tbl_sum;
use crate::table::lemma_count_le_sum;
use crate::table::lemma_sum_nonneg;
use crate::table::FreqTable;

verus! {

/// The label, if any, that expanding `template` over the first match of
/// `pattern` in `line` yields.  What it is on given texts is decided by the
/// outside pattern engine; the library only relies on it being a function of
/// these three texts.
pub uninterp spec fn extraction(
    pattern: Seq<char>,
    template: Seq<char>,
    line: Seq<char>,
) -> Option<Seq<char>>;

/// Whether the pattern engine accepts `p` as a pattern.  Which texts it
/// accepts is decided by the engine; the library relies only on acceptance
/// being a function of the pattern text alone.
pub uninterp spec fn pattern_compiles(p: Seq<char>) -> bool;

#[verifier::external_type_specification]
#[verifier::external_body]
pub struct ExRegex(regex::Regex);

/// Relies on regex::Regex::new: compiles the pattern, succeeding exactly on
/// the texts the engine accepts — `pattern_compiles` names that set — and
/// otherwise reporting why, rendered as text.
#[verifier::external_body]
fn regex_new(pattern: &str) -> (r: Result<regex::Regex, String>)
    ensures
        r is Ok <==> pattern_compiles(pattern@),
{
    regex::Regex::new(pattern).map_err(|e| e.to_string())
}

/// A compiled barcode extractor: a pattern with a capture-group replacement
/// template.
pub struct Extractor {
    re: regex::Regex,
    template: String,
    pattern: Ghost<Seq<char>>,
}

impl Extractor {
    /// The text the pattern was compiled from.
    pub closed spec fn pattern(&self) -> Seq<char> {
        self.pattern@
    }

    /// The replacement template the labels are expanded with.
    pub closed spec fn template(&self) -> Seq<char> {
        self.template@
    }

    /// Compile `pattern` into an extractor using `template` for label
    /// expansion.  Exactly the patterns the engine accepts compile; an
    /// invalid one is rejected here, before any observation is processed,
    /// with its diagnostic text.
    pub fn new(pattern: &str, template: &str) -> (r: Result<Extractor, String>)
        ensures
            r is Ok <==> pattern_compiles(pattern@),
            r matches Ok(e) ==> e.pattern() == pattern@ && e.template() == template@,
    {
        match regex_new(pattern) {
            Ok(re) => Ok(
                Extractor { re, template: template.to_owned(), pattern: Ghost(pattern@) },
            ),
            Err(msg) => Err(msg),
        }
    }

    /// Relies on regex::Regex::captures and regex::Captures::expand: whether
    /// the pattern matches the line, and on a match the template expanded
    /// with the captured groups — together the `extraction` of the line.
    #[verifier::external_body]
    pub(crate) fn extract(&self, line: &str) -> (r: Option<String>)
        ensures
            match r {
                Some(s) => extraction(self.pattern(), self.template(), line@) == Some(s@),
                None => extraction(self.pattern(), self.template(), line@) is None,
            },
    {
        match self.re.captures(line) {
            Some(c) => {
                let mut label = String::new();
                c.expand(&self.template, &mut label);
                Some(label)
            },
            None => None,
        }
    }
}

/// How many of `lines` extract to exactly the label `k`.
pub open spec fn matched_count(
    pattern: Seq<char>,
    template: Seq<char>,
    lines: Seq<Seq<char>>,
    k: Seq<char>,
) -> int
    decreases lines.len(),
{
    if lines.len() == 0 {
        0
    } else {
        matched_count(pattern, template, lines.drop_last(), k) + if extraction(
            pattern,
            template,
            lines.last(),
        ) == Some(k) {
            1int
        } else {
            0int
        }
    }
}

/// The lines that extract to no label at all, in input order.
pub open spec fn rejected(
    pattern: Seq<char>,
    template: Seq<char>,
    lines: Seq<Seq<char>>,
) -> Seq<Seq<char>>
    decreases lines.len(),
{
    if lines.len() == 0 {
        Seq::empty()
    } else {
        let rest = rejected(pattern, template, lines.drop_last());
        if extraction(pattern, template, lines.last()) is None {
            rest.push(lines.last())
        } else {
            rest
        }
    }
}

/// Tally the barcodes extracted from the observation lines.  Returns the
/// frequency table, the unmatched-observation count, the total observation
/// count, and the unmatched observations themselves in input order: every
/// observation either lands in the table under its label or is counted and
/// listed as unmatched.
pub fn collect_counts(ex: &Extractor, lines: &Vec<String>) -> (r: (FreqTable, u64, u64, Vec<
    String,
>))
    ensures
        r.0.wf(),
        r.2 == lines.deep_view().len(),
        r.3.deep_view() == rejected(ex.pattern(), ex.template(), lines.deep_view()),
        r.1 == rejected(ex.pattern(), ex.template(), lines.deep_view()).len(),
        forall|k: Seq<char>|
            tbl_count(r.0@, k) == matched_count(ex.pattern(), ex.template(), lines.deep_view(), k),
        forall|k: Seq<char>|
            tbl_contains(r.0@, k) == (matched_count(ex.pattern(), ex.template(), lines.deep_view(), k)
                > 0),
        tbl_sum(r.0@) + r.1 == r.2,
{
    let pv = Ghost(ex.pattern());
    let tv = Ghost(ex.template());
    let lv = Ghost(lines.deep_view());
    let n: usize = lines.len();
    let mut table = FreqTable::new();
    let mut unmatched: u64 = 0;
    let mut total: u64 = 0;
    let mut misses: Vec<String> = Vec::new();
    let mut i: usize = 0;
    proof {
        assert(lv@.take(0) =~= Seq::<Seq<char>>::empty());
        assert(misses.deep_view() =~= rejected(pv@, tv@, lv@.take(0)));
    }
    while i < n
        invariant
            i <= n,
            n == lv@.len(),
            lv@ == lines.deep_view(),
            pv@ == ex.pattern(),
            tv@ == ex.template(),
            table.wf(),
            total == i,
            unmatched == rejected(pv@, tv@, lv@.take(i as int)).len(),
            misses.deep_view() == rejected(pv@, tv@, lv@.take(i as int)),
            tbl_sum(table@) + unmatched == i,
            forall|k: Seq<char>|
                tbl_count(table@, k) == matched_count(pv@, tv@, lv@.take(i as int), k),
            forall|k: Seq<char>|
                tbl_contains(table@, k) == (matched_count(pv@, tv@, lv@.take(i as int), k) > 0),
        decreases n - i,
    {
        proof {
            assert(lv@.take(i + 1).drop_last() =~= lv@.take(i as int));
            assert(lv@.take(i + 1).last() == lv@[i as int]);
        }
        let line: &String = &lines[i];
        proof {
            assert(line@ == lv@[i as int]);
        }
        match ex.extract(line.as_str()) {
            Some(label) => {
                proof {
                    lemma_count_le_sum(table@, label@);
                    lemma_sum_nonneg(table@);
                }
                let t_pre = Ghost(table@);
                table.bump(&label);
                proof {
                    assert forall|k: Seq<char>|
                        tbl_count(table@, k) == matched_count(pv@, tv@, lv@.take(i + 1), k) by {
                        assert(tbl_count(table@, k) == if k == label@ {
                            (tbl_count(t_pre@, k) + 1) as u64
                        } else {
                            tbl_count(t_pre@, k)
                        });
                    }
                }
            },
            None => {
                misses.push(line.clone());
                proof {
                    lemma_sum_nonneg(table@);
                    assert(misses.deep_view() =~= rejected(pv@, tv@, lv@.take(i + 1)));
                }
                unmatched = unmatched + 1;
            },
        }
        total = total + 1;
        i += 1;
    }
    proof {
        assert(lv@.take(n as int) =~= lv@);
    }
    (table, unmatched, total, misses)
}

} // verus!
