//! Integer range expressions (`1-10`, `1,3,5`, `1-20:3`, ...).
//!
//! A range expression is held as its runs: arithmetic progressions
//! `start, start + step, ..., end` in increasing order, as the expression
//! language library produces them. Its value is the list of integers the
//! runs hold, in increasing order.

use vstd::prelude::*;
use crate::text::{append_i64, int_text, push_char};

verus! {

/// Every endpoint and step of a run has magnitude below this bound.
pub const MAX_RANGE_VALUE_MAGNITUDE: i64 = 0x4000_0000_0000_0000;

/// One run of a range expression: `start, start + step, ..., end`.
#[derive(Clone, Copy, Debug, PartialEq, Eq, Structural)]
pub struct IntRun {
    pub start: i64,
    pub end: i64,
    pub step: i64,
}

/// A value within the bounded domain of range values.
pub open spec fn in_domain(v: int) -> bool {
    -MAX_RANGE_VALUE_MAGNITUDE < v < MAX_RANGE_VALUE_MAGNITUDE
}

pub open spec fn run_wf(r: IntRun) -> bool {
    &&& 0 < r.step < MAX_RANGE_VALUE_MAGNITUDE
    &&& r.start <= r.end
    &&& in_domain(r.start as int)
    &&& in_domain(r.end as int)
    &&& (r.end - r.start) % (r.step as int) == 0
}

/// Runs that are well formed and strictly increasing.
pub open spec fn runs_wf(runs: Seq<IntRun>) -> bool {
    &&& forall|i: int| 0 <= i < runs.len() ==> run_wf(#[trigger] runs[i])
    &&& forall|i: int| 0 <= i < runs.len() - 1 ==> #[trigger] runs[i].end < runs[i + 1].start
}

pub open spec fn run_len(r: IntRun) -> int {
    (r.end - r.start) / (r.step as int) + 1
}

pub open spec fn run_values(r: IntRun) -> Seq<int> {
    Seq::new(run_len(r) as nat, |k: int| r.start + k * r.step)
}

/// The integers the runs hold, in order.
pub open spec fn runs_values(runs: Seq<IntRun>) -> Seq<int>
    decreases runs.len(),
{
    if runs.len() == 0 {
        Seq::empty()
    } else {
        runs_values(runs.drop_last()) + run_values(runs.last())
    }
}

/// Runs as triples, the form in which the expression language library
/// reports them.
pub open spec fn runs_triples(runs: Seq<IntRun>) -> Seq<(i64, i64, i64)> {
    runs.map_values(|r: IntRun| (r.start, r.end, r.step))
}

pub open spec fn strictly_increasing(s: Seq<int>) -> bool {
    forall|i: int, j: int| 0 <= i < j < s.len() ==> s[i] < s[j]
}

// ---------------------------------------------------------------------
// Calls into the expression language library.

/// What the expression language library's `RangeExpr` parser gives for a
/// text: `None` when it rejects the text, else the runs of the parsed value.
pub uninterp spec fn library_parse_runs(text: Seq<char>) -> Option<Seq<(i64, i64, i64)>>;

/// The runs of the expression language library's `RangeExpr::from_values`
/// for a list of integers, `None` when it rejects the list.
pub uninterp spec fn library_runs_from_values(values: Seq<i64>) -> Option<Seq<(i64, i64, i64)>>;

/// Parses a range expression with `openjd_expr::RangeExpr`'s `FromStr`
/// and reports its runs. The library normalizes every run to ascending form
/// with a positive step ending on its last value, bounds every endpoint
/// and step below `MAX_RANGE_VALUE_MAGNITUDE`, rejects overlapping runs, and
/// stores the runs sorted; an accepted text has at least one run.
#[verifier::external_body]
fn library_parse(text: &str) -> (r: Option<Vec<IntRun>>)
    ensures
        r matches Some(runs) ==> library_parse_runs(text@) == Some(runs_triples(runs@)),
        r is None ==> library_parse_runs(text@) is None,
        r matches Some(runs) ==> runs_wf(runs@) && runs@.len() > 0,
{
    text.parse::<openjd_expr::RangeExpr>().ok().map(|e| {
        e.ranges().iter().map(|x| IntRun { start: x.start(), end: x.end(), step: x.step() }).collect()
    })
}

/// Builds a range expression from a list of integers with
/// `openjd_expr::RangeExpr::from_values` and reports its runs. The library
/// rejects the list exactly when some value has magnitude at or beyond
/// `MAX_RANGE_VALUE_MAGNITUDE`; otherwise it sorts and deduplicates the
/// values and groups them into well-formed increasing runs, so the runs hold
/// exactly the distinct input values in increasing order.
#[verifier::external_body]
fn library_from_values(values: Vec<i64>) -> (r: Option<Vec<IntRun>>)
    ensures
        r is Some <==> (forall|i: int| 0 <= i < values@.len() ==> in_domain(#[trigger] values@[i] as int)),
        r matches Some(runs) ==> library_runs_from_values(values@) == Some(runs_triples(runs@)),
        r is None ==> library_runs_from_values(values@) is None,
        r matches Some(runs) ==> {
            &&& runs_wf(runs@)
            &&& strictly_increasing(runs_values(runs@))
            &&& runs_values(runs@).to_set() == values@.map_values(|v: i64| v as int).to_set()
        },
{
    openjd_expr::RangeExpr::from_values(values).ok().map(|e| {
        e.ranges().iter().map(|x| IntRun { start: x.start(), end: x.end(), step: x.step() }).collect()
    })
}

// ---------------------------------------------------------------------
// Arithmetic facts about runs.

proof fn lemma_run_index(r: IntRun, k: int)
    requires
        run_wf(r),
        0 <= k < run_len(r),
    ensures
        r.start <= r.start + k * r.step <= r.end,
{
    let d = r.end - r.start;
    let s = r.step as int;
    assert(k <= d / s);
    assert(d == (d / s) * s) by {
        vstd::arithmetic::div_mod::lemma_fundamental_div_mod(d, s);
    }
    assert(k * s <= (d / s) * s) by (nonlinear_arith)
        requires
            k <= d / s,
            s > 0,
    ;
    assert(0 <= k * s) by (nonlinear_arith)
        requires
            0 <= k,
            s > 0,
    ;
}

proof fn lemma_run_len_bound(r: IntRun)
    requires
        run_wf(r),
    ensures
        1 <= run_len(r) <= r.end - r.start + 1,
{
    let d = r.end - r.start;
    let s = r.step as int;
    assert(0 <= d / s <= d) by (nonlinear_arith)
        requires
            0 <= d,
            s >= 1,
    ;
}

proof fn lemma_run_contains(r: IntRun, v: int)
    requires
        run_wf(r),
    ensures
        run_values(r).contains(v) <==> (r.start <= v <= r.end && (v - r.start) % (r.step as int) == 0),
{
    let s = r.step as int;
    if r.start <= v <= r.end && (v - r.start) % s == 0 {
        let k = (v - r.start) / s;
        assert(v - r.start == k * s) by {
            vstd::arithmetic::div_mod::lemma_fundamental_div_mod(v - r.start, s);
        }
        assert(0 <= k) by (nonlinear_arith)
            requires
                v - r.start >= 0,
                s > 0,
                k == (v - r.start) / s,
        ;
        assert(k <= (r.end - r.start) / s) by {
            vstd::arithmetic::div_mod::lemma_div_is_ordered(v - r.start, r.end - r.start, s);
        }
        assert(run_values(r)[k] == v);
    }
    if run_values(r).contains(v) {
        let k = choose|k: int| 0 <= k < run_values(r).len() && run_values(r)[k] == v;
        lemma_run_index(r, k);
        assert((k * s) % s == 0) by {
            vstd::arithmetic::div_mod::lemma_mod_multiples_basic(k, s);
        }
        assert(v - r.start == k * s);
    }
}

proof fn lemma_runs_values_len(runs: Seq<IntRun>)
    requires
        runs_wf(runs),
        runs.len() > 0,
    ensures
        runs_values(runs).len() <= runs.last().end - runs[0].start + 1,
        forall|i: int| 0 <= i < runs_values(runs).len() ==> runs[0].start <= #[trigger] runs_values(runs)[i] <= runs.last().end,
    decreases runs.len(),
{
    let last = runs.last();
    lemma_run_len_bound(last);
    assert forall|k: int| 0 <= k < run_values(last).len() implies last.start <= #[trigger] run_values(last)[k] <= last.end by {
        lemma_run_index(last, k);
    }
    if runs.len() > 1 {
        let init = runs.drop_last();
        assert(runs_wf(init)) by {
            assert forall|i: int| 0 <= i < init.len() - 1 implies #[trigger] init[i].end < init[i + 1].start by {
                assert(runs[i].end < runs[i + 1].start);
            }
        }
        lemma_runs_values_len(init);
        assert(init.last() == runs[runs.len() - 2]);
        assert(init.last().end < last.start);
        assert forall|i: int| 0 <= i < runs_values(runs).len() implies runs[0].start <= #[trigger] runs_values(runs)[i] <= runs.last().end by {
            let pre = runs_values(init);
            if i < pre.len() {
                assert(runs_values(runs)[i] == pre[i]);
            } else {
                assert(runs_values(runs)[i] == run_values(last)[i - pre.len()]);
                assert(run_wf(runs[0]));
            }
        }
    } else {
        assert(runs_values(runs) =~= run_values(last)) by {
            assert(runs.drop_last().len() == 0);
            assert(runs_values(runs.drop_last()) =~= Seq::<int>::empty());
        }
    }
}

/// The values of runs are increasing.
proof fn lemma_runs_values_increasing(runs: Seq<IntRun>)
    requires
        runs_wf(runs),
    ensures
        strictly_increasing(runs_values(runs)),
    decreases runs.len(),
{
    if runs.len() > 0 {
        let init = runs.drop_last();
        let last = runs.last();
        assert(runs_wf(init)) by {
            assert forall|i: int| 0 <= i < init.len() - 1 implies #[trigger] init[i].end < init[i + 1].start by {
                assert(runs[i].end < runs[i + 1].start);
            }
        }
        lemma_runs_values_increasing(init);
        if init.len() > 0 {
            lemma_runs_values_len(init);
            assert(init.last() == runs[runs.len() - 2]);
        }
        let pre = runs_values(init);
        let all = runs_values(runs);
        assert forall|i: int, j: int| 0 <= i < j < all.len() implies all[i] < all[j] by {
            if j < pre.len() {
                assert(all[i] == pre[i] && all[j] == pre[j]);
            } else {
                let kj = j - pre.len();
                lemma_run_index(last, kj);
                if i < pre.len() {
                    assert(all[i] == pre[i]);
                    assert(pre[i] <= init.last().end);
                } else {
                    let ki = i - pre.len();
                    lemma_run_index(last, ki);
                    assert(all[i] == last.start + ki * last.step);
                    assert(all[j] == last.start + kj * last.step);
                    assert(ki * last.step < kj * last.step) by (nonlinear_arith)
                        requires
                            ki < kj,
                            last.step > 0,
                    ;
                }
            }
        }
    }
}

pub proof fn lemma_runs_values_prefix(runs: Seq<IntRun>, m: int)
    requires
        0 <= m <= runs.len(),
    ensures
        runs_values(runs.take(m)).len() <= runs_values(runs).len(),
        forall|i: int| 0 <= i < runs_values(runs.take(m)).len() ==> #[trigger] runs_values(runs.take(m))[i] == runs_values(runs)[i],
    decreases runs.len() - m,
{
    if m < runs.len() {
        lemma_runs_values_prefix(runs, m + 1);
        lemma_runs_values_step(runs, m);
        let a = runs_values(runs.take(m));
        let b = runs_values(runs.take(m + 1));
        assert forall|i: int| 0 <= i < a.len() implies #[trigger] a[i] == runs_values(runs)[i] by {
            assert(a[i] == b[i]);
        }
    } else {
        assert(runs.take(m) =~= runs);
    }
}

proof fn lemma_runs_values_step(runs: Seq<IntRun>, j: int)
    requires
        0 <= j < runs.len(),
    ensures
        runs_values(runs.take(j + 1)) == runs_values(runs.take(j)) + run_values(runs[j]),
{
    assert(runs.take(j + 1).drop_last() =~= runs.take(j));
}

proof fn lemma_runs_values_member(runs: Seq<IntRun>, v: int)
    requires
        runs_wf(runs),
    ensures
        runs_values(runs).contains(v) <==> exists|j: int| 0 <= j < runs.len() && #[trigger] run_values(runs[j]).contains(v),
    decreases runs.len(),
{
    if runs.len() > 0 {
        let init = runs.drop_last();
        assert(runs_wf(init)) by {
            assert forall|i: int| 0 <= i < init.len() - 1 implies #[trigger] init[i].end < init[i + 1].start by {
                assert(runs[i].end < runs[i + 1].start);
            }
        }
        lemma_runs_values_member(init, v);
        let pre = runs_values(init);
        let last = run_values(runs.last());
        if runs_values(runs).contains(v) {
            let i = choose|i: int| 0 <= i < runs_values(runs).len() && runs_values(runs)[i] == v;
            if i < pre.len() {
                assert(pre[i] == v);
                assert(pre.contains(v));
                let j = choose|j: int| 0 <= j < init.len() && #[trigger] run_values(init[j]).contains(v);
                assert(init[j] == runs[j]);
            } else {
                assert(last[i - pre.len()] == v);
                assert(run_values(runs[runs.len() - 1]).contains(v));
            }
        }
        if exists|j: int| 0 <= j < runs.len() && #[trigger] run_values(runs[j]).contains(v) {
            let j = choose|j: int| 0 <= j < runs.len() && #[trigger] run_values(runs[j]).contains(v);
            if j < runs.len() - 1 {
                assert(init[j] == runs[j]);
                assert(pre.contains(v));
                let i = choose|i: int| 0 <= i < pre.len() && pre[i] == v;
                assert(runs_values(runs)[i] == v);
            } else {
                let k = choose|k: int| 0 <= k < last.len() && last[k] == v;
                assert(runs_values(runs)[pre.len() + k] == v);
            }
        }
    }
}

/// Every value of well-formed runs lies in the bounded domain.
pub proof fn lemma_runs_values_in_domain(runs: Seq<IntRun>)
    requires
        runs_wf(runs),
    ensures
        forall|i: int| 0 <= i < runs_values(runs).len() ==> in_domain(#[trigger] runs_values(runs)[i]),
{
    if runs.len() > 0 {
        lemma_runs_values_len(runs);
        assert(run_wf(runs[0]));
        assert(run_wf(runs[runs.len() - 1]));
    }
}

/// The values of `runs.take(j + 1)` are those of `runs.take(j)` followed
/// by the values of run `j`.
pub proof fn lemma_runs_values_take_step(runs: Seq<IntRun>, j: int)
    requires
        0 <= j < runs.len(),
    ensures
        runs_values(runs.take(j + 1)) == runs_values(runs.take(j)) + run_values(runs[j]),
{
    lemma_runs_values_step(runs, j);
}

/// The values of a run hold its length.
pub proof fn lemma_run_values_facts(r: IntRun)
    requires
        run_wf(r),
    ensures
        run_values(r).len() == run_len(r),
        1 <= run_len(r),
        forall|k: int| 0 <= k < run_len(r) ==> r.start <= #[trigger] run_values(r)[k] <= r.end,
        forall|k: int| 0 <= k < run_len(r) ==> #[trigger] run_values(r)[k] == r.start + k * r.step,
        run_values(r)[run_len(r) - 1] == r.end,
{
    let d = r.end - r.start;
    let s = r.step as int;
    assert(d == (d / s) * s) by {
        vstd::arithmetic::div_mod::lemma_fundamental_div_mod(d, s);
    }
    lemma_run_len_bound(r);
    assert forall|k: int| 0 <= k < run_len(r) implies r.start <= #[trigger] run_values(r)[k] <= r.end by {
        lemma_run_index(r, k);
    }
}

// ---------------------------------------------------------------------

/// A range expression.
#[derive(Debug)]
pub struct RangeExpr {
    runs: Vec<IntRun>,
    contiguous: bool,
}

impl RangeExpr {
    #[verifier::type_invariant]
    spec fn inv(self) -> bool {
        runs_wf(self.runs@)
    }

    /// Every range expression is well formed.
    pub fn valid(&self)
        ensures
            self.wf(),
    {
        proof {
            use_type_invariant(self);
        }
    }

    /// The runs.
    pub closed spec fn runs(&self) -> Seq<IntRun> {
        self.runs@
    }

    /// Whether the value displays as one `<start>-<end>` span.
    pub closed spec fn contiguous_display(&self) -> bool {
        self.contiguous
    }

    /// The integers of the range expression, in increasing order.
    pub open spec fn values(&self) -> Seq<int> {
        runs_values(self.runs())
    }

    pub open spec fn wf(&self) -> bool {
        runs_wf(self.runs())
    }

    /// Parses a range expression; `None` when the text is not one.
    pub fn parse(text: &str) -> (r: Option<RangeExpr>)
        ensures
            r is None <==> library_parse_runs(text@) is None,
            r matches Some(e) ==> {
                &&& library_parse_runs(text@) == Some(runs_triples(e.runs()))
                &&& e.wf()
                &&& e.runs().len() > 0
                &&& !e.contiguous_display()
            },
    {
        match library_parse(text) {
            Some(runs) => Some(RangeExpr { runs, contiguous: false }),
            None => None,
        }
    }

    /// The range expression holding exactly the given values (in any
    /// order, duplicates allowed); `None` when a value is outside the
    /// bounded domain.
    pub fn from_values(values: Vec<i64>) -> (r: Option<RangeExpr>)
        ensures
            r is Some <==> (forall|i: int| 0 <= i < values@.len() ==> in_domain(#[trigger] values@[i] as int)),
            r matches Some(e) ==> {
                &&& library_runs_from_values(values@) == Some(runs_triples(e.runs()))
                &&& e.wf()
                &&& strictly_increasing(e.values())
                &&& e.values().to_set() == values@.map_values(|v: i64| v as int).to_set()
                &&& !e.contiguous_display()
            },
    {
        match library_from_values(values) {
            Some(runs) => Some(RangeExpr { runs, contiguous: false }),
            None => None,
        }
    }

    /// The one-span range `start..=end` (a single value when they are equal),
    /// shown as `<start>-<end>` when `contiguous` is set.
    pub fn from_span(start: i64, end: i64, contiguous: bool) -> (r: RangeExpr)
        requires
            start <= end,
            in_domain(start as int),
            in_domain(end as int),
        ensures
            r.runs() == seq![IntRun { start, end, step: 1 }],
            r.contiguous_display() == contiguous,
            r.wf(),
    {
        let mut runs: Vec<IntRun> = Vec::new();
        runs.push(IntRun { start, end, step: 1 });
        RangeExpr { runs, contiguous }
    }

    /// The runs.
    pub fn run_list(&self) -> (r: &Vec<IntRun>)
        ensures
            r@ == self.runs(),
    {
        &self.runs
    }

    /// Number of values.
    pub fn len_u64(&self) -> (n: u64)
        ensures
            n == self.values().len(),
    {
        proof {
            use_type_invariant(self);
        }
        let runs = &self.runs;
        let mut total: u64 = 0;
        let mut j: usize = 0;
        while j < runs.len()
            invariant
                runs_wf(runs@),
                0 <= j <= runs@.len(),
                total == runs_values(runs@.take(j as int)).len(),
            decreases runs@.len() - j,
        {
            let r = runs[j];
            proof {
                lemma_runs_values_step(runs@, j as int);
                lemma_run_len_bound(r);
                assert(runs_wf(runs@.take(j as int + 1))) by {
                    assert forall|i: int| 0 <= i < j as int + 1 implies run_wf(#[trigger] runs@.take(j as int + 1)[i]) by {
                        assert(runs@.take(j as int + 1)[i] == runs@[i]);
                    }
                    assert forall|i: int| 0 <= i < j as int implies #[trigger] runs@.take(j as int + 1)[i].end < runs@.take(j as int + 1)[i + 1].start by {
                        assert(runs@[i].end < runs@[i + 1].start);
                    }
                }
                lemma_runs_values_len(runs@.take(j as int + 1));
                assert(runs@.take(j as int + 1).last() == r);
                assert(run_wf(runs@[0]));
            }
            let len_r: u64 = ((r.end - r.start) / r.step + 1) as u64;
            total = total + len_r;
            j = j + 1;
        }
        proof {
            assert(runs@.take(j as int) =~= runs@);
        }
        total
    }

    /// Number of values (saturating at `usize::MAX`).
    pub fn len(&self) -> (n: usize)
        ensures
            n == if self.values().len() <= usize::MAX { self.values().len() as usize } else { usize::MAX },
    {
        let n = self.len_u64();
        if n <= usize::MAX as u64 {
            n as usize
        } else {
            usize::MAX
        }
    }

    /// The value at `index`, `None` when out of bounds.
    pub fn get(&self, index: u64) -> (r: Option<i64>)
        ensures
            r is Some <==> index < self.values().len(),
            r matches Some(v) ==> v == self.values()[index as int],
    {
        proof {
            use_type_invariant(self);
        }
        let runs = &self.runs;
        let mut rem: u64 = index;
        let mut j: usize = 0;
        while j < runs.len()
            invariant
                runs_wf(runs@),
                0 <= j <= runs@.len(),
                rem + runs_values(runs@.take(j as int)).len() == index,
                runs@ == self.runs@,
            decreases runs@.len() - j,
        {
            let r = runs[j];
            proof {
                lemma_runs_values_step(runs@, j as int);
                lemma_run_len_bound(r);
            }
            let len_r: u64 = ((r.end - r.start) / r.step + 1) as u64;
            if rem < len_r {
                proof {
                    lemma_run_index(r, rem as int);
                    lemma_runs_values_prefix(runs@, j as int + 1);
                    let pre = runs_values(runs@.take(j as int));
                    let nxt = runs_values(runs@.take(j as int + 1));
                    assert(nxt == pre + run_values(r));
                    assert(index < nxt.len());
                    assert(nxt[index as int] == run_values(r)[rem as int]);
                    assert(runs_values(runs@)[index as int] == nxt[index as int]);
                    assert(run_values(r)[rem as int] == r.start + (rem as int) * r.step);
                    assert(self.values() == runs_values(runs@));
                    assert(index < self.values().len());
                }
                return Some(r.start + (rem as i64) * r.step);
            }
            rem = rem - len_r;
            j = j + 1;
        }
        proof {
            assert(runs@.take(j as int) =~= runs@);
        }
        None
    }

    /// Whether `value` is one of the values.
    pub fn contains(&self, value: i64) -> (b: bool)
        ensures
            b == self.values().contains(value as int),
    {
        proof {
            use_type_invariant(self);
        }
        let runs = &self.runs;
        let mut j: usize = 0;
        proof {
            lemma_runs_values_member(runs@, value as int);
        }
        while j < runs.len()
            invariant
                runs_wf(runs@),
                0 <= j <= runs@.len(),
                forall|i: int| 0 <= i < j ==> !(#[trigger] run_values(runs@[i])).contains(value as int),
                runs@ == self.runs@,
                runs_values(runs@).contains(value as int) <==> exists|j: int| 0 <= j < runs@.len() && #[trigger] run_values(runs@[j]).contains(value as int),
            decreases runs@.len() - j,
        {
            let r = runs[j];
            proof {
                lemma_run_contains(r, value as int);
            }
            if r.start <= value && value <= r.end && (value - r.start) % r.step == 0 {
                proof {
                    assert(run_values(runs@[j as int]).contains(value as int));
                    assert(self.values() == runs_values(runs@));
                }
                return true;
            }
            j = j + 1;
        }
        false
    }

    /// All values, in increasing order.
    pub fn to_vec(&self) -> (v: Vec<i64>)
        ensures
            v@.map_values(|x: i64| x as int) == self.values(),
    {
        proof {
            use_type_invariant(self);
        }
        let runs = &self.runs;
        let mut out: Vec<i64> = Vec::new();
        let mut j: usize = 0;
        while j < runs.len()
            invariant
                runs_wf(runs@),
                0 <= j <= runs@.len(),
                out@.map_values(|x: i64| x as int) == runs_values(runs@.take(j as int)),
            decreases runs@.len() - j,
        {
            let r = runs[j];
            proof {
                lemma_runs_values_step(runs@, j as int);
                lemma_run_len_bound(r);
            }
            let len_r: u64 = ((r.end - r.start) / r.step + 1) as u64;
            let mut k: u64 = 0;
            let ghost base = out@.map_values(|x: i64| x as int);
            while k < len_r
                invariant
                    run_wf(r),
                    len_r == run_len(r),
                    0 <= k <= len_r,
                    out@.map_values(|x: i64| x as int) == base + run_values(r).take(k as int),
                decreases len_r - k,
            {
                proof {
                    lemma_run_index(r, k as int);
                }
                let x = r.start + (k as i64) * r.step;
                let ghost prev = out@;
                out.push(x);
                proof {
                    assert(out@ == prev.push(x));
                    assert(run_values(r)[k as int] == x as int);
                    assert(run_values(r).take(k as int + 1) =~= run_values(r).take(k as int).push(x as int));
                    assert(out@.map_values(|x: i64| x as int) =~= prev.map_values(|x: i64| x as int).push(x as int));
                    assert(out@.map_values(|x: i64| x as int) =~= base + run_values(r).take(k as int + 1));
                }
                k = k + 1;
            }
            proof {
                assert(run_values(r).take(len_r as int) =~= run_values(r));
            }
            j = j + 1;
        }
        proof {
            assert(runs@.take(j as int) =~= runs@);
        }
        out
    }

    /// A copy of this range expression.
    pub fn copy(&self) -> (r: RangeExpr)
        ensures
            r.runs() == self.runs(),
            r.contiguous_display() == self.contiguous_display(),
    {
        proof {
            use_type_invariant(self);
        }
        let runs = self.runs.clone();
        proof {
            assert(runs@ =~= self.runs@);
        }
        RangeExpr { runs, contiguous: self.contiguous }
    }

    /// Value equality: the same runs.
    pub fn same_value(&self, other: &RangeExpr) -> (b: bool)
        ensures
            b == (self.runs() == other.runs()),
    {
        if self.runs.len() != other.runs.len() {
            proof {
                assert(self.runs@.len() != other.runs@.len());
            }
            return false;
        }
        let mut j: usize = 0;
        while j < self.runs.len()
            invariant
                self.runs@.len() == other.runs@.len(),
                0 <= j <= self.runs@.len(),
                forall|i: int| 0 <= i < j ==> self.runs@[i] == other.runs@[i],
            decreases self.runs@.len() - j,
        {
            if self.runs[j] != other.runs[j] {
                proof {
                    assert(self.runs@[j as int] != other.runs@[j as int]);
                }
                return false;
            }
            j = j + 1;
        }
        proof {
            assert(self.runs@ =~= other.runs@);
        }
        true
    }

    /// The text of the range expression: each run as `x`, `x,y`, `x-y` or
    /// `x-y:s`, joined by commas, or `<start>-<end>` for a contiguous span.
    pub fn to_text(&self) -> (s: String)
        ensures
            s@ == range_text(self.runs(), self.contiguous_display()),
    {
        proof {
            use_type_invariant(self);
        }
        let runs = &self.runs;
        let n = self.len_u64();
        if self.contiguous && runs.len() == 1 && runs[0].step == 1 {
            let mut s = String::new();
            append_i64(&mut s, runs[0].start);
            push_char(&mut s, '-');
            append_i64(&mut s, runs[0].end);
            proof {
                assert(s@ =~= range_text(self.runs(), self.contiguous_display()));
            }
            return s;
        }
        if self.contiguous && n == 1 {
            proof {
                assert(runs@.len() > 0) by {
                    if runs@.len() == 0 {
                        assert(runs_values(runs@) =~= Seq::<int>::empty());
                    }
                }
            }
            let v = runs[0].start;
            let mut s = String::new();
            append_i64(&mut s, v);
            push_char(&mut s, '-');
            append_i64(&mut s, v);
            proof {
                assert(s@ =~= range_text(self.runs(), self.contiguous_display()));
            }
            return s;
        }
        let mut s = String::new();
        let mut j: usize = 0;
        while j < runs.len()
            invariant
                runs_wf(runs@),
                0 <= j <= runs@.len(),
                s@ == runs_text(runs@.take(j as int)),
            decreases runs@.len() - j,
        {
            let r = runs[j];
            proof {
                lemma_run_len_bound(r);
            }
            if j > 0 {
                push_char(&mut s, ',');
            }
            let len_r: u64 = ((r.end - r.start) / r.step + 1) as u64;
            if len_r == 1 {
                append_i64(&mut s, r.start);
            } else if len_r == 2 {
                append_i64(&mut s, r.start);
                push_char(&mut s, ',');
                append_i64(&mut s, r.end);
            } else if r.step == 1 {
                append_i64(&mut s, r.start);
                push_char(&mut s, '-');
                append_i64(&mut s, r.end);
            } else {
                append_i64(&mut s, r.start);
                push_char(&mut s, '-');
                append_i64(&mut s, r.end);
                push_char(&mut s, ':');
                append_i64(&mut s, r.step);
            }
            proof {
                assert(runs@.take(j as int + 1).drop_last() =~= runs@.take(j as int));
                assert(s@ =~= runs_text(runs@.take(j as int + 1)));
            }
            j = j + 1;
        }
        proof {
            assert(runs@.take(j as int) =~= runs@);
        }
        s
    }
}

impl Clone for RangeExpr {
    fn clone(&self) -> (r: RangeExpr) {
        self.copy()
    }
}

/// The text of one run.
pub open spec fn run_text(r: IntRun) -> Seq<char> {
    let n = run_len(r);
    if n == 1 {
        int_text(r.start as int)
    } else if n == 2 {
        int_text(r.start as int) + seq![','] + int_text(r.end as int)
    } else if r.step == 1 {
        int_text(r.start as int) + seq!['-'] + int_text(r.end as int)
    } else {
        int_text(r.start as int) + seq!['-'] + int_text(r.end as int) + seq![':'] + int_text(r.step as int)
    }
}

/// The texts of the runs joined by commas.
pub open spec fn runs_text(runs: Seq<IntRun>) -> Seq<char>
    decreases runs.len(),
{
    if runs.len() == 0 {
        Seq::empty()
    } else if runs.len() == 1 {
        run_text(runs[0])
    } else {
        runs_text(runs.drop_last()) + seq![','] + run_text(runs.last())
    }
}

/// The text of a range expression given its runs and display mode.
pub open spec fn range_text(runs: Seq<IntRun>, contiguous: bool) -> Seq<char> {
    if contiguous && runs.len() == 1 && runs[0].step == 1 {
        int_text(runs[0].start as int) + seq!['-'] + int_text(runs[0].end as int)
    } else if contiguous && runs_values(runs).len() == 1 {
        int_text(runs[0].start as int) + seq!['-'] + int_text(runs[0].start as int)
    } else {
        runs_text(runs)
    }
}

} // verus!
