//! Chunking of an integer parameter's values.
//!
//! Static chunking splits the values into segments: for contiguous
//! chunking, the maximal runs of consecutive integers; otherwise one
//! segment holding every value. A segment of `len` values becomes
//! `ceil(len / size)` chunks of nearly equal sizes: the first
//! `len % count` chunks hold one value more.
//!
//! Adaptive chunking cuts one chunk at a time from a cursor, with the
//! chunk size in force at that moment.

use vstd::prelude::*;
use crate::range_expr::{
    in_domain, library_runs_from_values, lemma_run_values_facts, lemma_runs_values_prefix,
    lemma_runs_values_take_step, run_len, run_values, run_wf, runs_values, runs_wf, IntRun, RangeExpr,
};

verus! {

/// The values a chunked parameter draws from.
#[derive(Clone, Debug)]
pub enum ChunkSource {
    List(Vec<i64>),
    Range(RangeExpr),
}

pub open spec fn ints_of(v: Seq<i64>) -> Seq<int> {
    v.map_values(|x: i64| x as int)
}

pub open spec fn i64s_of(v: Seq<int>) -> Seq<i64> {
    v.map_values(|x: int| x as i64)
}

impl ChunkSource {
    /// The values, in order.
    pub open spec fn values(&self) -> Seq<int> {
        match self {
            ChunkSource::List(v) => ints_of(v@),
            ChunkSource::Range(r) => r.values(),
        }
    }

    pub open spec fn wf(&self) -> bool {
        &&& (self matches ChunkSource::Range(r) ==> r.wf())
        &&& self.values().len() <= usize::MAX
        &&& forall|k: int| 0 <= k < self.values().len() ==> in_domain(#[trigger] self.values()[k])
    }

    pub fn len(&self) -> (n: usize)
        requires
            self.wf(),
        ensures
            n == self.values().len(),
    {
        match self {
            ChunkSource::List(v) => v.len(),
            ChunkSource::Range(r) => r.len(),
        }
    }

    pub fn at(&self, k: usize) -> (x: i64)
        requires
            self.wf(),
            k < self.values().len(),
        ensures
            x as int == self.values()[k as int],
    {
        match self {
            ChunkSource::List(v) => v[k],
            ChunkSource::Range(r) => r.get(k as u64).unwrap(),
        }
    }

    /// The values `offset .. offset + size`.
    pub fn slice(&self, offset: usize, size: usize) -> (w: Vec<i64>)
        requires
            self.wf(),
            offset + size <= self.values().len(),
        ensures
            ints_of(w@) == self.values().subrange(offset as int, offset + size),
    {
        let mut w: Vec<i64> = Vec::new();
        let mut t: usize = 0;
        while t < size
            invariant
                self.wf(),
                offset + size <= self.values().len(),
                t <= size,
                ints_of(w@) == self.values().subrange(offset as int, offset + t),
            decreases size - t,
        {
            let x = self.at(offset + t);
            let ghost prev = w@;
            w.push(x);
            proof {
                assert(w@ == prev.push(x));
                assert(ints_of(w@) =~= ints_of(prev).push(x as int));
                assert(ints_of(w@) =~= self.values().subrange(offset as int, offset + t + 1));
            }
            t = t + 1;
        }
        w
    }
}

// ---------------------------------------------------------------------
// Segments.

/// The maximal runs of consecutive integers of `v`, as (offset, length).
pub open spec fn consecutive_segments(v: Seq<int>) -> Seq<(int, int)>
    decreases v.len(),
{
    if v.len() == 0 {
        Seq::empty()
    } else {
        let s = consecutive_segments(v.drop_last());
        let n = v.len() as int;
        if n >= 2 && v[n - 1] == v[n - 2] + 1 {
            s.update(s.len() - 1, (s.last().0, s.last().1 + 1))
        } else {
            s.push((n - 1, 1))
        }
    }
}

/// The segments of the values: consecutive runs for contiguous chunking,
/// otherwise all the values as one segment.
pub open spec fn value_segments(v: Seq<int>, contiguous: bool) -> Seq<(int, int)> {
    if contiguous {
        consecutive_segments(v)
    } else if v.len() == 0 {
        Seq::empty()
    } else {
        seq![(0int, v.len() as int)]
    }
}

/// Segments that tile `v` in order, each a run of consecutive integers
/// when `consecutive` holds.
pub open spec fn tiles(v: Seq<int>, s: Seq<(int, int)>, consecutive: bool) -> bool {
    &&& (s.len() == 0 <==> v.len() == 0)
    &&& forall|j: int| 0 <= j < s.len() ==> (#[trigger] s[j]).1 >= 1
    &&& s.len() > 0 ==> s[0].0 == 0 && s.last().0 + s.last().1 == v.len()
    &&& forall|j: int| 1 <= j < s.len() ==> #[trigger] s[j].0 == s[j - 1].0 + s[j - 1].1
    &&& consecutive ==> forall|j: int, t: int| 0 <= j < s.len() && 0 <= t < s[j].1
            ==> #[trigger] v[s[j].0 + t] == v[s[j].0] + t
}

proof fn lemma_tile_lower(v: Seq<int>, s: Seq<(int, int)>, c: bool, j: int)
    requires
        tiles(v, s, c),
        0 <= j < s.len(),
    ensures
        s[j].0 >= j,
    decreases j,
{
    if j > 0 {
        lemma_tile_lower(v, s, c, j - 1);
        assert(s[j].0 == s[j - 1].0 + s[j - 1].1);
        assert(s[j - 1].1 >= 1);
    }
}

proof fn lemma_tile_upper(v: Seq<int>, s: Seq<(int, int)>, c: bool, j: int)
    requires
        tiles(v, s, c),
        0 <= j < s.len(),
    ensures
        s[j].0 + s[j].1 <= v.len(),
    decreases s.len() - j,
{
    if j < s.len() - 1 {
        lemma_tile_upper(v, s, c, j + 1);
        assert(s[j + 1].0 == s[j].0 + s[j].1);
        assert(s[j + 1].1 >= 1);
    }
}

pub proof fn lemma_tiles_bounds(v: Seq<int>, s: Seq<(int, int)>, c: bool)
    requires
        tiles(v, s, c),
    ensures
        forall|j: int| 0 <= j < s.len() ==> 0 <= (#[trigger] s[j]).0 && s[j].0 + s[j].1 <= v.len(),
{
    assert forall|j: int| 0 <= j < s.len() implies 0 <= (#[trigger] s[j]).0 && s[j].0 + s[j].1 <= v.len() by {
        lemma_tile_lower(v, s, c, j);
        lemma_tile_upper(v, s, c, j);
    }
}

pub proof fn lemma_consecutive_segments_tile(v: Seq<int>)
    ensures
        tiles(v, consecutive_segments(v), true),
    decreases v.len(),
{
    if v.len() > 0 {
        let p = v.drop_last();
        lemma_consecutive_segments_tile(p);
        let s = consecutive_segments(p);
        let n = v.len() as int;
        let r = consecutive_segments(v);
        if n >= 2 && v[n - 1] == v[n - 2] + 1 {
            assert(s.len() > 0);
            assert forall|j: int, t: int| 0 <= j < r.len() && 0 <= t < r[j].1 implies #[trigger] v[r[j].0 + t] == v[r[j].0] + t by {
                if j < r.len() - 1 {
                    assert(r[j] == s[j]);
                    lemma_tiles_bounds(p, s, true);
                    assert(p[s[j].0 + t] == p[s[j].0] + t);
                } else {
                    lemma_tiles_bounds(p, s, true);
                    if t < s.last().1 {
                        assert(p[s.last().0 + t] == p[s.last().0] + t);
                    } else {
                        assert(r[j].0 + t == n - 1);
                        assert(t >= 1);
                        assert(p[s.last().0 + (t - 1)] == p[s.last().0] + (t - 1));
                    }
                }
            }
            assert forall|j: int| 1 <= j < r.len() implies #[trigger] r[j].0 == r[j - 1].0 + r[j - 1].1 by {
                assert(s[j].0 == s[j - 1].0 + s[j - 1].1);
            }
            assert forall|j: int| 0 <= j < r.len() implies (#[trigger] r[j]).1 >= 1 by {
                assert(s[j].1 >= 1);
            }
        } else {
            assert forall|j: int, t: int| 0 <= j < r.len() && 0 <= t < r[j].1 implies #[trigger] v[r[j].0 + t] == v[r[j].0] + t by {
                if j < r.len() - 1 {
                    assert(r[j] == s[j]);
                    lemma_tiles_bounds(p, s, true);
                    assert(p[s[j].0 + t] == p[s[j].0] + t);
                }
            }
            assert forall|j: int| 1 <= j < r.len() implies #[trigger] r[j].0 == r[j - 1].0 + r[j - 1].1 by {
                if j < r.len() - 1 {
                    assert(s[j].0 == s[j - 1].0 + s[j - 1].1);
                }
            }
            assert forall|j: int| 0 <= j < r.len() implies (#[trigger] r[j]).1 >= 1 by {
                if j < r.len() - 1 {
                    assert(s[j].1 >= 1);
                }
            }
        }
    }
}

pub proof fn lemma_value_segments_tile(v: Seq<int>, contiguous: bool)
    ensures
        tiles(v, value_segments(v, contiguous), contiguous),
{
    if contiguous {
        lemma_consecutive_segments_tile(v);
    }
}

/// `n` consecutive integers from `a`.
pub open spec fn block(a: int, n: int) -> Seq<int> {
    Seq::new(n as nat, |t: int| a + t)
}

/// Appending a block of consecutive integers extends the last segment
/// when the block continues it, and otherwise adds one segment.
pub proof fn lemma_segments_block(v: Seq<int>, a: int, n: int)
    requires
        n >= 1,
    ensures
        consecutive_segments(v + block(a, n)) == if v.len() > 0 && v.last() + 1 == a {
            consecutive_segments(v).update(
                consecutive_segments(v).len() - 1,
                (consecutive_segments(v).last().0, consecutive_segments(v).last().1 + n),
            )
        } else {
            consecutive_segments(v).push((v.len() as int, n))
        },
    decreases n,
{
    let w = v + block(a, n);
    if n == 1 {
        assert(w.drop_last() =~= v);
    } else {
        lemma_segments_block(v, a, n - 1);
        let p = v + block(a, n - 1);
        assert(w.drop_last() =~= p);
        let n2 = w.len() as int;
        assert(w[n2 - 1] == a + n - 1);
        assert(w[n2 - 2] == a + n - 2);
        let sp = consecutive_segments(p);
        assert(consecutive_segments(w) == sp.update(sp.len() - 1, (sp.last().0, sp.last().1 + 1)));
        let s0 = consecutive_segments(v);
        if v.len() > 0 && v.last() + 1 == a {
            lemma_consecutive_segments_tile(v);
            assert(sp == s0.update(s0.len() - 1, (s0.last().0, s0.last().1 + n - 1)));
            assert(consecutive_segments(w) =~= s0.update(s0.len() - 1, (s0.last().0, s0.last().1 + n)));
        } else {
            assert(sp == s0.push((v.len() as int, n - 1)));
            assert(consecutive_segments(w) =~= s0.push((v.len() as int, n)));
        }
    }
}

/// Adds the value `x` after the values `cur` to their consecutive segments.
fn segments_add(segs: &mut Vec<(usize, usize)>, Ghost(cur): Ghost<Seq<int>>, Ghost(x): Ghost<int>, joins: bool, pos: usize)
    requires
        pairs_of(old(segs)@) == consecutive_segments(cur),
        pos == cur.len(),
        pos < usize::MAX,
        joins == (cur.len() > 0 && cur.last() + 1 == x),
    ensures
        pairs_of(final(segs)@) == consecutive_segments(cur.push(x)),
{
    proof {
        assert(cur.push(x).drop_last() =~= cur);
        lemma_consecutive_segments_tile(cur);
        lemma_tiles_bounds(cur, consecutive_segments(cur), true);
    }
    if joins {
        let ix = segs.len() - 1;
        let (o, l) = segs[ix];
        segs.set(ix, (o, l + 1));
    } else {
        segs.push((pos, 1));
    }
    proof {
        assert(pairs_of(segs@) =~= consecutive_segments(cur.push(x)));
    }
}

/// The consecutive segments of a list of integers.
pub fn list_segments(v: &[i64]) -> (segs: Vec<(usize, usize)>)
    ensures
        pairs_of(segs@) == consecutive_segments(ints_of(v@)),
{
    let mut segs: Vec<(usize, usize)> = Vec::new();
    let mut k: usize = 0;
    while k < v.len()
        invariant
            0 <= k <= v@.len(),
            pairs_of(segs@) == consecutive_segments(ints_of(v@).take(k as int)),
        decreases v@.len() - k,
    {
        let ghost vals = ints_of(v@);
        proof {
            assert(vals.take(k as int + 1) =~= vals.take(k as int).push(vals[k as int]));
        }
        let joins = k > 0 && v[k - 1] < i64::MAX && v[k - 1] + 1 == v[k];
        segments_add(&mut segs, Ghost(vals.take(k as int)), Ghost(vals[k as int]), joins, k);
        k = k + 1;
    }
    proof {
        assert(ints_of(v@).take(k as int) =~= ints_of(v@));
    }
    segs
}

/// Computes `value_segments` of the source's values.
pub fn compute_segments(src: &ChunkSource, contiguous: bool) -> (segs: Vec<(usize, usize)>)
    requires
        src.wf(),
    ensures
        pairs_of(segs@) == value_segments(src.values(), contiguous),
{
    let n = src.len();
    let mut segs: Vec<(usize, usize)> = Vec::new();
    if !contiguous {
        if n > 0 {
            segs.push((0, n));
            proof {
                assert(pairs_of(segs@) =~= value_segments(src.values(), contiguous));
            }
        } else {
            proof {
                assert(pairs_of(segs@) =~= value_segments(src.values(), contiguous));
            }
        }
        return segs;
    }
    match src {
        ChunkSource::List(v) => {
            list_segments(v.as_slice())
        },
        ChunkSource::Range(r) => {
            range_segments(r)
        },
    }
}

pub open spec fn pairs_of(s: Seq<(usize, usize)>) -> Seq<(int, int)> {
    s.map_values(|p: (usize, usize)| (p.0 as int, p.1 as int))
}

/// The consecutive segments of a range expression's values, found run by
/// run: a run of step one is added as one block.
fn range_segments(r: &RangeExpr) -> (segs: Vec<(usize, usize)>)
    requires
        r.wf(),
        r.values().len() <= usize::MAX,
    ensures
        pairs_of(segs@) == consecutive_segments(r.values()),
{
    let runs = r.run_list();
    let mut segs: Vec<(usize, usize)> = Vec::new();
    let mut pos: usize = 0;
    let mut last: i64 = 0;
    let mut j: usize = 0;
    while j < runs.len()
        invariant
            runs_wf(runs@),
            runs@ == r.runs(),
            r.values().len() <= usize::MAX,
            0 <= j <= runs@.len(),
            pos == runs_values(runs@.take(j as int)).len(),
            pos > 0 ==> last == runs_values(runs@.take(j as int)).last() && in_domain(last as int),
            pairs_of(segs@) == consecutive_segments(runs_values(runs@.take(j as int))),
        decreases runs@.len() - j,
    {
        let run = runs[j];
        let ghost pre = runs_values(runs@.take(j as int));
        proof {
            lemma_runs_values_take_step(runs@, j as int);
            lemma_run_values_facts(run);
            lemma_runs_values_prefix(runs@, j as int + 1);
            assert(run_wf(run));
        }
        let len_r: usize = ((run.end - run.start) / run.step + 1) as usize;
        if run.step == 1 {
            proof {
                assert(run_values(run) =~= block(run.start as int, len_r as int));
                lemma_segments_block(pre, run.start as int, len_r as int);
                lemma_consecutive_segments_tile(pre);
            }
            if pos > 0 && last + 1 == run.start {
                let ix = segs.len() - 1;
                let (o, l) = segs[ix];
                proof {
                    lemma_tiles_bounds(pre, consecutive_segments(pre), true);
                }
                segs.set(ix, (o, l + len_r));
            } else {
                segs.push((pos, len_r));
            }
            proof {
                assert(pairs_of(segs@) =~= consecutive_segments(pre + run_values(run)));
            }
        } else {
            let mut t: usize = 0;
            while t < len_r
                invariant
                    run_wf(run),
                    len_r == run_values(run).len(),
                    0 <= t <= len_r,
                    pos + len_r <= usize::MAX,
                    pos == pre.len(),
                    pairs_of(segs@) == consecutive_segments(pre + run_values(run).take(t as int)),
                    pos > 0 ==> last == pre.last() && in_domain(last as int),
                    forall|k: int| 0 <= k < run_values(run).len() ==> #[trigger] run_values(run)[k] == run.start + k * run.step,
                    forall|k: int| 0 <= k < run_values(run).len() ==> run.start <= #[trigger] run_values(run)[k] <= run.end,
                decreases len_r - t,
            {
                let ghost cur = pre + run_values(run).take(t as int);
                assert(run_values(run)[t as int] == run.start + (t as int) * run.step);
                let x: i64 = run.start + (t as i64) * run.step;
                proof {
                    assert(pre + run_values(run).take(t as int + 1) =~= cur.push(x as int));
                }
                let joins = if t > 0 {
                    assert(run_values(run)[t as int - 1] == run.start + (t as int - 1) * run.step);
                    let prev: i64 = run.start + ((t - 1) as i64) * run.step;
                    assert(cur.last() == prev);
                    prev + 1 == x
                } else if pos > 0 {
                    assert(cur.last() == last);
                    last + 1 == x
                } else {
                    false
                };
                segments_add(&mut segs, Ghost(cur), Ghost(x as int), joins, pos + t);
                t = t + 1;
            }
            proof {
                assert(run_values(run).take(len_r as int) =~= run_values(run));
            }
        }
        proof {
            assert(run_values(run)[len_r as int - 1] == run.end);
        }
        last = run.end;
        pos = pos + len_r;
        j = j + 1;
    }
    proof {
        assert(runs@.take(j as int) =~= runs@);
    }
    segs
}

// ---------------------------------------------------------------------
// Chunks of segments.

pub open spec fn ceil_div(n: int, d: int) -> int {
    n / d + if n % d != 0 { 1int } else { 0int }
}

/// Number of chunks of a segment of `len` values, at most `size` each.
pub open spec fn seg_count(len: int, size: int) -> int {
    ceil_div(len, size)
}

/// Size of chunk `k` of a segment of `len` values cut into `count` chunks.
pub open spec fn chunk_size(len: int, count: int, k: int) -> int {
    len / count + if k < len % count { 1int } else { 0int }
}

/// Offset of chunk `k` within its segment.
pub open spec fn chunk_offset(len: int, count: int, k: int) -> int {
    k * (len / count) + if k < len % count { k } else { len % count }
}

/// The runs of the chunk holding `v[offset .. offset + size]`: one span
/// from its first to its last value for contiguous chunking, otherwise
/// the runs the expression language library builds from the values.
pub open spec fn chunk_runs(v: Seq<int>, offset: int, size: int, contiguous: bool) -> Seq<IntRun> {
    let w = v.subrange(offset, offset + size);
    if contiguous {
        seq![IntRun { start: w[0] as i64, end: w[size - 1] as i64, step: 1 }]
    } else {
        runs_of_triples(library_runs_from_values(i64s_of(w)).unwrap())
    }
}

pub open spec fn runs_of_triples(t: Seq<(i64, i64, i64)>) -> Seq<IntRun> {
    t.map_values(|x: (i64, i64, i64)| IntRun { start: x.0, end: x.1, step: x.2 })
}

/// The chunks of one segment `(offset, len)`.
pub open spec fn segment_chunks(v: Seq<int>, seg: (int, int), size: int, contiguous: bool) -> Seq<Seq<IntRun>> {
    let count = seg_count(seg.1, size);
    Seq::new(count as nat, |k: int| chunk_runs(v, seg.0 + chunk_offset(seg.1, count, k), chunk_size(seg.1, count, k), contiguous))
}

/// The chunks of the segments, in order.
pub open spec fn segments_chunks(v: Seq<int>, segs: Seq<(int, int)>, size: int, contiguous: bool) -> Seq<Seq<IntRun>>
    decreases segs.len(),
{
    if segs.len() == 0 {
        Seq::empty()
    } else {
        segments_chunks(v, segs.drop_last(), size, contiguous) + segment_chunks(v, segs.last(), size, contiguous)
    }
}

/// The chunks of `v` with at most `size` values each.
pub open spec fn static_chunks(v: Seq<int>, size: int, contiguous: bool) -> Seq<Seq<IntRun>> {
    segments_chunks(v, value_segments(v, contiguous), size, contiguous)
}

proof fn lemma_seg_count(len: int, size: int)
    requires
        len >= 1,
        size >= 1,
    ensures
        1 <= seg_count(len, size) <= len,
        (len / seg_count(len, size)) * seg_count(len, size) + len % seg_count(len, size) == len,
        0 <= len % seg_count(len, size) < seg_count(len, size),
        len / seg_count(len, size) >= 1,
{
    let c = seg_count(len, size);
    assert(len / size <= len) by (nonlinear_arith)
        requires
            len >= 1,
            size >= 1,
    ;
    assert(len == (len / size) * size + len % size) by {
        vstd::arithmetic::div_mod::lemma_fundamental_div_mod(len, size);
    }
    if len % size == 0 {
        assert(len / size >= 1) by (nonlinear_arith)
            requires
                len >= 1,
                size >= 1,
                len == (len / size) * size,
        ;
    } else {
        assert(len / size < len) by (nonlinear_arith)
            requires
                len >= 1,
                size >= 1,
                len % size > 0,
                len == (len / size) * size + len % size,
        ;
    }
    assert(len == (len / c) * c + len % c) by {
        vstd::arithmetic::div_mod::lemma_fundamental_div_mod(len, c);
    }
    assert(len / c >= 1) by (nonlinear_arith)
        requires
            1 <= c <= len,
    {
        vstd::arithmetic::div_mod::lemma_div_is_ordered(c, len, c);
        vstd::arithmetic::div_mod::lemma_div_by_self(c);
    }
}

/// Chunk `k` of a segment lies within it and is not empty.
proof fn lemma_chunk_within(len: int, size: int, k: int)
    requires
        len >= 1,
        size >= 1,
        0 <= k < seg_count(len, size),
    ensures
        chunk_size(len, seg_count(len, size), k) >= 1,
        chunk_offset(len, seg_count(len, size), k) >= 0,
        chunk_offset(len, seg_count(len, size), k) + chunk_size(len, seg_count(len, size), k) <= len,
{
    let c = seg_count(len, size);
    lemma_seg_count(len, size);
    let q = len / c;
    let r = len % c;
    assert(k * q >= 0) by (nonlinear_arith)
        requires
            k >= 0,
            q >= 1,
    ;
    assert((k + 1) * q <= c * q) by (nonlinear_arith)
        requires
            k + 1 <= c,
            q >= 1,
    ;
    assert((k + 1) * q == k * q + q) by (nonlinear_arith);
}

/// The number of chunks of segments tiling `n` values is at most `n`.
proof fn lemma_counts_bound(v: Seq<int>, segs: Seq<(int, int)>, size: int, contiguous: bool, n: int)
    requires
        size >= 1,
        forall|j: int| 0 <= j < segs.len() ==> (#[trigger] segs[j]).1 >= 1,
        forall|j: int| 1 <= j < segs.len() ==> #[trigger] segs[j].0 == segs[j - 1].0 + segs[j - 1].1,
        segs.len() > 0 ==> segs[0].0 >= 0 && segs.last().0 + segs.last().1 == n,
        segs.len() == 0 ==> n >= 0,
    ensures
        segments_chunks(v, segs, size, contiguous).len() <= n,
    decreases segs.len(),
{
    if segs.len() > 0 {
        let init = segs.drop_last();
        let last = segs.last();
        lemma_seg_count(last.1, size);
        assert(segments_chunks(v, segs, size, contiguous) == segments_chunks(v, init, size, contiguous) + segment_chunks(v, last, size, contiguous));
        if init.len() > 0 {
            assert(segs[segs.len() - 1].0 == segs[segs.len() - 2].0 + segs[segs.len() - 2].1);
            assert forall|j: int| 1 <= j < init.len() implies #[trigger] init[j].0 == init[j - 1].0 + init[j - 1].1 by {
                assert(segs[j].0 == segs[j - 1].0 + segs[j - 1].1);
            }
            assert forall|j: int| 0 <= j < init.len() implies (#[trigger] init[j]).1 >= 1 by {
                assert(segs[j].1 >= 1);
            }
            lemma_counts_bound(v, init, size, contiguous, last.0);
        } else {
            assert(last == segs[0]);
        }
    }
}

proof fn lemma_segments_chunks_prefix(v: Seq<int>, segs: Seq<(int, int)>, size: int, contiguous: bool, m: int)
    requires
        0 <= m <= segs.len(),
    ensures
        segments_chunks(v, segs.take(m), size, contiguous).len() <= segments_chunks(v, segs, size, contiguous).len(),
        forall|i: int| 0 <= i < segments_chunks(v, segs.take(m), size, contiguous).len() ==>
            #[trigger] segments_chunks(v, segs.take(m), size, contiguous)[i] == segments_chunks(v, segs, size, contiguous)[i],
    decreases segs.len() - m,
{
    if m < segs.len() {
        lemma_segments_chunks_prefix(v, segs, size, contiguous, m + 1);
        assert(segs.take(m + 1).drop_last() =~= segs.take(m));
        let a = segments_chunks(v, segs.take(m), size, contiguous);
        let b = segments_chunks(v, segs.take(m + 1), size, contiguous);
        assert forall|i: int| 0 <= i < a.len() implies #[trigger] a[i] == segments_chunks(v, segs, size, contiguous)[i] by {
            assert(a[i] == b[i]);
        }
    } else {
        assert(segs.take(m) =~= segs);
    }
}

/// The integers of a list of chunks, chunk after chunk.
pub open spec fn chunks_values(cs: Seq<Seq<IntRun>>) -> Seq<int>
    decreases cs.len(),
{
    if cs.len() == 0 {
        Seq::empty()
    } else {
        chunks_values(cs.drop_last()) + runs_values(cs.last())
    }
}

proof fn lemma_chunks_values_concat(a: Seq<Seq<IntRun>>, b: Seq<Seq<IntRun>>)
    ensures
        chunks_values(a + b) == chunks_values(a) + chunks_values(b),
    decreases b.len(),
{
    if b.len() == 0 {
        assert(a + b =~= a);
        assert(chunks_values(a) + chunks_values(b) =~= chunks_values(a));
    } else {
        lemma_chunks_values_concat(a, b.drop_last());
        assert((a + b).drop_last() =~= a + b.drop_last());
        assert((a + b).last() == b.last());
        assert(chunks_values(a + b) =~= chunks_values(a) + chunks_values(b));
    }
}

/// Whether every integer of `v` fits in an `i64`.
pub open spec fn all_i64(v: Seq<int>) -> bool {
    forall|j: int| 0 <= j < v.len() ==> i64::MIN <= #[trigger] v[j] <= i64::MAX
}

/// A contiguous chunk over consecutive integers holds exactly them.
proof fn lemma_contiguous_chunk_values(v: Seq<int>, o: int, n: int)
    requires
        0 <= o,
        n >= 1,
        o + n <= v.len(),
        all_i64(v),
        forall|t: int| 0 <= t < n ==> #[trigger] v[o + t] == v[o] + t,
    ensures
        runs_values(chunk_runs(v, o, n, true)) == v.subrange(o, o + n),
{
    let w = v.subrange(o, o + n);
    let r = IntRun { start: w[0] as i64, end: w[n - 1] as i64, step: 1 };
    assert(chunk_runs(v, o, n, true) == seq![r]);
    assert(v[o + (n - 1)] == v[o] + (n - 1));
    assert(w[0] == v[o]);
    assert(w[n - 1] == v[o + (n - 1)]);
    assert(r.start as int == v[o]);
    assert(r.end as int == v[o] + n - 1);
    assert(run_len(r) == n);
    assert(seq![r].drop_last() =~= Seq::<IntRun>::empty());
    assert(runs_values(seq![r].drop_last()) =~= Seq::<int>::empty());
    assert(seq![r].last() == r);
    assert(runs_values(seq![r]) =~= run_values(r));
    assert forall|k: int| 0 <= k < n implies #[trigger] run_values(r)[k] == w[k] by {
        assert(w[k] == v[o + k]);
    }
    assert(run_values(r) =~= w);
}

/// The offset of the chunk after chunk `k` of a segment, and the offset
/// past the last chunk.
proof fn lemma_chunk_offsets(len: int, size: int, k: int)
    requires
        len >= 1,
        size >= 1,
        0 <= k < seg_count(len, size),
    ensures
        chunk_offset(len, seg_count(len, size), k + 1)
            == chunk_offset(len, seg_count(len, size), k) + chunk_size(len, seg_count(len, size), k),
        chunk_offset(len, seg_count(len, size), 0) == 0,
        chunk_offset(len, seg_count(len, size), seg_count(len, size)) == len,
        chunk_size(len, seg_count(len, size), k) <= size,
{
    let c = seg_count(len, size);
    lemma_seg_count(len, size);
    let q = len / c;
    let r = len % c;
    assert((k + 1) * q == k * q + q) by (nonlinear_arith);
    assert(0 * q == 0) by (nonlinear_arith);
    assert(c * q + r == len);
    // the chunk count is the size's ceiling, so no chunk exceeds the size
    assert(len <= c * size) by {
        assert(len == (len / size) * size + len % size) by {
            vstd::arithmetic::div_mod::lemma_fundamental_div_mod(len, size);
        }
        assert(c * size == (len / size) * size + (if len % size != 0 { size } else { 0 })) by (nonlinear_arith)
            requires
                c == len / size + (if len % size != 0 { 1int } else { 0int });
    }
    if r > 0 {
        assert(q < size) by (nonlinear_arith)
            requires
                c * q + r == len,
                len <= c * size,
                r > 0,
                c >= 1;
    } else {
        assert(q <= size) by (nonlinear_arith)
            requires
                c * q == len,
                len <= c * size,
                c >= 1;
    }
}

/// Chunk `k` of a consecutive segment holds its slice of the segment.
proof fn lemma_segment_chunk_k(v: Seq<int>, seg: (int, int), size: int, k: int)
    requires
        size >= 1,
        seg.1 >= 1,
        0 <= seg.0,
        seg.0 + seg.1 <= v.len(),
        all_i64(v),
        forall|t: int| 0 <= t < seg.1 ==> #[trigger] v[seg.0 + t] == v[seg.0] + t,
        0 <= k < seg_count(seg.1, size),
    ensures
        runs_values(segment_chunks(v, seg, size, true)[k]) == v.subrange(
            seg.0 + chunk_offset(seg.1, seg_count(seg.1, size), k),
            seg.0 + chunk_offset(seg.1, seg_count(seg.1, size), k) + chunk_size(seg.1, seg_count(seg.1, size), k)),
{
    let (o, len) = seg;
    let c = seg_count(len, size);
    lemma_chunk_within(len, size, k);
    let a = o + chunk_offset(len, c, k);
    let n = chunk_size(len, c, k);
    assert forall|t: int| 0 <= t < n implies #[trigger] v[a + t] == v[a] + t by {
        assert(v[o + (a - o + t)] == v[o] + (a - o + t));
        assert(v[o + (a - o)] == v[o] + (a - o));
    }
    lemma_contiguous_chunk_values(v, a, n);
}

/// The first `m` chunks of a consecutive segment hold its first values.
proof fn lemma_segment_prefix(v: Seq<int>, seg: (int, int), size: int, m: int)
    requires
        size >= 1,
        seg.1 >= 1,
        0 <= seg.0,
        seg.0 + seg.1 <= v.len(),
        all_i64(v),
        forall|t: int| 0 <= t < seg.1 ==> #[trigger] v[seg.0 + t] == v[seg.0] + t,
        0 <= m <= seg_count(seg.1, size),
    ensures
        chunks_values(segment_chunks(v, seg, size, true).take(m))
            == v.subrange(seg.0, seg.0 + chunk_offset(seg.1, seg_count(seg.1, size), m)),
    decreases m,
{
    let (o, len) = seg;
    let c = seg_count(len, size);
    let cs = segment_chunks(v, seg, size, true);
    lemma_seg_count(len, size);
    if m == 0 {
        lemma_chunk_offsets(len, size, 0);
        assert(cs.take(0) =~= Seq::<Seq<IntRun>>::empty());
        assert(v.subrange(o, o) =~= Seq::<int>::empty());
    } else {
        lemma_segment_prefix(v, seg, size, m - 1);
        lemma_chunk_offsets(len, size, m - 1);
        lemma_chunk_within(len, size, m - 1);
        lemma_segment_chunk_k(v, seg, size, m - 1);
        assert(cs.take(m).drop_last() =~= cs.take(m - 1));
        assert(cs.take(m).last() == cs[m - 1]);
        assert(chunks_values(cs.take(m)) =~= v.subrange(o, o + chunk_offset(len, c, m)));
    }
}

/// The chunks of one consecutive segment hold its values in order, each
/// chunk at least one and at most `size` of them.
proof fn lemma_segment_chunks_cover(v: Seq<int>, seg: (int, int), size: int)
    requires
        size >= 1,
        seg.1 >= 1,
        0 <= seg.0,
        seg.0 + seg.1 <= v.len(),
        all_i64(v),
        forall|t: int| 0 <= t < seg.1 ==> #[trigger] v[seg.0 + t] == v[seg.0] + t,
    ensures
        chunks_values(segment_chunks(v, seg, size, true)) == v.subrange(seg.0, seg.0 + seg.1),
        forall|k: int| 0 <= k < segment_chunks(v, seg, size, true).len()
            ==> 1 <= #[trigger] runs_values(segment_chunks(v, seg, size, true)[k]).len() <= size,
{
    let (o, len) = seg;
    let c = seg_count(len, size);
    lemma_seg_count(len, size);
    let cs = segment_chunks(v, seg, size, true);
    assert forall|k: int| 0 <= k < cs.len() implies 1 <= #[trigger] runs_values(cs[k]).len() <= size by {
        lemma_chunk_within(len, size, k);
        lemma_chunk_offsets(len, size, k);
        lemma_segment_chunk_k(v, seg, size, k);
    }
    lemma_chunk_offsets(len, size, 0);
    lemma_segment_prefix(v, seg, size, c);
    assert(cs.take(c) =~= cs);
}

/// Law: the static chunks of a segment of `len` values, at most `size` values
/// each, tile it in order: there are `ceil(len / size)` of them, the first
/// starts at 0, each starts where the one before ends and the last ends at
/// `len`; none is empty or over `size`, and their sizes differ by at most
/// one, the larger ones first.
pub proof fn law_segment_chunks_tile(len: int, size: int)
    requires
        len >= 1,
        size >= 1,
    ensures
        seg_count(len, size) == ceil_div(len, size),
        chunk_offset(len, seg_count(len, size), 0) == 0,
        forall|k: int| 0 <= k < seg_count(len, size) ==>
            #[trigger] chunk_offset(len, seg_count(len, size), k + 1)
                == chunk_offset(len, seg_count(len, size), k) + chunk_size(len, seg_count(len, size), k),
        chunk_offset(len, seg_count(len, size), seg_count(len, size)) == len,
        forall|k: int| 0 <= k < seg_count(len, size) ==> 1 <= #[trigger] chunk_size(len, seg_count(len, size), k) <= size,
        forall|k1: int, k2: int| 0 <= k1 <= k2 < seg_count(len, size) ==>
            chunk_size(len, seg_count(len, size), k2) <= #[trigger] chunk_size(len, seg_count(len, size), k1)
                <= #[trigger] chunk_size(len, seg_count(len, size), k2) + 1,
{
    let c = seg_count(len, size);
    lemma_seg_count(len, size);
    let q = len / c;
    let r = len % c;
    assert forall|k: int| 0 <= k < c implies
        #[trigger] chunk_offset(len, c, k + 1) == chunk_offset(len, c, k) + chunk_size(len, c, k) by {
        assert((k + 1) * q == k * q + q) by (nonlinear_arith);
    }
    assert(c * q + r == len);
    // Each chunk holds at most `size` values: `c * size >= len`.
    assert(len == (len / size) * size + len % size) by {
        vstd::arithmetic::div_mod::lemma_fundamental_div_mod(len, size);
    }
    assert(c * size >= len) by (nonlinear_arith)
        requires
            c == len / size + if len % size != 0 { 1int } else { 0int },
            len == (len / size) * size + len % size,
            0 <= len % size < size,
    ;
    assert(q <= size) by (nonlinear_arith)
        requires
            c * size >= len,
            c * q + r == len,
            r >= 0,
            c >= 1,
    ;
    if r > 0 {
        assert(q < size) by (nonlinear_arith)
            requires
                c * size >= len,
                c * q + r == len,
                r > 0,
                c >= 1,
        ;
    }
    assert forall|k: int| 0 <= k < c implies 1 <= #[trigger] chunk_size(len, c, k) <= size by {}
}

/// Law: contiguous static chunking splits the values into chunks that
/// hold them all, in order, each chunk holding at least one and at most
/// `size` values.
pub proof fn law_contiguous_chunks_cover(v: Seq<int>, size: int)
    requires
        size >= 1,
        all_i64(v),
    ensures
        chunks_values(static_chunks(v, size, true)) == v,
        forall|k: int| 0 <= k < static_chunks(v, size, true).len()
            ==> 1 <= #[trigger] runs_values(static_chunks(v, size, true)[k]).len() <= size,
{
    let segs = consecutive_segments(v);
    lemma_consecutive_segments_tile(v);
    lemma_tiles_bounds(v, segs, true);
    lemma_segments_cover(v, segs, size);
    if segs.len() > 0 {
        assert(v.subrange(0, v.len() as int) =~= v);
    } else {
        assert(v.len() == 0);
        assert(chunks_values(static_chunks(v, size, true)) =~= v);
    }
}

proof fn lemma_segments_cover(v: Seq<int>, segs: Seq<(int, int)>, size: int)
    requires
        size >= 1,
        all_i64(v),
        forall|j: int| 0 <= j < segs.len() ==> (#[trigger] segs[j]).1 >= 1,
        forall|j: int| 0 <= j < segs.len() ==> 0 <= (#[trigger] segs[j]).0 && segs[j].0 + segs[j].1 <= v.len(),
        segs.len() > 0 ==> segs[0].0 == 0,
        forall|j: int| 1 <= j < segs.len() ==> #[trigger] segs[j].0 == segs[j - 1].0 + segs[j - 1].1,
        forall|j: int, t: int| 0 <= j < segs.len() && 0 <= t < segs[j].1 ==> #[trigger] v[segs[j].0 + t] == v[segs[j].0] + t,
    ensures
        segs.len() > 0 ==> chunks_values(segments_chunks(v, segs, size, true)) == v.subrange(0, segs.last().0 + segs.last().1),
        segs.len() == 0 ==> segments_chunks(v, segs, size, true).len() == 0,
        forall|k: int| 0 <= k < segments_chunks(v, segs, size, true).len()
            ==> 1 <= #[trigger] runs_values(segments_chunks(v, segs, size, true)[k]).len() <= size,
    decreases segs.len(),
{
    if segs.len() > 0 {
        let init = segs.drop_last();
        let last = segs.last();
        assert forall|t: int| 0 <= t < last.1 implies #[trigger] v[last.0 + t] == v[last.0] + t by {
            assert(v[segs[segs.len() - 1].0 + t] == v[segs[segs.len() - 1].0] + t);
        }
        lemma_segment_chunks_cover(v, last, size);
        assert forall|j: int, t: int| 0 <= j < init.len() && 0 <= t < init[j].1 implies #[trigger] v[init[j].0 + t] == v[init[j].0] + t by {
            assert(init[j] == segs[j]);
            assert(v[segs[j].0 + t] == v[segs[j].0] + t);
        }
        assert forall|j: int| 1 <= j < init.len() implies #[trigger] init[j].0 == init[j - 1].0 + init[j - 1].1 by {
            assert(segs[j].0 == segs[j - 1].0 + segs[j - 1].1);
        }
        assert forall|j: int| 0 <= j < init.len() implies (#[trigger] init[j]).1 >= 1 && 0 <= init[j].0 && init[j].0 + init[j].1 <= v.len() by {
            assert(init[j] == segs[j]);
        }
        lemma_segments_cover(v, init, size);
        let a = segments_chunks(v, init, size, true);
        let b = segment_chunks(v, last, size, true);
        assert(segments_chunks(v, segs, size, true) == a + b);
        lemma_chunks_values_concat(a, b);
        if init.len() > 0 {
            assert(last.0 == init.last().0 + init.last().1) by {
                assert(segs[segs.len() - 1].0 == segs[segs.len() - 2].0 + segs[segs.len() - 2].1);
            }
            assert(v.subrange(0, last.0 + last.1) =~= v.subrange(0, last.0) + v.subrange(last.0, last.0 + last.1));
        } else {
            assert(last.0 == 0);
            assert(a.len() == 0);
            assert(chunks_values(a) =~= Seq::<int>::empty());
            assert(chunks_values(a + b) =~= chunks_values(b));
        }
        assert forall|k: int| 0 <= k < (a + b).len() implies 1 <= #[trigger] runs_values((a + b)[k]).len() <= size by {
            if k < a.len() {
                assert((a + b)[k] == a[k]);
            } else {
                assert((a + b)[k] == b[k - a.len()]);
            }
        }
    }
}

/// The contiguous adaptive chunk from `c` ends within the values, holds at
/// most `size` of them, and runs over consecutive integers.
proof fn lemma_contig_end(v: Seq<int>, c: int, e: int, size: int)
    requires
        0 <= c < e <= v.len(),
        e - c <= size,
        forall|t: int| 0 <= t < e - c ==> #[trigger] v[c + t] == v[c] + t,
    ensures
        e <= contig_end(v, c, e, size) <= v.len(),
        contig_end(v, c, e, size) - c <= size,
        forall|t: int| 0 <= t < contig_end(v, c, e, size) - c ==> #[trigger] v[c + t] == v[c] + t,
    decreases v.len() - e,
{
    if 0 < e < v.len() && e - c < size && v[e] == v[e - 1] + 1 {
        assert forall|t: int| 0 <= t < e + 1 - c implies #[trigger] v[c + t] == v[c] + t by {
            if t == e - c {
                assert(v[c + (t - 1)] == v[c] + (t - 1));
            }
        }
        lemma_contig_end(v, c, e + 1, size);
    }
}

/// What successive adaptive steps over the values `v` yield from cursor
/// `k`, with the chunk size `sizes[i]` in force at step `i` (sizes below
/// one count as one): the integers of the chunks, one after another, and
/// the cursor after the last step.
pub open spec fn adaptive_walk(v: Seq<int>, k: int, sizes: Seq<int>, contiguous: bool) -> (Seq<int>, int)
    decreases sizes.len(),
{
    if sizes.len() == 0 || k < 0 || k >= v.len() {
        (Seq::empty(), k)
    } else {
        let s = if sizes[0] < 1 { 1 } else { sizes[0] };
        let e = adaptive_end(v, k, s, contiguous);
        let rest = adaptive_walk(v, e, sizes.drop_first(), contiguous);
        (runs_values(adaptive_chunk(v, k, s, contiguous)) + rest.0, rest.1)
    }
}

/// Law: with contiguous adaptive chunking, whatever chunk size is in force
/// at each step, the steps yield the values in order, each exactly once:
/// what they yield is the values from the starting cursor up to the final
/// one, and once there are at least as many steps as values left, every
/// value has been yielded.
pub proof fn law_adaptive_walk_covers(v: Seq<int>, k: int, sizes: Seq<int>)
    requires
        all_i64(v),
        0 <= k <= v.len(),
    ensures
        k <= adaptive_walk(v, k, sizes, true).1 <= v.len(),
        adaptive_walk(v, k, sizes, true).0 == v.subrange(k, adaptive_walk(v, k, sizes, true).1),
        sizes.len() >= v.len() - k ==> adaptive_walk(v, k, sizes, true).1 == v.len(),
    decreases sizes.len(),
{
    if sizes.len() == 0 || k >= v.len() {
        assert(v.subrange(k, k) =~= Seq::<int>::empty());
    } else {
        let s = if sizes[0] < 1 { 1 } else { sizes[0] };
        let e = adaptive_end(v, k, s, true);
        lemma_contig_end(v, k, k + 1, s);
        lemma_contiguous_chunk_values(v, k, e - k);
        law_adaptive_walk_covers(v, e, sizes.drop_first());
        let rest = adaptive_walk(v, e, sizes.drop_first(), true);
        assert(v.subrange(k, rest.1) =~= v.subrange(k, e) + v.subrange(e, rest.1));
    }
}

/// A segment of the chunk layout.
#[derive(Clone, Copy, Debug, PartialEq, Eq, Structural)]
pub struct Segment {
    pub offset: usize,
    pub len: usize,
    pub count: usize,
    pub small: usize,
    pub leftovers: usize,
}

/// The chunk layout of a chunked parameter's values.
#[derive(Clone, Debug)]
pub struct ChunkPlan {
    source: ChunkSource,
    segments: Vec<Segment>,
    total: usize,
    size: usize,
    contiguous: bool,
}

pub open spec fn segment_pair(s: Segment) -> (int, int) {
    (s.offset as int, s.len as int)
}

impl ChunkPlan {
    pub closed spec fn values(&self) -> Seq<int> {
        self.source.values()
    }

    pub closed spec fn chunk_size_limit(&self) -> int {
        self.size as int
    }

    pub closed spec fn is_contiguous(&self) -> bool {
        self.contiguous
    }

    /// The chunks, in order.
    pub open spec fn chunks(&self) -> Seq<Seq<IntRun>> {
        static_chunks(self.values(), self.chunk_size_limit(), self.is_contiguous())
    }

    pub closed spec fn wf(&self) -> bool {
        &&& self.source.wf()
        &&& self.size >= 1
        &&& self.segments@.map_values(|s: Segment| segment_pair(s)) == value_segments(self.source.values(), self.contiguous)
        &&& forall|j: int| 0 <= j < self.segments@.len() ==> {
            let s = #[trigger] self.segments@[j];
            &&& s.count == seg_count(s.len as int, self.size as int)
            &&& s.count >= 1
            &&& s.small == s.len / s.count
            &&& s.leftovers == s.len % s.count
        }
        &&& self.total == self.chunks().len()
    }

    /// Lays out the chunks of `source` with at most `size` values each.
    pub fn new(source: ChunkSource, size: usize, contiguous: bool) -> (p: ChunkPlan)
        requires
            source.wf(),
            size >= 1,
        ensures
            p.wf(),
            p.values() == source.values(),
            p.chunk_size_limit() == size,
            p.is_contiguous() == contiguous,
    {
        let pairs = compute_segments(&source, contiguous);
        let ghost v = source.values();
        proof {
            lemma_value_segments_tile(v, contiguous);
            lemma_tiles_bounds(v, value_segments(v, contiguous), contiguous);
        }
        let mut segments: Vec<Segment> = Vec::new();
        let mut total: usize = 0;
        let mut j: usize = 0;
        while j < pairs.len()
            invariant
                source.wf(),
                size >= 1,
                pairs_of(pairs@) == value_segments(v, contiguous),
                v == source.values(),
                tiles(v, value_segments(v, contiguous), contiguous),
                forall|i: int| 0 <= i < pairs_of(pairs@).len() ==> 0 <= (#[trigger] pairs_of(pairs@)[i]).0 && pairs_of(pairs@)[i].0 + pairs_of(pairs@)[i].1 <= v.len(),
                0 <= j <= pairs@.len(),
                segments@.len() == j,
                segments@.map_values(|s: Segment| segment_pair(s)) == pairs_of(pairs@).take(j as int),
                forall|i: int| 0 <= i < j ==> {
                    let s = #[trigger] segments@[i];
                    &&& s.count == seg_count(s.len as int, size as int)
                    &&& s.count >= 1
                    &&& s.small == s.len / s.count
                    &&& s.leftovers == s.len % s.count
                },
                total == segments_chunks(v, pairs_of(pairs@).take(j as int), size as int, contiguous).len(),
            decreases pairs@.len() - j,
        {
            let (o, l) = pairs[j];
            let ghost segs = pairs_of(pairs@);
            proof {
                assert(segs[j as int] == (o as int, l as int));
                assert(l >= 1);
                lemma_seg_count(l as int, size as int);
                assert(segs.take(j as int + 1).drop_last() =~= segs.take(j as int));
                assert(segs.take(j as int + 1).last() == segs[j as int]);
                lemma_counts_bound(v, segs, size as int, contiguous, v.len() as int);
                lemma_segments_chunks_prefix(v, segs, size as int, contiguous, j as int + 1);
            }
            let count = l / size + if l % size != 0 { 1 } else { 0 };
            let seg = Segment { offset: o, len: l, count, small: l / count, leftovers: l % count };
            segments.push(seg);
            total = total + count;
            proof {
                assert(segments@.map_values(|s: Segment| segment_pair(s)) =~= segs.take(j as int + 1));
            }
            j = j + 1;
        }
        proof {
            assert(pairs_of(pairs@).take(j as int) =~= pairs_of(pairs@));
        }
        ChunkPlan { source, segments, total, size, contiguous }
    }

    /// Number of chunks.
    pub fn len(&self) -> (n: usize)
        requires
            self.wf(),
        ensures
            n == self.chunks().len(),
    {
        self.total
    }

    /// Chunk `i`.
    pub fn chunk(&self, i: usize) -> (r: RangeExpr)
        requires
            self.wf(),
            i < self.chunks().len(),
        ensures
            r.wf(),
            r.runs() == self.chunks()[i as int],
            r.contiguous_display() == self.is_contiguous(),
    {
        let ghost v = self.values();
        let ghost segs = value_segments(v, self.contiguous);
        let ghost size = self.size as int;
        proof {
            lemma_value_segments_tile(v, self.contiguous);
            lemma_tiles_bounds(v, segs, self.contiguous);
            assert(self.segments@.len() == segs.len()) by {
                assert(self.segments@.map_values(|s: Segment| segment_pair(s)).len() == segs.len());
            }
        }
        let mut base: usize = 0;
        let mut j: usize = 0;
        while j < self.segments.len()
            invariant
                self.wf(),
                v == self.values(),
                segs == value_segments(v, self.contiguous),
                size == self.size,
                self.segments@.len() == segs.len(),
                tiles(v, segs, self.contiguous),
                forall|q: int| 0 <= q < segs.len() ==> 0 <= (#[trigger] segs[q]).0 && segs[q].0 + segs[q].1 <= v.len(),
                i < self.chunks().len(),
                0 <= j <= segs.len(),
                base == segments_chunks(v, segs.take(j as int), size, self.contiguous).len(),
                base <= i,
            decreases segs.len() - j,
        {
            let seg = self.segments[j];
            proof {
                assert(segment_pair(seg) == segs[j as int]) by {
                    assert(self.segments@.map_values(|s: Segment| segment_pair(s))[j as int] == segment_pair(seg));
                }
                assert(segs.take(j as int + 1).drop_last() =~= segs.take(j as int));
                assert(segs.take(j as int + 1).last() == segs[j as int]);
                lemma_segments_chunks_prefix(v, segs, size, self.contiguous, j as int + 1);
            }
            if i - base < seg.count {
                let k = i - base;
                proof {
                    assert(segs[j as int].1 >= 1);
                    lemma_chunk_within(seg.len as int, size, k as int);
                    lemma_seg_count(seg.len as int, size);
                }
                let size_k: usize = seg.small + if k < seg.leftovers { 1 } else { 0 };
                let off_k: usize = seg.offset + k * seg.small + if k < seg.leftovers { k } else { seg.leftovers };
                let ghost pre = segments_chunks(v, segs.take(j as int), size, self.contiguous);
                proof {
                    assert(segments_chunks(v, segs.take(j as int + 1), size, self.contiguous)
                        == pre + segment_chunks(v, segs[j as int], size, self.contiguous));
                    assert(self.chunks()[i as int] == segments_chunks(v, segs.take(j as int + 1), size, self.contiguous)[i as int]);
                    assert(self.chunks()[i as int] == chunk_runs(v, off_k as int, size_k as int, self.contiguous));
                }
                return chunk_of(&self.source, off_k, size_k, self.contiguous, Ghost(seg.offset as int), Ghost(seg.len as int));
            }
            base = base + seg.count;
            j = j + 1;
        }
        proof {
            assert(segs.take(j as int) =~= segs);
        }
        assert(false);
        RangeExpr::from_span(0, 0, false)
    }
}

/// The range expression of the chunk `offset .. offset + size` of the
/// source, within the segment `seg_offset .. seg_offset + seg_len`.
fn chunk_of(src: &ChunkSource, offset: usize, size: usize, contiguous: bool, Ghost(seg_offset): Ghost<int>, Ghost(seg_len): Ghost<int>) -> (r: RangeExpr)
    requires
        src.wf(),
        size >= 1,
        seg_offset <= offset,
        offset + size <= seg_offset + seg_len <= src.values().len(),
        contiguous ==> forall|t: int| 0 <= t < seg_len ==> #[trigger] src.values()[seg_offset + t] == src.values()[seg_offset] + t,
    ensures
        r.wf(),
        r.runs() == chunk_runs(src.values(), offset as int, size as int, contiguous),
        r.contiguous_display() == contiguous,
{
    let ghost v = src.values();
    if contiguous {
        let first = src.at(offset);
        let last = src.at(offset + size - 1);
        proof {
            assert(v[seg_offset + (offset - seg_offset)] == v[seg_offset] + (offset - seg_offset));
            assert(v[seg_offset + (offset + size - 1 - seg_offset)] == v[seg_offset] + (offset + size - 1 - seg_offset));
            assert(in_domain(v[offset as int]));
            assert(in_domain(v[offset + size - 1]));
        }
        let r = RangeExpr::from_span(first, last, true);
        proof {
            assert(r.runs() =~= chunk_runs(v, offset as int, size as int, contiguous));
        }
        r
    } else {
        let w = src.slice(offset, size);
        proof {
            assert(ints_of(w@).len() == w@.len());
            assert(w@.len() == size);
            assert forall|i: int| 0 <= i < w@.len() implies in_domain(#[trigger] w@[i] as int) by {
                assert(ints_of(w@)[i] == w@[i] as int);
                assert(ints_of(w@)[i] == v.subrange(offset as int, offset + size)[i]);
                assert(v[offset + i] == w@[i] as int);
            }
            assert(i64s_of(ints_of(w@)) =~= w@);
        }
        let ghost wv = w@;
        let r = RangeExpr::from_values(w).unwrap();
        proof {
            assert(library_runs_from_values(wv) == Some(crate::range_expr::runs_triples(r.runs())));
            assert(runs_of_triples(crate::range_expr::runs_triples(r.runs())) =~= r.runs());
        }
        r
    }
}

// ---------------------------------------------------------------------
// Adaptive chunks.

/// Where a contiguous chunk started at `c` and grown to `e` stops: at the
/// end of the values, at `size` values, or before a gap.
pub open spec fn contig_end(v: Seq<int>, c: int, e: int, size: int) -> int
    decreases v.len() - e,
{
    if 0 < e < v.len() && e - c < size && v[e] == v[e - 1] + 1 {
        contig_end(v, c, e + 1, size)
    } else {
        e
    }
}

/// The end (exclusive) of the adaptive chunk that starts at `c` with at
/// most `size` values.
pub open spec fn adaptive_end(v: Seq<int>, c: int, size: int, contiguous: bool) -> int {
    if contiguous {
        contig_end(v, c, c + 1, size)
    } else if c + size < v.len() {
        c + size
    } else {
        v.len() as int
    }
}

/// The runs of the adaptive chunk that starts at `c`.
pub open spec fn adaptive_chunk(v: Seq<int>, c: int, size: int, contiguous: bool) -> Seq<IntRun> {
    chunk_runs(v, c, adaptive_end(v, c, size, contiguous) - c, contiguous)
}

/// Cuts the adaptive chunk that starts at `cursor`; returns it with the
/// position after it.
pub fn adaptive_cut(src: &ChunkSource, cursor: usize, size: usize, contiguous: bool) -> (res: (RangeExpr, usize))
    requires
        src.wf(),
        cursor < src.values().len(),
        size >= 1,
    ensures
        res.1 == adaptive_end(src.values(), cursor as int, size as int, contiguous),
        cursor < res.1 <= src.values().len(),
        res.0.wf(),
        res.0.runs() == adaptive_chunk(src.values(), cursor as int, size as int, contiguous),
        res.0.contiguous_display() == contiguous,
{
    let ghost v = src.values();
    let n = src.len();
    if contiguous {
        let mut end: usize = cursor + 1;
        let first = src.at(cursor);
        loop
            invariant
                src.wf(),
                v == src.values(),
                n == v.len(),
                cursor < end <= n,
                end - cursor <= size,
                first as int == v[cursor as int],
                contig_end(v, cursor as int, end as int, size as int) == contig_end(v, cursor as int, cursor + 1, size as int),
                forall|t: int| 0 <= t < end - cursor ==> #[trigger] v[cursor + t] == v[cursor as int] + t,
            ensures
                cursor < end <= n,
                contig_end(v, cursor as int, end as int, size as int) == end,
                contig_end(v, cursor as int, end as int, size as int) == contig_end(v, cursor as int, cursor + 1, size as int),
                forall|t: int| 0 <= t < end - cursor ==> #[trigger] v[cursor + t] == v[cursor as int] + t,
            decreases n - end,
        {
            if end >= n || end - cursor >= size {
                break;
            }
            let prev = src.at(end - 1);
            let cur = src.at(end);
            proof {
                assert(in_domain(v[end - 1]));
            }
            if prev + 1 != cur {
                break;
            }
            proof {
                assert(v[cursor + (end - 1 - cursor)] == v[cursor as int] + (end - 1 - cursor));
            }
            end = end + 1;
        }
        let r = chunk_of(src, cursor, end - cursor, true, Ghost(cursor as int), Ghost(end - cursor));
        (r, end)
    } else {
        let end = if size <= n - cursor { cursor + size } else { n };
        let r = chunk_of(src, cursor, end - cursor, false, Ghost(cursor as int), Ghost(end - cursor));
        (r, end)
    }
}

} // verus!
