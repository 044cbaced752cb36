//! Benchmark traces suitable for plotting.

use crate::criterion::{spec_throughput_type, split_throughput, is_valid_value_str, spec_value_of,
    BenchmarkInfo, Estimate, ThroughputType, CONFIDENCE_LEVEL_BITS};
use crate::error::Error;
use crate::order::{lemma_name_cmp_equal_congruence, lemma_name_cmp_flip, lemma_name_cmp_refl,
    lemma_name_cmp_trans, name_cmp, natural_cmp, Rel};
use vstd::prelude::*;

verus! {

/// Summary of a benchmark measurement for display: a central value with its
/// interval bounds.
///
/// Each field is the IEEE-754 bit pattern of a single-precision value; the
/// verified core moves and orders these patterns but never does arithmetic
/// on them.
#[derive(Clone, Copy, Debug, PartialEq, Eq, Structural)]
pub struct MeasurementDisplay {
    /// Lower bound of the interval (bit pattern).
    pub lower_bound: u32,
    /// Central value (bit pattern).
    pub point_estimate: u32,
    /// Upper bound of the interval (bit pattern).
    pub upper_bound: u32,
}

impl MeasurementDisplay {
    /// Read a timing measurement out of an estimate, insisting on the
    /// standard confidence level.
    pub fn from_estimate(e: &Estimate) -> (r: Result<MeasurementDisplay, Error>)
        ensures
            r is Ok <==> e.confidence_interval.confidence_level == CONFIDENCE_LEVEL_BITS,
            r is Ok ==> r.unwrap() == (MeasurementDisplay {
                lower_bound: e.confidence_interval.lower_bound,
                point_estimate: e.point_estimate,
                upper_bound: e.confidence_interval.upper_bound,
            }),
            r is Err ==> r.unwrap_err() == Error::ConfidenceLevelMismatch,
    {
        if e.confidence_interval.confidence_level == CONFIDENCE_LEVEL_BITS {
            Ok(MeasurementDisplay {
                lower_bound: e.confidence_interval.lower_bound,
                point_estimate: e.point_estimate,
                upper_bound: e.confidence_interval.upper_bound,
            })
        } else {
            Err(Error::ConfidenceLevelMismatch)
        }
    }
}

/// Trace to be plotted: a name and its points, sorted by problem size.
#[derive(Debug)]
pub struct Trace {
    /// Name of the trace.
    pub name: String,
    /// The points: problem size and measurement, strictly ascending in
    /// problem size.
    pub data: Vec<(usize, MeasurementDisplay)>,
}

/// One reconciled benchmark together with the throughput measurement that
/// the caller computed from its median estimate and raw count.
///
/// The conversion from a timing to a throughput divides floating-point
/// values, which the verified core does not do; callers perform it and
/// hand the result in.
#[derive(Debug)]
pub struct TraceInput {
    /// The reconciled records of one benchmark.
    pub info: BenchmarkInfo,
    /// The benchmark's measurement, already converted to throughput.
    pub measurement: MeasurementDisplay,
}

/// The trace name an input record belongs to.
pub open spec fn src_name(s: TraceInput) -> Seq<char> {
    s.info.benchmark.group_id@
}

/// The throughput discriminant of an input record.
pub open spec fn src_tt(s: TraceInput) -> ThroughputType {
    spec_throughput_type(s.info.benchmark.throughput)
}

/// The problem size of an input record, assuming its label is valid.
pub open spec fn src_value(s: TraceInput) -> int {
    spec_value_of(s.info.benchmark.value_str@)
}

/// Whether an input record's label reads as a problem size.
pub open spec fn src_value_ok(s: TraceInput) -> bool {
    is_valid_value_str(s.info.benchmark.value_str@)
}

/// Whether an input record carries the standard confidence level.
pub open spec fn src_cl_ok(s: TraceInput) -> bool {
    s.info.estimates.median.confidence_interval.confidence_level == CONFIDENCE_LEVEL_BITS
}

/// Every record's label reads as a problem size.
pub open spec fn all_values_ok(d: Seq<TraceInput>) -> bool {
    forall|k: int| 0 <= k < d.len() ==> src_value_ok(#[trigger] d[k])
}

/// Every record carries the standard confidence level.
pub open spec fn all_cl_ok(d: Seq<TraceInput>) -> bool {
    forall|k: int| 0 <= k < d.len() ==> src_cl_ok(#[trigger] d[k])
}

/// All records share one throughput discriminant.
pub open spec fn uniform_tt(d: Seq<TraceInput>) -> bool {
    forall|k: int| 0 <= k < d.len() ==> src_tt(#[trigger] d[k]) == src_tt(d[0])
}

/// No two records land on the same (trace, problem size) pair; trace names
/// count as the same when they are equivalent under the natural order.
pub open spec fn no_dup(d: Seq<TraceInput>) -> bool {
    forall|k1: int, k2: int|
        #![trigger d[k1], d[k2]]
        0 <= k1 < k2 < d.len() ==> !(name_cmp(src_name(d[k1]), src_name(d[k2])) == Rel::Equal
            && src_value(d[k1]) == src_value(d[k2]))
}

/// Everything the trace builder demands of its input.
pub open spec fn sources_ok(d: Seq<TraceInput>) -> bool {
    all_values_ok(d) && all_cl_ok(d) && uniform_tt(d) && no_dup(d)
}

/// Trace names appear in strictly ascending natural order.
pub open spec fn names_sorted(ts: Seq<Trace>) -> bool {
    forall|i: int, j: int|
        #![trigger ts[i], ts[j]]
        0 <= i < j < ts.len() ==> name_cmp(ts[i].name@, ts[j].name@) == Rel::Less
}

/// A trace holds at least one point and its points ascend strictly.
pub open spec fn trace_wf(t: Trace) -> bool {
    &&& t.data@.len() > 0
    &&& forall|p: int, q: int|
        #![trigger t.data@[p], t.data@[q]]
        0 <= p < q < t.data@.len() ==> t.data@[p].0 < t.data@[q].0
}

/// Well-formed trace collection: sorted names, well-formed traces.
pub open spec fn traces_wf(ts: Seq<Trace>) -> bool {
    names_sorted(ts) && forall|i: int| 0 <= i < ts.len() ==> trace_wf(#[trigger] ts[i])
}

/// Some trace equivalent to `g` holds the point `(v, m)`.
#[verifier::opaque]
pub open spec fn has_point(ts: Seq<Trace>, g: Seq<char>, v: int, m: MeasurementDisplay) -> bool {
    exists|i: int, j: int|
        #![trigger ts[i].data@[j]]
        0 <= i < ts.len() && 0 <= j < ts[i].data@.len() && name_cmp(ts[i].name@, g) == Rel::Equal
            && ts[i].data@[j].0 == v && ts[i].data@[j].1 == m
}

/// Some trace equivalent to `g` holds a point at problem size `v`.
#[verifier::opaque]
pub open spec fn has_value(ts: Seq<Trace>, g: Seq<char>, v: int) -> bool {
    exists|i: int, j: int|
        #![trigger ts[i].data@[j]]
        0 <= i < ts.len() && 0 <= j < ts[i].data@.len() && name_cmp(ts[i].name@, g) == Rel::Equal
            && ts[i].data@[j].0 == v
}

/// Some trace is named exactly `n`.
#[verifier::opaque]
pub open spec fn has_name(ts: Seq<Trace>, n: Seq<char>) -> bool {
    exists|i: int| 0 <= i < ts.len() && (#[trigger] ts[i]).name@ == n
}

/// A pair occurs among a trace's points.
pub open spec fn pair_in(d: Seq<(usize, MeasurementDisplay)>, v: usize,
    m: MeasurementDisplay) -> bool {
    exists|j: int| 0 <= j < d.len() && #[trigger] d[j] == (v, m)
}

/// Points of one trace ascend strictly.
pub open spec fn data_sorted(d: Seq<(usize, MeasurementDisplay)>) -> bool {
    forall|p: int, q: int|
        #![trigger d[p], d[q]]
        0 <= p < q < d.len() ==> d[p].0 < d[q].0
}

/// Where `value` belongs in a sorted point list: the index of the first
/// point at or above it, and whether that point sits exactly at it.
fn find_data_pos(data: &Vec<(usize, MeasurementDisplay)>, value: usize) -> (r: (usize, bool))
    requires
        data_sorted(data@),
    ensures
        r.0 <= data@.len(),
        forall|q: int| 0 <= q < r.0 ==> (#[trigger] data@[q]).0 < value,
        r.1 ==> r.0 < data@.len() && data@[r.0 as int].0 == value,
        !r.1 ==> r.0 < data@.len() ==> data@[r.0 as int].0 > value,
{
    let n: usize = data.len();
    let mut p: usize = 0;
    while p < n
        invariant
            n == data@.len(),
            p <= n,
            forall|q: int| 0 <= q < p ==> (#[trigger] data@[q]).0 < value,
        decreases n - p,
    {
        let dv: usize = data[p].0;
        if dv == value {
            return (p, true);
        }
        if dv > value {
            return (p, false);
        }
        p = p + 1;
    }
    (p, false)
}

/// Insert a point into a sorted point list, rejecting a duplicate problem
/// size.
fn insert_data_point(data: &mut Vec<(usize, MeasurementDisplay)>, value: usize,
    m: MeasurementDisplay) -> (r: Result<(), Error>)
    requires
        data_sorted(old(data)@),
    ensures
        r is Err ==> final(data)@ == old(data)@ && r.unwrap_err() == (Error::DuplicatePoint {
            value,
        }) && (exists|j: int| 0 <= j < old(data)@.len() && (#[trigger] old(data)@[j]).0 == value),
        r is Ok ==> {
            &&& data_sorted(final(data)@)
            &&& !(exists|j: int|
                0 <= j < old(data)@.len() && (#[trigger] old(data)@[j]).0 == value)
            &&& final(data)@.len() == old(data)@.len() + 1
            &&& pair_in(final(data)@, value, m)
            &&& forall|v: usize, mm: MeasurementDisplay|
                #![trigger pair_in(final(data)@, v, mm)]
                pair_in(final(data)@, v, mm) <==> pair_in(old(data)@, v, mm) || (v == value && mm
                    == m)
        },
{
    let pos: (usize, bool) = find_data_pos(data, value);
    let p: usize = pos.0;
    if pos.1 {
        return Err(Error::DuplicatePoint { value });
    }
    proof {
        if exists|j: int| 0 <= j < data@.len() && (#[trigger] data@[j]).0 == value {
            let j = choose|j: int| 0 <= j < data@.len() && (#[trigger] data@[j]).0 == value;
            if j < p {
                assert(data@[j].0 < value);
            } else {
                assert(p < data@.len());
                assert(data@[p as int].0 > value);
                if j > p {
                    assert(data@[p as int].0 < data@[j].0);
                }
            }
        }
    }
    let ghost before = data@;
    data.insert(p, (value, m));
    proof {
        assert(final(data)@ == before.insert(p as int, (value, m)));
        assert(forall|q: int| 0 <= q < p ==> final(data)@[q] == before[q]);
        assert(final(data)@[p as int] == (value, m));
        assert(forall|q: int|
            p < q < final(data)@.len() ==> final(data)@[q] == before[q - 1]);
        assert(data_sorted(final(data)@)) by {
            assert forall|a: int, b: int|
                #![trigger final(data)@[a], final(data)@[b]]
                0 <= a < b < final(data)@.len() implies final(data)@[a].0
                < final(data)@[b].0 by {
                if a < p && b < p {
                    assert(before[a].0 < before[b].0);
                } else if a < p && b == p {
                    assert(before[a].0 < value);
                } else if a < p && b > p {
                    assert(before[a].0 < before[b - 1].0 || a == b - 1);
                    if a < b - 1 {
                        assert(before[a].0 < before[b - 1].0);
                    }
                    assert(before[b - 1].0 > value || b - 1 >= p);
                    assert(p <= b - 1);
                    if p < before.len() {
                        assert(before[p as int].0 > value);
                        if b - 1 > p {
                            assert(before[p as int].0 < before[b - 1].0);
                        }
                    }
                } else if a == p {
                    assert(b > p);
                    assert(final(data)@[b].0 == before[b - 1].0);
                    assert(p <= b - 1 < before.len());
                    assert(before[p as int].0 > value);
                    if b - 1 > p {
                        assert(before[p as int].0 < before[b - 1].0);
                    }
                } else {
                    assert(a > p && b > p);
                    assert(before[a - 1].0 < before[b - 1].0);
                }
            }
        }
        assert(pair_in(final(data)@, value, m)) by {
            assert(final(data)@[p as int] == (value, m));
        }
        assert forall|v: usize, mm: MeasurementDisplay|
            #![trigger pair_in(final(data)@, v, mm)]
            pair_in(final(data)@, v, mm) <==> pair_in(before, v, mm) || (v == value && mm
                == m) by {
            if pair_in(final(data)@, v, mm) {
                let j = choose|j: int|
                    0 <= j < final(data)@.len() && #[trigger] final(data)@[j] == (v, mm);
                if j < p {
                    assert(before[j] == (v, mm));
                } else if j == p {
                } else {
                    assert(before[j - 1] == (v, mm));
                }
            }
            if pair_in(before, v, mm) {
                let j = choose|j: int| 0 <= j < before.len() && #[trigger] before[j] == (v, mm);
                if j < p {
                    assert(final(data)@[j] == (v, mm));
                } else {
                    assert(final(data)@[j + 1] == (v, mm));
                }
            }
            if v == value && mm == m {
                assert(final(data)@[p as int] == (v, mm));
            }
        }
    }
    Ok(())
}

/// Where `group_id` belongs among sorted traces: the index of the first
/// trace not below it, and whether that trace's name is equivalent to it.
fn find_trace(traces: &Vec<Trace>, group_id: &String) -> (r: (usize, bool))
    requires
        names_sorted(traces@),
    ensures
        r.0 <= traces@.len(),
        forall|i: int|
            0 <= i < r.0 ==> name_cmp((#[trigger] traces@[i]).name@, group_id@) == Rel::Less,
        r.1 ==> r.0 < traces@.len() && name_cmp(traces@[r.0 as int].name@, group_id@)
            == Rel::Equal,
        !r.1 ==> r.0 < traces@.len() ==> name_cmp(traces@[r.0 as int].name@, group_id@)
            == Rel::Greater,
{
    let n: usize = traces.len();
    let mut t: usize = 0;
    while t < n
        invariant
            n == traces@.len(),
            t <= n,
            forall|i: int|
                0 <= i < t ==> name_cmp((#[trigger] traces@[i]).name@, group_id@) == Rel::Less,
        decreases n - t,
    {
        let c: Rel = natural_cmp(traces[t].name.as_str(), group_id.as_str());
        match c {
            Rel::Less => {
                t = t + 1;
            },
            Rel::Equal => {
                return (t, true);
            },
            Rel::Greater => {
                return (t, false);
            },
        }
    }
    (t, false)
}

/// Two traces equivalent to the same name are the same trace, because the
/// names are sorted strictly.
proof fn lemma_equiv_trace_unique(ts: Seq<Trace>, g: Seq<char>, i1: int, i2: int)
    requires
        names_sorted(ts),
        0 <= i1 < ts.len(),
        0 <= i2 < ts.len(),
        name_cmp(ts[i1].name@, g) == Rel::Equal,
        name_cmp(ts[i2].name@, g) == Rel::Equal,
    ensures
        i1 == i2,
{
    if i1 != i2 {
        lemma_name_cmp_equal_congruence(ts[i1].name@, g, ts[i2].name@);
        lemma_name_cmp_flip(ts[i2].name@, g);
        assert(name_cmp(ts[i1].name@, ts[i2].name@) == Rel::Equal);
        lemma_name_cmp_flip(ts[i1].name@, ts[i2].name@);
        if i1 < i2 {
            assert(name_cmp(ts[i1].name@, ts[i2].name@) == Rel::Less);
        } else {
            assert(name_cmp(ts[i2].name@, ts[i1].name@) == Rel::Less);
        }
    }
}

/// Insert a record's point into the existing trace at `t`, whose name is
/// equivalent to the record's.
#[verifier::rlimit(100)]
fn insert_into_existing(traces: &mut Vec<Trace>, t: usize, group_id: &String, value: usize,
    m: MeasurementDisplay) -> (r: Result<(), Error>)
    requires
        traces_wf(old(traces)@),
        t < old(traces)@.len(),
        name_cmp(old(traces)@[t as int].name@, group_id@) == Rel::Equal,
    ensures
        traces_wf(final(traces)@),
        r is Err ==> r.unwrap_err() == (Error::DuplicatePoint { value }) && has_value(
            old(traces)@,
            group_id@,
            value as int,
        ),
        r is Ok ==> {
            &&& !has_value(old(traces)@, group_id@, value as int)
            &&& has_point(final(traces)@, group_id@, value as int, m)
            &&& forall|g: Seq<char>, v: int, mm: MeasurementDisplay|
                has_point(old(traces)@, g, v, mm) ==> #[trigger] has_point(
                    final(traces)@,
                    g,
                    v,
                    mm,
                )
            &&& forall|g: Seq<char>, v: int, mm: MeasurementDisplay|
                #[trigger] has_point(final(traces)@, g, v, mm) ==> has_point(
                    old(traces)@,
                    g,
                    v,
                    mm,
                ) || (name_cmp(g, group_id@) == Rel::Equal && v == value && mm == m)
            &&& forall|n: Seq<char>|
                #[trigger] has_name(final(traces)@, n) ==> has_name(old(traces)@, n) || n
                    == group_id@
        },
{
    proof {
        reveal(has_point);
        reveal(has_value);
        reveal(has_name);
    }
    let ghost before = traces@;
    let mut tr: Trace = traces.remove(t);
    let res: Result<(), Error> = insert_data_point(&mut tr.data, value, m);
    let ghost tr2 = tr;
    traces.insert(t, tr);
    proof {
        assert(forall|i: int|
            0 <= i < before.len() && i != t ==> final(traces)@[i] == before[i]);
        assert(final(traces)@[t as int] == tr2);
        assert(final(traces)@.len() == before.len());
        assert(tr2.name@ == before[t as int].name@);
        assert(names_sorted(final(traces)@)) by {
            assert(forall|i: int|
                0 <= i < final(traces)@.len() ==> (#[trigger] final(traces)@[i]).name@
                    == before[i].name@);
        }
    }
    match res {
        Err(e) => {
            proof {
                assert(trace_wf(tr2)) by {
                    assert(tr2.data@ == before[t as int].data@);
                }
                assert(traces_wf(final(traces)@)) by {
                    assert forall|i: int|
                        0 <= i < final(traces)@.len() implies trace_wf(
                        #[trigger] final(traces)@[i],
                    ) by {
                        if i != t {
                            assert(final(traces)@[i] == before[i]);
                        }
                    }
                }
                let j = choose|j: int|
                    0 <= j < before[t as int].data@.len() && (#[trigger] before[t
                        as int].data@[j]).0 == value;
                assert(before[t as int].data@[j].0 == value as int);
                assert(has_value(before, group_id@, value as int));
            }
            Err(e)
        },
        Ok(u) => {
            proof {
                let ghost od = before[t as int].data@;
                let ghost nd = tr2.data@;
                assert(trace_wf(tr2));
                assert(traces_wf(final(traces)@)) by {
                    assert forall|i: int|
                        0 <= i < final(traces)@.len() implies trace_wf(
                        #[trigger] final(traces)@[i],
                    ) by {
                        if i != t {
                            assert(final(traces)@[i] == before[i]);
                        }
                    }
                }
                assert(!has_value(before, group_id@, value as int)) by {
                    if has_value(before, group_id@, value as int) {
                        let (i, j) = choose|i: int, j: int|
                            0 <= i < before.len() && 0 <= j < before[i].data@.len() && name_cmp(
                                before[i].name@,
                                group_id@,
                            ) == Rel::Equal && (#[trigger] before[i].data@[j]).0 == value as int;
                        lemma_equiv_trace_unique(before, group_id@, i, t as int);
                        assert(od[j].0 == value);
                    }
                }
                assert(has_point(final(traces)@, group_id@, value as int, m)) by {
                    assert(pair_in(nd, value, m));
                    let j = choose|j: int| 0 <= j < nd.len() && #[trigger] nd[j] == (value, m);
                    assert(final(traces)@[t as int].data@[j].0 == value as int);
                    assert(final(traces)@[t as int].data@[j].1 == m);
                }
                assert forall|g: Seq<char>, v: int, mm: MeasurementDisplay|
                    has_point(before, g, v, mm) implies #[trigger] has_point(
                    final(traces)@,
                    g,
                    v,
                    mm,
                ) by {
                    let (i, j) = choose|i: int, j: int|
                        0 <= i < before.len() && 0 <= j < before[i].data@.len() && name_cmp(
                            before[i].name@,
                            g,
                        ) == Rel::Equal && (#[trigger] before[i].data@[j]).0 == v
                            && before[i].data@[j].1 == mm;
                    if i == t {
                        let ghost vv = od[j].0;
                        assert(pair_in(od, vv, mm)) by {
                            assert(od[j] == (vv, mm));
                        }
                        assert(pair_in(nd, vv, mm));
                        let j2 = choose|j2: int|
                            0 <= j2 < nd.len() && #[trigger] nd[j2] == (vv, mm);
                        assert(final(traces)@[t as int].data@[j2].0 == v);
                        assert(final(traces)@[t as int].data@[j2].1 == mm);
                    } else {
                        assert(final(traces)@[i].data@[j].0 == v);
                        assert(final(traces)@[i].data@[j].1 == mm);
                    }
                }
                assert forall|g: Seq<char>, v: int, mm: MeasurementDisplay|
                    #[trigger] has_point(final(traces)@, g, v, mm) implies has_point(
                    before,
                    g,
                    v,
                    mm,
                ) || (name_cmp(g, group_id@) == Rel::Equal && v == value && mm == m) by {
                    let (i, j) = choose|i: int, j: int|
                        0 <= i < final(traces)@.len() && 0 <= j
                            < final(traces)@[i].data@.len() && name_cmp(
                            final(traces)@[i].name@,
                            g,
                        ) == Rel::Equal && (#[trigger] final(traces)@[i].data@[j]).0 == v
                            && final(traces)@[i].data@[j].1 == mm;
                    if i == t {
                        let ghost vv = nd[j].0;
                        assert(pair_in(nd, vv, mm)) by {
                            assert(nd[j] == (vv, mm));
                        }
                        if pair_in(od, vv, mm) {
                            let j2 = choose|j2: int|
                                0 <= j2 < od.len() && #[trigger] od[j2] == (vv, mm);
                            assert(before[t as int].data@[j2].0 == v);
                            assert(before[t as int].data@[j2].1 == mm);
                            assert(has_point(before, g, v, mm));
                        } else {
                            assert(vv == value && mm == m);
                            lemma_name_cmp_flip(tr2.name@, g);
                            lemma_name_cmp_equal_congruence(g, tr2.name@, group_id@);
                        }
                    } else {
                        assert(before[i].data@[j].0 == v);
                        assert(before[i].data@[j].1 == mm);
                        assert(has_point(before, g, v, mm));
                    }
                }
                assert forall|n: Seq<char>|
                    #[trigger] has_name(final(traces)@, n) implies has_name(before, n) || n
                    == group_id@ by {
                    let i = choose|i: int|
                        0 <= i < final(traces)@.len() && (#[trigger] final(traces)@[i]).name@
                            == n;
                    assert(before[i].name@ == n);
                    assert(has_name(before, n));
                }
            }
            Ok(u)
        },
    }
}

/// Insert a record's point as a brand-new trace at position `t`, where no
/// existing trace name is equivalent to the record's.
#[verifier::rlimit(100)]
fn insert_new_trace(traces: &mut Vec<Trace>, t: usize, group_id: &String, value: usize,
    m: MeasurementDisplay)
    requires
        traces_wf(old(traces)@),
        t <= old(traces)@.len(),
        forall|i: int|
            0 <= i < t ==> name_cmp((#[trigger] old(traces)@[i]).name@, group_id@) == Rel::Less,
        t < old(traces)@.len() ==> name_cmp(old(traces)@[t as int].name@, group_id@)
            == Rel::Greater,
    ensures
        traces_wf(final(traces)@),
        !has_value(old(traces)@, group_id@, value as int),
        has_point(final(traces)@, group_id@, value as int, m),
        forall|g: Seq<char>, v: int, mm: MeasurementDisplay|
            has_point(old(traces)@, g, v, mm) ==> #[trigger] has_point(final(traces)@, g, v, mm),
        forall|g: Seq<char>, v: int, mm: MeasurementDisplay|
            #[trigger] has_point(final(traces)@, g, v, mm) ==> has_point(old(traces)@, g, v, mm)
                || (name_cmp(g, group_id@) == Rel::Equal && v == value && mm == m),
        forall|n: Seq<char>|
            #[trigger] has_name(final(traces)@, n) ==> has_name(old(traces)@, n) || n
                == group_id@,
{
    proof {
        reveal(has_point);
        reveal(has_value);
        reveal(has_name);
    }
    let ghost before = traces@;
    let mut d: Vec<(usize, MeasurementDisplay)> = Vec::new();
    d.push((value, m));
    let tr = Trace { name: group_id.clone(), data: d };
    let ghost tr2 = tr;
    traces.insert(t, tr);
    proof {
        assert(forall|i: int| 0 <= i < t ==> final(traces)@[i] == before[i]);
        assert(final(traces)@[t as int] == tr2);
        assert(forall|i: int|
            t < i < final(traces)@.len() ==> final(traces)@[i] == before[i - 1]);
        assert(tr2.name@ == group_id@);
        assert(tr2.data@.len() == 1 && tr2.data@[0] == (value, m));
        assert(trace_wf(tr2));
        assert forall|i: int|
            0 <= i < before.len() implies name_cmp((#[trigger] before[i]).name@, group_id@)
            != Rel::Equal by {
            if i >= t && t < before.len() && i > t {
                assert(name_cmp(before[t as int].name@, before[i].name@) == Rel::Less);
                lemma_name_cmp_flip(before[t as int].name@, group_id@);
                lemma_name_cmp_trans(group_id@, before[t as int].name@, before[i].name@);
                lemma_name_cmp_flip(group_id@, before[i].name@);
            }
        }
        assert(!has_value(before, group_id@, value as int)) by {
            if has_value(before, group_id@, value as int) {
                let (i, j) = choose|i: int, j: int|
                    0 <= i < before.len() && 0 <= j < before[i].data@.len() && name_cmp(
                        before[i].name@,
                        group_id@,
                    ) == Rel::Equal && (#[trigger] before[i].data@[j]).0 == value as int;
                assert(name_cmp(before[i].name@, group_id@) != Rel::Equal);
            }
        }
        assert(names_sorted(final(traces)@)) by {
            assert forall|a: int, b: int|
                #![trigger final(traces)@[a], final(traces)@[b]]
                0 <= a < b < final(traces)@.len() implies name_cmp(
                final(traces)@[a].name@,
                final(traces)@[b].name@,
            ) == Rel::Less by {
                if a < t && b < t {
                } else if a < t && b == t {
                    assert(name_cmp(before[a].name@, group_id@) == Rel::Less);
                } else if a < t && b > t {
                    if a == b - 1 {
                        assert(name_cmp(before[a].name@, group_id@) == Rel::Less);
                        assert(name_cmp(before[t as int].name@, group_id@) == Rel::Greater);
                        lemma_name_cmp_flip(before[t as int].name@, group_id@);
                        lemma_name_cmp_trans(before[a].name@, group_id@, before[t as int].name@);
                    } else {
                        assert(name_cmp(before[a].name@, before[b - 1].name@) == Rel::Less);
                    }
                } else if a == t {
                    assert(b > t);
                    assert(final(traces)@[b].name@ == before[b - 1].name@);
                    lemma_name_cmp_flip(before[t as int].name@, group_id@);
                    if b - 1 > t {
                        lemma_name_cmp_trans(
                            group_id@,
                            before[t as int].name@,
                            before[b - 1].name@,
                        );
                    }
                } else {
                    assert(a > t && b > t);
                    assert(name_cmp(before[a - 1].name@, before[b - 1].name@) == Rel::Less);
                }
            }
        }
        assert(traces_wf(final(traces)@)) by {
            assert forall|i: int|
                0 <= i < final(traces)@.len() implies trace_wf(#[trigger] final(traces)@[i]) by {
                if i < t {
                    assert(final(traces)@[i] == before[i]);
                } else if i > t {
                    assert(final(traces)@[i] == before[i - 1]);
                }
            }
        }
        assert(has_point(final(traces)@, group_id@, value as int, m)) by {
            lemma_name_cmp_refl(group_id@);
            assert(final(traces)@[t as int].data@[0].0 == value as int);
            assert(final(traces)@[t as int].data@[0].1 == m);
        }
        assert forall|g: Seq<char>, v: int, mm: MeasurementDisplay|
            has_point(before, g, v, mm) implies #[trigger] has_point(
            final(traces)@,
            g,
            v,
            mm,
        ) by {
            let (i, j) = choose|i: int, j: int|
                0 <= i < before.len() && 0 <= j < before[i].data@.len() && name_cmp(
                    before[i].name@,
                    g,
                ) == Rel::Equal && (#[trigger] before[i].data@[j]).0 == v && before[i].data@[j].1
                    == mm;
            if i < t {
                assert(final(traces)@[i].data@[j].0 == v);
                assert(final(traces)@[i].data@[j].1 == mm);
            } else {
                assert(final(traces)@[i + 1].data@[j].0 == v);
                assert(final(traces)@[i + 1].data@[j].1 == mm);
            }
        }
        assert forall|g: Seq<char>, v: int, mm: MeasurementDisplay|
            #[trigger] has_point(final(traces)@, g, v, mm) implies has_point(before, g, v, mm)
            || (name_cmp(g, group_id@) == Rel::Equal && v == value && mm == m) by {
            let (i, j) = choose|i: int, j: int|
                0 <= i < final(traces)@.len() && 0 <= j < final(traces)@[i].data@.len()
                    && name_cmp(final(traces)@[i].name@, g) == Rel::Equal && (
                #[trigger] final(traces)@[i].data@[j]).0 == v && final(traces)@[i].data@[j].1
                    == mm;
            if i < t {
                assert(before[i].data@[j].0 == v);
                assert(before[i].data@[j].1 == mm);
                assert(has_point(before, g, v, mm));
            } else if i == t {
                assert(v == value && mm == m);
                lemma_name_cmp_flip(group_id@, g);
            } else {
                assert(before[i - 1].data@[j].0 == v);
                assert(before[i - 1].data@[j].1 == mm);
                assert(has_point(before, g, v, mm));
            }
        }
        assert forall|n: Seq<char>|
            #[trigger] has_name(final(traces)@, n) implies has_name(before, n) || n
            == group_id@ by {
            let i = choose|i: int|
                0 <= i < final(traces)@.len() && (#[trigger] final(traces)@[i]).name@ == n;
            if i < t {
                assert(before[i].name@ == n);
                assert(has_name(before, n));
            } else if i > t {
                assert(before[i - 1].name@ == n);
                assert(has_name(before, n));
            }
        }
    }
}

/// Insert one record's point into the sorted traces, creating its trace if
/// no equivalent name exists yet, and rejecting a duplicate problem size.
fn insert_source(traces: &mut Vec<Trace>, group_id: &String, value: usize,
    m: MeasurementDisplay) -> (r: Result<(), Error>)
    requires
        traces_wf(old(traces)@),
    ensures
        traces_wf(final(traces)@),
        r is Err ==> r.unwrap_err() == (Error::DuplicatePoint { value }) && has_value(
            old(traces)@,
            group_id@,
            value as int,
        ),
        r is Ok ==> {
            &&& !has_value(old(traces)@, group_id@, value as int)
            &&& has_point(final(traces)@, group_id@, value as int, m)
            &&& forall|g: Seq<char>, v: int, mm: MeasurementDisplay|
                has_point(old(traces)@, g, v, mm) ==> #[trigger] has_point(
                    final(traces)@,
                    g,
                    v,
                    mm,
                )
            &&& forall|g: Seq<char>, v: int, mm: MeasurementDisplay|
                #[trigger] has_point(final(traces)@, g, v, mm) ==> has_point(
                    old(traces)@,
                    g,
                    v,
                    mm,
                ) || (name_cmp(g, group_id@) == Rel::Equal && v == value && mm == m)
            &&& forall|n: Seq<char>|
                #[trigger] has_name(final(traces)@, n) ==> has_name(old(traces)@, n) || n
                    == group_id@
        },
{
    let pos: (usize, bool) = find_trace(traces, group_id);
    if pos.1 {
        insert_into_existing(traces, pos.0, group_id, value, m)
    } else {
        insert_new_trace(traces, pos.0, group_id, value, m);
        Ok(())
    }
}

/// Soundness of the builder state: every point stems from one of the first
/// `bound` records.
pub open spec fn points_from(ts: Seq<Trace>, d: Seq<TraceInput>, bound: int) -> bool {
    forall|g: Seq<char>, v: int, mm: MeasurementDisplay|
        #[trigger] has_point(ts, g, v, mm) ==> exists|k: int|
            0 <= k < bound && name_cmp(g, src_name(#[trigger] d[k])) == Rel::Equal && v
                == src_value(d[k]) && mm == d[k].measurement
}

/// Completeness of the builder state: each of the first `bound` records has
/// its point in place.
pub open spec fn points_complete(ts: Seq<Trace>, d: Seq<TraceInput>, bound: int) -> bool {
    forall|k: int|
        0 <= k < bound ==> has_point(
            ts,
            src_name(#[trigger] d[k]),
            src_value(d[k]),
            d[k].measurement,
        )
}

/// Every trace name is the group name of one of the first `bound` records.
pub open spec fn names_from(ts: Seq<Trace>, d: Seq<TraceInput>, bound: int) -> bool {
    forall|nm: Seq<char>|
        #[trigger] has_name(ts, nm) ==> exists|k: int|
            0 <= k < bound && nm == src_name(#[trigger] d[k])
}

/// The first `bound` records hit pairwise distinct (trace, size) slots.
pub open spec fn prefix_no_dup(d: Seq<TraceInput>, bound: int) -> bool {
    forall|k1: int, k2: int|
        #![trigger d[k1], d[k2]]
        0 <= k1 < k2 < bound ==> !(name_cmp(src_name(d[k1]), src_name(d[k2])) == Rel::Equal
            && src_value(d[k1]) == src_value(d[k2]))
}

/// A rejected duplicate size really is a collision between two records.
proof fn lemma_dup_err(d: Seq<TraceInput>, before: Seq<Trace>, idx: int, value: usize)
    requires
        0 <= idx < d.len(),
        points_from(before, d, idx),
        has_value(before, src_name(d[idx]), value as int),
        value as int == src_value(d[idx]),
    ensures
        build_err_ok(Error::DuplicatePoint { value }, d),
{
    reveal(has_point);
    reveal(has_value);
    let gidx = src_name(d[idx]);
    let (i, jj) = choose|i: int, jj: int|
        0 <= i < before.len() && 0 <= jj < before[i].data@.len() && name_cmp(
            before[i].name@,
            gidx,
        ) == Rel::Equal && (#[trigger] before[i].data@[jj]).0 == value as int;
    let mm = before[i].data@[jj].1;
    assert(before[i].data@[jj].1 == mm);
    assert(has_point(before, gidx, value as int, mm));
    let k = choose|k: int|
        0 <= k < idx && name_cmp(gidx, src_name(#[trigger] d[k])) == Rel::Equal && value as int
            == src_value(d[k]) && mm == d[k].measurement;
    lemma_name_cmp_flip(gidx, src_name(d[k]));
    assert(name_cmp(src_name(d[k]), src_name(d[idx])) == Rel::Equal);
    assert(0 <= k < d.len() && k < idx);
}

/// A record whose insertion succeeded collides with no earlier record.
proof fn lemma_step_no_dup(d: Seq<TraceInput>, before: Seq<Trace>, idx: int)
    requires
        0 <= idx < d.len(),
        points_from(before, d, idx),
        points_complete(before, d, idx),
        prefix_no_dup(d, idx),
        !has_value(before, src_name(d[idx]), src_value(d[idx])),
    ensures
        prefix_no_dup(d, idx + 1),
{
    reveal(has_point);
    reveal(has_value);
    assert forall|k1: int|
        0 <= k1 < idx implies !(name_cmp(src_name(#[trigger] d[k1]), src_name(d[idx]))
        == Rel::Equal && src_value(d[k1]) == src_value(d[idx])) by {
        if name_cmp(src_name(d[k1]), src_name(d[idx])) == Rel::Equal && src_value(d[k1])
            == src_value(d[idx]) {
            assert(has_point(before, src_name(d[k1]), src_value(d[k1]), d[k1].measurement));
            let (i, jj) = choose|i: int, jj: int|
                0 <= i < before.len() && 0 <= jj < before[i].data@.len() && name_cmp(
                    before[i].name@,
                    src_name(d[k1]),
                ) == Rel::Equal && (#[trigger] before[i].data@[jj]).0 == src_value(d[k1])
                    && before[i].data@[jj].1 == d[k1].measurement;
            lemma_name_cmp_equal_congruence(src_name(d[k1]), src_name(d[idx]), before[i].name@);
            lemma_name_cmp_flip(before[i].name@, src_name(d[k1]));
            lemma_name_cmp_flip(before[i].name@, src_name(d[idx]));
            assert(name_cmp(before[i].name@, src_name(d[idx])) == Rel::Equal);
            assert(has_value(before, src_name(d[idx]), src_value(d[idx])));
        }
    }
    assert forall|k1: int, k2: int|
        #![trigger d[k1], d[k2]]
        0 <= k1 < k2 < idx + 1 implies !(name_cmp(src_name(d[k1]), src_name(d[k2])) == Rel::Equal
        && src_value(d[k1]) == src_value(d[k2])) by {
        if k2 < idx {
            assert(prefix_no_dup(d, idx));
        }
    }
}

/// After a successful insertion the builder state is sound, complete and
/// name-clean for one more record.
proof fn lemma_step_transfer(d: Seq<TraceInput>, before: Seq<Trace>, after: Seq<Trace>,
    idx: int)
    requires
        0 <= idx < d.len(),
        points_from(before, d, idx),
        points_complete(before, d, idx),
        names_from(before, d, idx),
        has_point(after, src_name(d[idx]), src_value(d[idx]), d[idx].measurement),
        forall|g: Seq<char>, v: int, mm: MeasurementDisplay|
            has_point(before, g, v, mm) ==> #[trigger] has_point(after, g, v, mm),
        forall|g: Seq<char>, v: int, mm: MeasurementDisplay|
            #[trigger] has_point(after, g, v, mm) ==> has_point(before, g, v, mm) || (name_cmp(
                g,
                src_name(d[idx]),
            ) == Rel::Equal && v == src_value(d[idx]) && mm == d[idx].measurement),
        forall|nm: Seq<char>|
            #[trigger] has_name(after, nm) ==> has_name(before, nm) || nm == src_name(d[idx]),
    ensures
        points_from(after, d, idx + 1),
        points_complete(after, d, idx + 1),
        names_from(after, d, idx + 1),
{
    reveal(has_point);
    reveal(has_name);
    assert forall|k: int|
        0 <= k < idx + 1 implies has_point(
        after,
        src_name(#[trigger] d[k]),
        src_value(d[k]),
        d[k].measurement,
    ) by {
        if k < idx {
            assert(has_point(before, src_name(d[k]), src_value(d[k]), d[k].measurement));
        }
    }
    assert forall|g: Seq<char>, v: int, mm: MeasurementDisplay|
        #[trigger] has_point(after, g, v, mm) implies exists|k: int|
        0 <= k < idx + 1 && name_cmp(g, src_name(#[trigger] d[k])) == Rel::Equal && v
            == src_value(d[k]) && mm == d[k].measurement by {
        if has_point(before, g, v, mm) {
            let k = choose|k: int|
                0 <= k < idx && name_cmp(g, src_name(#[trigger] d[k])) == Rel::Equal && v
                    == src_value(d[k]) && mm == d[k].measurement;
            assert(0 <= k < idx + 1 && name_cmp(g, src_name(d[k])) == Rel::Equal && v
                == src_value(d[k]) && mm == d[k].measurement);
        } else {
            assert(0 <= idx < idx + 1 && name_cmp(g, src_name(d[idx])) == Rel::Equal && v
                == src_value(d[idx]) && mm == d[idx].measurement);
        }
    }
    assert forall|nm: Seq<char>|
        #[trigger] has_name(after, nm) implies exists|k: int|
        0 <= k < idx + 1 && nm == src_name(#[trigger] d[k]) by {
        if has_name(before, nm) {
            let k = choose|k: int| 0 <= k < idx && nm == src_name(#[trigger] d[k]);
            assert(0 <= k < idx + 1 && nm == src_name(d[k]));
        } else {
            assert(0 <= idx < idx + 1 && nm == src_name(d[idx]));
        }
    }
}

/// Which failures `Traces::new` may report, and on what evidence.
pub open spec fn build_err_ok(e: Error, d: Seq<TraceInput>) -> bool {
    match e {
        Error::ValueNotInteger => exists|k: int| 0 <= k < d.len() && !src_value_ok(#[trigger] d[k]),
        Error::ConfidenceLevelMismatch => exists|k: int|
            0 <= k < d.len() && !src_cl_ok(#[trigger] d[k]),
        Error::MixedThroughput { expected, found } => d.len() > 0 && expected == src_tt(d[0])
            && expected != found && exists|k: int|
            0 <= k < d.len() && src_tt(#[trigger] d[k]) == found,
        Error::DuplicatePoint { value } => exists|k1: int, k2: int|
            #![trigger d[k1], d[k2]]
            0 <= k1 < k2 < d.len() && name_cmp(src_name(d[k1]), src_name(d[k2])) == Rel::Equal
                && src_value(d[k1]) == src_value(d[k2]) && src_value(d[k1]) == value,
        _ => false,
    }
}

/// The trace builder's running state after the first `bound` records:
/// sorted well-formed traces that hold exactly those records' points, a
/// settled throughput discriminant, and validated records so far.
#[verifier::opaque]
pub open spec fn builder_inv(ts: Seq<Trace>, d: Seq<TraceInput>, bound: int,
    common: Option<ThroughputType>) -> bool {
    &&& traces_wf(ts)
    &&& common == if bound == 0 {
        Option::<ThroughputType>::None
    } else {
        Some(src_tt(d[0]))
    }
    &&& forall|k: int| 0 <= k < bound ==> src_tt(#[trigger] d[k]) == src_tt(d[0])
    &&& forall|k: int| 0 <= k < bound ==> src_value_ok(#[trigger] d[k]) && src_cl_ok(d[k])
    &&& points_complete(ts, d, bound)
    &&& points_from(ts, d, bound)
    &&& names_from(ts, d, bound)
    &&& prefix_no_dup(d, bound)
}

/// One step of the trace builder: validate record `idx` and place its
/// point.
#[verifier::rlimit(100)]
fn build_step(traces: &mut Vec<Trace>, common: &mut Option<ThroughputType>,
    data: &Vec<TraceInput>, idx: usize) -> (r: Result<(), Error>)
    requires
        idx < data@.len(),
        builder_inv(old(traces)@, data@, idx as int, *old(common)),
    ensures
        r is Err ==> !sources_ok(data@) && build_err_ok(r.unwrap_err(), data@),
        r is Ok ==> builder_inv(final(traces)@, data@, idx + 1, *final(common)),
{
    proof {
        reveal(builder_inv);
    }
    let value: usize = match data[idx].info.benchmark.value_usize() {
        Ok(v) => v,
        Err(e) => {
            proof {
                assert(!src_value_ok(data@[idx as int]));
                assert(!all_values_ok(data@));
            }
            return Err(Error::ValueNotInteger);
        },
    };
    let tt_pair: (ThroughputType, u64) = split_throughput(data[idx].info.benchmark.throughput);
    let tt: ThroughputType = tt_pair.0;
    match *common {
        None => {
            *common = Some(tt);
        },
        Some(c) => {
            if tt != c {
                proof {
                    assert(src_tt(data@[idx as int]) != src_tt(data@[0]));
                    assert(!uniform_tt(data@));
                    assert(src_tt(data@[0]) == src_tt(data@[0]));
                }
                return Err(Error::MixedThroughput { expected: c, found: tt });
            }
        },
    }
    match MeasurementDisplay::from_estimate(&data[idx].info.estimates.median) {
        Ok(_) => {},
        Err(e) => {
            proof {
                assert(!src_cl_ok(data@[idx as int]));
                assert(!all_cl_ok(data@));
            }
            return Err(Error::ConfidenceLevelMismatch);
        },
    }
    let m: MeasurementDisplay = data[idx].measurement;
    let ghost before = traces@;
    match insert_source(traces, &data[idx].info.benchmark.group_id, value, m) {
        Ok(_) => {
            proof {
                lemma_step_no_dup(data@, before, idx as int);
                lemma_step_transfer(data@, before, traces@, idx as int);
            }
            Ok(())
        },
        Err(e) => {
            proof {
                lemma_dup_err(data@, before, idx as int, value);
                assert(!no_dup(data@)) by {
                    let (k1, k2) = choose|k1: int, k2: int|
                        #![trigger data@[k1], data@[k2]]
                        0 <= k1 < k2 < data@.len() && name_cmp(
                            src_name(data@[k1]),
                            src_name(data@[k2]),
                        ) == Rel::Equal && src_value(data@[k1]) == src_value(data@[k2])
                            && src_value(data@[k1]) == value as int;
                    assert(0 <= k1 < k2 < data@.len());
                }
            }
            Err(e)
        },
    }
}

/// Set of traces to be plotted.
#[derive(Debug)]
pub struct Traces {
    /// Throughput configuration, if any record was seen.
    pub throughput: Option<ThroughputType>,
    /// Trace data, in natural name order.
    pub per_trace_data: Vec<Trace>,
}

impl Traces {
    /// The collection is sorted and every trace is well formed; a non-empty
    /// collection knows its throughput type.
    pub open spec fn wf(self) -> bool {
        &&& traces_wf(self.per_trace_data@)
        &&& self.per_trace_data@.len() > 0 ==> self.throughput is Some
    }

    /// Build traces from reconciled benchmark records.
    ///
    /// Groups the records by trace name (names equivalent under the natural
    /// order share a trace), keys each point by its decoded problem size,
    /// enforces one common throughput discriminant and the standard
    /// confidence level, and emits the traces sorted by natural name order
    /// with each trace's points sorted by problem size.
    #[verifier::rlimit(100)]
    pub fn new(data: Vec<TraceInput>) -> (r: Result<Traces, Error>)
        ensures
            r is Ok <==> sources_ok(data@),
            r is Err ==> build_err_ok(r.unwrap_err(), data@),
            r is Ok ==> {
                let t = r.unwrap();
                &&& t.wf()
                &&& t.throughput == if data@.len() == 0 {
                    Option::<ThroughputType>::None
                } else {
                    Some(src_tt(data@[0]))
                }
                &&& data@.len() == 0 ==> t.per_trace_data@.len() == 0
                &&& points_complete(t.per_trace_data@, data@, data@.len() as int)
                &&& points_from(t.per_trace_data@, data@, data@.len() as int)
                &&& names_from(t.per_trace_data@, data@, data@.len() as int)
            },
    {
        let mut traces: Vec<Trace> = Vec::new();
        let mut common: Option<ThroughputType> = None;
        let n: usize = data.len();
        proof {
            assert(builder_inv(traces@, data@, 0, common)) by {
                reveal(builder_inv);
                reveal(has_point);
                reveal(has_name);
            }
        }
        let mut idx: usize = 0;
        while idx < n
            invariant
                n == data@.len(),
                idx <= n,
                builder_inv(traces@, data@, idx as int, common),
            decreases n - idx,
        {
            match build_step(&mut traces, &mut common, &data, idx) {
                Ok(_) => {},
                Err(e) => {
                    return Err(e);
                },
            }
            idx = idx + 1;
        }
        let r = Traces { throughput: common, per_trace_data: traces };
        proof {
            reveal(builder_inv);
            assert(sources_ok(data@));
            if r.per_trace_data@.len() > 0 {
                assert(trace_wf(r.per_trace_data@[0]));
                assert(r.per_trace_data@[0].data@.len() > 0);
                let ghost nm0 = r.per_trace_data@[0].name@;
                assert(has_name(r.per_trace_data@, nm0)) by {
                    reveal(has_name);
                }
                assert(data@.len() > 0);
            }
        }
        Ok(r)
    }

    /// Number of traces.
    pub fn len(&self) -> (r: usize)
        ensures
            r == self.per_trace_data@.len(),
    {
        self.per_trace_data.len()
    }

    /// Absence of traces.
    pub fn is_empty(&self) -> (r: bool)
        ensures
            r == (self.per_trace_data@.len() == 0),
    {
        self.len() == 0
    }
}

/// The rank of a single-precision bit pattern in the IEEE-754 total order:
/// bit patterns with the sign bit clear rank above all with it set, rising
/// with the payload; patterns with the sign bit set rank the other way.
pub open spec fn f32_total_key(b: u32) -> int {
    if b < 0x8000_0000 {
        b + 0x8000_0000
    } else {
        0xFFFF_FFFFu32 - b
    }
}

/// The IEEE-754 total order on single-precision bit patterns.
pub open spec fn f32_le(a: u32, b: u32) -> bool {
    f32_total_key(a) <= f32_total_key(b)
}

/// Decide the total order on two bit patterns.
pub fn f32_bits_le(a: u32, b: u32) -> (r: bool)
    ensures
        r == f32_le(a, b),
{
    let ka: u32 = if a < 0x8000_0000 {
        a + 0x8000_0000
    } else {
        0xFFFF_FFFFu32 - a
    };
    let kb: u32 = if b < 0x8000_0000 {
        b + 0x8000_0000
    } else {
        0xFFFF_FFFFu32 - b
    };
    ka <= kb
}

impl Traces {
    /// Horizontal and vertical range covered by the traces: the extreme
    /// problem sizes, and the extreme interval bounds in the IEEE-754 total
    /// order on bit patterns.
    ///
    /// May only be called once emptiness has been ruled out.
    pub fn xy_range(&self) -> (r: ((usize, usize), (u32, u32)))
        requires
            traces_wf(self.per_trace_data@),
            self.per_trace_data@.len() > 0,
        ensures
            ({
                let ts = self.per_trace_data@;
                let ((x0, x1), (y0, y1)) = r;
                &&& exists|i: int| 0 <= i < ts.len() && x0 == (#[trigger] ts[i]).data@[0].0
                &&& forall|i: int| 0 <= i < ts.len() ==> x0 <= (#[trigger] ts[i]).data@[0].0
                &&& exists|i: int|
                    0 <= i < ts.len() && x1 == (#[trigger] ts[i]).data@[ts[i].data@.len() - 1].0
                &&& forall|i: int|
                    0 <= i < ts.len() ==> (#[trigger] ts[i]).data@[ts[i].data@.len() - 1].0 <= x1
                &&& exists|i: int, j: int|
                    #![trigger ts[i].data@[j]]
                    0 <= i < ts.len() && 0 <= j < ts[i].data@.len() && y0
                        == ts[i].data@[j].1.lower_bound
                &&& forall|i: int, j: int|
                    #![trigger ts[i].data@[j]]
                    0 <= i < ts.len() && 0 <= j < ts[i].data@.len() ==> f32_le(
                        y0,
                        ts[i].data@[j].1.lower_bound,
                    )
                &&& exists|i: int, j: int|
                    #![trigger ts[i].data@[j]]
                    0 <= i < ts.len() && 0 <= j < ts[i].data@.len() && y1
                        == ts[i].data@[j].1.upper_bound
                &&& forall|i: int, j: int|
                    #![trigger ts[i].data@[j]]
                    0 <= i < ts.len() && 0 <= j < ts[i].data@.len() ==> f32_le(
                        ts[i].data@[j].1.upper_bound,
                        y1,
                    )
            }),
    {
        let ghost ts = self.per_trace_data@;
        let n: usize = self.per_trace_data.len();
        let first: &Trace = &self.per_trace_data[0];
        let mut x0: usize = first.data[0].0;
        let mut x1: usize = first.data[first.data.len() - 1].0;
        let mut y0: u32 = first.data[0].1.lower_bound;
        let mut y1: u32 = first.data[0].1.upper_bound;
        proof {
            assert(f32_le(y0, y0) && f32_le(y1, y1));
        }
        let mut i: usize = 0;
        while i < n
            invariant
                n == ts.len(),
                ts == self.per_trace_data@,
                traces_wf(ts),
                0 < n,
                i <= n,
                forall|k: int| 0 <= k < i ==> x0 <= (#[trigger] ts[k]).data@[0].0,
                exists|k: int| 0 <= k < n && x0 == (#[trigger] ts[k]).data@[0].0,
                forall|k: int|
                    0 <= k < i ==> (#[trigger] ts[k]).data@[ts[k].data@.len() - 1].0 <= x1,
                exists|k: int|
                    0 <= k < n && x1 == (#[trigger] ts[k]).data@[ts[k].data@.len() - 1].0,
                forall|k: int, j: int|
                    #![trigger ts[k].data@[j]]
                    0 <= k < i && 0 <= j < ts[k].data@.len() ==> f32_le(
                        y0,
                        ts[k].data@[j].1.lower_bound,
                    ),
                exists|k: int, j: int|
                    #![trigger ts[k].data@[j]]
                    0 <= k < n && 0 <= j < ts[k].data@.len() && y0
                        == ts[k].data@[j].1.lower_bound,
                forall|k: int, j: int|
                    #![trigger ts[k].data@[j]]
                    0 <= k < i && 0 <= j < ts[k].data@.len() ==> f32_le(
                        ts[k].data@[j].1.upper_bound,
                        y1,
                    ),
                exists|k: int, j: int|
                    #![trigger ts[k].data@[j]]
                    0 <= k < n && 0 <= j < ts[k].data@.len() && y1
                        == ts[k].data@[j].1.upper_bound,
            decreases n - i,
        {
            let tr: &Trace = &self.per_trace_data[i];
            let fx: usize = tr.data[0].0;
            if fx < x0 {
                x0 = fx;
            }
            let lx: usize = tr.data[tr.data.len() - 1].0;
            if lx > x1 {
                x1 = lx;
            }
            let mut j: usize = 0;
            let dn: usize = tr.data.len();
            while j < dn
                invariant
                    n == ts.len(),
                    ts == self.per_trace_data@,
                    traces_wf(ts),
                    0 < n,
                    i < n,
                    dn == ts[i as int].data@.len(),
                    tr == &self.per_trace_data[i as int],
                    j <= dn,
                    forall|k: int, jj: int|
                        #![trigger ts[k].data@[jj]]
                        0 <= k < i && 0 <= jj < ts[k].data@.len() ==> f32_le(
                            y0,
                            ts[k].data@[jj].1.lower_bound,
                        ),
                    forall|jj: int|
                        0 <= jj < j ==> f32_le(y0, (#[trigger] ts[i as int].data@[jj]).1.lower_bound),
                    exists|k: int, jj: int|
                        #![trigger ts[k].data@[jj]]
                        0 <= k < n && 0 <= jj < ts[k].data@.len() && y0
                            == ts[k].data@[jj].1.lower_bound,
                    forall|k: int, jj: int|
                        #![trigger ts[k].data@[jj]]
                        0 <= k < i && 0 <= jj < ts[k].data@.len() ==> f32_le(
                            ts[k].data@[jj].1.upper_bound,
                            y1,
                        ),
                    forall|jj: int|
                        0 <= jj < j ==> f32_le((#[trigger] ts[i as int].data@[jj]).1.upper_bound, y1),
                    exists|k: int, jj: int|
                        #![trigger ts[k].data@[jj]]
                        0 <= k < n && 0 <= jj < ts[k].data@.len() && y1
                            == ts[k].data@[jj].1.upper_bound,
                decreases dn - j,
            {
                let lb: u32 = tr.data[j].1.lower_bound;
                if !f32_bits_le(y0, lb) {
                    y0 = lb;
                    proof {
                        assert forall|k: int, jj: int|
                            #![trigger ts[k].data@[jj]]
                            0 <= k < i && 0 <= jj < ts[k].data@.len() implies f32_le(
                            y0,
                            ts[k].data@[jj].1.lower_bound,
                        ) by {
                        }
                        assert forall|jj: int|
                            0 <= jj < j implies f32_le(
                            y0,
                            (#[trigger] ts[i as int].data@[jj]).1.lower_bound,
                        ) by {
                        }
                    }
                }
                let ub: u32 = tr.data[j].1.upper_bound;
                if !f32_bits_le(ub, y1) {
                    y1 = ub;
                }
                j = j + 1;
            }
            i = i + 1;
        }
        ((x0, x1), (y0, y1))
    }
}

} // verus!
