//! Raw benchmark records and the rules for discovering them on disk.

use crate::error::Error;
use crate::text::{all_digits, chars_vec, digits_val, is_digit, lemma_digits_val_prefix,
    spec_digit_val, spec_is_digit, str_eq};
use vstd::prelude::*;

verus! {

/// The bit pattern of an IEEE-754 single-precision 0.95, the confidence
/// level that every estimate must carry.
pub const CONFIDENCE_LEVEL_BITS: u32 = 0x3F73_3333;

/// Benchmark metadata, as recorded beside the measurements.
#[derive(Debug)]
pub struct Benchmark {
    /// Name of the benchmark group (the trace name; may contain `/`).
    pub group_id: String,
    /// Label of the benchmark within the group, typically a decimal integer.
    pub value_str: String,
    /// Throughput configuration.
    pub throughput: Throughput,
}

/// A statistical estimate in nanoseconds per iteration.
///
/// The verified core never performs floating-point arithmetic, so every
/// single-precision value is carried as its IEEE-754 bit pattern; callers
/// convert with `f32::to_bits` / `f32::from_bits`.
#[derive(Clone, Copy, Debug, PartialEq, Eq, Structural)]
pub struct Estimate {
    /// Confidence interval of the estimate.
    pub confidence_interval: ConfidenceInterval,
    /// Central value (bit pattern).
    pub point_estimate: u32,
    /// Standard error (bit pattern).
    pub standard_error: u32,
}

/// A confidence interval, each bound an IEEE-754 single-precision bit pattern.
#[derive(Clone, Copy, Debug, PartialEq, Eq, Structural)]
pub struct ConfidenceInterval {
    /// Level of confidence; must equal [`CONFIDENCE_LEVEL_BITS`].
    pub confidence_level: u32,
    /// Lower bound (bit pattern).
    pub lower_bound: u32,
    /// Upper bound (bit pattern).
    pub upper_bound: u32,
}

/// The statistics record of one benchmark.
#[derive(Clone, Copy, Debug, PartialEq, Eq, Structural)]
pub struct Estimates {
    /// Median execution time (ns).
    pub median: Estimate,
}

/// Everything known about a single benchmark once its records are reconciled.
#[derive(Debug)]
pub struct BenchmarkInfo {
    /// Benchmark metadata.
    pub benchmark: Benchmark,
    /// Benchmark result estimates.
    pub estimates: Estimates,
}

/// `s` without one optional leading `+` sign.
pub open spec fn strip_plus(s: Seq<char>) -> Seq<char> {
    if s.len() > 0 && s[0] == '+' {
        s.drop_first()
    } else {
        s
    }
}

/// Whether `s` reads as a non-negative integer that fits in `usize`:
/// an optional `+`, then one or more decimal digits, denoting a value
/// of at most `usize::MAX`.
#[verifier::opaque]
pub open spec fn is_valid_value_str(s: Seq<char>) -> bool {
    &&& strip_plus(s).len() > 0
    &&& all_digits(strip_plus(s))
    &&& digits_val(strip_plus(s)) <= usize::MAX
}

/// The value denoted by a valid per-point label.
#[verifier::opaque]
pub open spec fn spec_value_of(s: Seq<char>) -> int {
    digits_val(strip_plus(s))
}

/// Parse a vector of characters as a non-negative integer.
fn parse_usize_chars(v: &Vec<char>) -> (r: Option<usize>)
    ensures
        r is Some <==> strip_plus(v@).len() > 0 && all_digits(strip_plus(v@)) && digits_val(
            strip_plus(v@),
        ) <= usize::MAX,
        r is Some ==> r.unwrap() == digits_val(strip_plus(v@)),
{
    let ghost s = v@;
    let start: usize = if v.len() > 0 && v[0] == '+' {
        1
    } else {
        0
    };
    let ghost d = strip_plus(s);
    proof {
        assert(d =~= s.subrange(start as int, s.len() as int));
    }
    if start == v.len() {
        return None;
    }
    let mut acc: usize = 0;
    let mut i: usize = start;
    while i < v.len()
        invariant
            start <= i <= v@.len(),
            v@ == s,
            d == strip_plus(s),
            d =~= s.subrange(start as int, s.len() as int),
            all_digits(d.take(i - start)),
            acc == digits_val(d.take(i - start)),
        decreases v@.len() - i,
    {
        let c: char = v[i];
        let ghost k = i - start;
        proof {
            assert(d[k] == s[i as int]);
        }
        if !is_digit(c) {
            proof {
                assert(!spec_is_digit(d[k]));
                assert(!all_digits(d));
            }
            return None;
        }
        let dv: usize = ((c as u32) - 48) as usize;
        proof {
            assert(d.take(k + 1).drop_last() =~= d.take(k));
            assert(d.take(k + 1).last() == d[k]);
            assert(digits_val(d.take(k + 1)) == digits_val(d.take(k)) * 10 + spec_digit_val(d[k]));
            assert(all_digits(d.take(k + 1))) by {
                assert(forall|j: int| 0 <= j < k + 1 ==> #[trigger] d.take(k + 1)[j] == d[j]);
            }
        }
        let acc10: usize = match acc.checked_mul(10) {
            Some(x) => x,
            None => {
                proof {
                    overflow_means_invalid(d, k);
                }
                return None;
            },
        };
        let next: usize = match acc10.checked_add(dv) {
            Some(x) => x,
            None => {
                proof {
                    overflow_means_invalid(d, k);
                }
                return None;
            },
        };
        acc = next;
        i = i + 1;
    }
    proof {
        assert(d.take(i - start) =~= d);
    }
    Some(acc)
}

/// If the value of the digits up to and including position `k` already
/// exceeds `usize::MAX`, the whole label is invalid.
proof fn overflow_means_invalid(d: Seq<char>, k: int)
    requires
        0 <= k < d.len(),
        all_digits(d.take(k + 1)),
        digits_val(d.take(k + 1)) > usize::MAX,
    ensures
        !(all_digits(d) && digits_val(d) <= usize::MAX),
{
    if all_digits(d) {
        lemma_digits_val_prefix(d, k + 1);
    }
}

/// Throughput configuration recorded with a benchmark: how many units one
/// iteration of the measured code processes.
#[derive(Clone, Copy, Debug, PartialEq, Eq, Structural)]
pub enum Throughput {
    /// Bytes per iteration, reported with binary prefixes downstream.
    Bytes(u64),
    /// Bytes per iteration, reported with decimal prefixes downstream.
    BytesDecimal(u64),
    /// Elements per iteration.
    Elements(u64),
}

/// [`Throughput`] type information, without a value.
#[derive(Clone, Copy, Debug, PartialEq, Eq, Structural)]
pub enum ThroughputType {
    /// Measure throughput in bytes/second, binary prefixes.
    Bytes,
    /// Measure throughput in bytes/second, decimal prefixes.
    BytesDecimal,
    /// Measure throughput in elements/second.
    Elements,
}

/// The type tag of a throughput value.
pub open spec fn spec_throughput_type(t: Throughput) -> ThroughputType {
    match t {
        Throughput::Bytes(_) => ThroughputType::Bytes,
        Throughput::BytesDecimal(_) => ThroughputType::BytesDecimal,
        Throughput::Elements(_) => ThroughputType::Elements,
    }
}

/// The raw per-iteration count carried by a throughput value.
pub open spec fn spec_throughput_count(t: Throughput) -> u64 {
    match t {
        Throughput::Bytes(b) => b,
        Throughput::BytesDecimal(d) => d,
        Throughput::Elements(e) => e,
    }
}

impl Benchmark {
    /// Decode the benchmark's per-point label as an integer.
    ///
    /// The harness allows any text in the label, but the trace builder and
    /// the chart need a non-negative number for axis construction.
    pub fn value_usize(&self) -> (r: Result<usize, Error>)
        ensures
            r is Ok <==> is_valid_value_str(self.value_str@),
            r is Ok ==> r.unwrap() == spec_value_of(self.value_str@),
            r is Err ==> r.unwrap_err() == Error::ValueNotInteger,
    {
        proof {
            reveal(is_valid_value_str);
            reveal(spec_value_of);
        }
        let chars: Vec<char> = chars_vec(self.value_str.as_str());
        match parse_usize_chars(&chars) {
            Some(v) => Ok(v),
            None => Err(Error::ValueNotInteger),
        }
    }
}

/// Split the throughput type information from the inner value.
pub fn split_throughput(throughput: Throughput) -> (r: (ThroughputType, u64))
    ensures
        r.0 == spec_throughput_type(throughput),
        r.1 == spec_throughput_count(throughput),
{
    match throughput {
        Throughput::Bytes(b) => (ThroughputType::Bytes, b),
        Throughput::BytesDecimal(d) => (ThroughputType::BytesDecimal, d),
        Throughput::Elements(e) => (ThroughputType::Elements, e),
    }
}

/// One record file found by the walk: which benchmark directory it came
/// from, and its decoded payload.
#[derive(Debug)]
pub struct RawEntry {
    /// First path component: the benchmark group directory.
    pub group_dir: String,
    /// Second path component: the per-point value directory.
    pub value_dir: String,
    /// The decoded record.
    pub payload: RecordPayload,
}

/// The two record kinds a benchmark directory contributes.
#[derive(Debug)]
pub enum RecordPayload {
    /// The contents of a metadata record.
    Metadata(Benchmark),
    /// The contents of a statistics record.
    Statistics(Estimates),
}

/// The key of an entry: its two directory names.
pub open spec fn entry_key(e: RawEntry) -> (Seq<char>, Seq<char>) {
    (e.group_dir@, e.value_dir@)
}

/// The distinct keys of a run of entries, each at its first appearance.
pub open spec fn keys_of(s: Seq<RawEntry>) -> Seq<(Seq<char>, Seq<char>)>
    decreases s.len(),
{
    if s.len() == 0 {
        Seq::empty()
    } else {
        let ks = keys_of(s.drop_last());
        if ks.contains(entry_key(s.last())) {
            ks
        } else {
            ks.push(entry_key(s.last()))
        }
    }
}

/// The last metadata record filed under a key, if any.
pub open spec fn last_meta(s: Seq<RawEntry>, g: Seq<char>, v: Seq<char>) -> Option<Benchmark>
    decreases s.len(),
{
    if s.len() == 0 {
        Option::None
    } else {
        match s.last().payload {
            RecordPayload::Metadata(b) => if s.last().group_dir@ == g && s.last().value_dir@
                == v {
                Option::Some(b)
            } else {
                last_meta(s.drop_last(), g, v)
            },
            RecordPayload::Statistics(_) => last_meta(s.drop_last(), g, v),
        }
    }
}

/// The last statistics record filed under a key, if any.
pub open spec fn last_stats(s: Seq<RawEntry>, g: Seq<char>, v: Seq<char>) -> Option<Estimates>
    decreases s.len(),
{
    if s.len() == 0 {
        Option::None
    } else {
        match s.last().payload {
            RecordPayload::Statistics(e) => if s.last().group_dir@ == g && s.last().value_dir@
                == v {
                Option::Some(e)
            } else {
                last_stats(s.drop_last(), g, v)
            },
            RecordPayload::Metadata(_) => last_stats(s.drop_last(), g, v),
        }
    }
}

/// Every metadata record's group identifier matches the user pattern.
pub open spec fn regex_all_ok(s: Seq<RawEntry>, pat: Seq<char>) -> bool {
    forall|k: int|
        0 <= k < s.len() ==> match (#[trigger] s[k]).payload {
            RecordPayload::Metadata(b) => crate::filter::regex_matches(pat, b.group_id@),
            RecordPayload::Statistics(_) => true,
        }
}

/// Every key has both of its records.
pub open spec fn all_complete(s: Seq<RawEntry>) -> bool {
    forall|i: int|
        0 <= i < keys_of(s).len() ==> last_meta(s, (#[trigger] keys_of(s)[i]).0, keys_of(s)[i].1)
            is Some && last_stats(s, keys_of(s)[i].0, keys_of(s)[i].1) is Some
}

/// Every key's directory name recovers to its recorded group identifier.
pub open spec fn all_names_ok(s: Seq<RawEntry>) -> bool {
    forall|i: int|
        0 <= i < keys_of(s).len() ==> (last_meta(
            s,
            (#[trigger] keys_of(s)[i]).0,
            keys_of(s)[i].1,
        ) matches Option::Some(b) ==> crate::filter::recover_name(keys_of(s)[i].0) == b.group_id@)
}

/// Everything reconciliation demands of the walked entries.
pub open spec fn reconcile_ok(s: Seq<RawEntry>, pat: Seq<char>) -> bool {
    regex_all_ok(s, pat) && all_complete(s) && all_names_ok(s)
}

/// A key that never appears has no records.
proof fn lemma_absent_key(s: Seq<RawEntry>, g: Seq<char>, v: Seq<char>)
    requires
        !keys_of(s).contains((g, v)),
    ensures
        last_meta(s, g, v) is None,
        last_stats(s, g, v) is None,
    decreases s.len(),
{
    if s.len() > 0 {
        let ks = keys_of(s.drop_last());
        if entry_key(s.last()) == (g, v) {
            assert(keys_of(s).contains((g, v))) by {
                if ks.contains((g, v)) {
                } else {
                    assert(keys_of(s).last() == (g, v));
                }
            }
        } else {
            assert(!ks.contains((g, v))) by {
                if ks.contains((g, v)) {
                    let i = choose|i: int| 0 <= i < ks.len() && ks[i] == (g, v);
                    if ks.contains(entry_key(s.last())) {
                        assert(keys_of(s)[i] == (g, v));
                    } else {
                        assert(keys_of(s)[i] == (g, v));
                    }
                }
            }
            lemma_absent_key(s.drop_last(), g, v);
            assert(s.last().group_dir@ != g || s.last().value_dir@ != v);
        }
    }
}

/// First-appearance keys are pairwise distinct.
proof fn lemma_keys_distinct(s: Seq<RawEntry>)
    ensures
        forall|i: int, j: int|
            0 <= i < j < keys_of(s).len() ==> #[trigger] keys_of(s)[i] != #[trigger] keys_of(
                s,
            )[j],
    decreases s.len(),
{
    if s.len() > 0 {
        let ks = keys_of(s.drop_last());
        lemma_keys_distinct(s.drop_last());
        if !ks.contains(entry_key(s.last())) {
            assert forall|i: int, j: int|
                0 <= i < j < keys_of(s).len() implies #[trigger] keys_of(s)[i]
                != #[trigger] keys_of(s)[j] by {
                if j == ks.len() {
                    assert(keys_of(s)[i] == ks[i]);
                    if ks[i] == entry_key(s.last()) {
                        assert(ks.contains(entry_key(s.last())));
                    }
                }
            }
        }
    }
}

/// An accumulator slot while records are being gathered.
struct Pending {
    group_dir: String,
    value_dir: String,
    benchmark: Option<Benchmark>,
    estimates: Option<Estimates>,
}

/// The accumulator mirrors the keys seen so far, in first-appearance
/// order, each slot holding the last records filed under its key.
spec fn acc_inv(acc: Seq<Pending>, s: Seq<RawEntry>) -> bool {
    &&& acc.len() == keys_of(s).len()
    &&& forall|i: int|
        0 <= i < acc.len() ==> ((#[trigger] acc[i]).group_dir@, acc[i].value_dir@) == keys_of(
            s,
        )[i]
    &&& forall|i: int|
        0 <= i < acc.len() ==> (#[trigger] acc[i]).benchmark == last_meta(
            s,
            acc[i].group_dir@,
            acc[i].value_dir@,
        ) && acc[i].estimates == last_stats(s, acc[i].group_dir@, acc[i].value_dir@)
}

/// Find the accumulator slot with the given key.
fn find_key(acc: &Vec<Pending>, g: &String, v: &String) -> (r: (usize, bool))
    ensures
        r.1 ==> r.0 < acc@.len() && acc@[r.0 as int].group_dir@ == g@ && acc@[r.0
            as int].value_dir@ == v@,
        !r.1 ==> forall|i: int|
            0 <= i < acc@.len() ==> !((#[trigger] acc@[i]).group_dir@ == g@
                && acc@[i].value_dir@ == v@),
{
    let n: usize = acc.len();
    let mut i: usize = 0;
    while i < n
        invariant
            n == acc@.len(),
            i <= n,
            forall|j: int|
                0 <= j < i ==> !((#[trigger] acc@[j]).group_dir@ == g@ && acc@[j].value_dir@
                    == v@),
        decreases n - i,
    {
        if str_eq(acc[i].group_dir.as_str(), g.as_str()) && str_eq(
            acc[i].value_dir.as_str(),
            v.as_str(),
        ) {
            return (i, true);
        }
        i = i + 1;
    }
    (i, false)
}

/// Reconcile the walked record files into one record per benchmark.
///
/// Each metadata record must match the user pattern; every benchmark
/// directory must contribute both record kinds; and each directory name
/// must recover to the recorded group identifier.  The output holds one
/// entry per benchmark directory, in order of first appearance.
#[verifier::rlimit(100)]
pub fn reconcile(entries: Vec<RawEntry>, filter: &crate::filter::GroupFilter) -> (r: Result<
    Vec<BenchmarkInfo>,
    Error,
>)
    ensures
        r is Ok <==> reconcile_ok(entries@, filter@),
        r is Ok ==> {
            let out = r.unwrap();
            &&& out@.len() == keys_of(entries@).len()
            &&& forall|i: int|
                0 <= i < out@.len() ==> Option::Some((#[trigger] out@[i]).benchmark) == last_meta(
                    entries@,
                    keys_of(entries@)[i].0,
                    keys_of(entries@)[i].1,
                ) && Option::Some(out@[i].estimates) == last_stats(
                    entries@,
                    keys_of(entries@)[i].0,
                    keys_of(entries@)[i].1,
                )
        },
        r is Err ==> match r.unwrap_err() {
            Error::RegexGroupMismatch => !regex_all_ok(entries@, filter@),
            Error::MissingCompanion => !all_complete(entries@),
            Error::GroupNameMismatch => !all_names_ok(entries@),
            _ => false,
        },
{
    let ghost all = entries@;
    let mut rest: Vec<RawEntry> = entries;
    let mut acc: Vec<Pending> = Vec::new();
    let ghost idx: int = 0;
    proof {
        assert(all.take(0) =~= Seq::<RawEntry>::empty());
    }
    while rest.len() > 0
        invariant
            all == entries@,
            0 <= idx <= all.len(),
            rest@ =~= all.skip(idx),
            acc_inv(acc@, all.take(idx)),
            regex_all_ok(all.take(idx), filter@),
        decreases rest@.len(),
    {
        let e: RawEntry = rest.remove(0);
        proof {
            assert(e == all[idx]);
            assert(all.take(idx + 1).drop_last() =~= all.take(idx));
            assert(all.take(idx + 1).last() == all[idx]);
        }
        let ghost prefix = all.take(idx);
        let ghost prefix1 = all.take(idx + 1);
        let ghost ks = keys_of(prefix);
        let ghost ks1 = keys_of(prefix1);
        let pos: (usize, bool) = find_key(&acc, &e.group_dir, &e.value_dir);
        proof {
            if pos.1 {
                assert(ks.contains(entry_key(e))) by {
                    assert(ks[pos.0 as int] == entry_key(e));
                }
                assert(ks1 == ks);
            } else {
                assert(!ks.contains(entry_key(e))) by {
                    if ks.contains(entry_key(e)) {
                        let i = choose|i: int| 0 <= i < ks.len() && ks[i] == entry_key(e);
                        assert((acc@[i].group_dir@, acc@[i].value_dir@) == entry_key(e));
                    }
                }
                assert(ks1 == ks.push(entry_key(e)));
                lemma_absent_key(prefix, e.group_dir@, e.value_dir@);
            }
            // records filed under other keys are untouched
            assert forall|g2: Seq<char>, v2: Seq<char>|
                !(e.group_dir@ == g2 && e.value_dir@ == v2) implies last_meta(prefix1, g2, v2)
                == last_meta(prefix, g2, v2) && last_stats(prefix1, g2, v2) == last_stats(
                prefix,
                g2,
                v2,
            ) by {
                assert(prefix1.last() == e);
            }
        }
        let ghost acc0 = acc@;
        let ghost ekey = entry_key(e);
        match e.payload {
            RecordPayload::Metadata(b) => {
                if !filter.is_match(b.group_id.as_str()) {
                    proof {
                        assert(!regex_all_ok(all, filter@)) by {
                            assert(all[idx].payload matches RecordPayload::Metadata(b2)
                                && b2.group_id@ == b.group_id@);
                        }
                    }
                    return Err(Error::RegexGroupMismatch);
                }
                let gd: String = e.group_dir;
                let vd: String = e.value_dir;
                if pos.1 {
                    let mut p: Pending = acc.remove(pos.0);
                    p.benchmark = Some(b);
                    acc.insert(pos.0, p);
                } else {
                    acc.push(Pending {
                        group_dir: gd,
                        value_dir: vd,
                        benchmark: Some(b),
                        estimates: None,
                    });
                }
                proof {
                    assert(last_meta(prefix1, ekey.0, ekey.1) == Option::Some(b)) by {
                        assert(prefix1.last() == e);
                    }
                    assert(last_stats(prefix1, ekey.0, ekey.1) == last_stats(
                        prefix,
                        ekey.0,
                        ekey.1,
                    )) by {
                        assert(prefix1.last() == e);
                    }
                }
            },
            RecordPayload::Statistics(est) => {
                let gd: String = e.group_dir;
                let vd: String = e.value_dir;
                if pos.1 {
                    let mut p: Pending = acc.remove(pos.0);
                    p.estimates = Some(est);
                    acc.insert(pos.0, p);
                } else {
                    acc.push(Pending {
                        group_dir: gd,
                        value_dir: vd,
                        benchmark: None,
                        estimates: Some(est),
                    });
                }
                proof {
                    assert(last_stats(prefix1, ekey.0, ekey.1) == Option::Some(est)) by {
                        assert(prefix1.last() == e);
                    }
                    assert(last_meta(prefix1, ekey.0, ekey.1) == last_meta(
                        prefix,
                        ekey.0,
                        ekey.1,
                    )) by {
                        assert(prefix1.last() == e);
                    }
                }
            },
        }
        proof {
            lemma_keys_distinct(prefix);
            if pos.1 {
                let t = pos.0 as int;
                assert(acc@ =~= acc0.update(t, acc@[t]));
                assert(acc@.len() == acc0.len());
                assert(forall|i: int| 0 <= i < acc0.len() && i != t ==> acc@[i] == acc0[i]);
                assert((acc@[t].group_dir@, acc@[t].value_dir@) == ekey);
                assert(ks1 == ks);
                assert forall|i: int|
                    0 <= i < acc@.len() implies ((#[trigger] acc@[i]).group_dir@,
                        acc@[i].value_dir@) == ks1[i] by {
                    if i != t {
                        assert(acc@[i] == acc0[i]);
                    }
                }
                assert forall|i: int|
                    0 <= i < acc@.len() implies (#[trigger] acc@[i]).benchmark == last_meta(
                    prefix1,
                    acc@[i].group_dir@,
                    acc@[i].value_dir@,
                ) && acc@[i].estimates == last_stats(
                    prefix1,
                    acc@[i].group_dir@,
                    acc@[i].value_dir@,
                ) by {
                    if i != t {
                        assert(acc@[i] == acc0[i]);
                        assert((acc0[i].group_dir@, acc0[i].value_dir@) == ks[i]);
                        assert(ks[i] != ks[t]);
                        assert(ks[t] == ekey);
                        assert(!(acc0[i].group_dir@ == ekey.0 && acc0[i].value_dir@ == ekey.1));
                    }
                }
            } else {
                let t = acc0.len() as int;
                assert(acc@ =~= acc0.push(acc@[t]));
                assert((acc@[t].group_dir@, acc@[t].value_dir@) == ekey);
                assert(ks1 == ks.push(ekey));
                assert forall|i: int|
                    0 <= i < acc@.len() implies ((#[trigger] acc@[i]).group_dir@,
                        acc@[i].value_dir@) == ks1[i] by {
                    if i != t {
                        assert(acc@[i] == acc0[i]);
                    }
                }
                assert forall|i: int|
                    0 <= i < acc@.len() implies (#[trigger] acc@[i]).benchmark == last_meta(
                    prefix1,
                    acc@[i].group_dir@,
                    acc@[i].value_dir@,
                ) && acc@[i].estimates == last_stats(
                    prefix1,
                    acc@[i].group_dir@,
                    acc@[i].value_dir@,
                ) by {
                    if i != t {
                        assert(acc@[i] == acc0[i]);
                        assert((acc0[i].group_dir@, acc0[i].value_dir@) == ks[i]);
                        assert(ks.contains(ks[i]));
                        assert(!(acc0[i].group_dir@ == ekey.0 && acc0[i].value_dir@ == ekey.1));
                    }
                }
            }
            assert(acc_inv(acc@, prefix1));
            assert(regex_all_ok(prefix1, filter@)) by {
                assert(forall|k: int|
                    0 <= k < idx ==> #[trigger] prefix1[k] == prefix[k]);
            }
            idx = idx + 1;
            assert(rest@ =~= all.skip(idx));
        }
    }
    proof {
        assert(idx == all.len()) by {
            assert(all.skip(idx).len() == 0);
        }
        assert(all.take(idx) =~= all);
    }
    let ghost ks = keys_of(all);
    let mut out: Vec<BenchmarkInfo> = Vec::new();
    let mut pending: Vec<Pending> = acc;
    let ghost total = ks.len() as int;
    let ghost done: int = 0;
    while pending.len() > 0
        invariant
            all == entries@,
            0 <= done <= total,
            total == keys_of(all).len(),
            out@.len() == done,
            pending@.len() == total - done,
            forall|i: int|
                0 <= i < pending@.len() ==> ((#[trigger] pending@[i]).group_dir@,
                    pending@[i].value_dir@) == keys_of(all)[done + i],
            forall|i: int|
                0 <= i < pending@.len() ==> (#[trigger] pending@[i]).benchmark == last_meta(
                    all,
                    pending@[i].group_dir@,
                    pending@[i].value_dir@,
                ) && pending@[i].estimates == last_stats(
                    all,
                    pending@[i].group_dir@,
                    pending@[i].value_dir@,
                ),
            forall|i: int|
                0 <= i < out@.len() ==> Option::Some((#[trigger] out@[i]).benchmark) == last_meta(
                    all,
                    keys_of(all)[i].0,
                    keys_of(all)[i].1,
                ) && Option::Some(out@[i].estimates) == last_stats(
                    all,
                    keys_of(all)[i].0,
                    keys_of(all)[i].1,
                ),
            forall|i: int|
                0 <= i < out@.len() ==> (last_meta(
                    all,
                    (#[trigger] keys_of(all)[i]).0,
                    keys_of(all)[i].1,
                ) matches Option::Some(b) ==> crate::filter::recover_name(keys_of(all)[i].0)
                    == b.group_id@),
        decreases pending@.len(),
    {
        let p: Pending = pending.remove(0);
        proof {
            assert((p.group_dir@, p.value_dir@) == keys_of(all)[done]);
        }
        let b: Benchmark = match p.benchmark {
            Some(b) => b,
            None => {
                proof {
                    assert(!all_complete(all)) by {
                        assert(last_meta(all, keys_of(all)[done].0, keys_of(all)[done].1)
                            is None);
                    }
                }
                return Err(Error::MissingCompanion);
            },
        };
        let est: Estimates = match p.estimates {
            Some(est) => est,
            None => {
                proof {
                    assert(!all_complete(all)) by {
                        assert(last_stats(all, keys_of(all)[done].0, keys_of(all)[done].1)
                            is None);
                    }
                }
                return Err(Error::MissingCompanion);
            },
        };
        let recovered: String = crate::filter::guess_benchmark_name(p.group_dir.as_str());
        if !str_eq(recovered.as_str(), b.group_id.as_str()) {
            proof {
                assert(!all_names_ok(all)) by {
                    assert(last_meta(all, keys_of(all)[done].0, keys_of(all)[done].1)
                        == Option::Some(b));
                    assert(crate::filter::recover_name(keys_of(all)[done].0) != b.group_id@);
                }
            }
            return Err(Error::GroupNameMismatch);
        }
        out.push(BenchmarkInfo { benchmark: b, estimates: est });
        proof {
            assert(Option::Some(out@.last().benchmark) == last_meta(
                all,
                keys_of(all)[done].0,
                keys_of(all)[done].1,
            ));
            done = done + 1;
        }
    }
    proof {
        assert(done == total);
        assert(all_complete(all)) by {
            assert forall|i: int|
                0 <= i < keys_of(all).len() implies last_meta(
                all,
                (#[trigger] keys_of(all)[i]).0,
                keys_of(all)[i].1,
            ) is Some && last_stats(all, keys_of(all)[i].0, keys_of(all)[i].1) is Some by {
                assert(Option::Some(out@[i].benchmark) == last_meta(
                    all,
                    keys_of(all)[i].0,
                    keys_of(all)[i].1,
                ));
                assert(Option::Some(out@[i].estimates) == last_stats(
                    all,
                    keys_of(all)[i].0,
                    keys_of(all)[i].1,
                ));
            }
        }
        assert(reconcile_ok(all, filter@));
    }
    Ok(out)
}

/// A benchmark whose group name passes the filter contributes both of its
/// records exactly once: a walk that yielded its metadata and statistics
/// under one key reconciles, with one output record holding exactly that
/// pair.  Together with [`reconcile`]'s contract this pins the output of
/// the ingestor for a tree holding one benchmark.
pub proof fn lemma_lone_benchmark_reconciles(e0: RawEntry, e1: RawEntry, pat: Seq<char>)
    requires
        e0.group_dir@ == e1.group_dir@,
        e0.value_dir@ == e1.value_dir@,
        e1.payload is Statistics,
        e0.payload matches RecordPayload::Metadata(b) && crate::filter::regex_matches(
            pat,
            b.group_id@,
        ) && crate::filter::recover_name(e0.group_dir@) == b.group_id@,
    ensures
        reconcile_ok(seq![e0, e1], pat),
        keys_of(seq![e0, e1]) == seq![entry_key(e0)],
        e0.payload matches RecordPayload::Metadata(b) ==> last_meta(
            seq![e0, e1],
            e0.group_dir@,
            e0.value_dir@,
        ) == Option::Some(b),
        e1.payload matches RecordPayload::Statistics(est) ==> last_stats(
            seq![e0, e1],
            e0.group_dir@,
            e0.value_dir@,
        ) == Option::Some(est),
{
    let s = seq![e0, e1];
    let s0 = seq![e0];
    assert(s.last() == e1);
    assert(s.drop_last() =~= s0);
    assert(s0.last() == e0);
    assert(s0.drop_last() =~= Seq::<RawEntry>::empty());
    assert(keys_of(Seq::<RawEntry>::empty()) =~= Seq::<(Seq<char>, Seq<char>)>::empty());
    assert(!Seq::<(Seq<char>, Seq<char>)>::empty().contains(entry_key(e0)));
    assert(keys_of(s0) =~= seq![entry_key(e0)]);
    assert(keys_of(s0).contains(entry_key(e1))) by {
        assert(keys_of(s0)[0] == entry_key(e0));
        assert(entry_key(e1) == entry_key(e0));
    }
    assert(keys_of(s) =~= seq![entry_key(e0)]);
    let g = e0.group_dir@;
    let v = e0.value_dir@;
    assert(last_meta(s, g, v) == last_meta(s0, g, v));
    assert(last_stats(s0, g, v) == last_stats(Seq::<RawEntry>::empty(), g, v));
    assert(last_stats(Seq::<RawEntry>::empty(), g, v) is None);
    assert(regex_all_ok(s, pat)) by {
        assert(s[0] == e0 && s[1] == e1);
    }
    assert(all_complete(s)) by {
        assert(keys_of(s)[0] == entry_key(e0));
    }
    assert(all_names_ok(s)) by {
        assert(keys_of(s)[0] == entry_key(e0));
    }
}

} // verus!
