//! The aligned time table for one experiment.
//!
//! A raw series pairs a strictly increasing integer timeline with one
//! value per timestamp.  The table builder aligns the target's series
//! with every directly connected neighbour's series on the timestamps
//! they all share, keeping only rows where every participating series
//! holds a number.  A left join followed by dropping rows with missing
//! entries produces the same rows, so the two join flavours coincide
//! here and no separate configuration is needed.

use crate::errors::DataFillError;
use crate::metrics::seq_wf;
use crate::rational::Val;
use vstd::prelude::*;
use vstd::string::StringExecFns;

verus! {

/// One node's raw time series.
pub struct RawSeries {
    pub name: String,
    pub times: Vec<i64>,
    pub values: Vec<Val>,
}

/// A timeline is strictly increasing: timestamps are unique and sorted.
pub open spec fn times_increasing(times: Seq<i64>) -> bool {
    forall|i: int, j: int| 0 <= i < j < times.len() ==> times[i] < times[j]
}

impl RawSeries {
    /// Representation invariant: one well-formed value per timestamp,
    /// on a strictly increasing timeline.
    pub open spec fn wf(self) -> bool {
        &&& self.times@.len() == self.values@.len()
        &&& times_increasing(self.times@)
        &&& seq_wf(self.values@)
    }

    /// Check the invariant on loaded data, rejecting a malformed series.
    pub fn validate(&self) -> (r: Result<(), DataFillError>)
        ensures
            r is Ok <==> self.wf(),
            r matches Err(e) ==> e is Data,
    {
        if self.times.len() != self.values.len() {
            return Err(DataFillError::Data(String::from_str("series length mismatch")));
        }
        let n = self.times.len();
        let mut i: usize = 0;
        while i < n
            invariant
                n == self.times@.len(),
                i <= n,
                forall|a: int, b: int| 0 <= a < b < i ==> self.times@[a] < self.times@[b],
            decreases n - i,
        {
            if i > 0 && self.times[i - 1] >= self.times[i] {
                return Err(DataFillError::Data(String::from_str("timeline not increasing")));
            }
            proof {
                assert forall|a: int, b: int|
                    0 <= a < b < i + 1 implies self.times@[a] < self.times@[b] by {
                    if b == i && a < i - 1 {
                        assert(self.times@[a] < self.times@[i - 1]);
                    }
                }
            }
            i = i + 1;
        }
        let mut j: usize = 0;
        while j < self.values.len()
            invariant
                j <= self.values@.len(),
                forall|a: int| 0 <= a < j ==> (#[trigger] self.values@[a]).wf(),
            decreases self.values@.len() - j,
        {
            match self.values[j] {
                Val::NaN => {},
                Val::Num(q) => {
                    if q.den < 1 || q.num == i64::MIN {
                        return Err(DataFillError::Data(String::from_str("malformed value")));
                    }
                },
            }
            j = j + 1;
        }
        Ok(())
    }
}

/// The timeline holds `t`.
pub open spec fn ts_contains(times: Seq<i64>, t: i64) -> bool {
    exists|j: int| 0 <= j < times.len() && times[j] == t
}

/// The series holds a number at timestamp `t`.
pub open spec fn series_has_num(times: Seq<i64>, vals: Seq<Val>, t: i64) -> bool {
    exists|j: int| 0 <= j < times.len() && times[j] == t && vals[j].is_num()
}

/// The series' value at timestamp `t` relates to `v`.
pub open spec fn series_value_is(times: Seq<i64>, vals: Seq<Val>, t: i64, v: Val) -> bool {
    exists|j: int| 0 <= j < times.len() && times[j] == t && vals[j] == v
}

/// Find the numeric value at timestamp `t`, if the series has one.
fn find_num(s: &RawSeries, t: i64) -> (r: Option<Val>)
    requires
        s.wf(),
    ensures
        r matches Some(v) ==> v.is_num() && v.wf() && series_value_is(s.times@, s.values@, t, v),
        r is Some <==> series_has_num(s.times@, s.values@, t),
{
    let n = s.times.len();
    let mut j: usize = 0;
    while j < n
        invariant
            s.wf(),
            n == s.times@.len(),
            j <= n,
            forall|a: int| 0 <= a < j ==> self_neq(s.times@[a], t),
        decreases n - j,
    {
        if s.times[j] == t {
            let v = s.values[j];
            if v.is_number() {
                return Some(v);
            } else {
                proof {
                    assert forall|a: int|
                        0 <= a < n && s.times@[a] == t implies !s.values@[a].is_num() by {
                        if a != j {
                            assert(s.times@[a] != s.times@[j as int]);
                        }
                    }
                }
                return None;
            }
        }
        j = j + 1;
    }
    None
}

/// Plain inequality, named so it can serve as a quantifier trigger.
pub open spec fn self_neq(a: i64, b: i64) -> bool {
    a != b
}

/// The aligned table: a shared timeline and one named column per
/// participating node, the target first.
pub struct TimeTable {
    pub times: Vec<i64>,
    pub names: Vec<String>,
    pub cols: Vec<Vec<Val>>,
}

impl TimeTable {
    /// Representation invariant: equally long numeric columns, one name
    /// each, on a strictly increasing timeline.
    pub open spec fn wf(self) -> bool {
        &&& self.names@.len() == self.cols@.len()
        &&& forall|k: int|
            0 <= k < self.cols@.len() ==> (#[trigger] self.cols@[k])@.len() == self.times@.len()
        &&& forall|k: int| 0 <= k < self.cols@.len() ==> seq_wf((#[trigger] self.cols@[k])@)
        &&& times_increasing(self.times@)
    }

    /// Number of surviving rows.
    pub fn row_count(&self) -> (r: usize)
        ensures
            r == self.times@.len(),
    {
        self.times.len()
    }
}

/// Every given series holds a number at timestamp `t`.
pub open spec fn all_have_num(target: RawSeries, neighbors: Seq<RawSeries>, t: i64) -> bool {
    &&& series_has_num(target.times@, target.values@, t)
    &&& forall|k: int|
        0 <= k < neighbors.len() ==> series_has_num(
            (#[trigger] neighbors[k]).times@,
            neighbors[k].values@,
            t,
        )
}

/// How many of the first `n` target timestamps every series holds a
/// number at: the exact number of rows the aligned table keeps.
pub open spec fn joined_count(target: RawSeries, neighbors: Seq<RawSeries>, n: int) -> int
    decreases n,
{
    if n <= 0 {
        0
    } else {
        joined_count(target, neighbors, n - 1) + if all_have_num(
            target,
            neighbors,
            target.times@[n - 1],
        ) {
            1int
        } else {
            0int
        }
    }
}

/// Everything that makes `(times, cols)` the aligned table of the
/// target and its neighbours: exactly the shared numeric timestamps, in
/// order, with every column value taken from its series at that
/// timestamp.
pub open spec fn is_joined_table(
    target: RawSeries,
    neighbors: Seq<RawSeries>,
    times: Seq<i64>,
    cols: Seq<Seq<Val>>,
) -> bool {
    &&& cols.len() == neighbors.len() + 1
    &&& forall|k: int| 0 <= k < cols.len() ==> (#[trigger] cols[k]).len() == times.len()
    &&& times_increasing(times)
    &&& times.len() == joined_count(target, neighbors, target.times@.len() as int)
    &&& forall|j: int| 0 <= j < times.len() ==> all_have_num(target, neighbors, #[trigger] times[j])
    &&& forall|i: int|
        0 <= i < target.times@.len() && all_have_num(
            target,
            neighbors,
            #[trigger] target.times@[i],
        ) ==> ts_contains(times, target.times@[i])
    &&& forall|j: int|
        0 <= j < times.len() ==> series_value_is(
            target.times@,
            target.values@,
            times[j],
            #[trigger] cols[0][j],
        ) && cols[0][j].is_num()
    &&& forall|k: int, j: int|
        0 <= k < neighbors.len() && 0 <= j < times.len() ==> series_value_is(
            neighbors[k].times@,
            neighbors[k].values@,
            times[j],
            #[trigger] cols[k + 1][j],
        ) && cols[k + 1][j].is_num()
}

/// Build the aligned table for the target and its direct neighbours:
/// the timeline keeps exactly the target timestamps at which every
/// series holds a number, and each column carries that series' value at
/// those timestamps.  Column `0` is the target's.
pub fn build_table(target: &RawSeries, neighbors: &Vec<RawSeries>) -> (r: TimeTable)
    requires
        target.wf(),
        neighbors@.len() < 0xffff_ffff,
        forall|k: int| 0 <= k < neighbors@.len() ==> (#[trigger] neighbors@[k]).wf(),
    ensures
        r.wf(),
        r.times@.len() <= target.times@.len(),
        r.cols@.len() == neighbors@.len() + 1,
        is_joined_table(*target, neighbors@, r.times@, r.cols@.map_values(|c: Vec<Val>| c@)),
        r.names@[0] == target.name,
        forall|k: int| 0 <= k < neighbors@.len() ==> r.names@[k + 1] == neighbors@[k].name,
        forall|j: int|
            0 <= j < r.times@.len() ==> all_have_num(*target, neighbors@, #[trigger] r.times@[j]),
        forall|i: int|
            0 <= i < target.times@.len() && all_have_num(
                *target,
                neighbors@,
                #[trigger] target.times@[i],
            ) ==> ts_contains(r.times@, target.times@[i]),
        forall|j: int|
            0 <= j < r.times@.len() ==> series_value_is(
                target.times@,
                target.values@,
                r.times@[j],
                #[trigger] r.cols@[0]@[j],
            ) && r.cols@[0]@[j].is_num(),
        forall|k: int, j: int|
            0 <= k < neighbors@.len() && 0 <= j < r.times@.len() ==> series_value_is(
                neighbors@[k].times@,
                neighbors@[k].values@,
                r.times@[j],
                #[trigger] r.cols@[k + 1]@[j],
            ) && r.cols@[k + 1]@[j].is_num(),
{
    let ghost gn = neighbors@;
    let mut names: Vec<String> = Vec::new();
    names.push(target.name.clone());
    let mut k: usize = 0;
    while k < neighbors.len()
        invariant
            gn == neighbors@,
            k <= gn.len(),
            names@.len() == k + 1,
            names@[0] == target.name,
            forall|q: int| 0 <= q < k ==> names@[q + 1] == gn[q].name,
        decreases gn.len() - k,
    {
        names.push(neighbors[k].name.clone());
        k = k + 1;
    }
    let ncols = neighbors.len() + 1;
    let mut times: Vec<i64> = Vec::new();
    let mut rows: Vec<Vec<Val>> = Vec::new();
    let n = target.times.len();
    let mut i: usize = 0;
    while i < n
        invariant
            gn == neighbors@,
            target.wf(),
            forall|q: int| 0 <= q < gn.len() ==> (#[trigger] gn[q]).wf(),
            n == target.times@.len(),
            ncols == gn.len() + 1,
            i <= n,
            times@.len() <= i,
            times@.len() == joined_count(*target, gn, i as int),
            rows@.len() == times@.len(),
            times_increasing(times@),
            forall|j: int|
                0 <= j < times@.len() ==> ts_contains(
                    target.times@.take(i as int),
                    #[trigger] times@[j],
                ),
            forall|j: int|
                0 <= j < times@.len() ==> all_have_num(*target, gn, #[trigger] times@[j]),
            forall|a: int|
                0 <= a < i && all_have_num(*target, gn, #[trigger] target.times@[a])
                    ==> ts_contains(times@, target.times@[a]),
            forall|j: int| 0 <= j < rows@.len() ==> (#[trigger] rows@[j])@.len() == ncols,
            forall|j: int|
                0 <= j < rows@.len() ==> series_value_is(
                    target.times@,
                    target.values@,
                    times@[j],
                    (#[trigger] rows@[j])@[0],
                ) && rows@[j]@[0].is_num() && rows@[j]@[0].wf(),
            forall|q: int, j: int| #![trigger rows@[j]@[q + 1]]
                0 <= q < gn.len() && 0 <= j < rows@.len() ==> series_value_is(
                    gn[q].times@,
                    gn[q].values@,
                    times@[j],
                    rows@[j]@[q + 1],
                ) && rows@[j]@[q + 1].is_num() && rows@[j]@[q + 1].wf(),
        decreases n - i,
    {
        let t = target.times[i];
        let tv = target.values[i];
        let mut row: Vec<Val> = Vec::new();
        let mut ok = tv.is_number();
        if ok {
            row.push(tv);
        }
        let mut q: usize = 0;
        while q < neighbors.len()
            invariant
                gn == neighbors@,
                forall|z: int| 0 <= z < gn.len() ==> (#[trigger] gn[z]).wf(),
                q <= gn.len(),
                ok ==> row@.len() == q + 1,
                ok ==> row@[0] == tv,
                ok ==> tv.is_num(),
                ok ==> forall|z: int|
                    0 <= z < q ==> series_has_num((#[trigger] gn[z]).times@, gn[z].values@, t),
                ok ==> forall|z: int|
                    0 <= z < q ==> series_value_is(
                        gn[z].times@,
                        gn[z].values@,
                        t,
                        #[trigger] row@[z + 1],
                    ) && row@[z + 1].is_num() && row@[z + 1].wf(),
                !ok ==> !tv.is_num() || (exists|z: int|
                    0 <= z < q && !series_has_num((#[trigger] gn[z]).times@, gn[z].values@, t)),
            decreases gn.len() - q,
        {
            if ok {
                match find_num(&neighbors[q], t) {
                    Some(v) => {
                        row.push(v);
                    },
                    None => {
                        ok = false;
                    },
                }
            }
            q = q + 1;
        }
        proof {
            // the target's timestamps are unique, so row `i` decides
            // whether the target holds a number at `t`
            if !tv.is_num() {
                assert forall|a: int|
                    0 <= a < target.times@.len() && target.times@[a] == t implies !target.values@[a].is_num() by {
                    if a < i {
                        assert(target.times@[a] < target.times@[i as int]);
                    }
                    if a > i {
                        assert(target.times@[i as int] < target.times@[a]);
                    }
                }
            }
        }
        if ok {
            proof {
                assert(series_value_is(target.times@, target.values@, t, tv)) by {
                    assert(target.times@[i as int] == t && target.values@[i as int] == tv);
                }
                assert(series_has_num(target.times@, target.values@, t)) by {
                    assert(target.times@[i as int] == t && target.values@[i as int].is_num());
                }
                assert(all_have_num(*target, gn, t));
                assert forall|j: int| 0 <= j < times@.len() implies times@[j] < t by {
                    assert(ts_contains(target.times@.take(i as int), times@[j]));
                    let a = choose|a: int|
                        0 <= a < target.times@.take(i as int).len() && #[trigger] target.times@.take(
                            i as int,
                        )[a] == times@[j];
                    assert(target.times@[a] < target.times@[i as int]);
                }
                assert(ts_contains(target.times@.take(i as int + 1), t)) by {
                    assert(target.times@.take(i as int + 1)[i as int] == t);
                }
            }
            let ghost old_times = times@;
            times.push(t);
            rows.push(row);
            proof {
                assert forall|j: int|
                    0 <= j < times@.len() implies ts_contains(
                    target.times@.take(i as int + 1),
                    #[trigger] times@[j],
                ) by {
                    if j < times@.len() - 1 {
                        let a = choose|a: int|
                            0 <= a < target.times@.take(i as int).len()
                                && #[trigger] target.times@.take(i as int)[a] == times@[j];
                        assert(target.times@.take(i as int + 1)[a] == times@[j]);
                    } else {
                        assert(target.times@.take(i as int + 1)[i as int] == times@[j]);
                    }
                }
                assert forall|a: int|
                    0 <= a < i + 1 && all_have_num(*target, gn, #[trigger] target.times@[a])
                        implies ts_contains(times@, target.times@[a]) by {
                    if a < i {
                        let w = choose|w: int|
                            0 <= w < old_times.len() && #[trigger] old_times[w]
                                == target.times@[a];
                        assert(times@[w] == target.times@[a]);
                    } else {
                        assert(times@[times@.len() - 1] == target.times@[a]);
                    }
                }
            }
        } else {
            proof {
                assert(!all_have_num(*target, gn, t));
                assert forall|j: int|
                    0 <= j < times@.len() implies ts_contains(
                    target.times@.take(i as int + 1),
                    #[trigger] times@[j],
                ) by {
                    let a = choose|a: int|
                        0 <= a < target.times@.take(i as int).len()
                            && #[trigger] target.times@.take(i as int)[a] == times@[j];
                    assert(target.times@.take(i as int + 1)[a] == times@[j]);
                }
                assert forall|a: int|
                    0 <= a < i + 1 && all_have_num(*target, gn, #[trigger] target.times@[a])
                        implies ts_contains(times@, target.times@[a]) by {
                    assert(a != i);
                }
            }
        }
        i = i + 1;
    }
    proof {
        assert(target.times@.take(n as int) =~= target.times@);
    }
    // transpose the kept rows into columns
    let nrows = times.len();
    let mut cols: Vec<Vec<Val>> = Vec::new();
    let mut c: usize = 0;
    while c < ncols
        invariant
            ncols == gn.len() + 1,
            nrows == times@.len(),
            rows@.len() == nrows,
            forall|j: int| 0 <= j < rows@.len() ==> (#[trigger] rows@[j])@.len() == ncols,
            c <= ncols,
            cols@.len() == c,
            forall|q: int| 0 <= q < c ==> (#[trigger] cols@[q])@.len() == nrows,
            forall|q: int, j: int| #![trigger cols@[q]@[j]]
                0 <= q < c && 0 <= j < nrows ==> cols@[q]@[j] == rows@[j]@[q],
        decreases ncols - c,
    {
        let mut col: Vec<Val> = Vec::new();
        let mut j: usize = 0;
        while j < nrows
            invariant
                nrows == rows@.len(),
                forall|z: int| 0 <= z < rows@.len() ==> (#[trigger] rows@[z])@.len() == ncols,
                c < ncols,
                j <= nrows,
                col@.len() == j,
                forall|z: int| 0 <= z < j ==> col@[z] == rows@[z]@[c as int],
            decreases nrows - j,
        {
            col.push(rows[j][c]);
            j = j + 1;
        }
        cols.push(col);
        c = c + 1;
    }
    proof {
        assert forall|q: int| 0 <= q < cols@.len() implies seq_wf((#[trigger] cols@[q])@) by {
            assert forall|j: int| 0 <= j < nrows implies (#[trigger] cols@[q]@[j]).wf() by {
                assert(cols@[q]@[j] == rows@[j]@[q]);
                if q == 0 {
                    assert(rows@[j]@[0].wf());
                } else {
                    assert(rows@[j]@[(q - 1) + 1].wf());
                }
            }
        }
        assert forall|j: int|
            0 <= j < times@.len() implies series_value_is(
            target.times@,
            target.values@,
            times@[j],
            #[trigger] cols@[0]@[j],
        ) && cols@[0]@[j].is_num() by {
            assert(cols@[0]@[j] == rows@[j]@[0]);
        }
        assert forall|k2: int, j: int|
            0 <= k2 < gn.len() && 0 <= j < times@.len() implies series_value_is(
            gn[k2].times@,
            gn[k2].values@,
            times@[j],
            #[trigger] cols@[k2 + 1]@[j],
        ) && cols@[k2 + 1]@[j].is_num() by {
            assert(cols@[k2 + 1]@[j] == rows@[j]@[k2 + 1]);
        }
    }
    TimeTable { times, names, cols }
}

} // verus!
