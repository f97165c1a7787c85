//! Integer-valued steps of the estimation pipeline.
//!
//! The numeric solvers work on floating-point coordinates and therefore live
//! with the callers of this library; the selection and aggregation decisions
//! they rest on are integer-valued and are verified here: which beacons of a
//! configured list have a usable reading, which beacon count a fused result
//! carries, and which suffix of a result history an averaging window covers.

use crate::signals::SignalReadings;
use vstd::prelude::*;

verus! {

/// The id of each configured beacon, as the contracts speak of it.
pub open spec fn id_views(ids: Seq<String>) -> Seq<Seq<char>> {
    ids.map_values(|id: String| id@)
}

/// The readings matched against the first `n` keys: for each key with a
/// recorded value, in order, its position and that value.
pub open spec fn matched_upto(
    readings: Map<Seq<char>, i16>,
    keys: Seq<Seq<char>>,
    n: int,
) -> Seq<(usize, i16)>
    decreases n,
{
    if n <= 0 {
        Seq::empty()
    } else {
        let prefix = matched_upto(readings, keys, n - 1);
        if readings.contains_key(keys[n - 1]) {
            prefix.push(((n - 1) as usize, readings[keys[n - 1]]))
        } else {
            prefix
        }
    }
}

/// For each of the first `limit` beacon ids that has a reading, in order, the
/// beacon's position in `ids` and its RSSI value.
pub fn matched_readings(signals: &SignalReadings, ids: &Vec<String>, limit: usize) -> (result: Vec<
    (usize, i16),
>)
    ensures
        result@ == matched_upto(
            signals@,
            id_views(ids@),
            if limit <= ids@.len() {
                limit as int
            } else {
                ids@.len() as int
            },
        ),
{
    let n: usize = if limit <= ids.len() {
        limit
    } else {
        ids.len()
    };
    let mut result: Vec<(usize, i16)> = Vec::new();
    let mut i: usize = 0;
    while i < n
        invariant
            i <= n <= ids@.len(),
            result@ == matched_upto(signals@, id_views(ids@), i as int),
        decreases n - i,
    {
        proof {
            assert(id_views(ids@)[i as int] == ids@[i as int]@);
        }
        match signals.get(ids[i].as_str()) {
            Some(rssi) => {
                result.push((i, rssi));
            },
            None => {},
        }
        i += 1;
    }
    result
}

/// The beacon count carried by a fused result: the largest count among the
/// fused inputs, or zero when there is none.
pub fn fused_beacon_count(counts: &Vec<usize>) -> (result: usize)
    ensures
        counts@.len() == 0 ==> result == 0,
        counts@.len() > 0 ==> counts@.contains(result),
        forall|i: int| 0 <= i < counts@.len() ==> counts@[i] <= result,
{
    let mut best: usize = 0;
    let mut i: usize = 0;
    while i < counts.len()
        invariant
            i <= counts@.len(),
            i == 0 ==> best == 0,
            i > 0 ==> counts@.subrange(0, i as int).contains(best),
            forall|j: int| 0 <= j < i ==> counts@[j] <= best,
        decreases counts@.len() - i,
    {
        if counts[i] > best || i == 0 {
            best = counts[i];
        }
        proof {
            assert(counts@.subrange(0, i + 1).contains(best)) by {
                if counts@[i as int] == best {
                    assert(counts@.subrange(0, i + 1)[i as int] == best);
                } else {
                    let w = choose|w: int|
                        0 <= w < i && counts@.subrange(0, i as int)[w] == best;
                    assert(counts@.subrange(0, i + 1)[w] == best);
                }
            }
        }
        i += 1;
    }
    proof {
        if counts@.len() > 0 {
            assert(counts@.subrange(0, counts@.len() as int) =~= counts@);
        }
    }
    best
}

/// Index where an averaging window of `n` entries begins in a history of
/// `len` entries; the window covers the whole history when `n >= len`.
pub fn window_start(len: usize, n: usize) -> (result: usize)
    ensures
        result == if n < len {
            len - n
        } else {
            0
        },
        n >= len ==> result == 0,
{
    if len > n {
        len - n
    } else {
        0
    }
}

} // verus!
