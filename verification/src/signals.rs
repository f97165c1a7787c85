//! The latest signal-strength report per beacon.
//!
//! A [`SignalReadings`] value holds one RSSI value per beacon id, the latest
//! report overwriting earlier ones.  Its view is the map from beacon id to
//! RSSI value, so every contract below speaks of plain map operations.

use std::collections::HashMap;
use vstd::pervasive::VecAdditionalExecFns;
use vstd::prelude::*;

verus! {

/// A single RSSI report from one beacon.
#[derive(Clone, Debug)]
pub struct SignalMeasurement {
    /// Identifier of the reporting beacon.
    pub beacon_id: String,
    /// Received signal strength, in dBm.
    pub rssi: i16,
    /// Time of the report in milliseconds, when the source provides one.
    pub timestamp_ms: Option<u64>,
}

impl SignalMeasurement {
    /// A measurement without a timestamp.
    pub fn new(beacon_id: String, rssi: i16) -> (result: Self)
        ensures
            result.beacon_id == beacon_id,
            result.rssi == rssi,
            result.timestamp_ms is None,
    {
        SignalMeasurement { beacon_id, rssi, timestamp_ms: None }
    }

    /// A measurement carrying the time of the report.
    pub fn with_timestamp(beacon_id: String, rssi: i16, timestamp_ms: u64) -> (result: Self)
        ensures
            result.beacon_id == beacon_id,
            result.rssi == rssi,
            result.timestamp_ms == Some(timestamp_ms),
    {
        SignalMeasurement { beacon_id, rssi, timestamp_ms: Some(timestamp_ms) }
    }
}

/// The map described by an entry list: later entries overwrite earlier ones.
spec fn entry_table(s: Seq<(String, i16)>) -> Map<Seq<char>, i16>
    decreases s.len(),
{
    if s.len() == 0 {
        Map::empty()
    } else {
        entry_table(s.drop_last()).insert(s.last().0@, s.last().1)
    }
}

/// No two entries name the same beacon.
spec fn distinct_ids(s: Seq<(String, i16)>) -> bool {
    forall|i: int, j: int| 0 <= i < j < s.len() ==> s[i].0@ != s[j].0@
}

/// The keys and RSSI values of a pair list, as the contracts speak of them.
pub open spec fn keyed_pairs(s: Seq<(String, i16)>) -> Seq<(Seq<char>, i16)> {
    s.map_values(|p: (String, i16)| (p.0@, p.1))
}

/// The keys and RSSI values carried by a measurement list.
pub open spec fn keyed_measurements(s: Seq<SignalMeasurement>) -> Seq<(Seq<char>, i16)> {
    s.map_values(|m: SignalMeasurement| (m.beacon_id@, m.rssi))
}

/// The map after inserting every pair of `s`, in order, into `m`.
pub open spec fn insert_all(m: Map<Seq<char>, i16>, s: Seq<(Seq<char>, i16)>) -> Map<
    Seq<char>,
    i16,
>
    decreases s.len(),
{
    if s.len() == 0 {
        m
    } else {
        insert_all(m.insert(s[0].0, s[0].1), s.drop_first())
    }
}

proof fn lemma_entry_table_contains(s: Seq<(String, i16)>, k: Seq<char>)
    ensures
        entry_table(s).contains_key(k) <==> exists|i: int| 0 <= i < s.len() && s[i].0@ == k,
    decreases s.len(),
{
    if s.len() > 0 {
        lemma_entry_table_contains(s.drop_last(), k);
        if s.last().0@ == k {
            assert(s[s.len() - 1].0@ == k);
        } else {
            if exists|i: int| 0 <= i < s.len() && s[i].0@ == k {
                let i = choose|i: int| 0 <= i < s.len() && s[i].0@ == k;
                assert(s.drop_last()[i].0@ == k);
            }
        }
    }
}

proof fn lemma_entry_table_value(s: Seq<(String, i16)>, i: int)
    requires
        distinct_ids(s),
        0 <= i < s.len(),
    ensures
        entry_table(s).contains_key(s[i].0@),
        entry_table(s)[s[i].0@] == s[i].1,
    decreases s.len(),
{
    if i < s.len() - 1 {
        assert(distinct_ids(s.drop_last()));
        assert(s.drop_last()[i] == s[i]);
        lemma_entry_table_value(s.drop_last(), i);
        assert(s.last().0@ != s[i].0@);
    }
}

proof fn lemma_entry_table_card(s: Seq<(String, i16)>)
    requires
        distinct_ids(s),
    ensures
        entry_table(s).dom().finite(),
        entry_table(s).dom().len() == s.len(),
    decreases s.len(),
{
    if s.len() == 0 {
        assert(entry_table(s).dom() =~= Set::<Seq<char>>::empty());
    } else {
        assert(distinct_ids(s.drop_last()));
        lemma_entry_table_card(s.drop_last());
        lemma_entry_table_contains(s.drop_last(), s.last().0@);
        assert forall|i: int| 0 <= i < s.drop_last().len() implies s.drop_last()[i].0@
            != s.last().0@ by {
            assert(s[i] == s.drop_last()[i]);
        }
        assert(!entry_table(s.drop_last()).contains_key(s.last().0@));
        assert(entry_table(s).dom() =~= entry_table(s.drop_last()).dom().insert(s.last().0@));
    }
}

proof fn lemma_entry_table_update(s: Seq<(String, i16)>, i: int, p: (String, i16))
    requires
        distinct_ids(s),
        0 <= i < s.len(),
        p.0@ == s[i].0@,
    ensures
        entry_table(s.update(i, p)) == entry_table(s).insert(p.0@, p.1),
    decreases s.len(),
{
    let t = s.update(i, p);
    if i == s.len() - 1 {
        assert(t.drop_last() =~= s.drop_last());
        assert(t.last() == p);
        assert(entry_table(s.drop_last()).insert(s.last().0@, s.last().1).insert(p.0@, p.1)
            =~= entry_table(s.drop_last()).insert(p.0@, p.1));
    } else {
        assert(distinct_ids(s.drop_last()));
        assert(s.drop_last()[i] == s[i]);
        lemma_entry_table_update(s.drop_last(), i, p);
        assert(t.drop_last() =~= s.drop_last().update(i, p));
        assert(t.last() == s.last());
        assert(s.last().0@ != s[i].0@);
        assert(entry_table(s.drop_last()).insert(p.0@, p.1).insert(s.last().0@, s.last().1)
            =~= entry_table(s.drop_last()).insert(s.last().0@, s.last().1).insert(p.0@, p.1));
    }
}

/// The latest RSSI value per beacon id.
#[derive(Debug)]
pub struct SignalReadings {
    entries: Vec<(String, i16)>,
}

impl Clone for SignalReadings {
    /// A copy holding the same readings.
    fn clone(&self) -> (result: Self)
        ensures
            result@ == self@,
    {
        proof {
            use_type_invariant(&*self);
        }
        let mut entries: Vec<(String, i16)> = Vec::new();
        let mut i: usize = 0;
        while i < self.entries.len()
            invariant
                i <= self.entries@.len(),
                entries@.len() == i,
                forall|j: int| 0 <= j < i ==> entries@[j] == self.entries@[j],
            decreases self.entries@.len() - i,
        {
            entries.push((self.entries[i].0.clone(), self.entries[i].1));
            i += 1;
        }
        proof {
            assert(entries@ =~= self.entries@);
        }
        SignalReadings { entries }
    }
}

impl View for SignalReadings {
    type V = Map<Seq<char>, i16>;

    closed spec fn view(&self) -> Map<Seq<char>, i16> {
        entry_table(self.entries@)
    }
}

impl SignalReadings {
    #[verifier::type_invariant]
    spec fn wf(&self) -> bool {
        distinct_ids(self.entries@)
    }

    /// An empty collection of readings.
    pub fn new() -> (result: Self)
        ensures
            result@ == Map::<Seq<char>, i16>::empty(),
    {
        SignalReadings { entries: Vec::new() }
    }

    /// The readings left by a list of measurements, each applied in order.
    pub fn from_measurements(measurements: Vec<SignalMeasurement>) -> (result: Self)
        ensures
            result@ == insert_all(
                Map::<Seq<char>, i16>::empty(),
                keyed_measurements(measurements@),
            ),
    {
        let ghost keyed = keyed_measurements(measurements@);
        let mut readings = SignalReadings::new();
        proof {
            assert(keyed.skip(0) =~= keyed);
        }
        let mut i: usize = 0;
        while i < measurements.len()
            invariant
                i <= measurements@.len(),
                keyed == keyed_measurements(measurements@),
                insert_all(Map::<Seq<char>, i16>::empty(), keyed) == insert_all(
                    readings@,
                    keyed.skip(i as int),
                ),
            decreases measurements@.len() - i,
        {
            proof {
                assert(keyed.skip(i as int)[0] == keyed[i as int]);
                assert(keyed.skip(i as int).drop_first() =~= keyed.skip(i as int + 1));
            }
            readings.add(measurements[i].beacon_id.clone(), measurements[i].rssi);
            i += 1;
        }
        proof {
            assert(keyed.skip(measurements@.len() as int) =~= Seq::<(Seq<char>, i16)>::empty());
        }
        readings
    }

    /// The readings left by a list of `(beacon id, RSSI)` pairs.
    pub fn from_pairs(pairs: Vec<(&str, i16)>) -> (result: Self)
        ensures
            result@ == insert_all(
                Map::<Seq<char>, i16>::empty(),
                pairs@.map_values(|p: (&str, i16)| (p.0@, p.1)),
            ),
    {
        let ghost keyed = pairs@.map_values(|p: (&str, i16)| (p.0@, p.1));
        let mut readings = SignalReadings::new();
        proof {
            assert(keyed.skip(0) =~= keyed);
        }
        let mut i: usize = 0;
        while i < pairs.len()
            invariant
                i <= pairs@.len(),
                keyed == pairs@.map_values(|p: (&str, i16)| (p.0@, p.1)),
                insert_all(Map::<Seq<char>, i16>::empty(), keyed) == insert_all(
                    readings@,
                    keyed.skip(i as int),
                ),
            decreases pairs@.len() - i,
        {
            proof {
                assert(keyed.skip(i as int)[0] == keyed[i as int]);
                assert(keyed.skip(i as int).drop_first() =~= keyed.skip(i as int + 1));
            }
            let id: &str = pairs[i].0;
            readings.add(id.to_string(), pairs[i].1);
            i += 1;
        }
        proof {
            assert(keyed.skip(pairs@.len() as int) =~= Seq::<(Seq<char>, i16)>::empty());
        }
        readings
    }

    /// The readings holding exactly the entries of a hash map.
    pub fn from_hashmap(m: HashMap<String, i16>) -> (result: Self)
        ensures
            result@ == m.deep_view(),
    {
        let ghost dv = m.deep_view();
        let entries = hash_map_entries(m);
        proof {
            assert forall|k: Seq<char>| entry_table(entries@).contains_key(k) <==> dv.contains_key(
                k,
            ) by {
                lemma_entry_table_contains(entries@, k);
            }
            assert forall|k: Seq<char>| entry_table(entries@).contains_key(k) implies entry_table(
                entries@,
            )[k] == dv[k] by {
                lemma_entry_table_contains(entries@, k);
                let i = choose|i: int| 0 <= i < entries@.len() && entries@[i].0@ == k;
                lemma_entry_table_value(entries@, i);
                assert(dv.contains_key(entries@[i].0@) && dv[entries@[i].0@] == entries@[i].1);
                assert(entry_table(entries@)[k] == entries@[i].1);
            }
            assert(entry_table(entries@) =~= dv);
        }
        SignalReadings { entries }
    }

    /// Records a reading, overwriting an earlier one for the same beacon.
    pub fn add(&mut self, beacon_id: String, rssi: i16)
        ensures
            final(self)@ == old(self)@.insert(beacon_id@, rssi),
    {
        proof {
            use_type_invariant(&*self);
        }
        let idx = self.find_index(&beacon_id);
        let ghost s = self.entries@;
        let ghost p = (beacon_id, rssi);
        let mut entries: Vec<(String, i16)> = Vec::new();
        std::mem::swap(&mut entries, &mut self.entries);
        match idx {
            Some(i) => {
                proof {
                    lemma_entry_table_update(s, i as int, p);
                    assert forall|a: int, b: int|
                        0 <= a < b < s.update(i as int, p).len() implies s.update(i as int, p)[a].0@
                        != s.update(i as int, p)[b].0@ by {
                        assert(s.update(i as int, p)[a].0@ == s[a].0@);
                        assert(s.update(i as int, p)[b].0@ == s[b].0@);
                    }
                }
                entries.set(i, (beacon_id, rssi));
            },
            None => {
                entries.push((beacon_id, rssi));
                proof {
                    assert(entries@.drop_last() =~= s);
                    assert(entries@.last() == p);
                    assert forall|a: int, b: int| 0 <= a < b < entries@.len() implies entries@[a].0@
                        != entries@[b].0@ by {
                        if b == entries@.len() - 1 {
                            assert(s[a].0@ != p.0@);
                        }
                    }
                }
            },
        }
        self.entries = entries;
    }

    /// Records every pair of the list, in order.
    pub fn add_multiple(&mut self, pairs: Vec<(String, i16)>)
        ensures
            final(self)@ == insert_all(old(self)@, keyed_pairs(pairs@)),
    {
        let ghost keyed = keyed_pairs(pairs@);
        let ghost m0 = self@;
        proof {
            assert(keyed.skip(0) =~= keyed);
        }
        let mut i: usize = 0;
        while i < pairs.len()
            invariant
                i <= pairs@.len(),
                keyed == keyed_pairs(pairs@),
                insert_all(m0, keyed) == insert_all(self@, keyed.skip(i as int)),
            decreases pairs@.len() - i,
        {
            proof {
                assert(keyed.skip(i as int)[0] == keyed[i as int]);
                assert(keyed.skip(i as int).drop_first() =~= keyed.skip(i as int + 1));
            }
            self.add(pairs[i].0.clone(), pairs[i].1);
            i += 1;
        }
        proof {
            assert(keyed.skip(pairs@.len() as int) =~= Seq::<(Seq<char>, i16)>::empty());
        }
    }

    /// The recorded RSSI value for a beacon, if any.
    pub fn get(&self, beacon_id: &str) -> (result: Option<i16>)
        ensures
            result == if self@.contains_key(beacon_id@) {
                Some(self@[beacon_id@])
            } else {
                None::<i16>
            },
    {
        proof {
            use_type_invariant(&*self);
        }
        let key = beacon_id.to_string();
        match self.find_index(&key) {
            Some(i) => {
                proof {
                    lemma_entry_table_value(self.entries@, i as int);
                }
                Some(self.entries[i].1)
            },
            None => {
                proof {
                    lemma_entry_table_contains(self.entries@, beacon_id@);
                }
                None
            },
        }
    }

    /// The entries, one per beacon, in unspecified order.
    pub fn all(&self) -> (result: &Vec<(String, i16)>)
        ensures
            result@.len() == self@.len(),
            forall|i: int|
                0 <= i < result@.len() ==> #[trigger] self@.contains_key(result@[i].0@)
                    && self@[result@[i].0@] == result@[i].1,
            forall|i: int, j: int| 0 <= i < j < result@.len() ==> result@[i].0@ != result@[j].0@,
    {
        proof {
            use_type_invariant(&*self);
            lemma_entry_table_card(self.entries@);
            assert forall|i: int| 0 <= i < self.entries@.len() implies #[trigger] self@.contains_key(
                self.entries@[i].0@,
            ) && self@[self.entries@[i].0@] == self.entries@[i].1 by {
                lemma_entry_table_value(self.entries@, i);
            }
        }
        &self.entries
    }

    /// How many beacons have a recorded reading.
    pub fn count(&self) -> (result: usize)
        ensures
            result == self@.len(),
    {
        proof {
            use_type_invariant(&*self);
            lemma_entry_table_card(self.entries@);
        }
        self.entries.len()
    }

    /// Whether a beacon has a recorded reading.
    pub fn contains(&self, beacon_id: &str) -> (result: bool)
        ensures
            result == self@.contains_key(beacon_id@),
    {
        proof {
            use_type_invariant(&*self);
            lemma_entry_table_contains(self.entries@, beacon_id@);
        }
        let key = beacon_id.to_string();
        self.find_index(&key).is_some()
    }

    /// Discards every reading.
    pub fn clear(&mut self)
        ensures
            final(self)@ == Map::<Seq<char>, i16>::empty(),
    {
        self.entries = Vec::new();
    }

    /// Index of the entry for `key`, if one exists.
    fn find_index(&self, key: &String) -> (result: Option<usize>)
        ensures
            match result {
                Some(i) => i < self.entries@.len() && self.entries@[i as int].0@ == key@,
                None => forall|i: int| 0 <= i < self.entries@.len() ==> self.entries@[i].0@ != key@,
            },
    {
        let mut j: usize = 0;
        while j < self.entries.len()
            invariant
                j <= self.entries@.len(),
                forall|i: int| 0 <= i < j ==> self.entries@[i].0@ != key@,
            decreases self.entries@.len() - j,
        {
            if self.entries[j].0 == *key {
                return Some(j);
            }
            j += 1;
        }
        None
    }
}

impl Default for SignalReadings {
    /// Same as [`SignalReadings::new`].
    fn default() -> (result: Self)
        ensures
            result@ == Map::<Seq<char>, i16>::empty(),
    {
        SignalReadings::new()
    }
}

/// Relies on `HashMap::into_iter`: it yields each entry of the map exactly
/// once, so the keys of the result are pairwise distinct and correspond
/// one-to-one with the keys of the map.
#[verifier::external_body]
fn hash_map_entries(m: HashMap<String, i16>) -> (result: Vec<(String, i16)>)
    ensures
        forall|i: int, j: int| 0 <= i < j < result@.len() ==> result@[i].0@ != result@[j].0@,
        forall|i: int|
            0 <= i < result@.len() ==> #[trigger] m.deep_view().contains_key(result@[i].0@)
                && m.deep_view()[result@[i].0@] == result@[i].1,
        forall|k: Seq<char>|
            #[trigger] m.deep_view().contains_key(k) ==> exists|i: int|
                0 <= i < result@.len() && result@[i].0@ == k,
{
    m.into_iter().collect()
}

} // verus!
