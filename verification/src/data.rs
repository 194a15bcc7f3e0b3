use vstd::prelude::*;

verus! {

/// One provider's partial observation of a single aircraft's state.
/// A field the provider did not report is `None`; merging fills it in
/// from an earlier observation of the same aircraft.
#[derive(Clone, Copy, PartialEq, Eq, Debug)]
pub struct AircraftData {
    pub altitude: Option<u32>,
    pub speed: Option<u32>,
}

/// The record obtained by laying `newer` over `older`: every field the
/// newer observation reports wins, the rest come from the older one.
pub open spec fn spec_combine(newer: AircraftData, older: AircraftData) -> AircraftData {
    AircraftData {
        altitude: if newer.altitude is Some {
            newer.altitude
        } else {
            older.altitude
        },
        speed: if newer.speed is Some {
            newer.speed
        } else {
            older.speed
        },
    }
}

impl AircraftData {
    /// A record with no reported fields.
    pub fn empty() -> (r: AircraftData)
        ensures
            r == (AircraftData { altitude: None, speed: None }),
    {
        AircraftData { altitude: None, speed: None }
    }

    /// Combines this record, the newer observation, with an older one.
    pub fn combine_with(self, older: AircraftData) -> (r: AircraftData)
        ensures
            r == spec_combine(self, older),
    {
        AircraftData {
            altitude: match self.altitude {
                Some(a) => Some(a),
                None => older.altitude,
            },
            speed: match self.speed {
                Some(s) => Some(s),
                None => older.speed,
            },
        }
    }
}

/// The failure a provider reports when it cannot produce a snapshot.
/// Its view is the message's character sequence.
#[derive(PartialEq, Eq, Debug)]
pub struct Error {
    message: String,
}

impl View for Error {
    type V = Seq<char>;

    closed spec fn view(&self) -> Seq<char> {
        self.message@
    }
}

impl Error {
    pub fn new(message: String) -> (r: Error)
        ensures
            r@ == message@,
    {
        Error { message }
    }

    pub fn message(&self) -> (r: &String)
        ensures
            r@ == self@,
    {
        &self.message
    }

    /// A value-equal copy of the error.
    pub fn duplicate(&self) -> (r: Error)
        ensures
            r@ == self@,
    {
        Error { message: self.message.clone() }
    }
}

/// The map an entry sequence denotes; a later entry for the same key
/// would override an earlier one, though a well-formed `AircraftMap`
/// never holds a key twice.
pub open spec fn map_of(entries: Seq<(String, AircraftData)>) -> Map<Seq<char>, AircraftData>
    decreases entries.len(),
{
    if entries.len() == 0 {
        Map::empty()
    } else {
        map_of(entries.drop_last()).insert(entries.last().0@, entries.last().1)
    }
}

/// No aircraft identifier occurs twice among the entries.
pub open spec fn distinct_keys(entries: Seq<(String, AircraftData)>) -> bool {
    forall|i: int, j: int|
        #![trigger entries[i], entries[j]]
        0 <= i < j < entries.len() ==> entries[i].0@ != entries[j].0@
}

pub proof fn lemma_map_of_contains(entries: Seq<(String, AircraftData)>, key: Seq<char>)
    ensures
        map_of(entries).contains_key(key) <==> exists|i: int|
            0 <= i < entries.len() && (#[trigger] entries[i]).0@ == key,
    decreases entries.len(),
{
    if entries.len() > 0 {
        lemma_map_of_contains(entries.drop_last(), key);
        let prefix = entries.drop_last();
        if entries.last().0@ == key {
            assert(entries[entries.len() - 1].0@ == key);
        } else {
            if map_of(entries).contains_key(key) {
                let i = choose|i: int| 0 <= i < prefix.len() && (#[trigger] prefix[i]).0@ == key;
                assert(entries[i].0@ == key);
            }
            if exists|i: int| 0 <= i < entries.len() && (#[trigger] entries[i]).0@ == key {
                let i = choose|i: int| 0 <= i < entries.len() && (#[trigger] entries[i]).0@ == key;
                assert(i < entries.len() - 1);
                assert(prefix[i].0@ == key);
            }
        }
    }
}

pub proof fn lemma_map_of_index(entries: Seq<(String, AircraftData)>, i: int)
    requires
        distinct_keys(entries),
        0 <= i < entries.len(),
    ensures
        map_of(entries).contains_key(entries[i].0@),
        map_of(entries)[entries[i].0@] == entries[i].1,
    decreases entries.len(),
{
    if i == entries.len() - 1 {
    } else {
        lemma_map_of_index(entries.drop_last(), i);
        assert(entries.drop_last()[i] == entries[i]);
        assert(entries[i].0@ != entries.last().0@);
    }
}

pub proof fn lemma_distinct_remove(entries: Seq<(String, AircraftData)>, i: int)
    requires
        distinct_keys(entries),
        0 <= i < entries.len(),
    ensures
        distinct_keys(entries.remove(i)),
{
    let shorter = entries.remove(i);
    assert forall|p: int, q: int|
        #![trigger shorter[p], shorter[q]]
        0 <= p < q < shorter.len() implies shorter[p].0@ != shorter[q].0@ by {
        let p0 = if p < i {
            p
        } else {
            p + 1
        };
        let q0 = if q < i {
            q
        } else {
            q + 1
        };
        assert(shorter[p] == entries[p0]);
        assert(shorter[q] == entries[q0]);
    }
}

pub proof fn lemma_map_of_remove(entries: Seq<(String, AircraftData)>, i: int)
    requires
        distinct_keys(entries),
        0 <= i < entries.len(),
    ensures
        map_of(entries.remove(i)) =~= map_of(entries).remove(entries[i].0@),
    decreases entries.len(),
{
    let key = entries[i].0@;
    if i == entries.len() - 1 {
        assert(entries.remove(i) =~= entries.drop_last());
        lemma_map_of_contains(entries.drop_last(), key);
        assert(forall|j: int|
            0 <= j < entries.drop_last().len() ==> (#[trigger] entries.drop_last()[j]).0@ != key);
        assert(!map_of(entries.drop_last()).contains_key(key));
        assert(map_of(entries.drop_last()).insert(key, entries[i].1).remove(key) =~= map_of(
            entries.drop_last(),
        ));
    } else {
        let prefix = entries.drop_last();
        lemma_map_of_remove(prefix, i);
        assert(entries.remove(i).drop_last() =~= prefix.remove(i));
        assert(entries.remove(i).last() == entries.last());
        assert(map_of(entries.remove(i)) == map_of(prefix.remove(i)).insert(
            entries.last().0@,
            entries.last().1,
        ));
        assert(entries.last().0@ != key);
        assert(map_of(prefix).remove(key).insert(entries.last().0@, entries.last().1) =~= map_of(
            prefix,
        ).insert(entries.last().0@, entries.last().1).remove(key));
    }
}

pub proof fn lemma_map_of_dom_len(entries: Seq<(String, AircraftData)>)
    requires
        distinct_keys(entries),
    ensures
        map_of(entries).dom().finite(),
        map_of(entries).dom().len() == entries.len(),
    decreases entries.len(),
{
    if entries.len() > 0 {
        let prefix = entries.drop_last();
        lemma_map_of_dom_len(prefix);
        lemma_map_of_contains(prefix, entries.last().0@);
        assert(forall|j: int| 0 <= j < prefix.len() ==> (#[trigger] prefix[j]).0@
            != entries.last().0@);
        assert(!map_of(prefix).contains_key(entries.last().0@));
    }
}

/// A snapshot of aircraft keyed by their identifier: the map one
/// aggregation pass builds and hands to the caller. Its view is a
/// mathematical map from identifier characters to records.
#[derive(Debug)]
pub struct AircraftMap {
    entries: Vec<(String, AircraftData)>,
}

impl View for AircraftMap {
    type V = Map<Seq<char>, AircraftData>;

    closed spec fn view(&self) -> Map<Seq<char>, AircraftData> {
        map_of(self.entries@)
    }
}

impl AircraftMap {
    #[verifier::type_invariant]
    spec fn inv(self) -> bool {
        distinct_keys(self.entries@)
    }

    /// An empty snapshot.
    pub fn new() -> (r: AircraftMap)
        ensures
            r@ == Map::<Seq<char>, AircraftData>::empty(),
    {
        AircraftMap { entries: Vec::new() }
    }

    /// How many aircraft the snapshot holds.
    pub fn len(&self) -> (n: usize)
        ensures
            n == self@.dom().len(),
    {
        proof {
            use_type_invariant(&*self);
            lemma_map_of_dom_len(self.entries@);
        }
        self.entries.len()
    }

    fn index_of(&self, id: &String) -> (r: Option<usize>)
        ensures
            match r {
                Some(i) => i < self.entries@.len() && self.entries@[i as int].0@ == id@,
                None => forall|j: int|
                    0 <= j < self.entries@.len() ==> (#[trigger] self.entries@[j]).0@ != id@,
            },
    {
        let n = self.entries.len();
        for i in 0..n
            invariant
                n == self.entries@.len(),
                forall|j: int| 0 <= j < i ==> (#[trigger] self.entries@[j]).0@ != id@,
        {
            if self.entries[i].0 == *id {
                return Some(i);
            }
        }
        None
    }

    /// The record for the given aircraft, if the snapshot holds one.
    pub fn get(&self, id: &String) -> (r: Option<AircraftData>)
        ensures
            match r {
                Some(d) => self@.contains_key(id@) && d == self@[id@],
                None => !self@.contains_key(id@),
            },
    {
        proof {
            use_type_invariant(&*self);
            lemma_map_of_contains(self.entries@, id@);
        }
        match self.index_of(id) {
            Some(i) => {
                proof {
                    lemma_map_of_index(self.entries@, i as int);
                }
                Some(self.entries[i].1)
            },
            None => None,
        }
    }

    /// Removes and returns the record for the given aircraft, if any.
    pub fn remove(&mut self, id: &String) -> (r: Option<AircraftData>)
        ensures
            final(self)@ == old(self)@.remove(id@),
            match r {
                Some(d) => old(self)@.contains_key(id@) && d == old(self)@[id@],
                None => !old(self)@.contains_key(id@),
            },
    {
        proof {
            use_type_invariant(&*self);
            lemma_map_of_contains(self.entries@, id@);
        }
        match self.index_of(id) {
            Some(i) => {
                let mut entries: Vec<(String, AircraftData)> = Vec::new();
                std::mem::swap(&mut entries, &mut self.entries);
                proof {
                    lemma_map_of_index(entries@, i as int);
                    lemma_map_of_remove(entries@, i as int);
                    lemma_distinct_remove(entries@, i as int);
                }
                let pair = entries.remove(i);
                std::mem::swap(&mut entries, &mut self.entries);
                Some(pair.1)
            },
            None => {
                proof {
                    assert(old(self)@.remove(id@) =~= old(self)@);
                }
                None
            },
        }
    }

    /// Inserts the record under the given identifier, replacing any
    /// record the snapshot already held for it.
    pub fn insert(&mut self, id: String, data: AircraftData)
        ensures
            final(self)@ == old(self)@.insert(id@, data),
    {
        let _ = self.remove(&id);
        proof {
            use_type_invariant(&*self);
            lemma_map_of_contains(self.entries@, id@);
            assert(forall|j: int|
                0 <= j < self.entries@.len() ==> (#[trigger] self.entries@[j]).0@ != id@);
        }
        let ghost cleared = self.entries@;
        let mut entries: Vec<(String, AircraftData)> = Vec::new();
        std::mem::swap(&mut entries, &mut self.entries);
        entries.push((id, data));
        proof {
            assert(entries@.drop_last() =~= cleared);
            assert(distinct_keys(entries@));
            assert(old(self)@.remove(entries@.last().0@).insert(entries@.last().0@, data)
                =~= old(self)@.insert(entries@.last().0@, data));
        }
        std::mem::swap(&mut entries, &mut self.entries);
    }

    /// A value-equal copy of the snapshot.
    pub fn duplicate(&self) -> (r: AircraftMap)
        ensures
            r@ == self@,
    {
        proof {
            use_type_invariant(&*self);
        }
        let n = self.entries.len();
        let mut copied: Vec<(String, AircraftData)> = Vec::new();
        for i in 0..n
            invariant
                n == self.entries@.len(),
                copied@ =~= self.entries@.take(i as int),
                distinct_keys(self.entries@),
        {
            let pair = &self.entries[i];
            copied.push((pair.0.clone(), pair.1));
            proof {
                assert(copied@ =~= self.entries@.take(i + 1));
            }
        }
        proof {
            assert(copied@ =~= self.entries@);
        }
        AircraftMap { entries: copied }
    }

    /// Folds one provider's snapshot into the running map: a record for
    /// a key already present is replaced by the incoming record combined
    /// over the existing one; a new key is inserted as-is.
    pub fn merge_from(&mut self, snapshot: AircraftMap)
        ensures
            final(self)@ == merge_map(old(self)@, snapshot@),
    {
        proof {
            use_type_invariant(&snapshot);
        }
        let ghost all = snapshot.entries@;
        let AircraftMap { entries: mut incoming } = snapshot;
        let ghost mut processed: int = 0;
        while incoming.len() > 0
            invariant
                0 <= processed <= all.len(),
                incoming@ =~= all.skip(processed),
                distinct_keys(all),
                self@ == merge_map(old(self)@, map_of(all.take(processed))),
            decreases incoming.len(),
        {
            let pair = incoming.remove(0);
            proof {
                assert(pair == all[processed]);
                assert(incoming@ =~= all.skip(processed + 1));
                lemma_map_of_contains(all.take(processed), pair.0@);
                assert(forall|j: int|
                    0 <= j < processed ==> (#[trigger] all.take(processed)[j]) == all[j]);
                assert(!map_of(all.take(processed)).contains_key(pair.0@));
            }
            let ghost before = self@;
            match self.remove(&pair.0) {
                Some(existing) => {
                    self.insert(pair.0, pair.1.combine_with(existing));
                },
                None => {
                    self.insert(pair.0, pair.1);
                },
            }
            proof {
                let stepped = all.take(processed + 1);
                assert(stepped.drop_last() =~= all.take(processed));
                assert(stepped.last() == all[processed]);
                assert(map_of(stepped) == map_of(all.take(processed)).insert(all[processed].0@,
                    all[processed].1));
                lemma_merge_map_insert(old(self)@, map_of(all.take(processed)), all[processed].0@,
                    all[processed].1);
                assert(self@ =~= merge_map(old(self)@, map_of(stepped)));
                processed = processed + 1;
            }
        }
        proof {
            assert(all.take(processed) =~= all);
        }
    }
}

/// The map obtained by laying the `newer` snapshot over the `older`
/// running map: keys of both are kept; where they meet, the newer
/// record is combined over the older one.
pub open spec fn merge_map(
    older: Map<Seq<char>, AircraftData>,
    newer: Map<Seq<char>, AircraftData>,
) -> Map<Seq<char>, AircraftData> {
    Map::new(
        |k: Seq<char>| older.contains_key(k) || newer.contains_key(k),
        |k: Seq<char>|
            if newer.contains_key(k) {
                if older.contains_key(k) {
                    spec_combine(newer[k], older[k])
                } else {
                    newer[k]
                }
            } else {
                older[k]
            },
    )
}

pub proof fn lemma_merge_map_insert(
    older: Map<Seq<char>, AircraftData>,
    newer: Map<Seq<char>, AircraftData>,
    key: Seq<char>,
    data: AircraftData,
)
    requires
        !newer.contains_key(key),
    ensures
        merge_map(older, newer.insert(key, data)) =~= merge_map(older, newer).insert(
            key,
            if older.contains_key(key) {
                spec_combine(data, older[key])
            } else {
                data
            },
        ),
{
}

/// All snapshots merged left to right, starting from an empty map.
pub open spec fn merge_all(snapshots: Seq<Map<Seq<char>, AircraftData>>) -> Map<
    Seq<char>,
    AircraftData,
>
    decreases snapshots.len(),
{
    if snapshots.len() == 0 {
        Map::empty()
    } else {
        merge_map(merge_all(snapshots.drop_last()), snapshots.last())
    }
}

/// The keys of all snapshots together.
pub open spec fn union_keys(snapshots: Seq<Map<Seq<char>, AircraftData>>) -> Set<Seq<char>>
    decreases snapshots.len(),
{
    if snapshots.len() == 0 {
        Set::empty()
    } else {
        union_keys(snapshots.drop_last()).union(snapshots.last().dom())
    }
}

/// One aircraft's records folded across the snapshots in order: each
/// later record is combined over the accumulated earlier ones; `None`
/// when no snapshot mentions the aircraft.
pub open spec fn folded_record(
    snapshots: Seq<Map<Seq<char>, AircraftData>>,
    id: Seq<char>,
) -> Option<AircraftData>
    decreases snapshots.len(),
{
    if snapshots.len() == 0 {
        None
    } else {
        let earlier = folded_record(snapshots.drop_last(), id);
        if snapshots.last().contains_key(id) {
            match earlier {
                Some(acc) => Some(spec_combine(snapshots.last()[id], acc)),
                None => Some(snapshots.last()[id]),
            }
        } else {
            earlier
        }
    }
}

/// Merging snapshots with no failures keeps exactly the union of their
/// key sets: no aircraft is lost and none appears from nowhere.
pub proof fn lemma_merge_all_keys(snapshots: Seq<Map<Seq<char>, AircraftData>>)
    ensures
        merge_all(snapshots).dom() =~= union_keys(snapshots),
    decreases snapshots.len(),
{
    if snapshots.len() > 0 {
        lemma_merge_all_keys(snapshots.drop_last());
    }
}

/// For any aircraft the merged map holds, its merged record is the
/// left-fold combination of that aircraft's per-snapshot records in
/// snapshot order, the newer combined over the accumulated older; and
/// the merged map holds an aircraft exactly when some snapshot does.
pub proof fn lemma_merge_all_is_fold(snapshots: Seq<Map<Seq<char>, AircraftData>>, id: Seq<char>)
    ensures
        merge_all(snapshots).contains_key(id) <==> folded_record(snapshots, id) is Some,
        merge_all(snapshots).contains_key(id) ==> Some(merge_all(snapshots)[id]) == folded_record(
            snapshots,
            id,
        ),
    decreases snapshots.len(),
{
    if snapshots.len() > 0 {
        lemma_merge_all_is_fold(snapshots.drop_last(), id);
    }
}

} // verus!
