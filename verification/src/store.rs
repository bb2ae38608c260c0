//! The metadata store: records in insertion order, found by content key,
//! with an index from each creator to the places of its records.
use vstd::prelude::*;
use crate::identity::Identity;
use crate::record::{ErrorKind, FileMetadata, RecordView};

verus! {

/// Some record of `records` is filed under `key`.
pub open spec fn has_key(records: Seq<RecordView>, key: Seq<char>) -> bool {
    exists|i: int| 0 <= i < records.len() && (#[trigger] records[i]).id == key
}

/// A place at which `records` holds `key`, where it holds it at all.
pub open spec fn position_of(records: Seq<RecordView>, key: Seq<char>) -> int {
    choose|i: int| 0 <= i < records.len() && (#[trigger] records[i]).id == key
}

/// The record filed under `key`, if there is one.
pub open spec fn lookup(records: Seq<RecordView>, key: Seq<char>) -> Option<RecordView> {
    if has_key(records, key) {
        Some(records[position_of(records, key)])
    } else {
        None
    }
}

/// No two records share a content key.
pub open spec fn unique_keys(records: Seq<RecordView>) -> bool {
    forall|i: int, j: int|
        0 <= i < j < records.len() ==> (#[trigger] records[i]).id != (#[trigger] records[j]).id
}

/// No record has an empty content key.
pub open spec fn keys_present(records: Seq<RecordView>) -> bool {
    forall|i: int| 0 <= i < records.len() ==> (#[trigger] records[i]).id.len() > 0
}

/// Time stamps never decrease along the insertion order.
pub open spec fn stamps_ordered(records: Seq<RecordView>) -> bool {
    forall|i: int, j: int|
        0 <= i <= j < records.len() ==> (#[trigger] records[i]).timestamp <= (
        #[trigger] records[j]).timestamp
}

/// What holds of the records of every store.
pub open spec fn consistent(records: Seq<RecordView>) -> bool {
    &&& unique_keys(records)
    &&& keys_present(records)
    &&& stamps_ordered(records)
}

/// The records that `who` created, in insertion order.
pub open spec fn owned_by(records: Seq<RecordView>, who: Seq<u8>) -> Seq<RecordView> {
    records.filter(|r: RecordView| r.creator == who)
}

/// The stamp that the next record gets when the clock reads `now`: the
/// clock's reading, but never less than the newest stamp in the store.
pub open spec fn next_stamp(records: Seq<RecordView>, now: u64) -> u64 {
    if records.len() > 0 && records.last().timestamp > now {
        records.last().timestamp
    } else {
        now
    }
}

/// The record as the store keeps it: attributed to the acting identity and
/// stamped by the store, whatever the submitted record said of either.
pub open spec fn accepted(record: RecordView, caller: Seq<u8>, stamp: u64) -> RecordView {
    RecordView { creator: caller, timestamp: stamp, ..record }
}

/// The records after an insertion: unchanged where the key is taken, else
/// with the accepted record at the end.
pub open spec fn after_insert(
    records: Seq<RecordView>,
    record: RecordView,
    caller: Seq<u8>,
    now: u64,
) -> Seq<RecordView> {
    if has_key(records, record.id) {
        records
    } else {
        records.push(accepted(record, caller, next_stamp(records, now)))
    }
}

/// A version chain, newest record first, and whether the walk along it was
/// cut short.
pub ghost struct LineageView {
    pub records: Seq<RecordView>,
    pub broken: bool,
}

/// The walk from `key` back along the links to earlier versions, given the
/// keys that the walk has passed already. It ends well at a record without
/// a link. It is cut short at a key that was passed before, at a key that
/// the store does not hold, and once every record has been passed.
pub open spec fn walk(records: Seq<RecordView>, key: Seq<char>, passed: Seq<Seq<char>>) -> LineageView
    decreases records.len() - passed.len(),
{
    if passed.contains(key) || passed.len() >= records.len() || !has_key(records, key) {
        LineageView { records: Seq::empty(), broken: true }
    } else {
        let r = records[position_of(records, key)];
        match r.previous_hash {
            None => LineageView { records: seq![r], broken: false },
            Some(earlier) => {
                let rest = walk(records, earlier, passed.push(key));
                LineageView { records: seq![r] + rest.records, broken: rest.broken }
            },
        }
    }
}

/// The version chain that starts at `key`.
pub open spec fn lineage(records: Seq<RecordView>, key: Seq<char>) -> LineageView {
    walk(records, key, Seq::empty())
}

/// The content keys of a sequence of records.
pub open spec fn keys_of(records: Seq<RecordView>) -> Seq<Seq<char>> {
    records.map_values(|r: RecordView| r.id)
}

/// The values of a sequence of records.
pub open spec fn views_of(records: Seq<FileMetadata>) -> Seq<RecordView> {
    records.map_values(|r: FileMetadata| r@)
}

/// The places, in increasing order, at which `records` holds a record that
/// `who` created.
pub open spec fn positions_of(records: Seq<RecordView>, who: Seq<u8>) -> Seq<int>
    decreases records.len(),
{
    if records.len() == 0 {
        Seq::empty()
    } else {
        let earlier = positions_of(records.drop_last(), who);
        if records.last().creator == who {
            earlier.push(records.len() - 1)
        } else {
            earlier
        }
    }
}

/// The records found at the given places.
pub open spec fn picked(records: Seq<RecordView>, places: Seq<int>) -> Seq<RecordView> {
    Seq::new(places.len(), |k: int| records[places[k]])
}

/// Every place that `positions_of` lists lies inside `records`.
pub proof fn lemma_positions_in_range(records: Seq<RecordView>, who: Seq<u8>)
    ensures
        forall|k: int|
            0 <= k < positions_of(records, who).len() ==> 0 <= #[trigger] positions_of(
                records,
                who,
            )[k] < records.len(),
    decreases records.len(),
{
    if records.len() > 0 {
        lemma_positions_in_range(records.drop_last(), who);
        let all = positions_of(records, who);
        let earlier = positions_of(records.drop_last(), who);
        assert forall|k: int| 0 <= k < all.len() implies 0 <= #[trigger] all[k] < records.len() by {
            if k < earlier.len() {
                assert(all[k] == earlier[k]);
            }
        }
    }
}

/// Picking the records at the places of `who` gives the records that `who`
/// created.
pub proof fn lemma_picked_is_owned(records: Seq<RecordView>, who: Seq<u8>)
    ensures
        picked(records, positions_of(records, who)) == owned_by(records, who),
    decreases records.len(),
{
    reveal(Seq::filter);
    if records.len() > 0 {
        let front = records.drop_last();
        lemma_picked_is_owned(front, who);
        lemma_positions_in_range(front, who);
        assert(picked(front, positions_of(front, who)) =~= picked(
            records,
            positions_of(front, who),
        ));
        assert(picked(records, positions_of(records, who)) =~= owned_by(records, who));
    } else {
        assert(picked(records, positions_of(records, who)) =~= owned_by(records, who));
    }
}

/// Where `who` created none of the records, it has no places.
pub proof fn lemma_stranger_has_no_places(records: Seq<RecordView>, who: Seq<u8>)
    requires
        forall|i: int| 0 <= i < records.len() ==> (#[trigger] records[i]).creator != who,
    ensures
        positions_of(records, who) == Seq::<int>::empty(),
    decreases records.len(),
{
    if records.len() > 0 {
        lemma_stranger_has_no_places(records.drop_last(), who);
    }
}

/// A version chain as the store hands it out: the records that could be
/// reached, newest first, and `BrokenChain` where the walk was cut short.
#[derive(Debug, Clone, PartialEq, Eq)]
pub struct Lineage {
    pub records: Vec<FileMetadata>,
    pub error: Option<ErrorKind>,
}

impl View for Lineage {
    type V = LineageView;

    open spec fn view(&self) -> LineageView {
        LineageView { records: views_of(self.records@), broken: self.error.is_some() }
    }
}

/// The places of the records of one creator.
struct Shelf {
    owner: Identity,
    places: Vec<usize>,
}

/// The values of a sequence of places.
spec fn places_of(places: Seq<usize>) -> Seq<int> {
    places.map_values(|p: usize| p as int)
}

/// Some shelf of `index` belongs to `who`.
spec fn shelved(index: Seq<Shelf>, who: Seq<u8>) -> bool {
    exists|k: int| 0 <= k < index.len() && (#[trigger] index[k]).owner@ == who
}

/// The store of file records.
pub struct MetadataStore {
    records: Vec<FileMetadata>,
    index: Vec<Shelf>,
}

impl View for MetadataStore {
    type V = Seq<RecordView>;

    /// The records, oldest first.
    closed spec fn view(&self) -> Seq<RecordView> {
        views_of(self.records@)
    }
}

impl MetadataStore {
    /// The store is valid: its records are consistent, and the index holds
    /// for each creator exactly the places of its records.
    pub closed spec fn wf(&self) -> bool {
        &&& consistent(self@)
        &&& forall|k: int, l: int|
            0 <= k < l < self.index@.len() ==> (#[trigger] self.index@[k]).owner@ != (
            #[trigger] self.index@[l]).owner@
        &&& forall|k: int|
            0 <= k < self.index@.len() ==> places_of((#[trigger] self.index@[k]).places@)
                == positions_of(self@, self.index@[k].owner@)
        &&& forall|i: int|
            0 <= i < self@.len() ==> shelved(self.index@, (#[trigger] self@[i]).creator)
    }

    /// A valid store holds consistent records.
    pub proof fn lemma_consistent(&self)
        requires
            self.wf(),
        ensures
            consistent(self@),
    {
    }

    /// An empty store.
    pub fn new() -> (store: MetadataStore)
        ensures
            store.wf(),
            store@ == Seq::<RecordView>::empty(),
    {
        let store = MetadataStore { records: Vec::new(), index: Vec::new() };
        assert(store@ =~= Seq::<RecordView>::empty());
        store
    }

    /// The number of records.
    pub fn len(&self) -> (n: usize)
        ensures
            n == self@.len(),
    {
        self.records.len()
    }

    /// The place of the record filed under `key`.
    fn find(&self, key: &String) -> (at: Option<usize>)
        ensures
            match at {
                Some(i) => i < self@.len() && self@[i as int].id == key@,
                None => !has_key(self@, key@),
            },
    {
        let mut i: usize = 0;
        while i < self.records.len()
            invariant
                i <= self.records.len(),
                forall|j: int| 0 <= j < i ==> (#[trigger] self@[j]).id != key@,
            decreases self.records.len() - i,
        {
            if self.records[i].id == *key {
                return Some(i);
            }
            i += 1;
        }
        None
    }

    /// The shelf of `who`.
    fn find_shelf(&self, who: &Identity) -> (at: Option<usize>)
        ensures
            match at {
                Some(k) => k < self.index@.len() && self.index@[k as int].owner@ == who@,
                None => !shelved(self.index@, who@),
            },
    {
        let mut k: usize = 0;
        while k < self.index.len()
            invariant
                k <= self.index.len(),
                forall|l: int| 0 <= l < k ==> (#[trigger] self.index@[l]).owner@ != who@,
            decreases self.index.len() - k,
        {
            if self.index[k].owner.same(who) {
                return Some(k);
            }
            k += 1;
        }
        None
    }

    /// A copy of the record filed under `key`, if there is one.
    pub fn get_by_key(&self, key: &String) -> (found: Option<FileMetadata>)
        requires
            self.wf(),
        ensures
            match found {
                Some(r) => lookup(self@, key@) == Some(r@),
                None => lookup(self@, key@).is_none(),
            },
    {
        match self.find(key) {
            Some(i) => {
                assert(self@[i as int].id == key@);
                assert(position_of(self@, key@) == i);
                Some(self.records[i].duplicate())
            },
            None => None,
        }
    }

    /// Files `record` under its content key, attributed to `caller` and
    /// stamped from the clock reading `now`. A key that is taken is refused
    /// and the store stays as it was.
    pub fn insert(&mut self, record: FileMetadata, caller: Identity, now: u64) -> (outcome: Result<
        String,
        ErrorKind,
    >)
        requires
            old(self).wf(),
            record@.id.len() > 0,
        ensures
            final(self).wf(),
            final(self)@ == after_insert(old(self)@, record@, caller@, now),
            match outcome {
                Ok(key) => !has_key(old(self)@, record@.id) && key@ == record@.id,
                Err(e) => has_key(old(self)@, record@.id) && e == ErrorKind::DuplicateKey,
            },
    {
        if self.find(&record.id).is_some() {
            return Err(ErrorKind::DuplicateKey);
        }
        let n: usize = self.records.len();
        let stamp: u64 = if n > 0 && self.records[n - 1].timestamp > now {
            self.records[n - 1].timestamp
        } else {
            now
        };
        let key = record.id.clone();
        self.append(
            FileMetadata {
                id: record.id,
                filename: record.filename,
                model: record.model,
                dataset: record.dataset,
                prompt: record.prompt,
                previous_hash: record.previous_hash,
                creator: caller,
                timestamp: stamp,
            },
        );
        Ok(key)
    }

    /// Puts `entry`, as it stands, behind the records and on the shelf of
    /// its creator.
    fn append(&mut self, entry: FileMetadata)
        requires
            old(self).wf(),
            entry@.id.len() > 0,
            !has_key(old(self)@, entry@.id),
            old(self)@.len() > 0 ==> old(self)@.last().timestamp <= entry@.timestamp,
        ensures
            final(self).wf(),
            final(self)@ == old(self)@.push(entry@),
    {
        let n: usize = self.records.len();
        let ghost before = self@;
        let ghost shelves = self.index@;
        let ghost who = entry@.creator;
        let ghost added = entry@;
        match self.find_shelf(&entry.creator) {
            Some(k) => {
                self.index[k].places.push(n);
                assert(places_of(self.index@[k as int].places@) =~= places_of(
                    shelves[k as int].places@,
                ).push(n as int));
                assert(self.index@[k as int].owner@ == who);
                assert(shelved(self.index@, who));
            },
            None => {
                let mut places: Vec<usize> = Vec::new();
                places.push(n);
                self.index.push(Shelf { owner: entry.creator.duplicate(), places });
                proof {
                    assert forall|i: int| 0 <= i < before.len() implies (
                    #[trigger] before[i]).creator != who by {
                        if before[i].creator == who {
                            assert(shelved(shelves, before[i].creator));
                        }
                    }
                    lemma_stranger_has_no_places(before, who);
                    assert(places_of(places@) =~= Seq::<int>::empty().push(n as int));
                    assert(self.index@[shelves.len() as int].owner@ == who);
                    assert(shelved(self.index@, who));
                }
            },
        }
        self.records.push(entry);
        proof {
            assert(self@ =~= before.push(added));
            assert(self@.drop_last() =~= before);
            assert forall|i: int| 0 <= i < self@.len() implies shelved(
                self.index@,
                (#[trigger] self@[i]).creator,
            ) by {
                if i < before.len() {
                    assert(self@[i] == before[i]);
                    assert(shelved(shelves, before[i].creator));
                    let k = choose|k: int|
                        0 <= k < shelves.len() && (#[trigger] shelves[k]).owner@
                            == before[i].creator;
                    assert(self.index@[k].owner@ == before[i].creator);
                }
            }
        }
    }

    /// The store that holds `records`, in their order and as they stand:
    /// what `list_all` gave restores the store it was taken from. Records
    /// that are not consistent make no store.
    pub fn restore(records: &Vec<FileMetadata>) -> (restored: Option<MetadataStore>)
        ensures
            match restored {
                Some(store) => store.wf() && store@ == views_of(records@),
                None => !consistent(views_of(records@)),
            },
    {
        let mut store = MetadataStore::new();
        let ghost all = views_of(records@);
        let mut i: usize = 0;
        while i < records.len()
            invariant
                i <= records.len(),
                all == views_of(records@),
                store.wf(),
                store@ == all.subrange(0, i as int),
            decreases records.len() - i,
        {
            let r = &records[i];
            assert(all[i as int] == r@);
            if r.id.as_str().is_empty() {
                return None;
            }
            match store.find(&r.id) {
                Some(j) => {
                    assert(all[j as int].id == all[i as int].id);
                    return None;
                },
                None => {},
            }
            if i > 0 && records[i - 1].timestamp > r.timestamp {
                assert(all[i - 1].timestamp > all[i as int].timestamp);
                return None;
            }
            store.append(r.duplicate());
            assert(store@ =~= all.subrange(0, i + 1));
            i += 1;
        }
        assert(all.subrange(0, i as int) =~= all);
        Some(store)
    }

    /// Copies of the records that `who` created, oldest first.
    pub fn list_by_creator(&self, who: &Identity) -> (own: Vec<FileMetadata>)
        requires
            self.wf(),
        ensures
            views_of(own@) == owned_by(self@, who@),
    {
        let mut own: Vec<FileMetadata> = Vec::new();
        proof {
            lemma_positions_in_range(self@, who@);
            lemma_picked_is_owned(self@, who@);
        }
        match self.find_shelf(who) {
            Some(k) => {
                let shelf = &self.index[k];
                let ghost wanted = picked(self@, positions_of(self@, who@));
                let mut j: usize = 0;
                while j < shelf.places.len()
                    invariant
                        j <= shelf.places@.len(),
                        places_of(shelf.places@) == positions_of(self@, who@),
                        wanted == picked(self@, positions_of(self@, who@)),
                        forall|k: int|
                            0 <= k < positions_of(self@, who@).len() ==> 0 <= #[trigger] positions_of(
                                self@,
                                who@,
                            )[k] < self@.len(),
                        views_of(own@) == wanted.subrange(0, j as int),
                    decreases shelf.places@.len() - j,
                {
                    let p: usize = shelf.places[j];
                    assert(places_of(shelf.places@)[j as int] == p);
                    assert(positions_of(self@, who@)[j as int] == p);
                    let ghost before = own@;
                    own.push(self.records[p].duplicate());
                    assert(views_of(own@) =~= views_of(before).push(self@[p as int]));
                    assert(views_of(own@) =~= wanted.subrange(0, j + 1));
                    j += 1;
                }
                assert(wanted.subrange(0, j as int) =~= wanted);
            },
            None => {
                proof {
                    assert forall|i: int| 0 <= i < self@.len() implies (
                    #[trigger] self@[i]).creator != who@ by {
                        if self@[i].creator == who@ {
                            assert(shelved(self.index@, self@[i].creator));
                        }
                    }
                    lemma_stranger_has_no_places(self@, who@);
                    assert(views_of(own@) =~= picked(self@, positions_of(self@, who@)));
                }
            },
        }
        own
    }

    /// The version chain of `key`: the record filed under it, then the one
    /// its link names, and so on back, newest first. The walk is cut short,
    /// and `BrokenChain` reported with what was reached, where a key is not
    /// in the store or the links run in a circle.
    pub fn resolve_chain(&self, key: &String) -> (chain: Lineage)
        requires
            self.wf(),
        ensures
            chain@ == lineage(self@, key@),
            chain.error == if lineage(self@, key@).broken {
                Some(ErrorKind::BrokenChain)
            } else {
                None
            },
    {
        let mut records: Vec<FileMetadata> = Vec::new();
        let mut error: Option<ErrorKind> = Some(ErrorKind::BrokenChain);
        let mut current: String = key.clone();
        let mut open: bool = true;
        proof {
            let start = walk(self@, key@, Seq::empty());
            assert(keys_of(views_of(records@)) =~= Seq::<Seq<char>>::empty());
            assert(views_of(records@) + start.records =~= start.records);
        }
        while open
            invariant
                self.wf(),
                records@.len() <= self@.len(),
                open ==> lineage(self@, key@) == (LineageView {
                    records: views_of(records@) + walk(
                        self@,
                        current@,
                        keys_of(views_of(records@)),
                    ).records,
                    broken: walk(self@, current@, keys_of(views_of(records@))).broken,
                }),
                !open ==> lineage(self@, key@) == (LineageView {
                    records: views_of(records@),
                    broken: error.is_some(),
                }),
                open ==> error == Some(ErrorKind::BrokenChain),
                error == Some(ErrorKind::BrokenChain) || error.is_none(),
            decreases self@.len() - records@.len() + if open { 1int } else { 0int },
        {
            let ghost so_far = views_of(records@);
            let ghost passed = keys_of(so_far);
            if Self::holds_key(&records, &current) || records.len() >= self.records.len() {
                assert(so_far + Seq::<RecordView>::empty() =~= so_far);
                open = false;
            } else {
                match self.find(&current) {
                    None => {
                        assert(so_far + Seq::<RecordView>::empty() =~= so_far);
                        open = false;
                    },
                    Some(i) => {
                        assert(self@[i as int].id == current@);
                        assert(position_of(self@, current@) == i);
                        let r = self.records[i].duplicate();
                        let ghost here = current@;
                        match &r.previous_hash {
                            None => {
                                error = None;
                                open = false;
                            },
                            Some(earlier) => {
                                current = earlier.clone();
                            },
                        }
                        records.push(r);
                        proof {
                            assert(views_of(records@) =~= so_far.push(self@[i as int]));
                            assert(views_of(records@) =~= so_far + seq![self@[i as int]]);
                            assert(keys_of(views_of(records@)) =~= passed.push(here));
                            if open {
                                let rest = walk(self@, current@, passed.push(here));
                                assert(so_far + (seq![self@[i as int]] + rest.records) =~= views_of(
                                    records@,
                                ) + rest.records);
                            }
                        }
                    },
                }
            }
        }
        Lineage { records, error }
    }

    /// Whether one of `records` is filed under `key`.
    fn holds_key(records: &Vec<FileMetadata>, key: &String) -> (held: bool)
        ensures
            held == keys_of(views_of(records@)).contains(key@),
    {
        let mut i: usize = 0;
        while i < records.len()
            invariant
                i <= records.len(),
                forall|j: int| 0 <= j < i ==> (#[trigger] keys_of(views_of(records@))[j]) != key@,
            decreases records.len() - i,
        {
            if records[i].id == *key {
                assert(keys_of(views_of(records@))[i as int] == key@);
                return true;
            }
            i += 1;
        }
        false
    }

    /// Copies of all records, oldest first.
    pub fn list_all(&self) -> (all: Vec<FileMetadata>)
        ensures
            views_of(all@) == self@,
    {
        let mut all: Vec<FileMetadata> = Vec::new();
        let mut i: usize = 0;
        while i < self.records.len()
            invariant
                i <= self.records.len(),
                views_of(all@) == self@.subrange(0, i as int),
            decreases self.records.len() - i,
        {
            let ghost before = all@;
            all.push(self.records[i].duplicate());
            assert(views_of(all@) =~= views_of(before).push(self@[i as int]));
            assert(views_of(all@) =~= self@.subrange(0, i + 1));
            i += 1;
        }
        assert(self@.subrange(0, i as int) =~= self@);
        all
    }
}

} // verus!
