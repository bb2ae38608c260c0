//! Laws that relate the operations of the store and of the registry, stated
//! over the values that the operations' contracts speak of.
use vstd::prelude::*;
use crate::record::RecordView;
use crate::store::{
    accepted, after_insert, consistent, has_key, lineage, lookup, next_stamp, owned_by,
    positions_of, position_of, picked, walk, lemma_picked_is_owned, lemma_positions_in_range,
    LineageView,
};

verus! {

/// A record inserted under a fresh key is found again under that key, as it
/// was submitted but for two fields: its creator is the acting identity and
/// its time stamp is the one the store assigned.
pub proof fn law_insert_then_get(
    records: Seq<RecordView>,
    record: RecordView,
    caller: Seq<u8>,
    now: u64,
)
    requires
        !has_key(records, record.id),
    ensures
        lookup(after_insert(records, record, caller, now), record.id) == Some(
            accepted(record, caller, next_stamp(records, now)),
        ),
        accepted(record, caller, next_stamp(records, now)) == (RecordView {
            id: record.id,
            filename: record.filename,
            model: record.model,
            dataset: record.dataset,
            prompt: record.prompt,
            previous_hash: record.previous_hash,
            creator: caller,
            timestamp: next_stamp(records, now),
        }),
{
    let after = after_insert(records, record, caller, now);
    let n = records.len() as int;
    assert(after[n].id == record.id);
    let p = position_of(after, record.id);
    if p < n {
        assert(records[p].id == record.id);
    }
}

/// An insertion keeps the records consistent: keys stay unique and present,
/// and the time stamps still never decrease.
pub proof fn law_insert_keeps_consistent(
    records: Seq<RecordView>,
    record: RecordView,
    caller: Seq<u8>,
    now: u64,
)
    requires
        consistent(records),
        record.id.len() > 0,
    ensures
        consistent(after_insert(records, record, caller, now)),
{
    let after = after_insert(records, record, caller, now);
    if !has_key(records, record.id) {
        let n = records.len() as int;
        assert forall|i: int, j: int| 0 <= i < j < after.len() implies (#[trigger] after[i]).id != (
        #[trigger] after[j]).id by {
            if j == n {
                assert(records[i].id != record.id);
            }
        }
        assert forall|i: int, j: int| 0 <= i <= j < after.len() implies (
        #[trigger] after[i]).timestamp <= (#[trigger] after[j]).timestamp by {
            if j == n && i < n {
                assert(records[i].timestamp <= records[n - 1].timestamp);
            }
        }
    }
}

/// An insertion changes no record that was there: the old records are the
/// first records of the new store, each with the creator and the stamp that
/// it had.
pub proof fn law_insert_only_appends(
    records: Seq<RecordView>,
    record: RecordView,
    caller: Seq<u8>,
    now: u64,
)
    ensures
        records.len() <= after_insert(records, record, caller, now).len() <= records.len() + 1,
        after_insert(records, record, caller, now).subrange(0, records.len() as int) == records,
{
    assert(after_insert(records, record, caller, now).subrange(0, records.len() as int)
        =~= records);
}

/// Inserting under one key twice is inserting once: after the first
/// insertion the key is taken, so the second is refused and leaves the
/// store as the first left it, whatever else the second record says.
pub proof fn law_second_insert_is_refused(
    records: Seq<RecordView>,
    first: RecordView,
    first_caller: Seq<u8>,
    first_now: u64,
    second: RecordView,
    second_caller: Seq<u8>,
    second_now: u64,
)
    requires
        second.id == first.id,
    ensures
        has_key(after_insert(records, first, first_caller, first_now), second.id),
        after_insert(
            after_insert(records, first, first_caller, first_now),
            second,
            second_caller,
            second_now,
        ) == after_insert(records, first, first_caller, first_now),
{
    let once = after_insert(records, first, first_caller, first_now);
    if !has_key(records, first.id) {
        assert(once[records.len() as int].id == first.id);
    }
}

/// The records of one creator are exactly the records of the store that
/// this identity created, each once and in the store's order: they are the
/// records found at strictly increasing places of the store, every one of
/// them was created by `who`, and every record that `who` created is among
/// them.
pub proof fn law_own_records_are_a_selection(records: Seq<RecordView>, who: Seq<u8>)
    ensures
        owned_by(records, who) == records.filter(|r: RecordView| r.creator == who),
        owned_by(records, who) == picked(records, positions_of(records, who)),
        forall|k: int|
            0 <= k < positions_of(records, who).len() ==> 0 <= #[trigger] positions_of(
                records,
                who,
            )[k] < records.len(),
        forall|k: int, l: int|
            0 <= k < l < positions_of(records, who).len() ==> #[trigger] positions_of(
                records,
                who,
            )[k] < #[trigger] positions_of(records, who)[l],
        forall|k: int|
            0 <= k < owned_by(records, who).len() ==> (#[trigger] owned_by(records, who)[k]).creator
                == who,
        forall|i: int|
            0 <= i < records.len() && (#[trigger] records[i]).creator == who ==> positions_of(
                records,
                who,
            ).contains(i),
    decreases records.len(),
{
    lemma_picked_is_owned(records, who);
    lemma_positions_in_range(records, who);
    if records.len() > 0 {
        let front = records.drop_last();
        let n = records.len() - 1;
        law_own_records_are_a_selection(front, who);
        lemma_positions_in_range(front, who);
        let all = positions_of(records, who);
        let earlier = positions_of(front, who);
        assert forall|k: int, l: int| 0 <= k < l < all.len() implies #[trigger] all[k]
            < #[trigger] all[l] by {
            assert(all[k] == earlier[k]);
            if l < earlier.len() {
                assert(all[l] == earlier[l]);
            }
        }
        assert forall|i: int| 0 <= i < records.len() && (#[trigger] records[i]).creator
            == who implies all.contains(i) by {
            if i < n {
                assert(front[i].creator == who);
                let k = choose|k: int| 0 <= k < earlier.len() && earlier[k] == i;
                assert(all[k] == i);
            } else {
                assert(all[all.len() - 1] == i);
            }
        }
    }
    assert forall|k: int| 0 <= k < owned_by(records, who).len() implies (#[trigger] owned_by(
        records,
        who,
    )[k]).creator == who by {
        assert(owned_by(records, who)[k] == records[positions_of(records, who)[k]]);
        law_places_hold_own_records(records, who, k);
    }
}

/// At each place listed for `who` stands a record that `who` created.
pub proof fn law_places_hold_own_records(records: Seq<RecordView>, who: Seq<u8>, k: int)
    requires
        0 <= k < positions_of(records, who).len(),
    ensures
        0 <= positions_of(records, who)[k] < records.len(),
        records[positions_of(records, who)[k]].creator == who,
    decreases records.len(),
{
    lemma_positions_in_range(records, who);
    if records.len() > 0 {
        let front = records.drop_last();
        if k < positions_of(front, who).len() {
            law_places_hold_own_records(front, who, k);
            assert(positions_of(records, who)[k] == positions_of(front, who)[k]);
        }
    }
}

/// The chain of a record without a link to an earlier version is that one
/// record, and the walk ends well.
pub proof fn law_chain_of_first_version(records: Seq<RecordView>, key: Seq<char>)
    requires
        has_key(records, key),
        lookup(records, key).unwrap().previous_hash.is_none(),
    ensures
        lineage(records, key) == (LineageView {
            records: seq![lookup(records, key).unwrap()],
            broken: false,
        }),
{
    assert(!Seq::<Seq<char>>::empty().contains(key));
}

/// The chain of a record whose link names the record itself is that one
/// record, and the walk is cut short instead of going round.
pub proof fn law_chain_of_self_link(records: Seq<RecordView>, key: Seq<char>)
    requires
        has_key(records, key),
        lookup(records, key).unwrap().previous_hash == Some(key),
    ensures
        lineage(records, key) == (LineageView {
            records: seq![lookup(records, key).unwrap()],
            broken: true,
        }),
{
    reveal_with_fuel(walk, 2);
    let none = Seq::<Seq<char>>::empty();
    assert(!none.contains(key));
    assert(none.push(key)[0] == key);
    assert(none.push(key).contains(key));
    let r = lookup(records, key).unwrap();
    assert(seq![r] + Seq::<RecordView>::empty() =~= seq![r]);
}

/// What holds of every walk: its first record is filed under the key it
/// started from, each record is a record of the store, each names the next
/// as its earlier version, none is filed under a key that was passed
/// before or under the key of another, a walk that ends well ends at a
/// record without a link, and a walk that reached nothing was cut short.
pub proof fn law_walk_follows_links(
    records: Seq<RecordView>,
    key: Seq<char>,
    passed: Seq<Seq<char>>,
)
    ensures
        ({
            let chain = walk(records, key, passed).records;
            let broken = walk(records, key, passed).broken;
            &&& chain.len() + passed.len() <= records.len() || chain.len() == 0
            &&& chain.len() > 0 ==> chain[0].id == key
            &&& chain.len() == 0 ==> broken
            &&& chain.len() > 0 && !broken ==> chain.last().previous_hash.is_none()
            &&& forall|j: int|
                0 <= j < chain.len() ==> lookup(records, (#[trigger] chain[j]).id) == Some(
                    chain[j],
                ) && !passed.contains(chain[j].id)
            &&& forall|j: int|
                0 <= j < chain.len() - 1 ==> (#[trigger] chain[j]).previous_hash == Some(
                    chain[j + 1].id,
                )
            &&& forall|i: int, j: int|
                0 <= i < j < chain.len() ==> (#[trigger] chain[i]).id != (#[trigger] chain[j]).id
        }),
    decreases records.len() - passed.len(),
{
    if passed.contains(key) || passed.len() >= records.len() || !has_key(records, key) {
    } else {
        let r = records[position_of(records, key)];
        match r.previous_hash {
            None => {},
            Some(earlier) => {
                let further = passed.push(key);
                law_walk_follows_links(records, earlier, further);
                let rest = walk(records, earlier, further).records;
                let chain = walk(records, key, passed).records;
                assert(chain =~= seq![r] + rest);
                assert(further[passed.len() as int] == key);
                assert forall|j: int| 0 <= j < chain.len() implies lookup(
                    records,
                    (#[trigger] chain[j]).id,
                ) == Some(chain[j]) && !passed.contains(chain[j].id) by {
                    if j > 0 {
                        assert(chain[j] == rest[j - 1]);
                        assert(!further.contains(rest[j - 1].id));
                        if passed.contains(chain[j].id) {
                            let k = choose|k: int| 0 <= k < passed.len() && passed[k] == chain[j].id;
                            assert(further[k] == chain[j].id);
                        }
                    }
                }
                assert forall|j: int| 0 <= j < chain.len() - 1 implies (
                #[trigger] chain[j]).previous_hash == Some(chain[j + 1].id) by {
                    if j > 0 {
                        assert(chain[j] == rest[j - 1]);
                        assert(chain[j + 1] == rest[j]);
                    } else {
                        assert(chain[1] == rest[0]);
                    }
                }
                assert forall|i: int, j: int| 0 <= i < j < chain.len() implies (
                #[trigger] chain[i]).id != (#[trigger] chain[j]).id by {
                    assert(chain[j] == rest[j - 1]);
                    assert(!further.contains(rest[j - 1].id));
                    if i > 0 {
                        assert(chain[i] == rest[i - 1]);
                    }
                }
                if rest.len() > 0 {
                    assert(chain.last() == rest.last());
                }
            },
        }
    }
}

/// A version chain starts at the record filed under its key and follows
/// the links: each record is a record of the store and names the next as
/// its earlier version, no record comes twice, so the chain is no longer
/// than the store, and a chain that ends well ends at a record without a
/// link.
pub proof fn law_chain_follows_links(records: Seq<RecordView>, key: Seq<char>)
    ensures
        ({
            let chain = lineage(records, key).records;
            let broken = lineage(records, key).broken;
            &&& chain.len() <= records.len()
            &&& chain.len() > 0 <==> has_key(records, key)
            &&& chain.len() > 0 ==> chain[0] == lookup(records, key).unwrap()
            &&& chain.len() == 0 ==> broken
            &&& chain.len() > 0 && !broken ==> chain.last().previous_hash.is_none()
            &&& forall|j: int|
                0 <= j < chain.len() ==> lookup(records, (#[trigger] chain[j]).id) == Some(
                    chain[j],
                )
            &&& forall|j: int|
                0 <= j < chain.len() - 1 ==> (#[trigger] chain[j]).previous_hash == Some(
                    chain[j + 1].id,
                )
            &&& forall|i: int, j: int|
                0 <= i < j < chain.len() ==> (#[trigger] chain[i]).id != (#[trigger] chain[j]).id
        }),
{
    law_walk_follows_links(records, key, Seq::empty());
    assert(!Seq::<Seq<char>>::empty().contains(key));
}

/// The last registration wins: after two registrations of one identity the
/// registry is what the second alone would have made it, and the identity
/// has the second name.
pub proof fn law_last_registration_wins(
    profiles: Map<Seq<u8>, Seq<char>>,
    who: Seq<u8>,
    first: Seq<char>,
    second: Seq<char>,
)
    ensures
        profiles.insert(who, first).insert(who, second) == profiles.insert(who, second),
        profiles.insert(who, first).insert(who, second)[who] == second,
        profiles.insert(who, first).insert(who, second).dom() == profiles.dom().insert(who),
{
    assert(profiles.insert(who, first).insert(who, second) =~= profiles.insert(who, second));
    assert(profiles.insert(who, first).insert(who, second).dom() =~= profiles.dom().insert(who));
}

} // verus!
