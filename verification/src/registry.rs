//! The raids by name.
//!
//! Every request names the raid that it is about. The registry finds the
//! raid, hands the request on to it, and reports the counts of all raids.

use crate::clock::{utc_now, Timestamp};
use crate::codes::{code_texts, CodeList, CODE_COUNT};
use crate::error::RaidError;
use crate::model::RaidView;
use crate::raid::{info_of, CodeReservation, Raid, RaidInfo};
use crate::snapshot::{is_written_snapshot, stored_raid, RaidSnapshot, SnapshotView};
use vstd::prelude::*;

verus! {

/// How many codes one reservation asks for.
pub const RESERVATION_SIZE: usize = 5;

/// A raid and its name.
pub struct NamedRaid {
    pub name: Seq<char>,
    pub raid: RaidView,
}

/// The counts of a raid and its name.
pub struct NamedInfo {
    pub name: Seq<char>,
    pub info: RaidInfo,
}

/// The names of the raids, in their order.
pub open spec fn names_of(raids: Seq<NamedRaid>) -> Seq<Seq<char>> {
    raids.map_values(|entry: NamedRaid| entry.name)
}

/// The counts that are reported of the raids: for each raid, in the order
/// of the raids, its name and its counts.
pub open spec fn summary_of(raids: Seq<NamedRaid>) -> Seq<NamedInfo> {
    raids.map_values(|entry: NamedRaid| NamedInfo { name: entry.name, info: info_of(entry.raid) })
}

/// What a reported list says, entry by entry.
pub open spec fn summary_view(summary: Seq<(String, RaidInfo)>) -> Seq<NamedInfo> {
    summary.map_values(|entry: (String, RaidInfo)| NamedInfo { name: entry.0@, info: entry.1 })
}

/// The raids after a sweep of each of them at `now`.
pub open spec fn swept(raids: Seq<NamedRaid>, now: Timestamp) -> Seq<NamedRaid> {
    raids.map_values(|entry: NamedRaid| NamedRaid { name: entry.name, raid: entry.raid.reclaim(now) })
}

/// The raids with the raid at `index` replaced.
pub open spec fn with_raid(raids: Seq<NamedRaid>, index: int, raid: RaidView) -> Seq<NamedRaid> {
    raids.update(index, NamedRaid { name: raids[index].name, raid })
}

struct Entry {
    name: String,
    raid: Raid,
}

spec fn entry_view(entry: Entry) -> NamedRaid {
    NamedRaid { name: entry.name@, raid: entry.raid@ }
}

spec fn entry_views(entries: Seq<Entry>) -> Seq<NamedRaid> {
    entries.map_values(|entry: Entry| entry_view(entry))
}

/// The raids that are under way, each under its own name, in the order in
/// which they were created.
pub struct RaidMap {
    raids: Vec<Entry>,
}

impl View for RaidMap {
    type V = Seq<NamedRaid>;

    closed spec fn view(&self) -> Seq<NamedRaid> {
        entry_views(self.raids@)
    }
}

impl Default for RaidMap {
    /// A registry without raids.
    fn default() -> (registry: RaidMap)
        ensures
            registry.wf(),
            registry@ == Seq::<NamedRaid>::empty(),
    {
        RaidMap::new()
    }
}

impl RaidMap {
    /// No two raids have the same name, and every raid is in a valid
    /// state.
    pub open spec fn wf(&self) -> bool {
        &&& names_of(self@).no_duplicates()
        &&& forall|i: int| 0 <= i < self@.len() ==> (#[trigger] self@[i]).raid.inv(CODE_COUNT as nat)
    }

    /// The raid at a place of the registry, as it is kept. Its state is
    /// `self@[index].raid`.
    pub closed spec fn raid_at(&self, index: int) -> Raid {
        self.raids@[index].raid
    }

    /// The raid that is kept at a place is in the state that the registry
    /// has at that place.
    pub proof fn lemma_raid_at(&self, index: int)
        requires
            0 <= index < self@.len(),
        ensures
            self.raid_at(index)@ == self@[index].raid,
    {
    }

    /// Every raid of the registry can be stored.
    pub open spec fn can_be_stored(&self) -> bool {
        forall|i: int| 0 <= i < self@.len() ==> (#[trigger] self.raid_at(i)).can_be_stored()
    }

    /// What is stored of the registry: for each raid, in the order of the
    /// raids, its name and what is stored of it.
    pub open spec fn stored_form(&self, list: Seq<Seq<char>>) -> Seq<(Seq<char>, SnapshotView)> {
        Seq::new(self@.len(), |i: int| (self@[i].name, self.raid_at(i).snapshot_of(list)))
    }

    /// A registry without raids.
    pub fn new() -> (registry: RaidMap)
        ensures
            registry.wf(),
            registry@ == Seq::<NamedRaid>::empty(),
    {
        let registry = RaidMap { raids: Vec::new() };
        assert(registry@ =~= Seq::<NamedRaid>::empty());
        registry
    }

    fn position(&self, name: &String) -> (found: Option<usize>)
        ensures
            match found {
                Some(index) => index < self@.len() && self@[index as int].name == name@,
                None => !names_of(self@).contains(name@),
            },
    {
        let mut i: usize = 0;
        while i < self.raids.len()
            invariant
                i <= self.raids.len(),
                forall|a: int| 0 <= a < i ==> self@[a].name != name@,
            decreases self.raids.len() - i,
        {
            if self.raids[i].name == *name {
                return Some(i);
            }
            i += 1;
        }
        assert forall|a: int| 0 <= a < names_of(self@).len() implies names_of(self@)[a]
            != name@ by {
            assert(self@[a].name != name@);
        }
        None
    }

    /// The counts of all raids, as they are.
    pub fn to_pub_map(&self) -> (summary: Vec<(String, RaidInfo)>)
        requires
            self.wf(),
        ensures
            summary_view(summary@) == summary_of(self@),
    {
        let mut summary: Vec<(String, RaidInfo)> = Vec::new();
        let mut i: usize = 0;
        while i < self.raids.len()
            invariant
                self.wf(),
                i <= self.raids.len(),
                summary.len() == i,
                forall|a: int|
                    0 <= a < i ==> (#[trigger] summary@[a]).0@ == self@[a].name && summary@[a].1
                        == info_of(self@[a].raid),
            decreases self.raids.len() - i,
        {
            assert(self@[i as int].raid.inv(CODE_COUNT as nat));
            let entry = &self.raids[i];
            summary.push((entry.name.clone(), entry.raid.info()));
            i += 1;
        }
        assert(summary_view(summary@) =~= summary_of(self@));
        summary
    }

    /// Puts a raid under a name that is not taken. Under a name that is
    /// taken nothing changes.
    pub fn insert_raid(&mut self, name: String, raid: Raid) -> (r: Result<(), RaidError>)
        requires
            old(self).wf(),
            raid.wf(),
        ensures
            final(self).wf(),
            match r {
                Ok(()) => {
                    &&& !names_of(old(self)@).contains(name@)
                    &&& final(self)@ == old(self)@.push(NamedRaid { name: name@, raid: raid@ })
                    &&& final(self).raid_at(old(self)@.len() as int) == raid
                    &&& forall|i: int|
                        0 <= i < old(self)@.len() ==> #[trigger] final(self).raid_at(i) == old(
                            self,
                        ).raid_at(i)
                },
                Err(e) => e == RaidError::AlreadyExists && names_of(old(self)@).contains(name@)
                    && final(self)@ == old(self)@,
            },
    {
        match self.position(&name) {
            Some(index) => {
                assert(names_of(self@)[index as int] == name@);
                Err(RaidError::AlreadyExists)
            },
            None => {
                let ghost before = self@;
                self.raids.push(Entry { name, raid });
                proof {
                    assert(self@ =~= before.push(NamedRaid { name: name@, raid: raid@ }));
                    assert forall|a: int, b: int|
                        0 <= a < names_of(self@).len() && 0 <= b < names_of(self@).len() && a
                            != b implies names_of(self@)[a] != names_of(self@)[b] by {
                        if a < before.len() {
                            assert(names_of(before)[a] == names_of(self@)[a]);
                        }
                        if b < before.len() {
                            assert(names_of(before)[b] == names_of(self@)[b]);
                        }
                    }
                }
                Ok(())
            },
        }
    }

    /// Starts a raid under a name that is not taken, with its
    /// `skip_count` lowest codes marked as tried where a count is given,
    /// and reports the counts of all raids. Under a name that is taken
    /// nothing changes.
    pub fn create_raid(&mut self, name: String, skip_count: Option<u64>) -> (r: Result<
        Vec<(String, RaidInfo)>,
        RaidError,
    >)
        requires
            old(self).wf(),
        ensures
            final(self).wf(),
            match r {
                Ok(summary) => {
                    &&& !names_of(old(self)@).contains(name@)
                    &&& final(self)@ == old(self)@.push(
                        NamedRaid { name: name@, raid: created(skip_count) },
                    )
                    &&& summary_view(summary@) == summary_of(final(self)@)
                },
                Err(e) => e == RaidError::AlreadyExists && names_of(old(self)@).contains(name@)
                    && final(self)@ == old(self)@,
            },
    {
        let mut new_raid = Raid::new();
        if let Some(count) = skip_count {
            new_raid.skip_codes(count);
        }
        match self.insert_raid(name, new_raid) {
            Ok(()) => Ok(self.to_pub_map()),
            Err(e) => Err(e),
        }
    }

    /// Removes the raid of the given name. Where there is none, nothing
    /// changes.
    pub fn delete_raid(&mut self, name: &str)
        requires
            old(self).wf(),
        ensures
            final(self).wf(),
            final(self)@ == without(old(self)@, name@),
    {
        let wanted = name.to_owned();
        match self.position(&wanted) {
            Some(index) => {
                let ghost before = self@;
                let _ = self.raids.remove(index);
                proof {
                    assert(names_of(before)[index as int] == name@);
                    assert(names_of(before).index_of(name@) == index);
                    assert(self@ =~= before.remove(index as int));
                    assert forall|a: int, b: int|
                        0 <= a < names_of(self@).len() && 0 <= b < names_of(self@).len() && a
                            != b implies names_of(self@)[a] != names_of(self@)[b] by {
                        let a0 = if a < index { a } else { a + 1 };
                        let b0 = if b < index { b } else { b + 1 };
                        assert(names_of(before)[a0] == names_of(self@)[a]);
                        assert(names_of(before)[b0] == names_of(self@)[b]);
                    }
                    assert forall|a: int| 0 <= a < self@.len() implies (#[trigger] self@[a]).raid.inv(
                        CODE_COUNT as nat,
                    ) by {
                        let a0 = if a < index { a } else { a + 1 };
                        assert(before[a0] == self@[a]);
                    }
                }
            },
            None => {},
        }
    }

    /// The raid of the given name.
    pub fn get_raid(&self, name: &str) -> (r: Result<&Raid, RaidError>)
        requires
            self.wf(),
        ensures
            match r {
                Ok(raid) => {
                    &&& names_of(self@).contains(name@)
                    &&& *raid == self.raid_at(names_of(self@).index_of(name@))
                    &&& raid@ == self@[names_of(self@).index_of(name@)].raid
                    &&& raid.wf()
                },
                Err(e) => e == RaidError::NotFound && !names_of(self@).contains(name@),
            },
    {
        let wanted = name.to_owned();
        match self.position(&wanted) {
            Some(index) => {
                proof {
                    assert(names_of(self@)[index as int] == name@);
                    assert(names_of(self@).index_of(name@) == index);
                    assert(self@[index as int].raid.inv(CODE_COUNT as nat));
                }
                Ok(&self.raids[index].raid)
            },
            None => Err(RaidError::NotFound),
        }
    }

    /// Marks one submitted code as tried in the raid of the given name.
    /// Without such a raid, and for a text that is not in the code list,
    /// nothing changes.
    pub fn try_code(&mut self, name: &str, codes: &CodeList, code: String) -> (r: Result<
        (),
        RaidError,
    >)
        requires
            old(self).wf(),
            codes.wf(),
        ensures
            final(self).wf(),
            match r {
                Ok(()) => {
                    let index = names_of(old(self)@).index_of(name@);
                    &&& names_of(old(self)@).contains(name@)
                    &&& codes@.contains(code@)
                    &&& final(self)@ == with_raid(
                        old(self)@,
                        index,
                        old(self)@[index].raid.complete(codes@.index_of(code@) as u32),
                    )
                },
                Err(e) => {
                    &&& final(self)@ == old(self)@
                    &&& e == RaidError::NotFound <==> !names_of(old(self)@).contains(name@)
                    &&& e == RaidError::UnknownCode <==> names_of(old(self)@).contains(name@)
                        && !codes@.contains(code@)
                    &&& e == RaidError::NotFound || e == RaidError::UnknownCode
                },
            },
    {
        let wanted = name.to_owned();
        let index = match self.position(&wanted) {
            Some(index) => index,
            None => {
                return Err(RaidError::NotFound);
            },
        };
        let ghost before = self@;
        proof {
            assert(names_of(before)[index as int] == name@);
            assert(names_of(before).index_of(name@) == index);
            assert(before[index as int].raid.inv(CODE_COUNT as nat));
        }
        let r = self.raids[index].raid.try_code(codes, code);
        proof {
            lemma_one_raid_changed(before, self@, index as int);
        }
        r
    }

    /// Checks `RESERVATION_SIZE` codes out of the raid of the given name,
    /// under a lease granted at `now`. Without such a raid nothing
    /// changes.
    pub fn reserve_codes_at(&mut self, name: &str, codes: &CodeList, now: Timestamp) -> (r: Result<
        CodeReservation,
        RaidError,
    >)
        requires
            old(self).wf(),
            codes.wf(),
        ensures
            final(self).wf(),
            match r {
                Ok(reservation) => {
                    let index = names_of(old(self)@).index_of(name@);
                    let raid = old(self)@[index].raid;
                    &&& names_of(old(self)@).contains(name@)
                    &&& final(self)@ == with_raid(
                        old(self)@,
                        index,
                        raid.reserve(RESERVATION_SIZE as nat, now.lease_deadline()),
                    )
                    &&& reservation@.codes == code_texts(codes@, raid.batch(RESERVATION_SIZE as nat))
                    &&& reservation@.expires_at == now.lease_deadline()
                },
                Err(e) => e == RaidError::NotFound && !names_of(old(self)@).contains(name@)
                    && final(self)@ == old(self)@,
            },
    {
        let wanted = name.to_owned();
        let index = match self.position(&wanted) {
            Some(index) => index,
            None => {
                return Err(RaidError::NotFound);
            },
        };
        let ghost before = self@;
        proof {
            assert(names_of(before)[index as int] == name@);
            assert(names_of(before).index_of(name@) == index);
            assert(before[index as int].raid.inv(CODE_COUNT as nat));
        }
        let reservation = self.raids[index].raid.reserve_codes_at(codes, RESERVATION_SIZE, now);
        proof {
            lemma_one_raid_changed(before, self@, index as int);
        }
        Ok(reservation)
    }

    /// Checks codes out as `reserve_codes_at` does, at the instant that
    /// the clock shows.
    pub fn reserve_codes(&mut self, name: &str, codes: &CodeList) -> (r: Result<
        CodeReservation,
        RaidError,
    >)
        requires
            old(self).wf(),
            codes.wf(),
        ensures
            final(self).wf(),
            match r {
                Ok(reservation) => {
                    let index = names_of(old(self)@).index_of(name@);
                    let raid = old(self)@[index].raid;
                    &&& names_of(old(self)@).contains(name@)
                    &&& final(self)@ == with_raid(
                        old(self)@,
                        index,
                        raid.reserve(RESERVATION_SIZE as nat, reservation@.expires_at),
                    )
                    &&& reservation@.codes == code_texts(codes@, raid.batch(RESERVATION_SIZE as nat))
                    &&& exists|now: Timestamp| reservation@.expires_at == now.lease_deadline()
                },
                Err(e) => e == RaidError::NotFound && !names_of(old(self)@).contains(name@)
                    && final(self)@ == old(self)@,
            },
    {
        let now = utc_now();
        self.reserve_codes_at(name, codes, now)
    }

    /// Sweeps the leases of every raid that ran out before `now`, and
    /// reports the counts of all raids.
    pub fn raid_list_at(&mut self, now: Timestamp) -> (summary: Vec<(String, RaidInfo)>)
        requires
            old(self).wf(),
        ensures
            final(self).wf(),
            final(self)@ == swept(old(self)@, now),
            summary_view(summary@) == summary_of(final(self)@),
            summary_of(final(self)@) == summary_of(old(self)@),
    {
        let ghost before = self@;
        let mut i: usize = 0;
        while i < self.raids.len()
            invariant
                self.wf(),
                self@.len() == before.len(),
                i <= self.raids.len(),
                forall|a: int| 0 <= a < i ==> #[trigger] self@[a] == swept(before, now)[a],
                forall|a: int| i <= a < before.len() ==> #[trigger] self@[a] == before[a],
            decreases self.raids.len() - i,
        {
            let ghost held = self@;
            assert(held[i as int].raid.inv(CODE_COUNT as nat));
            self.raids[i].raid.expire_reservations_at(now);
            proof {
                lemma_one_raid_changed(held, self@, i as int);
            }
            i += 1;
        }
        assert(self@ =~= swept(before, now));
        assert(summary_of(self@) =~= summary_of(before));
        self.to_pub_map()
    }

    /// Sweeps the leases of every raid that have run out by the clock,
    /// and reports the counts of all raids. The clock is read once for
    /// each raid.
    pub fn raid_list(&mut self) -> (summary: Vec<(String, RaidInfo)>)
        requires
            old(self).wf(),
        ensures
            final(self).wf(),
            final(self)@.len() == old(self)@.len(),
            forall|i: int|
                0 <= i < old(self)@.len() ==> (#[trigger] final(self)@[i]).name == old(self)@[i].name
                    && exists|now: Timestamp|
                    final(self)@[i].raid == old(self)@[i].raid.reclaim(now),
            summary_view(summary@) == summary_of(final(self)@),
            summary_of(final(self)@) == summary_of(old(self)@),
    {
        let ghost before = self@;
        let mut i: usize = 0;
        while i < self.raids.len()
            invariant
                self.wf(),
                self@.len() == before.len(),
                i <= self.raids.len(),
                forall|a: int|
                    0 <= a < i ==> (#[trigger] self@[a]).name == before[a].name && exists|
                        now: Timestamp,
                    |
                        self@[a].raid == before[a].raid.reclaim(now),
                forall|a: int| i <= a < before.len() ==> #[trigger] self@[a] == before[a],
            decreases self.raids.len() - i,
        {
            let ghost held = self@;
            assert(held[i as int].raid.inv(CODE_COUNT as nat));
            self.raids[i].raid.expire_reservations();
            proof {
                lemma_one_raid_changed(held, self@, i as int);
                let now = choose|now: Timestamp|
                    self@[i as int].raid == held[i as int].raid.reclaim(now);
                assert(self@[i as int].raid == before[i as int].raid.reclaim(now));
                assert forall|a: int| 0 <= a < i implies (#[trigger] self@[a]).name
                    == before[a].name && exists|now: Timestamp|
                    self@[a].raid == before[a].raid.reclaim(now) by {
                    assert(self@[a] == held[a]);
                }
            }
            i += 1;
        }
        assert(summary_of(self@) =~= summary_of(before)) by {
            assert forall|a: int| 0 <= a < before.len() implies summary_of(self@)[a] == summary_of(
                before,
            )[a] by {
                assert(self@[a].name == before[a].name);
                let now = choose|now: Timestamp| self@[a].raid == before[a].raid.reclaim(now);
                assert(self@[a].raid.tried == before[a].raid.tried);
            }
        }
        self.to_pub_map()
    }

    /// The raids as a snapshot stores them, in their order. A snapshot
    /// comes back exactly where every raid can be stored. It holds the
    /// name of each raid and what is stored of it, and it stands for the
    /// raids: nothing is lost.
    pub fn to_snapshot(&self, codes: &CodeList) -> (r: Result<Vec<(String, RaidSnapshot)>, RaidError>)
        requires
            self.wf(),
            codes.wf(),
        ensures
            r is Ok <==> self.can_be_stored(),
            match r {
                Ok(entries) => {
                    &&& snapshot_views(entries@) == self.stored_form(codes@)
                    &&& stored_raids(codes@, snapshot_views(entries@)) == Some(self@)
                    &&& are_written(snapshot_views(entries@))
                },
                Err(e) => e == RaidError::PersistenceFailure,
            },
    {
        let mut entries: Vec<(String, RaidSnapshot)> = Vec::new();
        let mut i: usize = 0;
        while i < self.raids.len()
            invariant
                self.wf(),
                codes.wf(),
                i <= self.raids.len(),
                entries.len() == i,
                forall|a: int| 0 <= a < i ==> (#[trigger] self.raid_at(a)).can_be_stored(),
                forall|a: int|
                    0 <= a < i ==> {
                        &&& (#[trigger] entries@[a]).0@ == self@[a].name
                        &&& entries@[a].1@ == self.raid_at(a).snapshot_of(codes@)
                        &&& stored_raid(codes@, entries@[a].1@) == Some(self@[a].raid)
                        &&& is_written_snapshot(entries@[a].1@)
                    },
            decreases self.raids.len() - i,
        {
            assert(self@[i as int].raid.inv(CODE_COUNT as nat));
            let entry = &self.raids[i];
            assert(entry.raid == self.raid_at(i as int));
            match entry.raid.to_snapshot(codes) {
                Ok(snapshot) => {
                    entries.push((entry.name.clone(), snapshot));
                },
                Err(e) => {
                    assert(!self.raid_at(i as int).can_be_stored());
                    return Err(e);
                },
            }
            i += 1;
        }
        proof {
            let stored = snapshot_views(entries@);
            assert(stored_names(stored) =~= names_of(self@));
            assert forall|a: int| 0 <= a < stored.len() implies stored_raid(
                codes@,
                (#[trigger] stored[a]).1,
            ) is Some && is_written_snapshot(stored[a].1) by {
                assert(entries@[a].1@ == stored[a].1);
            }
            assert(read_raids(codes@, stored) =~= self@) by {
                assert forall|a: int| 0 <= a < stored.len() implies read_raids(codes@, stored)[a]
                    == self@[a] by {
                    assert(entries@[a].1@ == stored[a].1);
                }
            }
            assert(stored =~= self.stored_form(codes@)) by {
                assert forall|a: int| 0 <= a < stored.len() implies stored[a] == self.stored_form(
                    codes@,
                )[a] by {
                    assert(entries@[a].1@ == stored[a].1);
                    assert(entries@[a].0@ == stored[a].0);
                }
            }
        }
        Ok(entries)
    }

    /// The raids that a snapshot stores. They come back exactly where no
    /// name is stored twice and every stored raid stands for a state.
    /// Where the texts of the snapshot are what stores some bitmaps, the
    /// registry that comes back can be stored, and it is stored as that
    /// snapshot again.
    pub fn from_snapshot(codes: &CodeList, entries: &Vec<(String, RaidSnapshot)>) -> (r: Result<
        RaidMap,
        RaidError,
    >)
        requires
            codes.wf(),
        ensures
            match r {
                Ok(registry) => {
                    &&& registry.wf()
                    &&& stored_raids(codes@, snapshot_views(entries@)) == Some(registry@)
                    &&& are_written(snapshot_views(entries@)) ==> registry.can_be_stored()
                        && registry.stored_form(codes@) == snapshot_views(entries@)
                },
                Err(e) => e == RaidError::PersistenceFailure && stored_raids(
                    codes@,
                    snapshot_views(entries@),
                ) is None,
            },
    {
        let ghost stored = snapshot_views(entries@);
        let mut registry = RaidMap::new();
        let mut i: usize = 0;
        while i < entries.len()
            invariant
                codes.wf(),
                stored == snapshot_views(entries@),
                i <= entries.len(),
                registry.wf(),
                registry@.len() == i,
                forall|a: int|
                    0 <= a < i ==> (#[trigger] registry@[a]).name == stored[a].0 && stored_raid(
                        codes@,
                        stored[a].1,
                    ) == Some(registry@[a].raid),
                forall|a: int|
                    0 <= a < i && is_written_snapshot(stored[a].1) ==> (#[trigger] registry.raid_at(
                        a,
                    )).can_be_stored() && registry.raid_at(a).snapshot_of(codes@) == stored[a].1,
            decreases entries.len() - i,
        {
            let entry = &entries[i];
            assert(stored[i as int] == (entry.0@, entry.1@));
            let raid = match Raid::from_snapshot(codes, &entry.1) {
                Ok(raid) => raid,
                Err(e) => {
                    return Err(e);
                },
            };
            let ghost before = registry@;
            let ghost kept = registry;
            match registry.insert_raid(entry.0.clone(), raid) {
                Ok(()) => {
                    proof {
                        assert forall|a: int|
                            0 <= a < i + 1 && is_written_snapshot(stored[a].1) implies (
                        #[trigger] registry.raid_at(a)).can_be_stored() && registry.raid_at(
                            a,
                        ).snapshot_of(codes@) == stored[a].1 by {
                            if a < i {
                                assert(registry.raid_at(a) == kept.raid_at(a));
                            }
                        }
                    }
                },
                Err(_) => {
                    proof {
                        let a = choose|a: int|
                            0 <= a < names_of(before).len() && names_of(before)[a] == entry.0@;
                        assert(before[a].name == stored[a].0);
                        assert(stored_names(stored)[a] == stored_names(stored)[i as int]);
                    }
                    return Err(RaidError::PersistenceFailure);
                },
            }
            i += 1;
        }
        proof {
            assert(stored_names(stored) =~= names_of(registry@));
            assert forall|a: int| 0 <= a < stored.len() implies stored_raid(
                codes@,
                (#[trigger] stored[a]).1,
            ) is Some by {
                assert(registry@[a].name == stored[a].0);
            }
            assert(read_raids(codes@, stored) =~= registry@) by {
                assert forall|a: int| 0 <= a < stored.len() implies read_raids(codes@, stored)[a]
                    == registry@[a] by {
                    assert(registry@[a].name == stored[a].0);
                }
            }
            if are_written(stored) {
                assert forall|a: int| 0 <= a < registry@.len() implies (#[trigger] registry.raid_at(
                    a,
                )).can_be_stored() && registry.stored_form(codes@)[a] == stored[a] by {
                    assert(is_written_snapshot(stored[a].1));
                    assert(registry@[a].name == stored[a].0);
                }
                assert(registry.stored_form(codes@) =~= stored);
            }
        }
        Ok(registry)
    }
}

/// Every text of the stored registry is what stores some bitmap.
pub open spec fn are_written(stored: Seq<(Seq<char>, SnapshotView)>) -> bool {
    forall|i: int| 0 <= i < stored.len() ==> is_written_snapshot((#[trigger] stored[i]).1)
}

/// What a stored registry says, entry by entry: the name of a raid and
/// what is stored of it.
pub open spec fn snapshot_views(entries: Seq<(String, RaidSnapshot)>) -> Seq<
    (Seq<char>, SnapshotView),
> {
    entries.map_values(|entry: (String, RaidSnapshot)| (entry.0@, entry.1@))
}

/// The names under which raids are stored, in their order.
pub open spec fn stored_names(stored: Seq<(Seq<char>, SnapshotView)>) -> Seq<Seq<char>> {
    stored.map_values(|entry: (Seq<char>, SnapshotView)| entry.0)
}

/// The raids that the entries of a snapshot stand for, one by one.
pub open spec fn read_raids(list: Seq<Seq<char>>, stored: Seq<(Seq<char>, SnapshotView)>) -> Seq<
    NamedRaid,
> {
    stored.map_values(
        |entry: (Seq<char>, SnapshotView)|
            NamedRaid { name: entry.0, raid: stored_raid(list, entry.1).unwrap() },
    )
}

/// The raids that a stored registry stands for, and `None` where a name is
/// stored twice or a stored raid stands for no state.
pub open spec fn stored_raids(list: Seq<Seq<char>>, stored: Seq<(Seq<char>, SnapshotView)>) -> Option<
    Seq<NamedRaid>,
> {
    if stored_names(stored).no_duplicates() && forall|i: int|
        0 <= i < stored.len() ==> stored_raid(list, (#[trigger] stored[i]).1) is Some {
        Some(read_raids(list, stored))
    } else {
        None
    }
}

/// Where one raid of a valid registry has moved to another valid state and
/// nothing else has changed, the registry is valid.
proof fn lemma_one_raid_changed(before: Seq<NamedRaid>, after: Seq<NamedRaid>, index: int)
    requires
        0 <= index < before.len(),
        names_of(before).no_duplicates(),
        forall|i: int| 0 <= i < before.len() ==> (#[trigger] before[i]).raid.inv(CODE_COUNT as nat),
        after.len() == before.len(),
        forall|i: int| 0 <= i < before.len() && i != index ==> after[i] == before[i],
        after[index].name == before[index].name,
        after[index].raid.inv(CODE_COUNT as nat),
    ensures
        after == with_raid(before, index, after[index].raid),
        names_of(after).no_duplicates(),
        forall|i: int| 0 <= i < after.len() ==> (#[trigger] after[i]).raid.inv(CODE_COUNT as nat),
{
    assert(after =~= with_raid(before, index, after[index].raid));
    assert(names_of(after) =~= names_of(before));
    assert forall|i: int| 0 <= i < after.len() implies (#[trigger] after[i]).raid.inv(
        CODE_COUNT as nat,
    ) by {
        if i != index {
            assert(before[i].raid.inv(CODE_COUNT as nat));
        }
    }
}

/// The state of a raid that has just been created with the given count of
/// codes to skip.
pub open spec fn created(skip_count: Option<u64>) -> RaidView {
    match skip_count {
        Some(count) => RaidView::fresh(CODE_COUNT as nat).skip(count as nat),
        None => RaidView::fresh(CODE_COUNT as nat),
    }
}

/// The raids without the one of the given name.
pub open spec fn without(raids: Seq<NamedRaid>, name: Seq<char>) -> Seq<NamedRaid> {
    if names_of(raids).contains(name) {
        raids.remove(names_of(raids).index_of(name))
    } else {
        raids
    }
}

} // verus!
