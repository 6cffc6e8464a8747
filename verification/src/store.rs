use vstd::pervasive::VecAdditionalExecFns;
use vstd::prelude::*;

use crate::clock::now_millis;
use crate::codec::decode_slots;
use crate::codec::encode_slots;
use crate::codec::json_slots;
use crate::errors::AdaptorError;
use crate::errors::StoreError;
use crate::model::doomed;
use crate::model::empty_store;
use crate::model::event_at;
use crate::model::has_event;
use crate::model::has_person;
use crate::model::inv;
use crate::model::lemma_event_idx_is;
use crate::model::lemma_live_events_empty;
use crate::model::lemma_people_rows_of_empty;
use crate::model::lemma_people_rows_of_step;
use crate::model::lemma_live_events_step;
use crate::model::lemma_person_idx_is;
use crate::model::lemma_surviving_empty;
use crate::model::lemma_surviving_step;
use crate::model::live_events;
use crate::model::people_of;
use crate::model::people_views;
use crate::model::persons_of_rows;
use crate::model::people_rows_of;
use crate::model::same_person_key;
use crate::model::stats_now;
use crate::model::surviving;
use crate::model::swept;
use crate::model::touched;
use crate::model::upserted;
use crate::model::created;
use crate::model::PersonRowV;
use crate::model::StoreV;
use crate::values::Event;
use crate::values::EventV;
use crate::values::Person;
use crate::values::PersonV;
use crate::values::Stats;
use crate::values::StatsV;

verus! {

/// Test hook: a simulated failure of the backing store, armed through
/// [`Store::arm_fault`]. It lets callers exercise the error paths and
/// the all-or-nothing behaviour of the retention sweep against a store
/// that cannot fail on its own.
#[derive(Clone, Copy, Debug, PartialEq, Eq, Structural)]
pub enum FaultPoint {
    /// Every operation fails at its first store access.
    NextAccess,
    /// The retention sweep fails after it has deleted the people of
    /// the doomed events, before it deletes the events themselves.
    AfterPeopleDelete,
}

struct EventRow {
    id: String,
    name: String,
    created_at: i64,
    visited_at: i64,
    times_blob: String,
    times: Ghost<Seq<i64>>,
    timezone: String,
}

struct PersonRow {
    event_id: String,
    name: String,
    password_hash: String,
    created_at: i64,
    availability_blob: String,
    availability: Ghost<Seq<i64>>,
}

struct StatsRow {
    event_count: i64,
    person_count: i64,
}

spec fn event_row_v(r: EventRow) -> EventV {
    EventV {
        id: r.id@,
        name: r.name@,
        created_at: r.created_at as int,
        visited_at: r.visited_at as int,
        times: r.times@,
        timezone: r.timezone@,
    }
}

spec fn person_row_v(r: PersonRow) -> PersonRowV {
    PersonRowV {
        event_id: r.event_id@,
        person: PersonV {
            name: r.name@,
            password_hash: r.password_hash@,
            created_at: r.created_at as int,
            availability: r.availability@,
        },
    }
}

spec fn event_rows_v(rs: Seq<EventRow>) -> Seq<EventV> {
    rs.map_values(|r: EventRow| event_row_v(r))
}

spec fn people_rows_v(rs: Seq<PersonRow>) -> Seq<PersonRowV> {
    rs.map_values(|r: PersonRow| person_row_v(r))
}

/// The in-memory store behind the adaptor operations: event rows,
/// person rows, the singleton stats row, and the fault hook. The slot
/// lists of events and people are held in their serialized form, as a
/// relational store would hold them in an opaque column.
pub struct Store {
    events: Vec<EventRow>,
    people: Vec<PersonRow>,
    stats: Option<StatsRow>,
    fault: Option<FaultPoint>,
}

impl View for Store {
    type V = StoreV;

    closed spec fn view(&self) -> StoreV {
        StoreV {
            events: event_rows_v(self.events@),
            people: people_rows_v(self.people@),
            stats: match self.stats {
                Some(t) => Some(
                    StatsV {
                        event_count: t.event_count as int,
                        person_count: t.person_count as int,
                    },
                ),
                None => None,
            },
        }
    }
}

impl Store {
    /// Which fault, if any, is armed.
    pub closed spec fn fault_now(&self) -> Option<FaultPoint> {
        self.fault
    }

    /// Well-formedness: the consistency invariant of the durable
    /// state, and coherence of every serialized slot column with the
    /// list it encodes.
    pub closed spec fn wf(&self) -> bool {
        &&& inv(self@)
        &&& forall|i: int|
            0 <= i < self.events@.len() ==> (#[trigger] self.events@[i]).times_blob@ == json_slots(
                self.events@[i].times@,
            )
        &&& forall|i: int|
            0 <= i < self.people@.len() ==> (#[trigger] self.people@[i]).availability_blob@
                == json_slots(self.people@[i].availability@)
    }

    /// A store over a fresh, empty schema.
    pub fn new() -> (s: Store)
        ensures
            s.wf(),
            s@ == empty_store(),
            s.fault_now() is None,
    {
        let s = Store { events: Vec::new(), people: Vec::new(), stats: None, fault: None };
        proof {
            assert(s@.events =~= Seq::<EventV>::empty());
            assert(s@.people =~= Seq::<PersonRowV>::empty());
        }
        s
    }

    /// Arm the fault hook: the store will fail as `f` describes.
    pub fn arm_fault(&mut self, f: FaultPoint)
        ensures
            final(self)@ == old(self)@,
            final(self).fault_now() == Some(f),
            old(self).wf() ==> final(self).wf(),
    {
        self.fault = Some(f);
    }

    /// Disarm the fault hook.
    pub fn clear_fault(&mut self)
        ensures
            final(self)@ == old(self)@,
            final(self).fault_now() is None,
            old(self).wf() ==> final(self).wf(),
    {
        self.fault = None;
    }

    /// The index of the event row keyed `id`, if one exists.
    fn find_event(&self, id: &String) -> (r: Option<usize>)
        ensures
            match r {
                Some(i) => 0 <= i < self@.events.len() && self@.events[i as int].id == id@,
                None => !has_event(self@, id@),
            },
    {
        let mut i: usize = 0;
        while i < self.events.len()
            invariant
                0 <= i <= self.events@.len(),
                forall|j: int| 0 <= j < i ==> (#[trigger] self@.events[j]).id != id@,
            decreases self.events@.len() - i,
        {
            if self.events[i].id == *id {
                return Some(i);
            }
            i = i + 1;
        }
        None
    }

    /// The index of the person row keyed (`event_id`, `name`), if one
    /// exists.
    fn find_person(&self, event_id: &String, name: &String) -> (r: Option<usize>)
        ensures
            match r {
                Some(i) => 0 <= i < self@.people.len() && self@.people[i as int].event_id
                    == event_id@ && self@.people[i as int].person.name == name@,
                None => !has_person(self@, event_id@, name@),
            },
    {
        let mut i: usize = 0;
        while i < self.people.len()
            invariant
                0 <= i <= self.people@.len(),
                forall|j: int|
                    0 <= j < i ==> !((#[trigger] self@.people[j]).event_id == event_id@
                        && self@.people[j].person.name == name@),
            decreases self.people@.len() - i,
        {
            if self.people[i].event_id == *event_id && self.people[i].name == *name {
                return Some(i);
            }
            i = i + 1;
        }
        None
    }

    /// The counters of the current stats row, zeroes while none has
    /// been persisted: the lazily materialized value every stats
    /// operation starts from.
    fn current_counts(&self) -> (r: (i64, i64))
        ensures
            r.0 as int == stats_now(self@).event_count,
            r.1 as int == stats_now(self@).person_count,
    {
        match &self.stats {
            Some(row) => (row.event_count, row.person_count),
            None => (0, 0),
        }
    }

    /// Read the singleton stats row, observing zero counts while none
    /// has been persisted. The zeroed value is not written back: a
    /// fresh store still holds no stats row after this read.
    pub fn get_stats(&self) -> (r: Result<Stats, AdaptorError>)
        ensures
            self.fault_now() == Some(FaultPoint::NextAccess) ==> r == Err::<Stats, AdaptorError>(
                AdaptorError::Store(StoreError::Backend),
            ),
            self.fault_now() != Some(FaultPoint::NextAccess) ==> (r matches Ok(st) && st@
                == stats_now(self@)),
    {
        if let Some(FaultPoint::NextAccess) = self.fault {
            return Err(AdaptorError::Store(StoreError::Backend));
        }
        let (ec, pc) = self.current_counts();
        Ok(Stats { event_count: ec, person_count: pc })
    }

    /// Read-modify-write the event counter by one on the singleton
    /// stats row, materializing the row on first use, and return the
    /// new value.
    pub fn increment_stat_event_count(&mut self) -> (r: Result<i64, AdaptorError>)
        requires
            old(self).wf(),
            stats_now(old(self)@).event_count < 0x7fff_ffff_ffff_ffff,
        ensures
            final(self).wf(),
            final(self).fault_now() == old(self).fault_now(),
            old(self).fault_now() == Some(FaultPoint::NextAccess) ==> r == Err::<i64, AdaptorError>(
                AdaptorError::Store(StoreError::Backend),
            ) && *final(self) == *old(self),
            old(self).fault_now() != Some(FaultPoint::NextAccess) ==> {
                &&& r matches Ok(n) && n as int == stats_now(old(self)@).event_count + 1
                &&& final(self)@.events == old(self)@.events
                &&& final(self)@.people == old(self)@.people
                &&& final(self)@.stats is Some
                &&& stats_now(final(self)@).event_count == stats_now(old(self)@).event_count + 1
                &&& stats_now(final(self)@).person_count == stats_now(old(self)@).person_count
            },
    {
        if let Some(FaultPoint::NextAccess) = self.fault {
            return Err(AdaptorError::Store(StoreError::Backend));
        }
        let (ec, pc) = self.current_counts();
        self.stats = Some(StatsRow { event_count: ec + 1, person_count: pc });
        Ok(ec + 1)
    }

    /// Read-modify-write the person counter by one on the singleton
    /// stats row, materializing the row on first use, and return the
    /// new value.
    pub fn increment_stat_person_count(&mut self) -> (r: Result<i64, AdaptorError>)
        requires
            old(self).wf(),
            stats_now(old(self)@).person_count < 0x7fff_ffff_ffff_ffff,
        ensures
            final(self).wf(),
            final(self).fault_now() == old(self).fault_now(),
            old(self).fault_now() == Some(FaultPoint::NextAccess) ==> r == Err::<i64, AdaptorError>(
                AdaptorError::Store(StoreError::Backend),
            ) && *final(self) == *old(self),
            old(self).fault_now() != Some(FaultPoint::NextAccess) ==> {
                &&& r matches Ok(n) && n as int == stats_now(old(self)@).person_count + 1
                &&& final(self)@.events == old(self)@.events
                &&& final(self)@.people == old(self)@.people
                &&& final(self)@.stats is Some
                &&& stats_now(final(self)@).person_count == stats_now(old(self)@).person_count + 1
                &&& stats_now(final(self)@).event_count == stats_now(old(self)@).event_count
            },
    {
        if let Some(FaultPoint::NextAccess) = self.fault {
            return Err(AdaptorError::Store(StoreError::Backend));
        }
        let (ec, pc) = self.current_counts();
        self.stats = Some(StatsRow { event_count: ec, person_count: pc + 1 });
        Ok(pc + 1)
    }

    /// Fetch the people registered against the event keyed `event_id`:
    /// absent when no such event exists, otherwise the owned people,
    /// possibly none, in store order.
    pub fn get_people(&self, event_id: String) -> (r: Result<Option<Vec<Person>>, AdaptorError>)
        requires
            self.wf(),
        ensures
            self.fault_now() == Some(FaultPoint::NextAccess) ==> r == Err::<
                Option<Vec<Person>>,
                AdaptorError,
            >(AdaptorError::Store(StoreError::Backend)),
            self.fault_now() != Some(FaultPoint::NextAccess) ==> {
                &&& r matches Ok(opt)
                &&& (opt is None <==> !has_event(self@, event_id@))
                &&& (opt matches Some(ps) ==> people_views(ps@) == people_of(self@, event_id@))
            },
    {
        if let Some(FaultPoint::NextAccess) = self.fault {
            return Err(AdaptorError::Store(StoreError::Backend));
        }
        if self.find_event(&event_id).is_none() {
            return Ok(None);
        }
        let mut out: Vec<Person> = Vec::new();
        let mut i: usize = 0;
        proof {
            lemma_people_rows_of_empty(self@.people, event_id@);
            assert(people_views(out@) =~= persons_of_rows(
                people_rows_of(self@.people.subrange(0, 0), event_id@),
            ));
        }
        while i < self.people.len()
            invariant
                self.wf(),
                0 <= i <= self.people@.len(),
                people_views(out@) == persons_of_rows(
                    people_rows_of(self@.people.subrange(0, i as int), event_id@),
                ),
            decreases self.people@.len() - i,
        {
            proof {
                lemma_people_rows_of_step(self@.people, event_id@, i as int);
            }
            if self.people[i].event_id == event_id {
                let p = person_of_row(&self.people[i]);
                out.push(p);
                proof {
                    let pre = people_rows_of(self@.people.subrange(0, i as int), event_id@);
                    assert(persons_of_rows(pre.push(self@.people[i as int])) =~= persons_of_rows(
                        pre,
                    ).push(self@.people[i as int].person));
                    assert(people_views(out@) =~= people_views(out@.drop_last()).push(p@));
                }
            }
            i = i + 1;
        }
        proof {
            assert(self@.people.subrange(0, self@.people.len() as int) =~= self@.people);
        }
        Ok(Some(out))
    }

    /// Write a person under the event keyed `event_id`: absent when no
    /// such event exists (no implicit event creation, no orphan rows);
    /// otherwise the row keyed (`event_id`, person's name) is
    /// overwritten if present and inserted if not, and the stored
    /// value is read back and returned.
    pub fn upsert_person(&mut self, event_id: String, person: Person) -> (r: Result<
        Option<Person>,
        AdaptorError,
    >)
        requires
            old(self).wf(),
            old(self)@.people.len() < 0x7fff_ffff_ffff_ffff,
        ensures
            final(self).wf(),
            final(self).fault_now() == old(self).fault_now(),
            old(self).fault_now() == Some(FaultPoint::NextAccess) ==> r == Err::<
                Option<Person>,
                AdaptorError,
            >(AdaptorError::Store(StoreError::Backend)) && *final(self) == *old(self),
            old(self).fault_now() != Some(FaultPoint::NextAccess) ==> {
                &&& final(self)@ == upserted(old(self)@, event_id@, person@)
                &&& !has_event(old(self)@, event_id@) ==> (r matches Ok(o) && o is None)
                    && *final(self) == *old(self)
                &&& has_event(old(self)@, event_id@) ==> (r matches Ok(o) && o matches Some(q)
                    && q@ == person@)
            },
    {
        if let Some(FaultPoint::NextAccess) = self.fault {
            return Err(AdaptorError::Store(StoreError::Backend));
        }
        if self.find_event(&event_id).is_none() {
            return Ok(None);
        }
        let found = self.find_person(&event_id, &person.name);
        let ghost pre = self@;
        let row = PersonRow {
            event_id,
            name: person.name,
            password_hash: person.password_hash,
            created_at: person.created_at,
            availability_blob: encode_slots(&person.availability),
            availability: Ghost(person.availability@),
        };
        proof {
            assert(person_row_v(row) == PersonRowV { event_id: event_id@, person: person@ });
        }
        match found {
            Some(i) => {
                proof {
                    lemma_person_idx_is(pre, event_id@, person@.name, i as int);
                }
                self.people.set(i, row);
                let ret = person_of_row(&self.people[i]);
                proof {
                    assert(self@.people =~= pre.people.update(i as int, person_row_v(row)));
                    assert(self@ =~= upserted(pre, event_id@, person@));
                    assert forall|a: int| 0 <= a < self@.people.len() implies has_event(
                        self@,
                        (#[trigger] self@.people[a]).event_id,
                    ) by {
                        if a != i {
                            assert(self@.people[a] == pre.people[a]);
                        }
                        assert(self@.events == pre.events);
                    }
                }
                Ok(Some(ret))
            },
            None => {
                self.people.push(row);
                let n = self.people.len() - 1;
                let ret = person_of_row(&self.people[n]);
                proof {
                    assert(self@.people =~= pre.people.push(person_row_v(row)));
                    assert(self@ =~= upserted(pre, event_id@, person@));
                    assert forall|a: int| 0 <= a < self@.people.len() implies has_event(
                        self@,
                        (#[trigger] self@.people[a]).event_id,
                    ) by {
                        if a < n {
                            assert(self@.people[a] == pre.people[a]);
                        }
                        assert(self@.events == pre.events);
                    }
                    assert forall|a: int, b: int|
                        0 <= a < b < self@.people.len() implies !same_person_key(
                        #[trigger] self@.people[a],
                        #[trigger] self@.people[b],
                    ) by {
                        if b == n as int {
                            assert(self@.people[a] == pre.people[a]);
                            assert(!(pre.people[a].event_id == event_id@
                                && pre.people[a].person.name == person@.name));
                        }
                    }
                }
                Ok(Some(ret))
            },
        }
    }

    /// Insert a new event row with all fields exactly as given and
    /// return the stored representation. Fails with a unique-key
    /// violation when an event with the same id already exists.
    pub fn create_event(&mut self, event: Event) -> (r: Result<Event, AdaptorError>)
        requires
            old(self).wf(),
            old(self)@.events.len() < 0x7fff_ffff_ffff_ffff,
            event@.visited_at >= event@.created_at,
        ensures
            final(self).wf(),
            final(self).fault_now() == old(self).fault_now(),
            old(self).fault_now() == Some(FaultPoint::NextAccess) ==> r == Err::<
                Event,
                AdaptorError,
            >(AdaptorError::Store(StoreError::Backend)) && *final(self) == *old(self),
            old(self).fault_now() != Some(FaultPoint::NextAccess) ==> {
                &&& has_event(old(self)@, event@.id) ==> r == Err::<Event, AdaptorError>(
                    AdaptorError::Store(StoreError::UniqueViolation),
                ) && *final(self) == *old(self)
                &&& !has_event(old(self)@, event@.id) ==> {
                    &&& final(self)@ == created(old(self)@, event@)
                    &&& r matches Ok(ev) && ev@ == event@
                }
            },
    {
        if let Some(FaultPoint::NextAccess) = self.fault {
            return Err(AdaptorError::Store(StoreError::Backend));
        }
        if self.find_event(&event.id).is_some() {
            return Err(AdaptorError::Store(StoreError::UniqueViolation));
        }
        let ghost pre = self@;
        let row = EventRow {
            id: event.id,
            name: event.name,
            created_at: event.created_at,
            visited_at: event.visited_at,
            times_blob: encode_slots(&event.times),
            times: Ghost(event.times@),
            timezone: event.timezone,
        };
        proof {
            assert(event_row_v(row) == event@);
        }
        self.events.push(row);
        let n = self.events.len() - 1;
        let ret = event_of_row(&self.events[n]);
        proof {
            assert(self@.events =~= pre.events.push(event@));
            assert(self@ =~= created(pre, event@));
            assert forall|a: int| 0 <= a < self@.people.len() implies has_event(
                self@,
                (#[trigger] self@.people[a]).event_id,
            ) by {
                assert(self@.people[a] == pre.people[a]);
                let w = choose|w: int|
                    0 <= w < pre.events.len() && (#[trigger] pre.events[w]).id
                        == pre.people[a].event_id;
                assert(self@.events[w].id == pre.people[a].event_id);
            }
            assert forall|a: int, b: int| 0 <= a < b < self@.events.len() implies (
            #[trigger] self@.events[a]).id != (#[trigger] self@.events[b]).id by {
                if b == n as int {
                    assert(self@.events[a] == pre.events[a]);
                    assert(!has_event(pre, event@.id));
                }
            }
        }
        Ok(ret)
    }

    /// Touch on read at an explicit clock reading: fetch the event
    /// keyed `id` and, when found, durably bump its stored
    /// `visited_at` forward to `now` (never backward) before
    /// returning. The caller observes the pre-touch field values; the
    /// bump is visible only to later reads. This is how liveness for
    /// retention is tracked.
    pub fn get_event_at(&mut self, id: String, now: i64) -> (r: Result<Option<Event>, AdaptorError>)
        requires
            old(self).wf(),
        ensures
            final(self).wf(),
            final(self).fault_now() == old(self).fault_now(),
            old(self).fault_now() == Some(FaultPoint::NextAccess) ==> r == Err::<
                Option<Event>,
                AdaptorError,
            >(AdaptorError::Store(StoreError::Backend)) && *final(self) == *old(self),
            old(self).fault_now() != Some(FaultPoint::NextAccess) ==> {
                &&& final(self)@ == touched(old(self)@, id@, now as int)
                &&& !has_event(old(self)@, id@) ==> (r matches Ok(o) && o is None) && *final(self)
                    == *old(self)
                &&& has_event(old(self)@, id@) ==> (r matches Ok(o) && o matches Some(ev) && ev@
                    == event_at(old(self)@, id@))
            },
    {
        if let Some(FaultPoint::NextAccess) = self.fault {
            return Err(AdaptorError::Store(StoreError::Backend));
        }
        let found = self.find_event(&id);
        let ghost pre = self@;
        match found {
            None => Ok(None),
            Some(i) => {
                proof {
                    lemma_event_idx_is(pre, id@, i as int);
                }
                let ret = event_of_row(&self.events[i]);
                let bumped = EventRow {
                    id: self.events[i].id.clone(),
                    name: self.events[i].name.clone(),
                    created_at: self.events[i].created_at,
                    visited_at: if self.events[i].visited_at >= now {
                        self.events[i].visited_at
                    } else {
                        now
                    },
                    times_blob: self.events[i].times_blob.clone(),
                    times: Ghost(self.events@[i as int].times@),
                    timezone: self.events[i].timezone.clone(),
                };
                self.events.set(i, bumped);
                proof {
                    assert(self@.events =~= pre.events.update(i as int, event_row_v(bumped)));
                    assert(self@ =~= touched(pre, id@, now as int));
                    assert forall|a: int| 0 <= a < self@.people.len() implies has_event(
                        self@,
                        (#[trigger] self@.people[a]).event_id,
                    ) by {
                        assert(self@.people[a] == pre.people[a]);
                        let w = choose|w: int|
                            0 <= w < pre.events.len() && (#[trigger] pre.events[w]).id
                                == pre.people[a].event_id;
                        assert(self@.events[w].id == pre.events[w].id);
                    }
                    assert forall|a: int, b: int| 0 <= a < b < self@.events.len() implies (
                    #[trigger] self@.events[a]).id != (#[trigger] self@.events[b]).id by {
                        assert(self@.events[a].id == pre.events[a].id);
                        assert(self@.events[b].id == pre.events[b].id);
                    }
                }
                Ok(Some(ret))
            },
        }
    }

    /// Touch on read at the current wall clock: as `get_event_at`,
    /// with `now` taken from the system clock. Nothing is assumed of
    /// the clock, so the contract promises only that the stored
    /// `visited_at` moved forward to some reading.
    pub fn get_event(&mut self, id: String) -> (r: Result<Option<Event>, AdaptorError>)
        requires
            old(self).wf(),
        ensures
            final(self).wf(),
            final(self).fault_now() == old(self).fault_now(),
            old(self).fault_now() == Some(FaultPoint::NextAccess) ==> r == Err::<
                Option<Event>,
                AdaptorError,
            >(AdaptorError::Store(StoreError::Backend)) && *final(self) == *old(self),
            old(self).fault_now() != Some(FaultPoint::NextAccess) ==> {
                &&& exists|t: int| final(self)@ == #[trigger] touched(old(self)@, id@, t)
                &&& !has_event(old(self)@, id@) ==> (r matches Ok(o) && o is None) && *final(self)
                    == *old(self)
                &&& has_event(old(self)@, id@) ==> (r matches Ok(o) && o matches Some(ev) && ev@
                    == event_at(old(self)@, id@)) && event_at(final(self)@, id@).visited_at
                    >= event_at(old(self)@, id@).visited_at
            },
    {
        let now = now_millis();
        let r = self.get_event_at(id, now);
        proof {
            if old(self).fault_now() != Some(FaultPoint::NextAccess) {
                assert(final(self)@ == touched(old(self)@, id@, now as int));
                if has_event(old(self)@, id@) {
                    crate::laws::lemma_touched_inv(old(self)@, id@, now as int);
                }
            }
        }
        r
    }

    /// Whether some event stored under `event_id` falls to a sweep at
    /// `cutoff`.
    fn is_doomed(&self, event_id: &String, cutoff: i64) -> (r: bool)
        ensures
            r == doomed(self@, event_id@, cutoff as int),
    {
        let mut i: usize = 0;
        while i < self.events.len()
            invariant
                0 <= i <= self.events@.len(),
                forall|j: int|
                    0 <= j < i ==> !((#[trigger] self@.events[j]).id == event_id@
                        && self@.events[j].visited_at < cutoff),
            decreases self.events@.len() - i,
        {
            if self.events[i].id == *event_id && self.events[i].visited_at < cutoff {
                proof {
                    assert(self@.events[i as int].id == event_id@);
                    assert(self@.events[i as int].visited_at < cutoff as int);
                }
                return true;
            }
            i = i + 1;
        }
        false
    }

    /// The retention sweep, one all-or-nothing transaction. Events
    /// whose stored `visited_at` is strictly earlier than `cutoff` are
    /// deleted; first every person row they own, then — re-filtered by
    /// the same predicate — the events themselves, dependents before
    /// owners so no orphan rows can exist under any store
    /// configuration. Returns the counts of rows actually removed by
    /// this sweep, not the post-delete totals: the stored stats row is
    /// deliberately not decremented. A fault injected anywhere in the
    /// sweep rolls the whole transaction back, leaving the store
    /// exactly as it was.
    pub fn delete_events(&mut self, cutoff: i64) -> (r: Result<Stats, AdaptorError>)
        requires
            old(self).wf(),
        ensures
            final(self).wf(),
            final(self).fault_now() == old(self).fault_now(),
            old(self).fault_now() is Some ==> r == Err::<Stats, AdaptorError>(
                AdaptorError::Transaction(StoreError::Backend),
            ) && *final(self) == *old(self),
            old(self).fault_now() is None ==> {
                &&& final(self)@ == swept(old(self)@, cutoff as int)
                &&& r matches Ok(st)
                &&& st@.event_count == old(self)@.events.len() - final(self)@.events.len()
                &&& st@.person_count == old(self)@.people.len() - final(self)@.people.len()
            },
    {
        if let Some(FaultPoint::NextAccess) = self.fault {
            return Err(AdaptorError::Transaction(StoreError::Backend));
        }
        let ghost pre = self@;
        // Steps 1 and 2: select the events older than the cutoff and
        // delete the person rows they own, totalling the rows removed.
        let mut kept_people: Vec<PersonRow> = Vec::new();
        let mut people_removed: i64 = 0;
        let mut i: usize = 0;
        proof {
            lemma_surviving_empty(pre.people, pre, cutoff as int);
            assert(people_rows_v(kept_people@) =~= surviving(
                pre.people.subrange(0, 0),
                pre,
                cutoff as int,
            ));
        }
        while i < self.people.len()
            invariant
                *self == *old(self),
                pre == self@,
                old(self).wf(),
                0 <= i <= self.people@.len(),
                people_rows_v(kept_people@) == surviving(
                    pre.people.subrange(0, i as int),
                    pre,
                    cutoff as int,
                ),
                kept_people@.len() <= i,
                people_removed as int == i - kept_people@.len(),
                forall|k: int|
                    0 <= k < kept_people@.len() ==> exists|j: int|
                        0 <= j < i && #[trigger] kept_people@[k] == self.people@[j],
                forall|k1: int, k2: int|
                    0 <= k1 < k2 < kept_people@.len() ==> !same_person_key(
                        person_row_v(#[trigger] kept_people@[k1]),
                        person_row_v(#[trigger] kept_people@[k2]),
                    ),
                forall|k: int|
                    0 <= k < kept_people@.len() ==> !doomed(
                        pre,
                        person_row_v(#[trigger] kept_people@[k]).event_id,
                        cutoff as int,
                    ),
            decreases self.people@.len() - i,
        {
            let d = self.is_doomed(&self.people[i].event_id, cutoff);
            proof {
                lemma_surviving_step(pre.people, pre, cutoff as int, i as int);
                assert(pre.people[i as int] == person_row_v(self.people@[i as int]));
            }
            if d {
                people_removed = people_removed + 1;
            } else {
                let c = clone_person_row(&self.people[i]);
                let ghost kept0 = kept_people@;
                kept_people.push(c);
                proof {
                    assert(people_rows_v(kept_people@) =~= surviving(
                        pre.people.subrange(0, i + 1 as int),
                        pre,
                        cutoff as int,
                    ));
                    assert forall|k1: int, k2: int|
                        0 <= k1 < k2 < kept_people@.len() implies !same_person_key(
                        person_row_v(#[trigger] kept_people@[k1]),
                        person_row_v(#[trigger] kept_people@[k2]),
                    ) by {
                        assert(kept_people@[k1] == kept0[k1]);
                        if k2 == kept_people@.len() - 1 {
                            let j = choose|j: int|
                                0 <= j < i && #[trigger] kept0[k1] == self.people@[j];
                            assert(pre.people[j] == person_row_v(self.people@[j]));
                            assert(person_row_v(kept_people@[k1]) == pre.people[j]);
                            assert(person_row_v(kept_people@[k2]) == pre.people[i as int]);
                            assert(!same_person_key(pre.people[j], pre.people[i as int]));
                        } else {
                            assert(kept_people@[k2] == kept0[k2]);
                        }
                    }
                }
            }
            i = i + 1;
        }
        proof {
            assert(pre.people.subrange(0, pre.people.len() as int) =~= pre.people);
        }
        // The injected failure point between step 2 and step 3: the
        // transaction aborts and nothing of the sweep is visible.
        if let Some(FaultPoint::AfterPeopleDelete) = self.fault {
            return Err(AdaptorError::Transaction(StoreError::Backend));
        }
        // Step 3: delete the events, re-filtered by the same predicate
        // rather than by the ids selected in step 1.
        let mut kept_events: Vec<EventRow> = Vec::new();
        let mut events_removed: i64 = 0;
        let mut e: usize = 0;
        proof {
            lemma_live_events_empty(pre.events, cutoff as int);
            assert(event_rows_v(kept_events@) =~= live_events(
                pre.events.subrange(0, 0),
                cutoff as int,
            ));
        }
        while e < self.events.len()
            invariant
                *self == *old(self),
                pre == self@,
                old(self).wf(),
                0 <= e <= self.events@.len(),
                event_rows_v(kept_events@) == live_events(
                    pre.events.subrange(0, e as int),
                    cutoff as int,
                ),
                kept_events@.len() <= e,
                events_removed as int == e - kept_events@.len(),
                forall|k: int|
                    0 <= k < kept_events@.len() ==> exists|j: int|
                        0 <= j < e && #[trigger] kept_events@[k] == self.events@[j],
                forall|k1: int, k2: int|
                    0 <= k1 < k2 < kept_events@.len() ==> event_row_v(
                        #[trigger] kept_events@[k1],
                    ).id != event_row_v(#[trigger] kept_events@[k2]).id,
                forall|j: int|
                    0 <= j < e && (#[trigger] pre.events[j]).visited_at >= cutoff as int
                        ==> exists|k: int|
                        0 <= k < kept_events@.len() && #[trigger] kept_events@[k]
                            == self.events@[j],
            decreases self.events@.len() - e,
        {
            proof {
                lemma_live_events_step(pre.events, cutoff as int, e as int);
                assert(pre.events[e as int] == event_row_v(self.events@[e as int]));
            }
            if self.events[e].visited_at >= cutoff {
                let c = clone_event_row(&self.events[e]);
                let ghost kept0 = kept_events@;
                kept_events.push(c);
                proof {
                    assert(event_rows_v(kept_events@) =~= live_events(
                        pre.events.subrange(0, e + 1 as int),
                        cutoff as int,
                    ));
                    assert forall|k1: int, k2: int|
                        0 <= k1 < k2 < kept_events@.len() implies event_row_v(
                        #[trigger] kept_events@[k1],
                    ).id != event_row_v(#[trigger] kept_events@[k2]).id by {
                        assert(kept_events@[k1] == kept0[k1]);
                        if k2 == kept_events@.len() - 1 {
                            let j = choose|j: int|
                                0 <= j < e && #[trigger] kept0[k1] == self.events@[j];
                            assert(pre.events[j] == event_row_v(self.events@[j]));
                            assert(event_row_v(kept_events@[k1]) == pre.events[j]);
                            assert(event_row_v(kept_events@[k2]) == pre.events[e as int]);
                            assert(pre.events[j].id != pre.events[e as int].id);
                        } else {
                            assert(kept_events@[k2] == kept0[k2]);
                        }
                    }
                    assert forall|j: int|
                        0 <= j < e + 1 && (#[trigger] pre.events[j]).visited_at >= cutoff as int
                            implies exists|k: int|
                        0 <= k < kept_events@.len() && #[trigger] kept_events@[k]
                            == self.events@[j] by {
                        if j < e {
                            let k0 = choose|k: int|
                                0 <= k < kept0.len() && #[trigger] kept0[k] == self.events@[j];
                            assert(kept_events@[k0] == self.events@[j]);
                        } else {
                            assert(kept_events@[kept_events@.len() - 1] == self.events@[e as int]);
                        }
                    }
                }
            } else {
                events_removed = events_removed + 1;
                proof {
                    assert forall|j: int|
                        0 <= j < e + 1 && (#[trigger] pre.events[j]).visited_at >= cutoff as int
                            implies exists|k: int|
                        0 <= k < kept_events@.len() && #[trigger] kept_events@[k]
                            == self.events@[j] by {
                        if j < e {
                            let k0 = choose|k: int|
                                0 <= k < kept_events@.len() && #[trigger] kept_events@[k]
                                    == self.events@[j];
                        } else {
                            assert(pre.events[e as int] == event_row_v(self.events@[e as int]));
                            assert(false);
                        }
                    }
                }
            }
            e = e + 1;
        }
        proof {
            assert(pre.events.subrange(0, pre.events.len() as int) =~= pre.events);
        }
        // Commit: all deletions become visible together.
        let ghost kept_people_rows = kept_people@;
        let ghost kept_event_rows = kept_events@;
        self.people = kept_people;
        self.events = kept_events;
        proof {
            assert(self@ =~= swept(pre, cutoff as int));
            assert forall|a: int| 0 <= a < self@.people.len() implies has_event(
                self@,
                (#[trigger] self@.people[a]).event_id,
            ) by {
                let j = choose|j: int|
                    0 <= j < pre.people.len() && #[trigger] kept_people_rows[a]
                        == old(self).people@[j];
                assert(person_row_v(kept_people_rows[a]) == pre.people[j]);
                assert(has_event(pre, pre.people[j].event_id));
                let w = choose|w: int|
                    0 <= w < pre.events.len() && (#[trigger] pre.events[w]).id
                        == pre.people[j].event_id;
                assert(!doomed(pre, person_row_v(kept_people_rows[a]).event_id, cutoff as int));
                assert(pre.events[w].visited_at >= cutoff as int);
                let k = choose|k: int|
                    0 <= k < kept_event_rows.len() && #[trigger] kept_event_rows[k]
                        == old(self).events@[w];
                assert(self@.events[k].id == pre.events[w].id);
            }
            assert forall|a: int|
                0 <= a < self@.events.len() implies (#[trigger] self@.events[a]).visited_at
                >= self@.events[a].created_at by {
                let j = choose|j: int|
                    0 <= j < pre.events.len() && #[trigger] kept_event_rows[a]
                        == old(self).events@[j];
                assert(event_row_v(kept_event_rows[a]) == pre.events[j]);
            }
        }
        Ok(Stats { event_count: events_removed, person_count: people_removed })
    }
}

/// Duplicate a person row, field by field.
fn clone_person_row(r: &PersonRow) -> (c: PersonRow)
    ensures
        c == *r,
{
    PersonRow {
        event_id: r.event_id.clone(),
        name: r.name.clone(),
        password_hash: r.password_hash.clone(),
        created_at: r.created_at,
        availability_blob: r.availability_blob.clone(),
        availability: Ghost(r.availability@),
    }
}

/// Duplicate an event row, field by field.
fn clone_event_row(r: &EventRow) -> (c: EventRow)
    ensures
        c == *r,
{
    EventRow {
        id: r.id.clone(),
        name: r.name.clone(),
        created_at: r.created_at,
        visited_at: r.visited_at,
        times_blob: r.times_blob.clone(),
        times: Ghost(r.times@),
        timezone: r.timezone.clone(),
    }
}

/// Materialize a person value from its stored row, deserializing the
/// availability column; an undecodable column is read as the empty
/// list, which a well-formed store never holds.
fn person_of_row(r: &PersonRow) -> (p: Person)
    requires
        r.availability_blob@ == json_slots(r.availability@),
    ensures
        p@ == person_row_v(*r).person,
{
    let availability = match decode_slots(r.availability_blob.as_str()) {
        Some(w) => w,
        None => Vec::new(),
    };
    Person {
        name: r.name.clone(),
        password_hash: r.password_hash.clone(),
        created_at: r.created_at,
        availability,
    }
}

/// Materialize an event value from its stored row, deserializing the
/// times column; an undecodable column is read as the empty list,
/// which a well-formed store never holds.
fn event_of_row(r: &EventRow) -> (e: Event)
    requires
        r.times_blob@ == json_slots(r.times@),
    ensures
        e@ == event_row_v(*r),
{
    let times = match decode_slots(r.times_blob.as_str()) {
        Some(w) => w,
        None => Vec::new(),
    };
    Event {
        id: r.id.clone(),
        name: r.name.clone(),
        created_at: r.created_at,
        visited_at: r.visited_at,
        times,
        timezone: r.timezone.clone(),
    }
}

} // verus!
