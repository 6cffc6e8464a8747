use vstd::prelude::*;

verus! {

/// Mathematical view of an [`Event`]: all timestamps as unbounded
/// integers, strings and slot lists as sequences.
#[verifier::ext_equal]
pub ghost struct EventV {
    pub id: Seq<char>,
    pub name: Seq<char>,
    pub created_at: int,
    pub visited_at: int,
    pub times: Seq<i64>,
    pub timezone: Seq<char>,
}

/// Mathematical view of a [`Person`].
#[verifier::ext_equal]
pub ghost struct PersonV {
    pub name: Seq<char>,
    pub password_hash: Seq<char>,
    pub created_at: int,
    pub availability: Seq<i64>,
}

/// Mathematical view of a [`Stats`] value.
#[verifier::ext_equal]
pub ghost struct StatsV {
    pub event_count: int,
    pub person_count: int,
}

/// An event: a set of proposed meeting times under a timezone.
///
/// `id` is an externally supplied unique key, immutable after creation.
/// `visited_at` is bumped forward by every read of the event
/// ("touch on read") and never moves backward, so
/// `visited_at >= created_at` holds at all times. Timestamps are
/// milliseconds since the Unix epoch; `times` is the ordered list of
/// proposed slots, stored serialized as an opaque blob.
#[derive(Debug, Clone, PartialEq, Eq)]
pub struct Event {
    pub id: String,
    pub name: String,
    pub created_at: i64,
    pub visited_at: i64,
    pub times: Vec<i64>,
    pub timezone: String,
}

/// A person registered against an event.
///
/// The pair (name, owning event id) is the person's identity: one
/// person per name per event. `availability` is the ordered list of
/// chosen slots, stored serialized as an opaque blob.
#[derive(Debug, Clone, PartialEq, Eq)]
pub struct Person {
    pub name: String,
    pub password_hash: String,
    pub created_at: i64,
    pub availability: Vec<i64>,
}

/// Aggregate usage counters.
///
/// As the singleton stats row these are running totals maintained by
/// the explicit increment operations; as the result of the retention
/// sweep they are the counts of rows removed by that one sweep. The
/// sweep never decrements the stored totals: the stored counters track
/// lifetime totals, not live row counts.
#[derive(Debug, Clone, Copy, PartialEq, Eq)]
pub struct Stats {
    pub event_count: i64,
    pub person_count: i64,
}

impl View for Event {
    type V = EventV;

    open spec fn view(&self) -> EventV {
        EventV {
            id: self.id@,
            name: self.name@,
            created_at: self.created_at as int,
            visited_at: self.visited_at as int,
            times: self.times@,
            timezone: self.timezone@,
        }
    }
}

impl View for Person {
    type V = PersonV;

    open spec fn view(&self) -> PersonV {
        PersonV {
            name: self.name@,
            password_hash: self.password_hash@,
            created_at: self.created_at as int,
            availability: self.availability@,
        }
    }
}

impl View for Stats {
    type V = StatsV;

    open spec fn view(&self) -> StatsV {
        StatsV {
            event_count: self.event_count as int,
            person_count: self.person_count as int,
        }
    }
}

} // verus!
