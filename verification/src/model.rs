use vstd::prelude::*;

use crate::values::EventV;
use crate::values::Person;
use crate::values::PersonV;
use crate::values::StatsV;

verus! {

/// A person as the store holds it: the person value together with the
/// id of the owning event. The pair (event id, person name) is the
/// row's identity.
#[verifier::ext_equal]
pub ghost struct PersonRowV {
    pub event_id: Seq<char>,
    pub person: PersonV,
}

/// Mathematical view of the whole store: the event rows and person
/// rows in store order, and the singleton stats row, absent until it
/// is first materialized.
#[verifier::ext_equal]
pub ghost struct StoreV {
    pub events: Seq<EventV>,
    pub people: Seq<PersonRowV>,
    pub stats: Option<StatsV>,
}

/// The store of a fresh deployment: no rows at all.
pub open spec fn empty_store() -> StoreV {
    StoreV { events: Seq::empty(), people: Seq::empty(), stats: None }
}

/// The counters a read of the stats row observes: zeroes while the row
/// has never been persisted.
pub open spec fn stats_now(s: StoreV) -> StatsV {
    match s.stats {
        Some(t) => t,
        None => StatsV { event_count: 0, person_count: 0 },
    }
}

/// Whether two person rows collide on their composite identity.
pub open spec fn same_person_key(a: PersonRowV, b: PersonRowV) -> bool {
    a.event_id == b.event_id && a.person.name == b.person.name
}

pub open spec fn has_event(s: StoreV, id: Seq<char>) -> bool {
    exists|i: int| 0 <= i < s.events.len() && (#[trigger] s.events[i]).id == id
}

pub open spec fn event_idx(s: StoreV, id: Seq<char>) -> int {
    choose|i: int| 0 <= i < s.events.len() && (#[trigger] s.events[i]).id == id
}

/// The event stored under `id` (meaningful only when `has_event`).
pub open spec fn event_at(s: StoreV, id: Seq<char>) -> EventV {
    s.events[event_idx(s, id)]
}

pub open spec fn has_person(s: StoreV, event_id: Seq<char>, name: Seq<char>) -> bool {
    exists|i: int|
        0 <= i < s.people.len() && (#[trigger] s.people[i]).event_id == event_id
            && s.people[i].person.name == name
}

pub open spec fn person_idx(s: StoreV, event_id: Seq<char>, name: Seq<char>) -> int {
    choose|i: int|
        0 <= i < s.people.len() && (#[trigger] s.people[i]).event_id == event_id
            && s.people[i].person.name == name
}

/// The person rows owned by `event_id`, in store order.
pub open spec fn people_rows_of(ps: Seq<PersonRowV>, event_id: Seq<char>) -> Seq<PersonRowV> {
    ps.filter(|p: PersonRowV| p.event_id == event_id)
}

/// The person values of a sequence of person rows, in order.
pub open spec fn persons_of_rows(prs: Seq<PersonRowV>) -> Seq<PersonV> {
    prs.map_values(|p: PersonRowV| p.person)
}

/// What `get_people` returns for an existing event: the owned person
/// values, in store order.
pub open spec fn people_of(s: StoreV, event_id: Seq<char>) -> Seq<PersonV> {
    persons_of_rows(people_rows_of(s.people, event_id))
}

/// The views of a vector of person values, in order.
pub open spec fn people_views(ps: Seq<Person>) -> Seq<PersonV> {
    ps.map_values(|q: Person| q@)
}

/// Whether some event stored under `event_id` falls to a sweep at
/// `cutoff`: its `visited_at` is strictly earlier.
pub open spec fn doomed(s: StoreV, event_id: Seq<char>, cutoff: int) -> bool {
    exists|i: int|
        0 <= i < s.events.len() && (#[trigger] s.events[i]).id == event_id
            && s.events[i].visited_at < cutoff
}

/// The events a sweep at `cutoff` retains.
pub open spec fn live_events(es: Seq<EventV>, cutoff: int) -> Seq<EventV> {
    es.filter(|e: EventV| e.visited_at >= cutoff)
}

/// The person rows a sweep at `cutoff` retains: those whose owning
/// event is not removed.
pub open spec fn surviving(ps: Seq<PersonRowV>, s: StoreV, cutoff: int) -> Seq<PersonRowV> {
    ps.filter(|p: PersonRowV| !doomed(s, p.event_id, cutoff))
}

/// The store after a retention sweep at `cutoff`: events visited
/// strictly before the cutoff are gone, and with them every person
/// they owned. The stats row is untouched: the sweep reports deltas,
/// it never decrements the stored totals.
pub open spec fn swept(s: StoreV, cutoff: int) -> StoreV {
    StoreV {
        events: live_events(s.events, cutoff),
        people: surviving(s.people, s, cutoff),
        stats: s.stats,
    }
}

/// The store after `upsert_person(event_id, p)`: unchanged when the
/// event does not exist; otherwise the one row keyed (event_id,
/// p.name) is overwritten if present, appended if not.
pub open spec fn upserted(s: StoreV, event_id: Seq<char>, p: PersonV) -> StoreV {
    if !has_event(s, event_id) {
        s
    } else if has_person(s, event_id, p.name) {
        StoreV {
            people: s.people.update(
                person_idx(s, event_id, p.name),
                PersonRowV { event_id: event_id, person: p },
            ),
            ..s
        }
    } else {
        StoreV { people: s.people.push(PersonRowV { event_id: event_id, person: p }), ..s }
    }
}

/// The store after the touch-on-read of `get_event(id)` at clock
/// reading `now`: the stored `visited_at` is bumped forward to `now`,
/// and never moved backward.
pub open spec fn touched(s: StoreV, id: Seq<char>, now: int) -> StoreV {
    if !has_event(s, id) {
        s
    } else {
        let i = event_idx(s, id);
        let e = s.events[i];
        StoreV {
            events: s.events.update(
                i,
                EventV { visited_at: if e.visited_at >= now { e.visited_at } else { now }, ..e },
            ),
            ..s
        }
    }
}

/// The store after `create_event(e)` succeeds: the event row appended.
pub open spec fn created(s: StoreV, e: EventV) -> StoreV {
    StoreV { events: s.events.push(e), ..s }
}

/// Consistency of the durable state.
///
/// Event ids are unique; person rows are unique per (event id, name);
/// no person row is orphaned; a stored event was never visited before
/// it was created; row counts and the stored counters fit the signed
/// 64-bit counters of the interface.
pub open spec fn inv(s: StoreV) -> bool {
    &&& forall|i: int, j: int|
        0 <= i < j < s.events.len() ==> (#[trigger] s.events[i]).id != (#[trigger] s.events[j]).id
    &&& forall|i: int, j: int|
        0 <= i < j < s.people.len() ==> !same_person_key(
            #[trigger] s.people[i],
            #[trigger] s.people[j],
        )
    &&& forall|i: int| 0 <= i < s.people.len() ==> has_event(s, (#[trigger] s.people[i]).event_id)
    &&& forall|i: int|
        0 <= i < s.events.len() ==> (#[trigger] s.events[i]).visited_at >= s.events[i].created_at
    &&& s.events.len() <= 0x7fff_ffff_ffff_ffff
    &&& s.people.len() <= 0x7fff_ffff_ffff_ffff
    &&& match s.stats {
        Some(t) => t.event_count >= 0 && t.person_count >= 0,
        None => true,
    }
}

/// With unique event ids, any index holding `id` is the index
/// `event_idx` picks.
pub proof fn lemma_event_idx_is(s: StoreV, id: Seq<char>, i: int)
    requires
        forall|a: int, b: int|
            0 <= a < b < s.events.len() ==> (#[trigger] s.events[a]).id != (
            #[trigger] s.events[b]).id,
        0 <= i < s.events.len(),
        s.events[i].id == id,
    ensures
        has_event(s, id),
        event_idx(s, id) == i,
        event_at(s, id) == s.events[i],
{
    assert(has_event(s, id));
    let j = event_idx(s, id);
    assert(0 <= j < s.events.len() && s.events[j].id == id);
    if i < j {
        assert(s.events[i].id != s.events[j].id);
    } else if j < i {
        assert(s.events[j].id != s.events[i].id);
    }
}

/// With unique person keys, any index holding the key is the index
/// `person_idx` picks.
pub proof fn lemma_person_idx_is(s: StoreV, event_id: Seq<char>, name: Seq<char>, i: int)
    requires
        forall|a: int, b: int|
            0 <= a < b < s.people.len() ==> !same_person_key(
                #[trigger] s.people[a],
                #[trigger] s.people[b],
            ),
        0 <= i < s.people.len(),
        s.people[i].event_id == event_id,
        s.people[i].person.name == name,
    ensures
        has_person(s, event_id, name),
        person_idx(s, event_id, name) == i,
{
    assert(has_person(s, event_id, name));
    let j = person_idx(s, event_id, name);
    assert(0 <= j < s.people.len() && s.people[j].event_id == event_id
        && s.people[j].person.name == name);
    if i < j {
        assert(!same_person_key(s.people[i], s.people[j]));
    } else if j < i {
        assert(!same_person_key(s.people[j], s.people[i]));
    }
}

/// One step of the event filter: extending the scanned prefix by one
/// row keeps or drops exactly that row.
pub proof fn lemma_live_events_step(es: Seq<EventV>, cutoff: int, i: int)
    requires
        0 <= i < es.len(),
    ensures
        es[i].visited_at >= cutoff ==> live_events(es.subrange(0, i + 1), cutoff)
            == live_events(es.subrange(0, i), cutoff).push(es[i]),
        es[i].visited_at < cutoff ==> live_events(es.subrange(0, i + 1), cutoff)
            == live_events(es.subrange(0, i), cutoff),
{
    reveal_with_fuel(Seq::filter, 2);
    let pre1 = es.subrange(0, i + 1);
    assert(pre1.drop_last() =~= es.subrange(0, i));
    assert(pre1.last() == es[i]);
}

/// The empty prefix filters to the empty sequence.
pub proof fn lemma_live_events_empty(es: Seq<EventV>, cutoff: int)
    ensures
        live_events(es.subrange(0, 0), cutoff) == Seq::<EventV>::empty(),
{
    reveal_with_fuel(Seq::filter, 2);
    assert(es.subrange(0, 0) =~= Seq::<EventV>::empty());
    assert(live_events(Seq::<EventV>::empty(), cutoff) =~= Seq::<EventV>::empty());
}

/// Every retained event passed the cutoff test and comes from the
/// input; every input event that passes the test is retained.
pub proof fn lemma_live_events_props(es: Seq<EventV>, cutoff: int)
    ensures
        live_events(es, cutoff).len() <= es.len(),
        forall|k: int|
            0 <= k < live_events(es, cutoff).len() ==> (#[trigger] live_events(es, cutoff)[k]).visited_at
                >= cutoff && es.contains(live_events(es, cutoff)[k]),
        forall|j: int|
            0 <= j < es.len() && (#[trigger] es[j]).visited_at >= cutoff ==> live_events(
                es,
                cutoff,
            ).contains(es[j]),
    decreases es.len(),
{
    reveal_with_fuel(Seq::filter, 2);
    if es.len() == 0 {
    } else {
        let head = es.drop_last();
        lemma_live_events_props(head, cutoff);
        assert(forall|k: int|
            0 <= k < head.len() ==> head[k] == es[k] && es.contains(#[trigger] head[k]));
        assert(forall|x: EventV| head.contains(x) ==> es.contains(x));
        assert(es.contains(es.last()));
        assert(forall|j: int|
            0 <= j < es.len() && (#[trigger] es[j]).visited_at >= cutoff ==> live_events(
                es,
                cutoff,
            ).contains(es[j])) by {
            assert forall|j: int|
                0 <= j < es.len() && (#[trigger] es[j]).visited_at >= cutoff implies live_events(
                es,
                cutoff,
            ).contains(es[j]) by {
                if j < es.len() - 1 {
                    assert(head.contains(es[j]) || !head.contains(es[j]));
                    assert(head[j] == es[j]);
                    assert(live_events(head, cutoff).contains(es[j]));
                    let k = choose|k: int|
                        0 <= k < live_events(head, cutoff).len() && live_events(head, cutoff)[k]
                            == es[j];
                    if es.last().visited_at >= cutoff {
                        assert(live_events(es, cutoff) == live_events(head, cutoff).push(
                            es.last(),
                        ));
                        assert(live_events(es, cutoff)[k] == es[j]);
                    } else {
                        assert(live_events(es, cutoff) == live_events(head, cutoff));
                    }
                } else {
                    assert(es[j] == es.last());
                    assert(live_events(es, cutoff) == live_events(head, cutoff).push(es.last()));
                    assert(live_events(es, cutoff).last() == es.last());
                }
            }
        }
    }
}

/// One step of the ownership filter behind `get_people`.
pub proof fn lemma_people_rows_of_step(ps: Seq<PersonRowV>, event_id: Seq<char>, i: int)
    requires
        0 <= i < ps.len(),
    ensures
        ps[i].event_id == event_id ==> people_rows_of(ps.subrange(0, i + 1), event_id)
            == people_rows_of(ps.subrange(0, i), event_id).push(ps[i]),
        ps[i].event_id != event_id ==> people_rows_of(ps.subrange(0, i + 1), event_id)
            == people_rows_of(ps.subrange(0, i), event_id),
{
    reveal_with_fuel(Seq::filter, 2);
    let pre1 = ps.subrange(0, i + 1);
    assert(pre1.drop_last() =~= ps.subrange(0, i));
    assert(pre1.last() == ps[i]);
}

pub proof fn lemma_people_rows_of_empty(ps: Seq<PersonRowV>, event_id: Seq<char>)
    ensures
        people_rows_of(ps.subrange(0, 0), event_id) == Seq::<PersonRowV>::empty(),
{
    reveal_with_fuel(Seq::filter, 2);
    assert(ps.subrange(0, 0) =~= Seq::<PersonRowV>::empty());
    assert(people_rows_of(Seq::<PersonRowV>::empty(), event_id) =~= Seq::<PersonRowV>::empty());
}

/// Every row `get_people` selects is owned by the event and comes
/// from the input; every input row the event owns is selected.
pub proof fn lemma_people_rows_of_props(ps: Seq<PersonRowV>, event_id: Seq<char>)
    ensures
        people_rows_of(ps, event_id).len() <= ps.len(),
        forall|k: int|
            0 <= k < people_rows_of(ps, event_id).len() ==> (#[trigger] people_rows_of(
                ps,
                event_id,
            )[k]).event_id == event_id && ps.contains(people_rows_of(ps, event_id)[k]),
        forall|j: int|
            0 <= j < ps.len() && (#[trigger] ps[j]).event_id == event_id ==> people_rows_of(
                ps,
                event_id,
            ).contains(ps[j]),
    decreases ps.len(),
{
    reveal_with_fuel(Seq::filter, 2);
    if ps.len() == 0 {
    } else {
        let head = ps.drop_last();
        lemma_people_rows_of_props(head, event_id);
        assert(forall|k: int|
            0 <= k < head.len() ==> head[k] == ps[k] && ps.contains(#[trigger] head[k]));
        assert(ps.contains(ps.last()));
        assert forall|j: int|
            0 <= j < ps.len() && (#[trigger] ps[j]).event_id == event_id implies people_rows_of(
            ps,
            event_id,
        ).contains(ps[j]) by {
            if j < ps.len() - 1 {
                assert(head[j] == ps[j]);
                assert(people_rows_of(head, event_id).contains(ps[j]));
                let k = choose|k: int|
                    0 <= k < people_rows_of(head, event_id).len() && people_rows_of(
                        head,
                        event_id,
                    )[k] == ps[j];
                if ps.last().event_id == event_id {
                    assert(people_rows_of(ps, event_id) == people_rows_of(head, event_id).push(
                        ps.last(),
                    ));
                    assert(people_rows_of(ps, event_id)[k] == ps[j]);
                } else {
                    assert(people_rows_of(ps, event_id) == people_rows_of(head, event_id));
                }
            } else {
                assert(ps[j] == ps.last());
                assert(people_rows_of(ps, event_id) == people_rows_of(head, event_id).push(
                    ps.last(),
                ));
                assert(people_rows_of(ps, event_id).last() == ps.last());
            }
        }
    }
}

/// When the input rows have pairwise-distinct identities, so does the
/// selection `get_people` makes.
pub proof fn lemma_people_rows_of_distinct(prs: Seq<PersonRowV>, event_id: Seq<char>)
    requires
        forall|a: int, b: int|
            0 <= a < b < prs.len() ==> !same_person_key(#[trigger] prs[a], #[trigger] prs[b]),
    ensures
        forall|a: int, b: int|
            0 <= a < b < people_rows_of(prs, event_id).len() ==> !same_person_key(
                #[trigger] people_rows_of(prs, event_id)[a],
                #[trigger] people_rows_of(prs, event_id)[b],
            ),
    decreases prs.len(),
{
    reveal_with_fuel(Seq::filter, 2);
    if prs.len() == 0 {
    } else {
        let head = prs.drop_last();
        assert(forall|k: int| 0 <= k < head.len() ==> head[k] == prs[k]);
        lemma_people_rows_of_distinct(head, event_id);
        lemma_people_rows_of_props(head, event_id);
        let sel = people_rows_of(prs, event_id);
        let sel0 = people_rows_of(head, event_id);
        if prs.last().event_id == event_id {
            assert(sel == sel0.push(prs.last()));
            assert forall|a: int, b: int|
                0 <= a < b < sel.len() implies !same_person_key(
                #[trigger] sel[a],
                #[trigger] sel[b],
            ) by {
                if b == sel.len() - 1 {
                    assert(sel[a] == sel0[a]);
                    assert(head.contains(sel0[a]));
                    let w = choose|w: int| 0 <= w < head.len() && head[w] == sel0[a];
                    assert(prs[w] == sel0[a]);
                    assert(!same_person_key(prs[w], prs[prs.len() - 1]));
                } else {
                    assert(sel[a] == sel0[a] && sel[b] == sel0[b]);
                }
            }
        } else {
            assert(sel == sel0);
        }
    }
}

/// One step of the person filter, and its base and element facts, in
/// the same shape as for events.
pub proof fn lemma_surviving_step(ps: Seq<PersonRowV>, s: StoreV, cutoff: int, i: int)
    requires
        0 <= i < ps.len(),
    ensures
        !doomed(s, ps[i].event_id, cutoff) ==> surviving(ps.subrange(0, i + 1), s, cutoff)
            == surviving(ps.subrange(0, i), s, cutoff).push(ps[i]),
        doomed(s, ps[i].event_id, cutoff) ==> surviving(ps.subrange(0, i + 1), s, cutoff)
            == surviving(ps.subrange(0, i), s, cutoff),
{
    reveal_with_fuel(Seq::filter, 2);
    let pre1 = ps.subrange(0, i + 1);
    assert(pre1.drop_last() =~= ps.subrange(0, i));
    assert(pre1.last() == ps[i]);
}

pub proof fn lemma_surviving_empty(ps: Seq<PersonRowV>, s: StoreV, cutoff: int)
    ensures
        surviving(ps.subrange(0, 0), s, cutoff) == Seq::<PersonRowV>::empty(),
{
    reveal_with_fuel(Seq::filter, 2);
    assert(ps.subrange(0, 0) =~= Seq::<PersonRowV>::empty());
    assert(surviving(Seq::<PersonRowV>::empty(), s, cutoff) =~= Seq::<PersonRowV>::empty());
}

/// Every surviving person row kept its owner out of the sweep, and
/// comes from the input; every input row whose owner is retained
/// survives.
pub proof fn lemma_surviving_props(ps: Seq<PersonRowV>, s: StoreV, cutoff: int)
    ensures
        surviving(ps, s, cutoff).len() <= ps.len(),
        forall|k: int|
            0 <= k < surviving(ps, s, cutoff).len() ==> !doomed(
                s,
                (#[trigger] surviving(ps, s, cutoff)[k]).event_id,
                cutoff,
            ) && ps.contains(surviving(ps, s, cutoff)[k]),
        forall|j: int|
            0 <= j < ps.len() && !doomed(s, (#[trigger] ps[j]).event_id, cutoff) ==> surviving(
                ps,
                s,
                cutoff,
            ).contains(ps[j]),
    decreases ps.len(),
{
    reveal_with_fuel(Seq::filter, 2);
    if ps.len() == 0 {
    } else {
        let head = ps.drop_last();
        lemma_surviving_props(head, s, cutoff);
        assert(forall|k: int|
            0 <= k < head.len() ==> head[k] == ps[k] && ps.contains(#[trigger] head[k]));
        assert(ps.contains(ps.last()));
        assert forall|j: int|
            0 <= j < ps.len() && !doomed(s, (#[trigger] ps[j]).event_id, cutoff) implies surviving(
            ps,
            s,
            cutoff,
        ).contains(ps[j]) by {
            if j < ps.len() - 1 {
                assert(head[j] == ps[j]);
                assert(surviving(head, s, cutoff).contains(ps[j]));
                let k = choose|k: int|
                    0 <= k < surviving(head, s, cutoff).len() && surviving(head, s, cutoff)[k]
                        == ps[j];
                if !doomed(s, ps.last().event_id, cutoff) {
                    assert(surviving(ps, s, cutoff) == surviving(head, s, cutoff).push(ps.last()));
                    assert(surviving(ps, s, cutoff)[k] == ps[j]);
                } else {
                    assert(surviving(ps, s, cutoff) == surviving(head, s, cutoff));
                }
            } else {
                assert(ps[j] == ps.last());
                assert(surviving(ps, s, cutoff) == surviving(head, s, cutoff).push(ps.last()));
                assert(surviving(ps, s, cutoff).last() == ps.last());
            }
        }
    }
}

} // verus!
