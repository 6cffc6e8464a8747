use vstd::prelude::*;

use crate::model::doomed;
use crate::model::event_at;
use crate::model::event_idx;
use crate::model::has_event;
use crate::model::has_person;
use crate::model::inv;
use crate::model::lemma_event_idx_is;
use crate::model::lemma_live_events_props;
use crate::model::lemma_people_rows_of_distinct;
use crate::model::lemma_people_rows_of_props;
use crate::model::lemma_person_idx_is;
use crate::model::lemma_surviving_props;
use crate::model::people_of;
use crate::model::people_rows_of;
use crate::model::person_idx;
use crate::model::persons_of_rows;
use crate::model::same_person_key;
use crate::model::swept;
use crate::model::touched;
use crate::model::upserted;
use crate::model::PersonRowV;
use crate::model::StoreV;
use crate::values::PersonV;

verus! {

/// An upsert against an existing event touches nothing but the person
/// rows, keeps their identities pairwise distinct, and leaves exactly
/// the written row under its key.
pub proof fn lemma_upserted_people(s: StoreV, event_id: Seq<char>, p: PersonV)
    requires
        forall|a: int, b: int|
            0 <= a < b < s.people.len() ==> !same_person_key(
                #[trigger] s.people[a],
                #[trigger] s.people[b],
            ),
        has_event(s, event_id),
    ensures
        forall|a: int, b: int|
            0 <= a < b < upserted(s, event_id, p).people.len() ==> !same_person_key(
                #[trigger] upserted(s, event_id, p).people[a],
                #[trigger] upserted(s, event_id, p).people[b],
            ),
        upserted(s, event_id, p).events == s.events,
        upserted(s, event_id, p).stats == s.stats,
        has_person(upserted(s, event_id, p), event_id, p.name),
        upserted(s, event_id, p).people[person_idx(upserted(s, event_id, p), event_id, p.name)]
            == (PersonRowV { event_id: event_id, person: p }),
{
    let row = PersonRowV { event_id: event_id, person: p };
    let t = upserted(s, event_id, p);
    if has_person(s, event_id, p.name) {
        let k = person_idx(s, event_id, p.name);
        assert(0 <= k < s.people.len() && s.people[k].event_id == event_id
            && s.people[k].person.name == p.name);
        assert(t.people == s.people.update(k, row));
        assert forall|a: int, b: int| 0 <= a < b < t.people.len() implies !same_person_key(
            #[trigger] t.people[a],
            #[trigger] t.people[b],
        ) by {
            assert(!same_person_key(s.people[a], s.people[b]));
        }
        lemma_person_idx_is(t, event_id, p.name, k);
    } else {
        let n = s.people.len() as int;
        assert(t.people == s.people.push(row));
        assert forall|a: int, b: int| 0 <= a < b < t.people.len() implies !same_person_key(
            #[trigger] t.people[a],
            #[trigger] t.people[b],
        ) by {
            if b == n {
                assert(t.people[a] == s.people[a]);
                assert(!(s.people[a].event_id == event_id && s.people[a].person.name == p.name));
            } else {
                assert(t.people[a] == s.people[a] && t.people[b] == s.people[b]);
            }
        }
        lemma_person_idx_is(t, event_id, p.name, n);
    }
}

/// When the store's person rows have pairwise-distinct identities and
/// a row stands at index `m` under `event_id`, the people listed for
/// `event_id` contain that row's person exactly once under its name.
proof fn lemma_people_of_unique_row(prs: Seq<PersonRowV>, event_id: Seq<char>, m: int)
    requires
        forall|a: int, b: int|
            0 <= a < b < prs.len() ==> !same_person_key(#[trigger] prs[a], #[trigger] prs[b]),
        0 <= m < prs.len(),
        prs[m].event_id == event_id,
    ensures
        ({
            let ps = persons_of_rows(people_rows_of(prs, event_id));
            exists|i: int|
                0 <= i < ps.len() && #[trigger] ps[i] == prs[m].person && (forall|j: int|
                    0 <= j < ps.len() && (#[trigger] ps[j]).name == prs[m].person.name ==> j == i)
        }),
{
    lemma_people_rows_of_props(prs, event_id);
    lemma_people_rows_of_distinct(prs, event_id);
    let sel = people_rows_of(prs, event_id);
    let ps = persons_of_rows(sel);
    assert(sel.contains(prs[m]));
    let i = choose|i: int| 0 <= i < sel.len() && sel[i] == prs[m];
    assert(ps[i] == prs[m].person);
    assert forall|j: int|
        0 <= j < ps.len() && (#[trigger] ps[j]).name == prs[m].person.name implies j == i by {
        assert(ps[j] == sel[j].person);
        assert(sel[j].event_id == event_id);
        assert(same_person_key(sel[j], prs[m]));
        if j < i {
            assert(!same_person_key(sel[j], sel[i]));
        } else if i < j {
            assert(!same_person_key(sel[i], sel[j]));
        }
    }
}

/// Last write wins: writing a person twice under the same name against
/// an existing event leaves exactly one person under that name in the
/// event's people, and it carries the fields of the second write —
/// the identity is idempotent, the content is not.
pub proof fn lemma_upsert_last_write_wins(
    s: StoreV,
    event_id: Seq<char>,
    p1: PersonV,
    p2: PersonV,
)
    requires
        inv(s),
        has_event(s, event_id),
        p1.name == p2.name,
    ensures
        ({
            let ps = people_of(upserted(upserted(s, event_id, p1), event_id, p2), event_id);
            exists|i: int|
                0 <= i < ps.len() && #[trigger] ps[i] == p2 && (forall|j: int|
                    0 <= j < ps.len() && (#[trigger] ps[j]).name == p2.name ==> j == i)
        }),
{
    let s1 = upserted(s, event_id, p1);
    lemma_upserted_people(s, event_id, p1);
    assert(has_event(s1, event_id));
    let s2 = upserted(s1, event_id, p2);
    lemma_upserted_people(s1, event_id, p2);
    let m = person_idx(s2, event_id, p2.name);
    lemma_people_of_unique_row(s2.people, event_id, m);
    let ps = persons_of_rows(people_rows_of(s2.people, event_id));
    let i = choose|i: int|
        0 <= i < ps.len() && #[trigger] ps[i] == s2.people[m].person && (forall|j: int|
            0 <= j < ps.len() && (#[trigger] ps[j]).name == s2.people[m].person.name ==> j == i);
    assert(s2.people[m].person == p2);
    assert(people_of(s2, event_id) == ps);
    assert(0 <= i < ps.len() && ps[i] == p2 && (forall|j: int|
        0 <= j < ps.len() && (#[trigger] ps[j]).name == p2.name ==> j == i));
}

/// The touch of a read preserves the store's consistency and bumps
/// only the stored `visited_at` of the event read, never backward.
pub proof fn lemma_touched_inv(s: StoreV, id: Seq<char>, now: int)
    requires
        inv(s),
        has_event(s, id),
    ensures
        inv(touched(s, id, now)),
        touched(s, id, now).people == s.people,
        touched(s, id, now).stats == s.stats,
        has_event(touched(s, id, now), id),
        event_idx(touched(s, id, now), id) == event_idx(s, id),
        event_at(touched(s, id, now), id).visited_at == (if event_at(s, id).visited_at >= now {
            event_at(s, id).visited_at
        } else {
            now
        }),
        event_at(touched(s, id, now), id).id == id,
{
    let k = event_idx(s, id);
    assert(0 <= k < s.events.len() && s.events[k].id == id);
    let t = touched(s, id, now);
    assert(forall|a: int| 0 <= a < t.events.len() ==> (#[trigger] t.events[a]).id
        == s.events[a].id);
    assert forall|a: int, b: int| 0 <= a < b < t.events.len() implies (
    #[trigger] t.events[a]).id != (#[trigger] t.events[b]).id by {
        assert(s.events[a].id != s.events[b].id);
    }
    assert forall|a: int| 0 <= a < t.people.len() implies has_event(
        t,
        (#[trigger] t.people[a]).event_id,
    ) by {
        let w = choose|w: int|
            0 <= w < s.events.len() && (#[trigger] s.events[w]).id == s.people[a].event_id;
        assert(t.events[w].id == s.people[a].event_id);
    }
    lemma_event_idx_is(t, id, k);
}

/// Reading an event twice in succession strictly increases the stored
/// `visited_at` between the two underlying writes, as long as the
/// clock moved forward past the first reading.
pub proof fn lemma_touch_monotonic(s: StoreV, id: Seq<char>, t1: int, t2: int)
    requires
        inv(s),
        has_event(s, id),
        t1 >= event_at(s, id).visited_at,
        t2 > t1,
    ensures
        ({
            let s1 = touched(s, id, t1);
            let s2 = touched(s1, id, t2);
            &&& event_at(s1, id).visited_at == t1
            &&& event_at(s2, id).visited_at == t2
            &&& event_at(s2, id).visited_at > event_at(s1, id).visited_at
        }),
{
    lemma_touched_inv(s, id, t1);
    let s1 = touched(s, id, t1);
    lemma_touched_inv(s1, id, t2);
}

/// A sweep removes an event exactly when its stored `visited_at` lies
/// strictly before the cutoff, removes every person row owned by a
/// removed event, and removes no person row owned by a retained one.
pub proof fn lemma_sweep_membership(s: StoreV, cutoff: int)
    requires
        inv(s),
    ensures
        forall|i: int|
            0 <= i < s.events.len() ==> (swept(s, cutoff).events.contains(#[trigger] s.events[i])
                <==> s.events[i].visited_at >= cutoff),
        forall|i: int|
            0 <= i < s.people.len() ==> (swept(s, cutoff).people.contains(#[trigger] s.people[i])
                <==> !doomed(s, (s.people[i]).event_id, cutoff)),
{
    lemma_live_events_props(s.events, cutoff);
    lemma_surviving_props(s.people, s, cutoff);
    let se = swept(s, cutoff).events;
    let sp = swept(s, cutoff).people;
    assert forall|i: int|
        0 <= i < s.events.len() && se.contains(#[trigger] s.events[i]) implies s.events[i].visited_at
        >= cutoff by {
        let k = choose|k: int| 0 <= k < se.len() && se[k] == s.events[i];
    }
    assert forall|i: int|
        0 <= i < s.people.len() && sp.contains(#[trigger] s.people[i]) implies !doomed(
        s,
        s.people[i].event_id,
        cutoff,
    ) by {
        let k = choose|k: int| 0 <= k < sp.len() && sp[k] == s.people[i];
    }
}

} // verus!
