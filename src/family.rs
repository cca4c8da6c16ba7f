//! The authority's world of families and actors: creating a family from a
//! decoded request, deleting one with its members, keeping each family's member
//! list, and marking the family the local player controls.

use crate::codec::{deserialize_family_create, parse_request, FamilyCreate, FamilyScene, RequestView};
use crate::registry::{payload_views, ActorPayload, DecodeError, TypeRegistry};
use vstd::prelude::*;

verus! {

/// An entity of the world, by its index.
pub type Entity = usize;

/// A connected client.
pub type ClientId = u64;

/// What the player does with the selected family.
#[derive(Clone, Copy, Debug, PartialEq, Eq, Structural)]
pub enum FamilyMode {
    Life,
    Building,
}

impl FamilyMode {
    /// The symbol shown for the mode.
    pub fn glyph(self) -> (r: &'static str)
        ensures
            self == FamilyMode::Life ==> r@ == "\u{1F46A}"@,
            self == FamilyMode::Building ==> r@ == "\u{1F3E0}"@,
    {
        match self {
            FamilyMode::Life => "\u{1F46A}",
            FamilyMode::Building => "\u{1F3E0}",
        }
    }
}

/// The money a family has.
#[derive(Clone, Copy, Debug, PartialEq, Eq, Structural)]
pub struct Budget(pub u32);

impl Default for Budget {
    fn default() -> (r: Self)
        ensures
            r == Budget(20_000),
    {
        Budget(20_000)
    }
}

/// The actors that belong to a family, in the order they joined. Kept up to
/// date from each actor's reference to its family.
pub struct FamilyMembers(pub Vec<Entity>);

/// Marks the family the local player controls.
#[derive(Clone, Copy, Debug, PartialEq, Eq, Structural)]
pub struct SelectedFamily;

/// A family entity: its name, budget, members and whether it is selected.
pub struct Family {
    pub name: String,
    pub budget: Budget,
    pub members: FamilyMembers,
    pub selected: Option<SelectedFamily>,
}

/// An actor entity: the family that owns it, the entity it was spawned under
/// (if that entity was there), and its components.
pub struct Actor {
    pub family_entity: Entity,
    pub parent: Option<Entity>,
    pub payload: ActorPayload,
}

pub enum EntityData {
    Family(Family),
    Actor(Actor),
    /// Allocated, but not yet made a family: events for it are held.
    Reserved,
}

/// Raised when an actor appears, addressed to the family that owns it, which
/// then appends it to its members.
#[derive(Clone, Copy, Debug, PartialEq, Eq, Structural)]
pub struct FamilyMemberAdded {
    pub member: Entity,
    pub family: Entity,
}

/// A request to delete the family it is addressed to.
#[derive(Clone, Copy, Debug, PartialEq, Eq, Structural)]
pub struct FamilyDelete;

/// Sent to the one client that asked for a family with `select`: its family was
/// created.
#[derive(Clone, Copy, Debug, PartialEq, Eq, Structural)]
pub struct SelectedFamilyCreated {
    pub client: ClientId,
    pub family: Entity,
}

/// What creating a family gives: the new family, and the confirmation to send,
/// if one was asked for.
#[derive(Clone, Copy, Debug, PartialEq, Eq, Structural)]
pub struct CreateOutcome {
    pub family: Entity,
    pub confirmation: Option<SelectedFamilyCreated>,
}

#[derive(Clone, Copy, Debug, PartialEq, Eq, Structural)]
pub enum DeleteError {
    /// The target is not a family (any more).
    NotFound,
}

/// The family at `e`, if `e` is one.
pub open spec fn family_at(w: Seq<Option<EntityData>>, e: int) -> Option<Family> {
    if 0 <= e < w.len() {
        match w[e] {
            Some(EntityData::Family(f)) => Some(f),
            _ => None,
        }
    } else {
        None
    }
}

/// The actor at `e`, if `e` is one.
pub open spec fn actor_at(w: Seq<Option<EntityData>>, e: int) -> Option<Actor> {
    if 0 <= e < w.len() {
        match w[e] {
            Some(EntityData::Actor(a)) => Some(a),
            _ => None,
        }
    } else {
        None
    }
}

/// The member list of the family at `e`; empty where `e` is no family.
pub open spec fn members_of(w: Seq<Option<EntityData>>, e: int) -> Seq<Entity> {
    match family_at(w, e) {
        Some(f) => f.members.0@,
        None => Seq::empty(),
    }
}

/// `e` is an actor owned by the family `f`.
pub open spec fn owned_by(w: Seq<Option<EntityData>>, e: int, f: int) -> bool {
    actor_at(w, e) matches Some(a) && a.family_entity == f
}

/// Every member a family lists is an actor that it owns.
pub open spec fn members_listed(w: Seq<Option<EntityData>>) -> bool {
    forall|e: int, k: int|
        0 <= k < members_of(w, e).len() ==> owned_by(w, #[trigger] members_of(w, e)[k] as int, e)
}

/// `e` is reserved: allocated, but not yet made a family.
pub open spec fn reserved_at(w: Seq<Option<EntityData>>, e: int) -> bool {
    0 <= e < w.len() && w[e] matches Some(EntityData::Reserved)
}

/// Every actor belongs to a family that exists and lists it, or to a reserved
/// entity for which the event that announces it is held.
pub open spec fn actors_listed(w: Seq<Option<EntityData>>, held: Seq<FamilyMemberAdded>) -> bool {
    forall|a: int|
        #[trigger] actor_at(w, a) is Some ==> {
            let g = actor_at(w, a)->Some_0.family_entity;
            ||| family_at(w, g as int) is Some && members_of(w, g as int).contains(a as Entity)
            ||| reserved_at(w, g as int) && held.contains(
                FamilyMemberAdded { member: a as Entity, family: g },
            )
        }
}

/// Every held event announces an actor owned by a reserved entity, once.
pub open spec fn held_valid(w: Seq<Option<EntityData>>, held: Seq<FamilyMemberAdded>) -> bool {
    &&& held.no_duplicates()
    &&& forall|i: int|
        0 <= i < held.len() ==> reserved_at(w, (#[trigger] held[i]).family as int) && owned_by(
            w,
            held[i].member as int,
            held[i].family as int,
        )
}

/// No family lists a member twice.
pub open spec fn members_distinct(w: Seq<Option<EntityData>>) -> bool {
    forall|e: int| (#[trigger] members_of(w, e)).no_duplicates()
}

/// An actor's parent was there before it: its index is lower.
pub open spec fn parents_earlier(w: Seq<Option<EntityData>>) -> bool {
    forall|e: int|
        #[trigger] actor_at(w, e) is Some ==> (actor_at(w, e)->Some_0.parent is Some ==> (actor_at(
            w,
            e,
        )->Some_0.parent->Some_0 as int) < e)
}

/// Each family's member list holds exactly the actors that refer to it, once
/// each, every actor refers to a family that exists, and parents come before
/// their children.
pub open spec fn world_wf(w: Seq<Option<EntityData>>, held: Seq<FamilyMemberAdded>) -> bool {
    &&& members_listed(w)
    &&& actors_listed(w, held)
    &&& held_valid(w, held)
    &&& members_distinct(w)
    &&& parents_earlier(w)
    &&& w.len() <= usize::MAX + 1
}

/// The parent an actor spawned under `target` gets: `target` where an entity
/// stands there, none otherwise.
pub open spec fn parent_link(w: Seq<Option<EntityData>>, target: Entity) -> Option<Entity> {
    if (target as int) < w.len() && w[target as int] is Some {
        Some(target)
    } else {
        None
    }
}

/// Two worlds with the same families, members and actors at the same places
/// are equally well formed.
proof fn lemma_wf_transfer(
    before: Seq<Option<EntityData>>,
    after: Seq<Option<EntityData>>,
    held: Seq<FamilyMemberAdded>,
)
    requires
        world_wf(before, held),
        after.len() == before.len(),
        forall|e: int| #[trigger] reserved_at(after, e) == reserved_at(before, e),
        forall|e: int| #[trigger] members_of(after, e) == members_of(before, e),
        forall|e: int| (#[trigger] family_at(after, e) is Some) == (family_at(before, e) is Some),
        forall|e: int| #[trigger] actor_at(after, e) == actor_at(before, e),
    ensures
        world_wf(after, held),
{
    assert forall|e: int, k: int| 0 <= k < members_of(after, e).len() implies owned_by(
        after,
        #[trigger] members_of(after, e)[k] as int,
        e,
    ) by {
        assert(members_of(after, e) == members_of(before, e));
        assert(owned_by(before, members_of(before, e)[k] as int, e));
        assert(actor_at(after, members_of(before, e)[k] as int) == actor_at(before, members_of(before, e)[k] as int));
    }
    assert forall|a: int| #[trigger] actor_at(after, a) is Some implies ({
        let g = actor_at(after, a)->Some_0.family_entity;
        ||| family_at(after, g as int) is Some && members_of(after, g as int).contains(a as Entity)
        ||| reserved_at(after, g as int) && held.contains(
            FamilyMemberAdded { member: a as Entity, family: g },
        )
    }) by {
        assert(actor_at(after, a) == actor_at(before, a));
        let x = actor_at(before, a)->Some_0;
        assert(family_at(after, x.family_entity as int) is Some == family_at(before, x.family_entity as int) is Some);
        assert(members_of(after, x.family_entity as int) == members_of(before, x.family_entity as int));
        assert(reserved_at(after, x.family_entity as int) == reserved_at(before, x.family_entity as int));
    }
    assert forall|e: int| (#[trigger] members_of(after, e)).no_duplicates() by {
        assert(members_of(after, e) == members_of(before, e));
        assert(members_of(before, e).no_duplicates());
    }
    assert forall|i: int| 0 <= i < held.len() implies reserved_at(after, (#[trigger] held[i]).family as int)
        && owned_by(after, held[i].member as int, held[i].family as int) by {
        assert(reserved_at(after, held[i].family as int) == reserved_at(before, held[i].family as int));
        assert(actor_at(after, held[i].member as int) == actor_at(before, held[i].member as int));
    }
    assert forall|e: int| #[trigger] actor_at(after, e) is Some implies (actor_at(after, e)->Some_0.parent is Some
        ==> (actor_at(after, e)->Some_0.parent->Some_0 as int) < e) by {
        assert(actor_at(after, e) == actor_at(before, e));
    }
}

/// `after` is `before` with the family at `f`, if there is one, marked by `flag`.
pub open spec fn marked(
    before: Seq<Option<EntityData>>,
    after: Seq<Option<EntityData>>,
    f: int,
    flag: Option<SelectedFamily>,
) -> bool {
    match family_at(before, f) {
        Some(fam) => {
            &&& after.len() == before.len()
            &&& forall|e: int| 0 <= e < before.len() && e != f ==> after[e] == before[e]
            &&& family_at(after, f) matches Some(g) && {
                &&& g.name == fam.name
                &&& g.budget == fam.budget
                &&& g.members == fam.members
                &&& g.selected == flag
            }
        },
        None => after == before,
    }
}

/// The family entities among the first `n` slots, in order.
pub open spec fn family_entities(w: Seq<Option<EntityData>>, n: int) -> Seq<Entity>
    decreases n,
{
    if n <= 0 {
        Seq::empty()
    } else if family_at(w, n - 1) is Some {
        family_entities(w, n - 1).push((n - 1) as Entity)
    } else {
        family_entities(w, n - 1)
    }
}

/// Whether `e` is a member of the family `t`, or was spawned under one, down
/// the whole chain of parents.
pub open spec fn in_member_tree(w: Seq<Option<EntityData>>, t: int, e: int) -> bool
    decreases e,
{
    ||| owned_by(w, e, t)
    ||| (0 <= e && parent_of(w, e) is Some && (parent_of(w, e)->Some_0 as int) < e && in_member_tree(
        w,
        t,
        parent_of(w, e)->Some_0 as int,
    ))
}

/// Whether deleting the family `t` removes entity `e`: the family entity itself,
/// and its members together with everything spawned under them. What was
/// spawned under the family entity alone stays.
pub open spec fn doomed(w: Seq<Option<EntityData>>, t: int, e: int) -> bool {
    e == t || in_member_tree(w, t, e)
}

/// The parent of the actor at `e`, if `e` is an actor that has one.
pub open spec fn parent_of(w: Seq<Option<EntityData>>, e: int) -> Option<Entity> {
    match actor_at(w, e) {
        Some(a) => a.parent,
        None => None,
    }
}

/// The members `ms` that a delete of `t` leaves, in order.
pub open spec fn kept(w: Seq<Option<EntityData>>, t: int, ms: Seq<Entity>) -> Seq<Entity>
    decreases ms.len(),
{
    if ms.len() == 0 {
        Seq::empty()
    } else if doomed(w, t, ms.last() as int) {
        kept(w, t, ms.drop_last())
    } else {
        kept(w, t, ms.drop_last()).push(ms.last())
    }
}

/// The held events that a delete of `t` leaves: those whose actor remains.
pub open spec fn held_kept(w: Seq<Option<EntityData>>, t: int, held: Seq<FamilyMemberAdded>) -> Seq<
    FamilyMemberAdded,
>
    decreases held.len(),
{
    if held.len() == 0 {
        Seq::empty()
    } else if doomed(w, t, held.last().member as int) {
        held_kept(w, t, held.drop_last())
    } else {
        held_kept(w, t, held.drop_last()).push(held.last())
    }
}

/// `after` is `before` once the family `t` is deleted: every doomed entity is
/// gone, the other families list only the members that remain, and the rest is
/// as it was.
pub open spec fn deleted(before: Seq<Option<EntityData>>, after: Seq<Option<EntityData>>, t: int) -> bool {
    &&& after.len() == before.len()
    &&& forall|e: int| 0 <= e < before.len() && doomed(before, t, e) ==> (#[trigger] after[e]) is None
    &&& forall|e: int|
        0 <= e < before.len() && !doomed(before, t, e) ==> match before[e] {
            Some(EntityData::Family(f)) => family_at(after, e) matches Some(g) && {
                &&& g.name == f.name
                &&& g.budget == f.budget
                &&& g.selected == f.selected
                &&& g.members.0@ == kept(before, t, f.members.0@)
            },
            _ => #[trigger] after[e] == before[e],
        }
}

/// The actors of the held events addressed to `f`, in the order raised.
pub open spec fn held_for(held: Seq<FamilyMemberAdded>, f: Entity) -> Seq<Entity>
    decreases held.len(),
{
    if held.len() == 0 {
        Seq::empty()
    } else if held.last().family == f {
        held_for(held.drop_last(), f).push(held.last().member)
    } else {
        held_for(held.drop_last(), f)
    }
}

/// The held events addressed to anything but `f`, in the order raised.
pub open spec fn held_other(held: Seq<FamilyMemberAdded>, f: Entity) -> Seq<FamilyMemberAdded>
    decreases held.len(),
{
    if held.len() == 0 {
        Seq::empty()
    } else if held.last().family == f {
        held_other(held.drop_last(), f)
    } else {
        held_other(held.drop_last(), f).push(held.last())
    }
}

proof fn lemma_held_split(held: Seq<FamilyMemberAdded>, f: Entity)
    ensures
        forall|k: int|
            0 <= k < held_for(held, f).len() ==> held.contains(
                FamilyMemberAdded { member: #[trigger] held_for(held, f)[k], family: f },
            ),
        forall|x: FamilyMemberAdded| #[trigger] held.contains(x) && x.family == f ==> held_for(held, f).contains(x.member),
        forall|k: int|
            0 <= k < held_other(held, f).len() ==> held.contains(#[trigger] held_other(held, f)[k])
                && held_other(held, f)[k].family != f,
        forall|x: FamilyMemberAdded| #[trigger] held.contains(x) && x.family != f ==> held_other(held, f).contains(x),
        held.no_duplicates() ==> held_for(held, f).no_duplicates() && held_other(held, f).no_duplicates(),
    decreases held.len(),
{
    if held.len() > 0 {
        let init = held.drop_last();
        let last = held.last();
        lemma_held_split(init, f);
        let a = held_for(held, f);
        let a0 = held_for(init, f);
        let b = held_other(held, f);
        let b0 = held_other(init, f);
        assert forall|x: FamilyMemberAdded| init.contains(x) implies held.contains(x) by {
            let j = choose|j: int| 0 <= j < init.len() && init[j] == x;
            assert(held[j] == x);
        }
        assert(held[held.len() - 1] == last);
        assert forall|k: int| 0 <= k < a.len() implies held.contains(
            FamilyMemberAdded { member: #[trigger] a[k], family: f },
        ) by {
            if k < a0.len() {
                assert(a[k] == a0[k]);
                assert(init.contains(FamilyMemberAdded { member: a0[k], family: f }));
            } else {
                assert(last == FamilyMemberAdded { member: a[k], family: f });
            }
        }
        assert forall|x: FamilyMemberAdded| #[trigger] held.contains(x) && x.family == f implies a.contains(x.member) by {
            let j = choose|j: int| 0 <= j < held.len() && held[j] == x;
            if j < held.len() - 1 {
                assert(init[j] == x);
                assert(init.contains(x));
                let i = choose|i: int| 0 <= i < a0.len() && a0[i] == x.member;
                assert(a[i] == x.member);
            } else {
                assert(a[a.len() - 1] == x.member);
            }
        }
        assert forall|k: int| 0 <= k < b.len() implies held.contains(#[trigger] b[k]) && b[k].family != f by {
            if k < b0.len() {
                assert(b[k] == b0[k]);
                assert(init.contains(b0[k]));
            } else {
                assert(b[k] == last);
            }
        }
        assert forall|x: FamilyMemberAdded| #[trigger] held.contains(x) && x.family != f implies b.contains(x) by {
            let j = choose|j: int| 0 <= j < held.len() && held[j] == x;
            if j < held.len() - 1 {
                assert(init[j] == x);
                assert(init.contains(x));
                let i = choose|i: int| 0 <= i < b0.len() && b0[i] == x;
                assert(b[i] == x);
            } else {
                assert(b[b.len() - 1] == x);
            }
        }
        if held.no_duplicates() {
            assert(init.no_duplicates()) by {
                assert forall|i: int, j: int| 0 <= i < init.len() && 0 <= j < init.len() && i != j implies init[i] != init[j] by {
                    assert(init[i] == held[i] && init[j] == held[j]);
                }
            }
            assert(!init.contains(last)) by {
                if init.contains(last) {
                    let j = choose|j: int| 0 <= j < init.len() && init[j] == last;
                    assert(held[j] == held[held.len() - 1]);
                }
            }
            if last.family == f {
                assert forall|i: int| 0 <= i < a0.len() implies a0[i] != last.member by {
                    assert(init.contains(FamilyMemberAdded { member: a0[i], family: f }));
                }
                assert forall|i: int, j: int| 0 <= i < a.len() && 0 <= j < a.len() && i != j implies a[i] != a[j] by {
                    if i < a0.len() { assert(a[i] == a0[i]); }
                    if j < a0.len() { assert(a[j] == a0[j]); }
                }
            } else {
                assert forall|i: int| 0 <= i < b0.len() implies b0[i] != last by {
                    assert(init.contains(b0[i]));
                }
                assert forall|i: int, j: int| 0 <= i < b.len() && 0 <= j < b.len() && i != j implies b[i] != b[j] by {
                    if i < b0.len() { assert(b[i] == b0[i]); }
                    if j < b0.len() { assert(b[j] == b0[j]); }
                }
            }
        }
    }
}

/// Late membership: an actor announced to a reserved entity joins its members,
/// after those announced before it, once the entity becomes a family; events
/// for other entities stay held.
pub proof fn lemma_held_delivered(held: Seq<FamilyMemberAdded>, f: Entity, a: Entity)
    ensures
        held_for(held.push(FamilyMemberAdded { member: a, family: f }), f) == held_for(held, f).push(a),
        held_other(held.push(FamilyMemberAdded { member: a, family: f }), f) == held_other(held, f),
{
    let h = held.push(FamilyMemberAdded { member: a, family: f });
    assert(h.drop_last() =~= held);
}

/// `after` is `before` with a family for `req` at `f`, followed by one actor for
/// each payload, spawned under `target` (where an entity stands there), owned
/// by `f` and listed as its members in order.
pub open spec fn created(
    before: Seq<Option<EntityData>>,
    after: Seq<Option<EntityData>>,
    req: RequestView,
    target: Entity,
    f: int,
) -> bool {
    &&& f == before.len()
    &&& f + req.actors.len() <= usize::MAX
    &&& after.len() == before.len() + 1 + req.actors.len()
    &&& forall|e: int| 0 <= e < before.len() ==> after[e] == before[e]
    &&& family_at(after, f) matches Some(fam) && {
        &&& fam.name@ == req.name
        &&& fam.budget == Budget(20_000)
        &&& fam.selected is None
        &&& fam.members.0@ == Seq::new(req.actors.len(), |i: int| (f + 1 + i) as Entity)
    }
    &&& forall|i: int|
        0 <= i < req.actors.len() ==> (#[trigger] actor_at(after, f + 1 + i) matches Some(a) && {
            &&& a.family_entity == f
            &&& a.parent == parent_link(before, target)
            &&& a.payload@ == req.actors[i]
        })
}

/// The authority's world: every entity by index, an empty slot where one was
/// deleted.
pub struct World {
    entities: Vec<Option<EntityData>>,
    pending: Vec<FamilyMemberAdded>,
}

impl View for World {
    type V = Seq<Option<EntityData>>;

    closed spec fn view(&self) -> Seq<Option<EntityData>> {
        self.entities@
    }
}

/// Marks the family of the selected actor as the one the local player controls.
pub fn select(world: &mut World, selected_actor: Entity)
    requires
        old(world).wf(),
    ensures
        final(world).wf(),
        final(world).held() == old(world).held(),
        match actor_at(old(world)@, selected_actor as int) {
            Some(a) => marked(old(world)@, final(world)@, a.family_entity as int, Some(SelectedFamily)),
            None => final(world)@ == old(world)@,
        },
{
    let family = match world.actor(selected_actor) {
        Some(a) => a.family_entity,
        None => return ,
    };
    world.set_selected(family, Some(SelectedFamily));
}

/// Takes the mark of the local player's family off the selected actor's family.
pub fn deselect(world: &mut World, selected_actor: Entity)
    requires
        old(world).wf(),
    ensures
        final(world).wf(),
        final(world).held() == old(world).held(),
        match actor_at(old(world)@, selected_actor as int) {
            Some(a) => marked(old(world)@, final(world)@, a.family_entity as int, None),
            None => final(world)@ == old(world)@,
        },
{
    let family = match world.actor(selected_actor) {
        Some(a) => a.family_entity,
        None => return ,
    };
    world.set_selected(family, None);
}

proof fn lemma_created_wf(
    before: Seq<Option<EntityData>>,
    after: Seq<Option<EntityData>>,
    req: RequestView,
    target: Entity,
    f: int,
    held: Seq<FamilyMemberAdded>,
)
    requires
        world_wf(before, held),
        created(before, after, req, target, f),
    ensures
        world_wf(after, held),
{
    let n = req.actors.len();
    assert forall|e: int| 0 <= e < before.len() implies {
        &&& #[trigger] members_of(after, e) == members_of(before, e)
        &&& family_at(after, e) == family_at(before, e)
        &&& actor_at(after, e) == actor_at(before, e)
        &&& reserved_at(after, e) == reserved_at(before, e)
    } by {
        assert(after[e] == before[e]);
    }
    assert(!reserved_at(after, f));
    assert forall|e: int| f < e < after.len() implies #[trigger] members_of(after, e).len() == 0
        && family_at(after, e) is None && !reserved_at(after, e) by {
        let i = e - f - 1;
        assert(actor_at(after, f + 1 + i) is Some);
    }
    assert forall|e: int, k: int| 0 <= k < members_of(after, e).len() implies owned_by(
        after,
        #[trigger] members_of(after, e)[k] as int,
        e,
    ) by {
        if 0 <= e < before.len() {
            let m = members_of(before, e)[k] as int;
            assert(owned_by(before, m, e));
            assert(actor_at(after, m) == actor_at(before, m));
        } else if e == f {
            assert(actor_at(after, f + 1 + k) is Some);
        }
    }
    assert forall|a: int| #[trigger] actor_at(after, a) is Some implies ({
        let g = actor_at(after, a)->Some_0.family_entity;
        ||| family_at(after, g as int) is Some && members_of(after, g as int).contains(a as Entity)
        ||| reserved_at(after, g as int) && held.contains(
            FamilyMemberAdded { member: a as Entity, family: g },
        )
    }) by {
        if a < before.len() {
            let g = actor_at(before, a)->Some_0.family_entity as int;
            assert(actor_at(before, a) is Some);
            if family_at(before, g) is Some {
                assert(0 <= g < before.len());
            } else {
                assert(reserved_at(before, g));
            }
        } else {
            let i = a - f - 1;
            assert(actor_at(after, f + 1 + i) is Some);
            assert(members_of(after, f)[i] == a as Entity);
        }
    }
    assert forall|e: int| (#[trigger] members_of(after, e)).no_duplicates() by {
        if 0 <= e < before.len() {
            assert(members_of(before, e).no_duplicates());
        } else if e == f {
            let m = members_of(after, f);
            assert forall|i: int, j: int| 0 <= i < m.len() && 0 <= j < m.len() && i != j implies m[i] != m[j] by {
                assert(m[i] == (f + 1 + i) as Entity);
                assert(m[j] == (f + 1 + j) as Entity);
            }
        }
    }
    assert forall|e: int| #[trigger] actor_at(after, e) is Some implies (actor_at(after, e)->Some_0.parent is Some
        ==> (actor_at(after, e)->Some_0.parent->Some_0 as int) < e) by {
        if e < before.len() {
            assert(actor_at(before, e) is Some);
        } else {
            let i = e - f - 1;
            assert(actor_at(after, f + 1 + i) is Some);
        }
    }
    assert forall|i: int| 0 <= i < held.len() implies reserved_at(after, (#[trigger] held[i]).family as int)
        && owned_by(after, held[i].member as int, held[i].family as int) by {
        assert(reserved_at(before, held[i].family as int));
        assert(owned_by(before, held[i].member as int, held[i].family as int));
    }
}

proof fn lemma_kept(w: Seq<Option<EntityData>>, t: int, ms: Seq<Entity>)
    ensures
        forall|k: int|
            0 <= k < kept(w, t, ms).len() ==> !doomed(w, t, #[trigger] kept(w, t, ms)[k] as int)
                && ms.contains(kept(w, t, ms)[k]),
        forall|x: Entity| #[trigger] ms.contains(x) && !doomed(w, t, x as int) ==> kept(w, t, ms).contains(x),
        ms.no_duplicates() ==> kept(w, t, ms).no_duplicates(),
    decreases ms.len(),
{
    if ms.len() > 0 {
        let init = ms.drop_last();
        lemma_kept(w, t, init);
        let r = kept(w, t, ms);
        let r0 = kept(w, t, init);
        assert forall|k: int| 0 <= k < r.len() implies !doomed(w, t, #[trigger] r[k] as int) && ms.contains(r[k]) by {
            if k < r0.len() {
                assert(r[k] == r0[k]);
                assert(init.contains(r0[k]));
                let j = choose|j: int| 0 <= j < init.len() && init[j] == r0[k];
                assert(ms[j] == r0[k]);
            } else {
                assert(ms[ms.len() - 1] == r[k]);
            }
        }
        assert forall|x: Entity| #[trigger] ms.contains(x) && !doomed(w, t, x as int) implies r.contains(x) by {
            let j = choose|j: int| 0 <= j < ms.len() && ms[j] == x;
            if j < ms.len() - 1 {
                assert(init[j] == x);
                assert(init.contains(x));
                let i = choose|i: int| 0 <= i < r0.len() && r0[i] == x;
                assert(r[i] == x);
            } else {
                assert(r[r.len() - 1] == x);
            }
        }
        if ms.no_duplicates() {
            assert(init.no_duplicates()) by {
                assert forall|a: int, b: int| 0 <= a < init.len() && 0 <= b < init.len() && a != b implies init[a] != init[b] by {
                    assert(init[a] == ms[a] && init[b] == ms[b]);
                }
            }
            if !doomed(w, t, ms.last() as int) {
                assert forall|a: int| 0 <= a < r0.len() implies r0[a] != ms.last() by {
                    assert(init.contains(r0[a]));
                    let j = choose|j: int| 0 <= j < init.len() && init[j] == r0[a];
                    assert(ms[j] == init[j]);
                }
                assert forall|a: int, b: int| 0 <= a < r.len() && 0 <= b < r.len() && a != b implies r[a] != r[b] by {
                    if a < r0.len() && b < r0.len() {
                        assert(r[a] == r0[a] && r[b] == r0[b]);
                    } else if a < r0.len() {
                        assert(r[a] == r0[a]);
                    } else if b < r0.len() {
                        assert(r[b] == r0[b]);
                    }
                }
            }
        }
    }
}

proof fn lemma_held_kept(w: Seq<Option<EntityData>>, t: int, ms: Seq<FamilyMemberAdded>)
    ensures
        forall|k: int|
            0 <= k < held_kept(w, t, ms).len() ==> !doomed(w, t, (#[trigger] held_kept(w, t, ms)[k]).member as int)
                && ms.contains(held_kept(w, t, ms)[k]),
        forall|x: FamilyMemberAdded| #[trigger] ms.contains(x) && !doomed(w, t, x.member as int) ==> held_kept(w, t, ms).contains(x),
        ms.no_duplicates() ==> held_kept(w, t, ms).no_duplicates(),
    decreases ms.len(),
{
    if ms.len() > 0 {
        let init = ms.drop_last();
        lemma_held_kept(w, t, init);
        let r = held_kept(w, t, ms);
        let r0 = held_kept(w, t, init);
        assert forall|k: int| 0 <= k < r.len() implies !doomed(w, t, (#[trigger] r[k]).member as int) && ms.contains(r[k]) by {
            if k < r0.len() {
                assert(r[k] == r0[k]);
                assert(init.contains(r0[k]));
                let j = choose|j: int| 0 <= j < init.len() && init[j] == r0[k];
                assert(ms[j] == r0[k]);
            } else {
                assert(ms[ms.len() - 1] == r[k]);
            }
        }
        assert forall|x: FamilyMemberAdded| #[trigger] ms.contains(x) && !doomed(w, t, x.member as int) implies r.contains(x) by {
            let j = choose|j: int| 0 <= j < ms.len() && ms[j] == x;
            if j < ms.len() - 1 {
                assert(init[j] == x);
                assert(init.contains(x));
                let i = choose|i: int| 0 <= i < r0.len() && r0[i] == x;
                assert(r[i] == x);
            } else {
                assert(r[r.len() - 1] == x);
            }
        }
        if ms.no_duplicates() {
            assert(init.no_duplicates()) by {
                assert forall|a: int, b: int| 0 <= a < init.len() && 0 <= b < init.len() && a != b implies init[a] != init[b] by {
                    assert(init[a] == ms[a] && init[b] == ms[b]);
                }
            }
            if !doomed(w, t, ms.last().member as int) {
                assert forall|a: int| 0 <= a < r0.len() implies r0[a] != ms.last() by {
                    assert(init.contains(r0[a]));
                    let j = choose|j: int| 0 <= j < init.len() && init[j] == r0[a];
                    assert(ms[j] == init[j]);
                }
                assert forall|a: int, b: int| 0 <= a < r.len() && 0 <= b < r.len() && a != b implies r[a] != r[b] by {
                    if a < r0.len() && b < r0.len() {
                        assert(r[a] == r0[a] && r[b] == r0[b]);
                    } else if a < r0.len() {
                        assert(r[a] == r0[a]);
                    } else if b < r0.len() {
                        assert(r[b] == r0[b]);
                    }
                }
            }
        }
    }
}

/// An actor that a delete leaves has a parent that the delete leaves too.
proof fn lemma_survivor_parent(w: Seq<Option<EntityData>>, t: int, e: int)
    requires
        parents_earlier(w),
        0 <= e,
        !doomed(w, t, e),
        actor_at(w, e) is Some,
        actor_at(w, e)->Some_0.parent is Some,
    ensures
        !in_member_tree(w, t, actor_at(w, e)->Some_0.parent->Some_0 as int),
{
    assert(actor_at(w, e) is Some);
}

proof fn lemma_delete_keeps_wf(
    w: Seq<Option<EntityData>>,
    d: Seq<Option<EntityData>>,
    t: int,
    held: Seq<FamilyMemberAdded>,
)
    requires
        world_wf(w, held),
        family_at(w, t) is Some,
        deleted(w, d, t),
    ensures
        world_wf(d, held_kept(w, t, held)),
{
    let h2 = held_kept(w, t, held);
    lemma_held_kept(w, t, held);
    assert forall|e: int| 0 <= e < w.len() implies {
        &&& #[trigger] actor_at(d, e) == (if doomed(w, t, e) { None } else { actor_at(w, e) })
        &&& reserved_at(d, e) == reserved_at(w, e)
        &&& (family_at(d, e) is Some) == (family_at(w, e) is Some && !doomed(w, t, e))
        &&& members_of(d, e) == (if family_at(d, e) is Some { kept(w, t, members_of(w, e)) } else { Seq::empty() })
    } by {
        if doomed(w, t, e) {
            assert(d[e] is None);
            assert(!reserved_at(w, e));
        } else {
            assert(d[e] == d[e]);
            if family_at(w, e) is None {
                assert(d[e] == w[e]);
            }
        }
    }
    assert forall|e: int, k: int| 0 <= k < members_of(d, e).len() implies owned_by(
        d,
        #[trigger] members_of(d, e)[k] as int,
        e,
    ) by {
        assert(0 <= e < w.len());
        assert(actor_at(d, e) == actor_at(d, e));
        lemma_kept(w, t, members_of(w, e));
        let m = members_of(d, e)[k];
        assert(members_of(w, e).contains(m));
        let j = choose|j: int| 0 <= j < members_of(w, e).len() && members_of(w, e)[j] == m;
        assert(owned_by(w, members_of(w, e)[j] as int, e));
        assert(actor_at(d, m as int) == (if doomed(w, t, m as int) { None } else { actor_at(w, m as int) }));
    }
    assert forall|a: int| #[trigger] actor_at(d, a) is Some implies ({
        let g = actor_at(d, a)->Some_0.family_entity;
        ||| family_at(d, g as int) is Some && members_of(d, g as int).contains(a as Entity)
        ||| reserved_at(d, g as int) && h2.contains(FamilyMemberAdded { member: a as Entity, family: g })
    }) by {
        assert(0 <= a < w.len());
        assert(actor_at(d, a) == (if doomed(w, t, a) { None } else { actor_at(w, a) }));
        let g = actor_at(w, a)->Some_0.family_entity as int;
        assert(actor_at(w, a) is Some);
        assert(!doomed(w, t, g));
        if family_at(w, g) is Some {
            assert(family_at(d, g) is Some == (family_at(w, g) is Some && !doomed(w, t, g)));
            lemma_kept(w, t, members_of(w, g));
            assert(members_of(w, g).contains(a as Entity));
        } else {
            assert(reserved_at(w, g));
            assert(reserved_at(d, g));
            let x = FamilyMemberAdded { member: a as Entity, family: g as Entity };
            assert(held.contains(x));
            assert(!doomed(w, t, x.member as int));
        }
    }
    assert forall|i: int| 0 <= i < h2.len() implies reserved_at(d, (#[trigger] h2[i]).family as int)
        && owned_by(d, h2[i].member as int, h2[i].family as int) by {
        assert(held.contains(h2[i]));
        let j = choose|j: int| 0 <= j < held.len() && held[j] == h2[i];
        assert(reserved_at(w, held[j].family as int) && owned_by(w, held[j].member as int, held[j].family as int));
        assert(0 <= h2[i].member < w.len());
        assert(actor_at(d, h2[i].member as int) == actor_at(w, h2[i].member as int));
        assert(0 <= h2[i].family < w.len());
        assert(reserved_at(d, h2[i].family as int) == reserved_at(w, h2[i].family as int));
    }
    assert forall|e: int| (#[trigger] members_of(d, e)).no_duplicates() by {
        if 0 <= e < w.len() && family_at(d, e) is Some {
            assert(members_of(w, e).no_duplicates());
            lemma_kept(w, t, members_of(w, e));
        }
    }
    assert forall|e: int| #[trigger] actor_at(d, e) is Some implies (actor_at(d, e)->Some_0.parent is Some
        ==> (actor_at(d, e)->Some_0.parent->Some_0 as int) < e) by {
        assert(0 <= e < w.len());
        assert(actor_at(d, e) == (if doomed(w, t, e) { None } else { actor_at(w, e) }));
    }
}

/// Cascade delete: once a family is deleted, neither it nor any of its former
/// members exists, nothing spawned under a former member remains (an actor
/// spawned under the family entity alone may), no actor refers to the family,
/// and the world stays well formed. As it is no
/// family any more, deleting it again is refused as not found.
pub proof fn lemma_cascade_delete(
    w: Seq<Option<EntityData>>,
    d: Seq<Option<EntityData>>,
    target: int,
    held: Seq<FamilyMemberAdded>,
)
    requires
        world_wf(w, held),
        family_at(w, target) is Some,
        deleted(w, d, target),
    ensures
        world_wf(d, held_kept(w, target, held)),
        d.len() == w.len(),
        d[target] is None,
        family_at(d, target) is None,
        forall|k: int|
            0 <= k < members_of(w, target).len() ==> (#[trigger] d[members_of(w, target)[k] as int]) is None,
        forall|e: int|
            #[trigger] actor_at(d, e) is Some ==> {
                let a = actor_at(d, e)->Some_0;
                &&& a.family_entity != target
                &&& a.parent is Some ==> !in_member_tree(w, target, a.parent->Some_0 as int)
            },
{
    lemma_delete_keeps_wf(w, d, target, held);
    assert(d[target] is None);
    assert forall|k: int| 0 <= k < members_of(w, target).len() implies (#[trigger] d[members_of(w, target)[k] as int]) is None by {
        assert(owned_by(w, members_of(w, target)[k] as int, target));
    }
    assert forall|e: int| #[trigger] actor_at(d, e) is Some implies {
        let a = actor_at(d, e)->Some_0;
        &&& a.family_entity != target
        &&& a.parent is Some ==> !in_member_tree(w, target, a.parent->Some_0 as int)
    } by {
        assert(0 <= e < w.len());
        if doomed(w, target, e) {
            assert(d[e] is None);
        } else {
            assert(d[e] == w[e]);
            assert(actor_at(w, e) is Some);
            if actor_at(w, e)->Some_0.parent is Some {
                lemma_survivor_parent(w, target, e);
            }
        }
    }
}

/// The event an actor raises when it appears.
pub fn record_new_member(entity: Entity, actor: &Actor) -> (r: FamilyMemberAdded)
    ensures
        r == (FamilyMemberAdded { member: entity, family: actor.family_entity }),
{
    FamilyMemberAdded { member: entity, family: actor.family_entity }
}

impl World {
    pub open spec fn wf(&self) -> bool {
        world_wf(self@, self.held())
    }

    /// The membership events held until the entity they are addressed to
    /// becomes a family, in the order they were raised.
    pub closed spec fn held(&self) -> Seq<FamilyMemberAdded> {
        self.pending@
    }

    pub fn new() -> (r: World)
        ensures
            r@.len() == 0,
            r.held().len() == 0,
            r.wf(),
    {
        World { entities: Vec::new(), pending: Vec::new() }
    }

    /// The number of entity slots, deleted ones included.
    pub fn len(&self) -> (r: usize)
        ensures
            r == self@.len(),
    {
        self.entities.len()
    }

    pub fn family(&self, e: Entity) -> (r: Option<&Family>)
        ensures
            match r {
                Some(f) => family_at(self@, e as int) == Some(*f),
                None => family_at(self@, e as int) is None,
            },
    {
        if e < self.entities.len() {
            match &self.entities[e] {
                Some(EntityData::Family(f)) => Some(f),
                _ => None,
            }
        } else {
            None
        }
    }

    pub fn actor(&self, e: Entity) -> (r: Option<&Actor>)
        ensures
            match r {
                Some(a) => actor_at(self@, e as int) == Some(*a),
                None => actor_at(self@, e as int) is None,
            },
    {
        if e < self.entities.len() {
            match &self.entities[e] {
                Some(EntityData::Actor(a)) => Some(a),
                _ => None,
            }
        } else {
            None
        }
    }

    /// Appends the member that `event` announces to the family it is addressed
    /// to. An event addressed to a reserved entity, not yet a family, is held
    /// until it becomes one; an event addressed to anything else is dropped.
    fn update_members(&mut self, event: FamilyMemberAdded)
        ensures
            reserved_at(old(self)@, event.family as int) ==> final(self).held() == old(self).held().push(event),
            !reserved_at(old(self)@, event.family as int) ==> final(self).held() == old(self).held(),
            final(self)@.len() == old(self)@.len(),
            forall|e: int|
                0 <= e < old(self)@.len() && e != event.family ==> final(self)@[e] == old(self)@[e],
            match family_at(old(self)@, event.family as int) {
                Some(fam) => family_at(final(self)@, event.family as int) matches Some(g) && {
                    &&& g.name == fam.name
                    &&& g.budget == fam.budget
                    &&& g.selected == fam.selected
                    &&& g.members.0@ == fam.members.0@.push(event.member)
                },
                None => final(self)@ == old(self)@,
            },
    {
        let ghost before = self@;
        let f = event.family;
        if f < self.entities.len() {
            let mut slot: Option<EntityData> = None;
            std::mem::swap(&mut self.entities[f], &mut slot);
            match slot {
                Some(EntityData::Family(mut fam)) => {
                    fam.members.0.push(event.member);
                    self.entities[f] = Some(EntityData::Family(fam));
                },
                Some(EntityData::Reserved) => {
                    self.pending.push(event);
                    self.entities[f] = Some(EntityData::Reserved);
                },
                other => {
                    self.entities[f] = other;
                },
            }
        }
        proof {
            if family_at(before, f as int) is None {
                assert(self@ =~= before);
            }
        }
    }

    /// Marks the family at `f`, if there is one, by `flag`.
    fn set_selected(&mut self, f: Entity, flag: Option<SelectedFamily>)
        requires
            old(self).wf(),
        ensures
            final(self).wf(),
            final(self).held() == old(self).held(),
            marked(old(self)@, final(self)@, f as int, flag),
    {
        let ghost before = self@;
        if f < self.entities.len() {
            let mut slot: Option<EntityData> = None;
            std::mem::swap(&mut self.entities[f], &mut slot);
            match slot {
                Some(EntityData::Family(mut fam)) => {
                    fam.selected = flag;
                    self.entities[f] = Some(EntityData::Family(fam));
                },
                other => {
                    self.entities[f] = other;
                },
            }
        }
        proof {
            if family_at(before, f as int) is None {
                assert(self@ =~= before);
            }
            assert forall|e: int| #[trigger] actor_at(self@, e) == actor_at(before, e) by {
                if 0 <= e < before.len() && e != f {
                    assert(self@[e] == before[e]);
                }
            }
            assert forall|e: int| #[trigger] members_of(self@, e) == members_of(before, e) by {
                if 0 <= e < before.len() && e != f {
                    assert(self@[e] == before[e]);
                }
            }
            assert forall|e: int| (#[trigger] family_at(self@, e) is Some) == (family_at(before, e) is Some) by {
                if 0 <= e < before.len() && e != f {
                    assert(self@[e] == before[e]);
                }
            }
            assert forall|e: int| #[trigger] reserved_at(self@, e) == reserved_at(before, e) by {
                if 0 <= e < before.len() && e != f {
                    assert(self@[e] == before[e]);
                }
            }
            lemma_wf_transfer(before, self@, self.held());
        }
    }

    /// Creates the family that `request` describes: a family entity with its
    /// name, then one actor for each payload, spawned under `target` where an
    /// entity stands there and owned by the new family, which lists them as its
    /// members. Where the request asks
    /// for it, the confirmation goes to `client` alone.
    pub fn apply_create(&mut self, request: FamilyCreate, target: Entity, client: ClientId) -> (r:
        CreateOutcome)
        requires
            old(self).wf(),
        ensures
            final(self).wf(),
            final(self).held() == old(self).held(),
            created(old(self)@, final(self)@, request@, target, r.family as int),
            r.confirmation == (if request.select {
                Some(SelectedFamilyCreated { client, family: r.family })
            } else {
                None
            }),
    {
        let ghost req = request@;
        let ghost before = self@;
        let ghost held = self.held();
        let FamilyCreate { scene, select } = request;
        let FamilyScene { name, actors } = scene;
        let parent = if self.contains(target) {
            Some(target)
        } else {
            None
        };
        let family_entity = self.entities.len();
        let family = Family {
            name,
            budget: Budget::default(),
            members: FamilyMembers(Vec::new()),
            selected: None,
        };
        self.entities.push(Some(EntityData::Family(family)));
        let mut actors = actors;
        let mut events: Vec<FamilyMemberAdded> = Vec::new();
        let ghost n = actors@.len();
        assert(payload_views(actors@) =~= req.actors.skip(0));
        while actors.len() > 0
            invariant
                family_entity == before.len(),
                family_entity + events@.len() <= usize::MAX,
                parent == parent_link(before, target),
                self.held() == held,
                self@.len() == before.len() + 1 + events@.len(),
                events@.len() + actors@.len() == n,
                n == req.actors.len(),
                payload_views(actors@) == req.actors.skip(events@.len() as int),
                forall|e: int| 0 <= e < before.len() ==> self@[e] == before[e],
                family_at(self@, family_entity as int) matches Some(fam) && {
                    &&& fam.name@ == req.name
                    &&& fam.budget == Budget(20_000)
                    &&& fam.selected is None
                    &&& fam.members.0@.len() == 0
                },
                forall|i: int|
                    0 <= i < events@.len() ==> (#[trigger] actor_at(self@, family_entity + 1 + i) matches Some(a)
                        && {
                        &&& a.family_entity == family_entity
                        &&& a.parent == parent_link(before, target)
                        &&& a.payload@ == req.actors[i]
                    }),
                forall|i: int|
                    0 <= i < events@.len() ==> #[trigger] events@[i] == (FamilyMemberAdded {
                        member: (family_entity + 1 + i) as Entity,
                        family: family_entity,
                    }),
            decreases actors@.len(),
        {
            let ghost prev = self@;
            let ghost k = events@.len() as int;
            let ghost rest = actors@;
            let payload = actors.remove(0);
            assert(payload@ == req.actors[k]) by {
                assert(payload_views(rest)[0] == payload@);
            }
            assert(payload_views(actors@) =~= req.actors.skip(k + 1)) by {
                assert(payload_views(actors@) =~= payload_views(rest).drop_first());
            }
            let actor = Actor { family_entity, parent, payload };
            let entity = self.entities.len();
            events.push(record_new_member(entity, &actor));
            self.entities.push(Some(EntityData::Actor(actor)));
            proof {
                assert forall|i: int| 0 <= i < events@.len() implies (#[trigger] actor_at(
                    self@,
                    family_entity + 1 + i,
                ) matches Some(a) && {
                    &&& a.family_entity == family_entity
                    &&& a.parent == parent_link(before, target)
                    &&& a.payload@ == req.actors[i]
                }) by {
                    if i < k {
                        assert(actor_at(self@, family_entity + 1 + i) == actor_at(prev, family_entity + 1 + i));
                    }
                }
            }
        }
        let ghost spawned = self@;
        let mut j: usize = 0;
        while j < events.len()
            invariant
                family_entity == before.len(),
                family_entity + n <= usize::MAX,
                self.held() == held,
                events@.len() == n,
                n == req.actors.len(),
                spawned.len() == before.len() + 1 + n,
                self@.len() == spawned.len(),
                forall|e: int| 0 <= e < spawned.len() && e != family_entity ==> self@[e] == spawned[e],
                forall|i: int|
                    0 <= i < events@.len() ==> (#[trigger] actor_at(spawned, family_entity + 1 + i) matches Some(a)
                        && {
                        &&& a.family_entity == family_entity
                        &&& a.parent == parent_link(before, target)
                        &&& a.payload@ == req.actors[i]
                    }),
                forall|i: int|
                    0 <= i < events@.len() ==> #[trigger] events@[i] == (FamilyMemberAdded {
                        member: (family_entity + 1 + i) as Entity,
                        family: family_entity,
                    }),
                j <= events@.len(),
                family_at(self@, family_entity as int) matches Some(fam) && {
                    &&& fam.name@ == req.name
                    &&& fam.budget == Budget(20_000)
                    &&& fam.selected is None
                    &&& fam.members.0@ == Seq::new(j as nat, |i: int| (family_entity + 1 + i) as Entity)
                },
            decreases events@.len() - j,
        {
            let event = events[j];
            self.update_members(event);
            assert(family_at(self@, family_entity as int)->Some_0.members.0@ =~= Seq::new(
                (j + 1) as nat,
                |i: int| (family_entity + 1 + i) as Entity,
            ));
            j = j + 1;
        }
        proof {
            assert forall|i: int| 0 <= i < req.actors.len() implies (#[trigger] actor_at(
                self@,
                family_entity + 1 + i,
            ) matches Some(a) && {
                &&& a.family_entity == family_entity
                &&& a.parent == parent_link(before, target)
                &&& a.payload@ == req.actors[i]
            }) by {
                assert(actor_at(spawned, family_entity + 1 + i) is Some);
                assert(self@[family_entity + 1 + i] == spawned[family_entity + 1 + i]);
            }
            assert forall|e: int| 0 <= e < before.len() implies self@[e] == before[e] by {
                assert(self@[e] == spawned[e]);
            }
            lemma_created_wf(before, self@, req, target, family_entity as int, held);
        }
        let confirmation = if select {
            Some(SelectedFamilyCreated { client, family: family_entity })
        } else {
            None
        };
        CreateOutcome { family: family_entity, confirmation }
    }

    /// Deletes the family `target`, as one step, together with every actor it
    /// owns and everything spawned under those actors, down the whole chain; the
    /// other families stop listing the actors removed. What was spawned under the
    /// family entity itself stays. A target that is no family is refused.
    pub fn apply_delete(&mut self, target: Entity) -> (r: Result<(), DeleteError>)
        requires
            old(self).wf(),
        ensures
            final(self).wf(),
            family_at(old(self)@, target as int) is None ==> r == Err::<(), DeleteError>(
                DeleteError::NotFound,
            ) && final(self)@ == old(self)@ && final(self).held() == old(self).held(),
            family_at(old(self)@, target as int) is Some ==> r is Ok && deleted(
                old(self)@,
                final(self)@,
                target as int,
            ) && final(self).held() == held_kept(old(self)@, target as int, old(self).held()),
    {
        let ghost before = self@;
        let ghost held0 = self.pending@;
        if self.family(target).is_none() {
            return Err(DeleteError::NotFound);
        }
        let n = self.entities.len();
        let mut gone: Vec<bool> = Vec::new();
        let mut i: usize = 0;
        while i < n
            invariant
                n == before.len(),
                self@ == before,
                self.pending@ == held0,
                i <= n,
                gone@.len() == i,
                family_at(before, target as int) is Some,
                forall|e: int| 0 <= e < i ==> #[trigger] gone@[e] == doomed(before, target as int, e),
            decreases n - i,
        {
            assert(!in_member_tree(before, target as int, target as int));
            let d = if i == target {
                true
            } else {
                match &self.entities[i] {
                    Some(EntityData::Actor(a)) => a.family_entity == target || match a.parent {
                        Some(p) => p < i && p != target && gone[p],
                        None => false,
                    },
                    _ => false,
                }
            };
            gone.push(d);
            i = i + 1;
        }
        let mut i: usize = 0;
        while i < n
            invariant
                n == before.len(),
                self@.len() == n,
                self.pending@ == held0,
                i <= n,
                gone@.len() == n,
                forall|e: int| 0 <= e < n ==> #[trigger] gone@[e] == doomed(before, target as int, e),
                members_listed(before),
                forall|e: int| i <= e < n ==> #[trigger] self@[e] == before[e],
                forall|e: int| 0 <= e < i && doomed(before, target as int, e) ==> (#[trigger] self@[e]) is None,
                forall|e: int|
                    0 <= e < i && !doomed(before, target as int, e) ==> match before[e] {
                        Some(EntityData::Family(f)) => family_at(self@, e) matches Some(g) && {
                            &&& g.name == f.name
                            &&& g.budget == f.budget
                            &&& g.selected == f.selected
                            &&& g.members.0@ == kept(before, target as int, f.members.0@)
                        },
                        _ => #[trigger] self@[e] == before[e],
                    },
            decreases n - i,
        {
            assert(gone@[i as int] == doomed(before, target as int, i as int));
            if gone[i] {
                self.entities[i] = None;
            } else {
                let mut slot: Option<EntityData> = None;
                std::mem::swap(&mut self.entities[i], &mut slot);
                match slot {
                    Some(EntityData::Family(mut fam)) => {
                        let ghost ms = fam.members.0@;
                        assert(members_of(before, i as int) == ms);
                        assert forall|j: int| 0 <= j < ms.len() implies (#[trigger] ms[j] as int) < n by {
                            assert(owned_by(before, members_of(before, i as int)[j] as int, i as int));
                        }
                        let mut left: Vec<Entity> = Vec::new();
                        let mut k: usize = 0;
                        while k < fam.members.0.len()
                            invariant
                                ms == fam.members.0@,
                                k <= ms.len(),
                                gone@.len() == n,
                                forall|e: int| 0 <= e < n ==> #[trigger] gone@[e] == doomed(before, target as int, e),
                                forall|j: int| 0 <= j < ms.len() ==> (#[trigger] ms[j] as int) < n,
                                left@ == kept(before, target as int, ms.take(k as int)),
                            decreases ms.len() - k,
                        {
                            let m = fam.members.0[k];
                            assert(ms.take(k + 1).drop_last() =~= ms.take(k as int));
                            assert(gone@[m as int] == doomed(before, target as int, m as int));
                            if !gone[m] {
                                left.push(m);
                            }
                            k = k + 1;
                        }
                        assert(ms.take(ms.len() as int) =~= ms);
                        fam.members = FamilyMembers(left);
                        self.entities[i] = Some(EntityData::Family(fam));
                    },
                    other => {
                        self.entities[i] = other;
                    },
                }
            }
            i = i + 1;
        }
        let ghost held = self.pending@;
        let mut left: Vec<FamilyMemberAdded> = Vec::new();
        let mut k: usize = 0;
        while k < self.pending.len()
            invariant
                held == self.pending@,
                k <= held.len(),
                gone@.len() == n,
                n == before.len(),
                forall|e: int| 0 <= e < n ==> #[trigger] gone@[e] == doomed(before, target as int, e),
                held_valid(before, held),
                left@ == held_kept(before, target as int, held.take(k as int)),
            decreases held.len() - k,
        {
            let event = self.pending[k];
            assert(held.take(k + 1).drop_last() =~= held.take(k as int));
            assert(owned_by(before, held[k as int].member as int, held[k as int].family as int));
            assert(gone@[event.member as int] == doomed(before, target as int, event.member as int));
            if !gone[event.member] {
                left.push(event);
            }
            k = k + 1;
        }
        assert(held.take(held.len() as int) =~= held);
        self.pending = left;
        proof {
            lemma_delete_keeps_wf(before, self@, target as int, held);
        }
        Ok(())
    }

    /// Decodes a creation request against `registry` and applies it. A request
    /// that does not decode changes nothing.
    pub fn receive_create(
        &mut self,
        bytes: &[u8],
        registry: &TypeRegistry,
        target: Entity,
        client: ClientId,
    ) -> (r: Result<CreateOutcome, DecodeError>)
        requires
            old(self).wf(),
        ensures
            final(self).wf(),
            final(self).held() == old(self).held(),
            match r {
                Err(e) => parse_request(bytes@, registry@) == Err::<RequestView, DecodeError>(e)
                    && final(self)@ == old(self)@,
                Ok(out) => parse_request(bytes@, registry@) matches Ok(req) && {
                    &&& created(old(self)@, final(self)@, req, target, out.family as int)
                    &&& out.confirmation == (if req.select {
                        Some(SelectedFamilyCreated { client, family: out.family })
                    } else {
                        None
                    })
                },
            },
    {
        match deserialize_family_create(bytes, registry) {
            Err(e) => Err(e),
            Ok(request) => Ok(self.apply_create(request, target, client)),
        }
    }

    /// Every family of the world, in order of creation.
    pub fn families(&self) -> (r: Vec<Entity>)
        ensures
            r@ == family_entities(self@, self@.len() as int),
    {
        let mut r: Vec<Entity> = Vec::new();
        let mut i: usize = 0;
        while i < self.entities.len()
            invariant
                i <= self@.len(),
                r@ == family_entities(self@, i as int),
            decreases self@.len() - i,
        {
            if let Some(EntityData::Family(_)) = &self.entities[i] {
                r.push(i);
            }
            i = i + 1;
        }
        r
    }

    /// Allocates an entity that is not yet a family. Membership events addressed
    /// to it are held until `init_family` makes it one.
    pub fn reserve(&mut self) -> (r: Entity)
        requires
            old(self).wf(),
        ensures
            final(self).wf(),
            r == old(self)@.len(),
            final(self)@ == old(self)@.push(Some(EntityData::Reserved)),
            final(self).held() == old(self).held(),
    {
        let ghost before = self@;
        let r = self.entities.len();
        self.entities.push(Some(EntityData::Reserved));
        proof {
            let w = self@;
            let held = self.held();
            assert forall|e: int| 0 <= e < before.len() implies {
                &&& #[trigger] members_of(w, e) == members_of(before, e)
                &&& family_at(w, e) == family_at(before, e)
                &&& actor_at(w, e) == actor_at(before, e)
                &&& reserved_at(w, e) == reserved_at(before, e)
            } by {
                assert(w[e] == before[e]);
            }
            assert(members_of(w, r as int).len() == 0);
            assert forall|e: int, k: int| 0 <= k < members_of(w, e).len() implies owned_by(
                w,
                #[trigger] members_of(w, e)[k] as int,
                e,
            ) by {
                assert(owned_by(before, members_of(before, e)[k] as int, e));
            }
            assert forall|a: int| #[trigger] actor_at(w, a) is Some implies ({
                let g = actor_at(w, a)->Some_0.family_entity;
                ||| family_at(w, g as int) is Some && members_of(w, g as int).contains(a as Entity)
                ||| reserved_at(w, g as int) && held.contains(FamilyMemberAdded { member: a as Entity, family: g })
            }) by {
                assert(actor_at(before, a) is Some);
                let g = actor_at(before, a)->Some_0.family_entity as int;
                if family_at(before, g) is Some {
                    assert(0 <= g < before.len());
                } else {
                    assert(reserved_at(before, g));
                }
            }
            assert forall|e: int| (#[trigger] members_of(w, e)).no_duplicates() by {
                if 0 <= e < before.len() {
                    assert(members_of(before, e).no_duplicates());
                }
            }
            assert forall|e: int| #[trigger] actor_at(w, e) is Some implies (actor_at(w, e)->Some_0.parent is Some
                ==> (actor_at(w, e)->Some_0.parent->Some_0 as int) < e) by {
                assert(actor_at(before, e) is Some);
            }
            assert forall|i: int| 0 <= i < held.len() implies reserved_at(w, (#[trigger] held[i]).family as int)
                && owned_by(w, held[i].member as int, held[i].family as int) by {
                assert(reserved_at(before, held[i].family as int));
                assert(owned_by(before, held[i].member as int, held[i].family as int));
            }
        }
        r
    }

    /// Spawns an actor of `family_entity` directly (as a scene does), under
    /// `parent` where an entity stands there. Its membership event is raised at
    /// once: a family appends it, a reserved entity holds it. An owner that is
    /// neither is refused.
    pub fn spawn_actor(&mut self, family_entity: Entity, parent: Entity, payload: ActorPayload) -> (r:
        Option<Entity>)
        requires
            old(self).wf(),
        ensures
            final(self).wf(),
            !(family_at(old(self)@, family_entity as int) is Some || reserved_at(old(self)@, family_entity as int))
                ==> r is None && final(self)@ == old(self)@ && final(self).held() == old(self).held(),
            (family_at(old(self)@, family_entity as int) is Some || reserved_at(old(self)@, family_entity as int))
                ==> {
                &&& r == Some(old(self)@.len() as Entity)
                &&& final(self)@.len() == old(self)@.len() + 1
                &&& forall|e: int|
                    0 <= e < old(self)@.len() && e != family_entity ==> final(self)@[e] == old(self)@[e]
                &&& actor_at(final(self)@, old(self)@.len() as int) matches Some(a) && {
                    &&& a.family_entity == family_entity
                    &&& a.parent == parent_link(old(self)@, parent)
                    &&& a.payload@ == payload@
                }
                &&& family_at(old(self)@, family_entity as int) matches Some(fam) ==> {
                    &&& final(self).held() == old(self).held()
                    &&& family_at(final(self)@, family_entity as int) matches Some(g) && {
                        &&& g.name == fam.name
                        &&& g.budget == fam.budget
                        &&& g.selected == fam.selected
                        &&& g.members.0@ == fam.members.0@.push(old(self)@.len() as Entity)
                    }
                }
                &&& reserved_at(old(self)@, family_entity as int) ==> {
                    &&& final(self).held() == old(self).held().push(
                        FamilyMemberAdded { member: old(self)@.len() as Entity, family: family_entity },
                    )
                    &&& final(self)@[family_entity as int] == old(self)@[family_entity as int]
                }
            },
    {
        let ghost before = self@;
        let ghost held0 = self.held();
        let owner_ok = if family_entity < self.entities.len() {
            match &self.entities[family_entity] {
                Some(EntityData::Family(_)) => true,
                Some(EntityData::Reserved) => true,
                _ => false,
            }
        } else {
            false
        };
        if !owner_ok {
            return None;
        }
        let link = if self.contains(parent) {
            Some(parent)
        } else {
            None
        };
        let actor = Actor { family_entity, parent: link, payload };
        let entity = self.entities.len();
        let event = record_new_member(entity, &actor);
        self.entities.push(Some(EntityData::Actor(actor)));
        let ghost mid = self@;
        assert(family_at(mid, family_entity as int) == family_at(before, family_entity as int));
        assert(reserved_at(mid, family_entity as int) == reserved_at(before, family_entity as int));
        self.update_members(event);
        proof {
            let w = self@;
            let held = self.held();
            let fe = family_entity as int;
            let n = entity as int;
            assert(w[n] == mid[n]);
            assert forall|e: int| 0 <= e < before.len() && e != fe implies {
                &&& #[trigger] members_of(w, e) == members_of(before, e)
                &&& family_at(w, e) == family_at(before, e)
                &&& actor_at(w, e) == actor_at(before, e)
                &&& reserved_at(w, e) == reserved_at(before, e)
            } by {
                assert(w[e] == mid[e]);
                assert(mid[e] == before[e]);
            }
            assert(actor_at(w, fe) is None && actor_at(before, fe) is None);
            assert(family_at(w, fe) is Some == family_at(before, fe) is Some);
            assert(reserved_at(w, fe) == reserved_at(before, fe));
            assert(family_at(before, fe) is Some ==> members_of(w, fe) == members_of(before, fe).push(entity));
            assert(reserved_at(before, fe) ==> members_of(w, fe).len() == 0 && members_of(before, fe).len() == 0);
            assert(family_at(w, n) is None && !reserved_at(w, n) && members_of(w, n).len() == 0);
            assert forall|e: int, k: int| 0 <= k < members_of(before, e).len() implies (#[trigger] members_of(before, e)[k] as int) < n by {
                assert(owned_by(before, members_of(before, e)[k] as int, e));
            }
            assert forall|i: int| 0 <= i < held0.len() implies (#[trigger] held0[i]).member < n by {
                assert(owned_by(before, held0[i].member as int, held0[i].family as int));
            }
            assert forall|e: int, k: int| 0 <= k < members_of(w, e).len() implies owned_by(
                w,
                #[trigger] members_of(w, e)[k] as int,
                e,
            ) by {
                if e == fe {
                    if k < members_of(before, e).len() {
                        let m = members_of(before, e)[k] as int;
                        assert(members_of(w, e)[k] == members_of(before, e)[k]);
                        assert(owned_by(before, m, e));
                        assert(m < n && m != fe);
                        assert(actor_at(w, m) == actor_at(before, m));
                    }
                } else if 0 <= e < before.len() {
                    let m = members_of(before, e)[k] as int;
                    assert(owned_by(before, m, e));
                    assert(m < n);
                    assert(actor_at(w, m) == actor_at(before, m));
                }
            }
            assert forall|a: int| #[trigger] actor_at(w, a) is Some implies ({
                let g = actor_at(w, a)->Some_0.family_entity;
                ||| family_at(w, g as int) is Some && members_of(w, g as int).contains(a as Entity)
                ||| reserved_at(w, g as int) && held.contains(FamilyMemberAdded { member: a as Entity, family: g })
            }) by {
                if a == n {
                    if family_at(before, fe) is Some {
                        assert(members_of(w, fe)[members_of(w, fe).len() - 1] == entity);
                    } else {
                        assert(held[held.len() - 1] == event);
                    }
                } else {
                    assert(0 <= a < before.len());
                    assert(actor_at(before, a) is Some);
                    let g = actor_at(before, a)->Some_0.family_entity as int;
                    if family_at(before, g) is Some {
                        assert(members_of(before, g).contains(a as Entity));
                        let j = choose|j: int| 0 <= j < members_of(before, g).len() && members_of(before, g)[j] == a as Entity;
                        assert(members_of(w, g)[j] == a as Entity);
                    } else {
                        assert(reserved_at(before, g));
                        let x = FamilyMemberAdded { member: a as Entity, family: g as Entity };
                        assert(held0.contains(x));
                        let j = choose|j: int| 0 <= j < held0.len() && held0[j] == x;
                        assert(held[j] == x);
                    }
                }
            }
            assert forall|e: int| (#[trigger] members_of(w, e)).no_duplicates() by {
                if e == fe {
                    let m = members_of(w, e);
                    let m0 = members_of(before, e);
                    assert(m0.no_duplicates());
                    assert forall|i: int, j: int| 0 <= i < m.len() && 0 <= j < m.len() && i != j implies m[i] != m[j] by {
                        if i < m0.len() { assert(m[i] == m0[i]); assert((m0[i] as int) < n); }
                        if j < m0.len() { assert(m[j] == m0[j]); assert((m0[j] as int) < n); }
                    }
                } else if 0 <= e < before.len() {
                    assert(members_of(before, e).no_duplicates());
                }
            }
            assert forall|e: int| #[trigger] actor_at(w, e) is Some implies (actor_at(w, e)->Some_0.parent is Some
                ==> (actor_at(w, e)->Some_0.parent->Some_0 as int) < e) by {
                if e != n {
                    assert(actor_at(before, e) is Some);
                }
            }
            assert forall|i: int| 0 <= i < held.len() implies reserved_at(w, (#[trigger] held[i]).family as int)
                && owned_by(w, held[i].member as int, held[i].family as int) by {
                if i < held0.len() {
                    assert(held[i] == held0[i]);
                    assert(reserved_at(before, held0[i].family as int));
                    assert(owned_by(before, held0[i].member as int, held0[i].family as int));
                    assert(held0[i].member < n);
                }
            }
            assert(held.no_duplicates()) by {
                assert forall|i: int, j: int| 0 <= i < held.len() && 0 <= j < held.len() && i != j implies held[i] != held[j] by {
                    if i < held0.len() { assert(held[i] == held0[i]); assert(held0[i].member < n); }
                    if j < held0.len() { assert(held[j] == held0[j]); assert(held0[j].member < n); }
                }
            }
        }
        Some(entity)
    }

    /// Makes the reserved entity `e` a family named `name`, and delivers to it the
    /// membership events held for it, in the order they were raised. An entity
    /// that is not reserved is left alone.
    pub fn init_family(&mut self, e: Entity, name: String) -> (r: bool)
        requires
            old(self).wf(),
        ensures
            final(self).wf(),
            r == reserved_at(old(self)@, e as int),
            !r ==> final(self)@ == old(self)@ && final(self).held() == old(self).held(),
            r ==> {
                &&& final(self)@.len() == old(self)@.len()
                &&& forall|x: int| 0 <= x < old(self)@.len() && x != e ==> final(self)@[x] == old(self)@[x]
                &&& family_at(final(self)@, e as int) matches Some(fam) && {
                    &&& fam.name@ == name@
                    &&& fam.budget == Budget(20_000)
                    &&& fam.selected is None
                    &&& fam.members.0@ == held_for(old(self).held(), e)
                }
                &&& final(self).held() == held_other(old(self).held(), e)
            },
    {
        let ghost before = self@;
        let ghost held = self.held();
        let reserved = e < self.entities.len() && match &self.entities[e] {
            Some(EntityData::Reserved) => true,
            _ => false,
        };
        if !reserved {
            return false;
        }
        let mut members: Vec<Entity> = Vec::new();
        let mut others: Vec<FamilyMemberAdded> = Vec::new();
        let mut k: usize = 0;
        while k < self.pending.len()
            invariant
                self.pending@ == held,
                self@ == before,
                k <= held.len(),
                members@ == held_for(held.take(k as int), e),
                others@ == held_other(held.take(k as int), e),
            decreases held.len() - k,
        {
            let event = self.pending[k];
            assert(held.take(k + 1).drop_last() =~= held.take(k as int));
            if event.family == e {
                members.push(event.member);
            } else {
                others.push(event);
            }
            k = k + 1;
        }
        assert(held.take(held.len() as int) =~= held);
        self.pending = others;
        self.entities[e] = Some(
            EntityData::Family(
                Family {
                    name,
                    budget: Budget::default(),
                    members: FamilyMembers(members),
                    selected: None,
                },
            ),
        );
        proof {
            let w = self@;
            let h2 = self.held();
            lemma_held_split(held, e);
            assert forall|x: int| 0 <= x < before.len() && x != e implies {
                &&& #[trigger] members_of(w, x) == members_of(before, x)
                &&& family_at(w, x) == family_at(before, x)
                &&& actor_at(w, x) == actor_at(before, x)
                &&& reserved_at(w, x) == reserved_at(before, x)
            } by {
                assert(w[x] == before[x]);
            }
            assert(actor_at(w, e as int) is None && actor_at(before, e as int) is None);
            assert forall|x: int, k2: int| 0 <= k2 < members_of(w, x).len() implies owned_by(
                w,
                #[trigger] members_of(w, x)[k2] as int,
                x,
            ) by {
                if x == e {
                    let m = members_of(w, x)[k2];
                    assert(held.contains(FamilyMemberAdded { member: m, family: e }));
                    let j = choose|j: int| 0 <= j < held.len() && held[j] == FamilyMemberAdded { member: m, family: e };
                    assert(owned_by(before, held[j].member as int, held[j].family as int));
                    assert(actor_at(w, m as int) == actor_at(before, m as int));
                } else {
                    let m = members_of(before, x)[k2] as int;
                    assert(owned_by(before, m, x));
                    assert(actor_at(w, m) == actor_at(before, m));
                }
            }
            assert forall|a: int| #[trigger] actor_at(w, a) is Some implies ({
                let g = actor_at(w, a)->Some_0.family_entity;
                ||| family_at(w, g as int) is Some && members_of(w, g as int).contains(a as Entity)
                ||| reserved_at(w, g as int) && h2.contains(FamilyMemberAdded { member: a as Entity, family: g })
            }) by {
                assert(0 <= a < before.len() && a != e);
                assert(actor_at(before, a) is Some);
                let g = actor_at(before, a)->Some_0.family_entity as int;
                if family_at(before, g) is Some {
                    assert(g != e);
                } else {
                    assert(reserved_at(before, g));
                    let x = FamilyMemberAdded { member: a as Entity, family: g as Entity };
                    assert(held.contains(x));
                    if g == e {
                        assert(held_for(held, e).contains(a as Entity));
                    }
                }
            }
            assert forall|x: int| (#[trigger] members_of(w, x)).no_duplicates() by {
                if 0 <= x < before.len() && x != e {
                    assert(members_of(before, x).no_duplicates());
                }
            }
            assert forall|x: int| #[trigger] actor_at(w, x) is Some implies (actor_at(w, x)->Some_0.parent is Some
                ==> (actor_at(w, x)->Some_0.parent->Some_0 as int) < x) by {
                assert(actor_at(before, x) is Some);
            }
            assert forall|i: int| 0 <= i < h2.len() implies reserved_at(w, (#[trigger] h2[i]).family as int)
                && owned_by(w, h2[i].member as int, h2[i].family as int) by {
                assert(held.contains(h2[i]));
                let j = choose|j: int| 0 <= j < held.len() && held[j] == h2[i];
                assert(reserved_at(before, held[j].family as int));
                assert(owned_by(before, held[j].member as int, held[j].family as int));
                assert(actor_at(w, h2[i].member as int) == actor_at(before, h2[i].member as int));
            }
        }
        true
    }

    /// Whether any entity stands at `e`.
    pub fn contains(&self, e: Entity) -> (r: bool)
        ensures
            r == (0 <= e < self@.len() && self@[e as int] is Some),
    {
        e < self.entities.len() && self.entities[e].is_some()
    }
}

} // verus!
