//! The entity registry: one slot per entity, found by a stable identity, the
//! components of each entity held in typed fields, and the messages that have
//! been sent and not yet resolved.

use vstd::prelude::*;
use crate::components::{
    AmuletOfYala,
    ChasingPlayer,
    Enemy,
    Entity,
    FieldOfView,
    Health,
    Item,
    MovingRandomly,
    Name,
    Player,
    Render,
    WantsToAttack,
    WantsToMove,
};
use crate::geometry::{in_grid, Point, SCREEN_HEIGHT, SCREEN_WIDTH};

verus! {

/// The components of one entity that are plain data.
#[derive(Clone, Copy, Debug)]
pub struct Components {
    pub position: Point,
    pub health: Option<Health>,
    pub render: Option<Render>,
    pub player: Option<Player>,
    pub enemy: Option<Enemy>,
    pub item: Option<Item>,
    pub amulet: Option<AmuletOfYala>,
    pub moving_randomly: Option<MovingRandomly>,
    pub chasing_player: Option<ChasingPlayer>,
}

/// One place of the registry: whether an entity lives there, the generation
/// of that entity, and its components.
#[derive(Clone, Copy, Debug)]
pub struct Slot {
    pub alive: bool,
    pub generation: u32,
    pub parts: Components,
}

/// Whether a new entity may take the slot.
pub open spec fn reusable(slot: Slot) -> bool {
    !slot.alive && slot.generation < u32::MAX
}

/// The sequence with `v` in place `i`: in place of what was there, or
/// behind the others where `i` is the next free place.
pub open spec fn stored<T>(s: Seq<T>, i: int, v: T) -> Seq<T> {
    if i < s.len() {
        s.update(i, v)
    } else {
        s.push(v)
    }
}

/// The registry: the slots with the plain components, the names and the
/// fields of view, one entry per slot each, and the pending messages in the
/// order in which they were sent.
#[derive(Clone, Debug)]
pub struct World {
    pub slots: Vec<Slot>,
    pub names: Vec<Option<Name>>,
    pub fovs: Vec<Option<FieldOfView>>,
    pub moves: Vec<WantsToMove>,
    pub attacks: Vec<WantsToAttack>,
}

/// Whether `e` names the entity that lives in its slot.
pub open spec fn names_living(slots: Seq<Slot>, e: Entity) -> bool {
    e.index < slots.len() && slots[e.index as int].alive && slots[e.index as int].generation
        == e.generation
}

/// Whether the entity that `e` named has been removed: its slot has moved
/// on to a later generation.
pub open spec fn gone(slots: Seq<Slot>, e: Entity) -> bool {
    e.index < slots.len() && slots[e.index as int].generation > e.generation
}

/// Whether no slot of `before` is missing from `after` or has gone back to
/// an earlier generation.
pub open spec fn never_younger(before: Seq<Slot>, after: Seq<Slot>) -> bool {
    before.len() <= after.len() && forall|i: int|
        0 <= i < before.len() ==> (#[trigger] before[i]).generation <= after[i].generation
}

/// An identity whose entity has been removed names no living entity, and
/// stays so for as long as generations only go up.
pub proof fn lemma_gone_stays_gone(before: Seq<Slot>, after: Seq<Slot>, e: Entity)
    requires
        gone(before, e),
        never_younger(before, after),
    ensures
        gone(after, e),
        !names_living(before, e),
        !names_living(after, e),
{
    assert(before[e.index as int].generation <= after[e.index as int].generation);
}

impl World {
    /// The three component stores have one entry per slot; every living
    /// entity stands on the grid, and its generation can still be raised.
    pub open spec fn wf(&self) -> bool {
        &&& self.names@.len() == self.slots@.len()
        &&& self.fovs@.len() == self.slots@.len()
        &&& forall|i: int|
            0 <= i < self.slots@.len() && (#[trigger] self.slots@[i]).alive ==> in_grid(
                self.slots@[i].parts.position,
            ) && self.slots@[i].generation < u32::MAX
        &&& forall|i: int|
            0 <= i < self.slots@.len() && !(#[trigger] self.slots@[i]).alive
                ==> self.names@[i].is_none() && self.fovs@[i].is_none()
    }

    /// Whether `e` is the identity of a living entity.
    pub open spec fn contains(&self, e: Entity) -> bool {
        names_living(self.slots@, e)
    }

    /// The identity of the occupant of slot `i`.
    pub open spec fn entity_at(&self, i: int) -> Entity {
        Entity { index: i as usize, generation: self.slots@[i].generation }
    }

    /// A registry without entities or messages.
    pub fn new() -> (w: World)
        ensures
            w.wf(),
            w.slots@.len() == 0,
            w.moves@.len() == 0,
            w.attacks@.len() == 0,
    {
        World {
            slots: Vec::new(),
            names: Vec::new(),
            fovs: Vec::new(),
            moves: Vec::new(),
            attacks: Vec::new(),
        }
    }

    /// Number of slots, free ones included.
    pub fn len(&self) -> (n: usize)
        ensures
            n == self.slots@.len(),
    {
        self.slots.len()
    }

    /// Adds an entity. It takes the first slot that may be reused, or a new
    /// slot behind the others.
    pub fn spawn(&mut self, parts: Components, name: Option<Name>, fov: Option<FieldOfView>) -> (e:
        Entity)
        requires
            old(self).wf(),
            in_grid(parts.position),
        ensures
            final(self).wf(),
            final(self).contains(e),
            e.index <= old(self).slots@.len(),
            forall|i: int| 0 <= i < e.index ==> !reusable(#[trigger] old(self).slots@[i]),
            e.index < old(self).slots@.len() ==> reusable(old(self).slots@[e.index as int])
                && e.generation == old(self).slots@[e.index as int].generation,
            e.index == old(self).slots@.len() ==> e.generation == 0,
            final(self).slots@ == stored(
                old(self).slots@,
                e.index as int,
                Slot { alive: true, generation: e.generation, parts },
            ),
            final(self).names@ == stored(old(self).names@, e.index as int, name),
            final(self).fovs@ == stored(old(self).fovs@, e.index as int, fov),
            final(self).moves@ == old(self).moves@,
            final(self).attacks@ == old(self).attacks@,
            never_younger(old(self).slots@, final(self).slots@),
    {
        let mut i: usize = 0;
        while i < self.slots.len()
            invariant
                *self == *old(self),
                self.wf(),
                in_grid(parts.position),
                i <= self.slots@.len(),
                forall|j: int| 0 <= j < i ==> !reusable(#[trigger] self.slots@[j]),
            decreases self.slots@.len() - i,
        {
            let slot: Slot = self.slots[i];
            if !slot.alive && slot.generation < u32::MAX {
                self.slots.set(i, Slot { alive: true, generation: slot.generation, parts });
                self.names.set(i, name);
                self.fovs.set(i, fov);
                return Entity { index: i, generation: slot.generation };
            }
            i += 1;
        }
        self.slots.push(Slot { alive: true, generation: 0, parts });
        self.names.push(name);
        self.fovs.push(fov);
        Entity { index: i, generation: 0 }
    }

    /// Removes the entity `e` and retires its identity. Returns whether `e`
    /// was the identity of a living entity.
    pub fn despawn(&mut self, e: Entity) -> (removed: bool)
        requires
            old(self).wf(),
        ensures
            final(self).wf(),
            removed == old(self).contains(e),
            !removed ==> *final(self) == *old(self),
            removed ==> final(self).slots@ == old(self).slots@.update(
                e.index as int,
                Slot {
                    alive: false,
                    generation: (e.generation + 1) as u32,
                    parts: old(self).slots@[e.index as int].parts,
                },
            ) && final(self).names@ == old(self).names@.update(e.index as int, None)
                && final(self).fovs@ == old(self).fovs@.update(e.index as int, None),
            final(self).moves@ == old(self).moves@,
            final(self).attacks@ == old(self).attacks@,
            !final(self).contains(e),
            removed ==> gone(final(self).slots@, e),
            never_younger(old(self).slots@, final(self).slots@),
    {
        if !self.is_alive(e) {
            return false;
        }
        let slot: Slot = self.slots[e.index];
        self.slots.set(
            e.index,
            Slot { alive: false, generation: slot.generation + 1, parts: slot.parts },
        );
        self.names.set(e.index, None);
        self.fovs.set(e.index, None);
        true
    }

    /// Whether the registry is well formed, found out by looking.
    pub fn is_sound(&self) -> (b: bool)
        ensures
            b == self.wf(),
    {
        if self.names.len() != self.slots.len() || self.fovs.len() != self.slots.len() {
            return false;
        }
        let mut i: usize = 0;
        while i < self.slots.len()
            invariant
                i <= self.slots@.len(),
                self.names@.len() == self.slots@.len(),
                self.fovs@.len() == self.slots@.len(),
                forall|j: int|
                    0 <= j < i && (#[trigger] self.slots@[j]).alive ==> in_grid(
                        self.slots@[j].parts.position,
                    ) && self.slots@[j].generation < u32::MAX,
                forall|j: int|
                    0 <= j < i && !(#[trigger] self.slots@[j]).alive ==> self.names@[j].is_none()
                        && self.fovs@[j].is_none(),
            decreases self.slots@.len() - i,
        {
            let slot: Slot = self.slots[i];
            let p: Point = slot.parts.position;
            let sound: bool = if slot.alive {
                0 <= p.x && p.x < SCREEN_WIDTH && 0 <= p.y && p.y < SCREEN_HEIGHT && slot.generation
                    < u32::MAX
            } else {
                self.names[i].is_none() && self.fovs[i].is_none()
            };
            if !sound {
                assert(!self.wf()) by {
                    let unsound = self.slots@[i as int];
                }
                return false;
            }
            i += 1;
        }
        true
    }

    /// Whether `e` is the identity of a living entity.
    pub fn is_alive(&self, e: Entity) -> (b: bool)
        ensures
            b == self.contains(e),
    {
        e.index < self.slots.len() && self.slots[e.index].alive && self.slots[e.index].generation
            == e.generation
    }

    /// The position of `e`, while it lives.
    pub fn position(&self, e: Entity) -> (r: Option<Point>)
        ensures
            r == if self.contains(e) {
                Some(self.slots@[e.index as int].parts.position)
            } else {
                None
            },
    {
        if self.is_alive(e) {
            Some(self.slots[e.index].parts.position)
        } else {
            None
        }
    }

    /// The hit points of `e`, while it lives and has any.
    pub fn health(&self, e: Entity) -> (r: Option<Health>)
        ensures
            r == if self.contains(e) {
                self.slots@[e.index as int].parts.health
            } else {
                None
            },
    {
        if self.is_alive(e) {
            self.slots[e.index].parts.health
        } else {
            None
        }
    }

    /// Replaces the plain components of a living entity. Returns whether `e`
    /// lives; if it does not, nothing changes.
    pub fn set_parts(&mut self, e: Entity, parts: Components) -> (done: bool)
        requires
            old(self).wf(),
            in_grid(parts.position),
        ensures
            final(self).wf(),
            done == old(self).contains(e),
            !done ==> *final(self) == *old(self),
            done ==> final(self).slots@ == old(self).slots@.update(
                e.index as int,
                Slot { alive: true, generation: e.generation, parts },
            ),
            final(self).names@ == old(self).names@,
            final(self).fovs@ == old(self).fovs@,
            final(self).moves@ == old(self).moves@,
            final(self).attacks@ == old(self).attacks@,
    {
        if !self.is_alive(e) {
            return false;
        }
        self.slots.set(e.index, Slot { alive: true, generation: e.generation, parts });
        true
    }

    /// Gives a living entity that has hit points the hit points `health`.
    /// Returns whether it did; if not, nothing changes.
    pub fn set_health(&mut self, e: Entity, health: Health) -> (done: bool)
        requires
            old(self).wf(),
        ensures
            final(self).wf(),
            done == (old(self).contains(e)
                && old(self).slots@[e.index as int].parts.health.is_some()),
            !done ==> *final(self) == *old(self),
            done ==> final(self).slots@ == old(self).slots@.update(
                e.index as int,
                with_health(old(self).slots@[e.index as int], health),
            ),
            final(self).names@ == old(self).names@,
            final(self).fovs@ == old(self).fovs@,
            final(self).moves@ == old(self).moves@,
            final(self).attacks@ == old(self).attacks@,
    {
        if !self.is_alive(e) {
            return false;
        }
        let slot: Slot = self.slots[e.index];
        if slot.parts.health.is_none() {
            return false;
        }
        let mut parts: Components = slot.parts;
        parts.health = Some(health);
        self.slots.set(e.index, Slot { alive: true, generation: slot.generation, parts });
        true
    }
}

/// The slot with its hit points replaced.
pub open spec fn with_health(slot: Slot, health: Health) -> Slot {
    Slot {
        alive: slot.alive,
        generation: slot.generation,
        parts: Components { health: Some(health), ..slot.parts },
    }
}

/// The slot with its position replaced.
pub open spec fn with_position(slot: Slot, position: Point) -> Slot {
    Slot {
        alive: slot.alive,
        generation: slot.generation,
        parts: Components { position, ..slot.parts },
    }
}

/// What a search of the registry looks for.
#[derive(Clone, Copy, Debug)]
pub enum Query {
    /// A living entity marked as the player.
    Player,
    /// A living entity marked as the player that has hit points.
    LivingPlayer,
    /// A living entity marked as the amulet.
    Amulet,
    /// A living entity marked as an enemy that stands on the point.
    EnemyAt(Point),
    /// A living entity with hit points that stands on the point.
    LivingAt(Point),
    /// A living entity with hit points, marked as the player, that stands on
    /// the point.
    LivingPlayerAt(Point),
}

/// Whether the occupant of the slot is what the query looks for.
pub open spec fn answers(slot: Slot, q: Query) -> bool {
    slot.alive && match q {
        Query::Player => slot.parts.player.is_some(),
        Query::LivingPlayer => slot.parts.player.is_some() && slot.parts.health.is_some(),
        Query::Amulet => slot.parts.amulet.is_some(),
        Query::EnemyAt(p) => slot.parts.enemy.is_some() && slot.parts.position == p,
        Query::LivingAt(p) => slot.parts.health.is_some() && slot.parts.position == p,
        Query::LivingPlayerAt(p) => slot.parts.health.is_some() && slot.parts.player.is_some()
            && slot.parts.position == p,
    }
}

/// The least index below `upto` whose slot answers the query.
pub open spec fn first_match(slots: Seq<Slot>, q: Query, upto: int) -> Option<int>
    decreases upto,
{
    if upto <= 0 {
        None
    } else {
        match first_match(slots, q, upto - 1) {
            Some(i) => Some(i),
            None => if answers(slots[upto - 1], q) {
                Some(upto - 1)
            } else {
                None
            },
        }
    }
}

/// A search finds the first slot that answers, and finds nothing only
/// where no slot answers.
pub proof fn lemma_first_match(slots: Seq<Slot>, q: Query, upto: int)
    requires
        0 <= upto <= slots.len(),
    ensures
        match first_match(slots, q, upto) {
            Some(i) => 0 <= i < upto && answers(slots[i], q) && forall|j: int|
                0 <= j < i ==> !answers(#[trigger] slots[j], q),
            None => forall|j: int| 0 <= j < upto ==> !answers(#[trigger] slots[j], q),
        },
    decreases upto,
{
    if upto > 0 {
        lemma_first_match(slots, q, upto - 1);
    }
}

/// Whether the occupant of the slot is what the query looks for.
fn slot_answers(slot: &Slot, q: Query) -> (b: bool)
    ensures
        b == answers(*slot, q),
{
    slot.alive && match q {
        Query::Player => slot.parts.player.is_some(),
        Query::LivingPlayer => slot.parts.player.is_some() && slot.parts.health.is_some(),
        Query::Amulet => slot.parts.amulet.is_some(),
        Query::EnemyAt(p) => slot.parts.enemy.is_some() && slot.parts.position == p,
        Query::LivingAt(p) => slot.parts.health.is_some() && slot.parts.position == p,
        Query::LivingPlayerAt(p) => slot.parts.health.is_some() && slot.parts.player.is_some()
            && slot.parts.position == p,
    }
}

impl World {
    /// The first entity, in slot order, that answers the query.
    pub open spec fn first(&self, q: Query) -> Option<Entity> {
        match first_match(self.slots@, q, self.slots@.len() as int) {
            Some(i) => Some(self.entity_at(i)),
            None => None,
        }
    }

    /// The first entity, in slot order, that answers the query.
    pub fn find(&self, q: Query) -> (r: Option<Entity>)
        ensures
            r == self.first(q),
            r.is_some() ==> self.contains(r.unwrap()) && answers(
                self.slots@[r.unwrap().index as int],
                q,
            ),
    {
        let mut i: usize = 0;
        while i < self.slots.len()
            invariant
                i <= self.slots@.len(),
                first_match(self.slots@, q, i as int).is_none(),
            decreases self.slots@.len() - i,
        {
            if slot_answers(&self.slots[i], q) {
                proof {
                    lemma_found_stays(self.slots@, q, i as int, self.slots@.len() as int);
                }
                return Some(Entity { index: i, generation: self.slots[i].generation });
            }
            i += 1;
        }
        None
    }
}

/// The first slot that answers stays the first however far the search
/// goes on.
proof fn lemma_found_stays(slots: Seq<Slot>, q: Query, i: int, upto: int)
    requires
        0 <= i < upto <= slots.len(),
        first_match(slots, q, i).is_none(),
        answers(slots[i], q),
    ensures
        first_match(slots, q, upto) == Some(i),
    decreases upto,
{
    if upto > i + 1 {
        lemma_found_stays(slots, q, i, upto - 1);
    }
}

} // verus!
