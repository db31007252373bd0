//! One level of the world: a bounded grid whose cells hold entities.
//!
//! Entities are stored in one vector; the occupants of a tile are the
//! entities at its position, in storage order, and moving an entity
//! re-appends it, so storage order restricted to one tile is its insertion
//! order (used for render stacking). An entity id occurs at most once.

use vstd::prelude::*;
use crate::errors::EngineError;
use crate::ipoint::IPoint;
use crate::object::Color;
use crate::object::Icon;
use crate::object::Idx;
use crate::object::Object;
use crate::object::Pixel;
use crate::pointset::PointSet;
use crate::pointset::view_pt;
use crate::visibility::in_bounds_pt;
use crate::visibility::lemma_range_inside_candidates;
use crate::visibility::spec_visibility;
use crate::visibility::visibility_set;
use crate::visibility::within_range;

verus! {

/// One entity: a behavior object bound to a level and a position.
#[derive(Clone, Copy, Debug)]
pub struct Entity {
    pub object: Object,
    pub level: Idx,
    pub position: IPoint,
}

impl Entity {
    /// The id of the level holding this entity.
    pub fn level(&self) -> (r: Idx)
        ensures
            r == self.level,
    {
        self.level
    }

    /// The position of this entity.
    pub fn position(&self) -> (r: IPoint)
        ensures
            r == self.position,
    {
        self.position
    }

    /// The behavior object of this entity.
    pub fn object(&self) -> (r: &Object)
        ensures
            r == self.object,
    {
        &self.object
    }
}

/// Whether `p` lies on a board of the given size.
pub open spec fn inside_board(size: IPoint, p: IPoint) -> bool {
    0 <= p.x < size.x && 0 <= p.y < size.y
}

/// The entities of `s` standing at `p`, in storage order.
pub open spec fn tile_of(s: Seq<Entity>, p: IPoint) -> Seq<Entity>
    decreases s.len(),
{
    if s.len() == 0 {
        Seq::empty()
    } else {
        let rest = tile_of(s.drop_last(), p);
        if s.last().position == p {
            rest.push(s.last())
        } else {
            rest
        }
    }
}

/// Whether some entity of `s` blocks movement.
pub open spec fn spec_tile_blocking(s: Seq<Entity>) -> bool {
    exists|i: int| 0 <= i < s.len() && s[i].object.spec_is_blocking()
}

/// Whether no entity of `s` blocks sight.
pub open spec fn spec_tile_transparent(s: Seq<Entity>) -> bool {
    forall|i: int| 0 <= i < s.len() ==> !s[i].object.spec_is_opaque()
}

/// A level: its id, its size, and its entities.
pub struct Level {
    pub idx: Idx,
    pub size: IPoint,
    pub entities: Vec<Entity>,
}

impl Level {
    /// The board is small enough for the engine's arithmetic, every entity
    /// stands on it and belongs to this level, every behavior is
    /// well-formed, and no entity id occurs twice.
    pub open spec fn wf(self) -> bool {
        &&& 1 <= self.size.x <= 4096
        &&& 1 <= self.size.y <= 4096
        &&& forall|i: int|
            0 <= i < self.entities@.len() ==> inside_board(
                self.size,
                (#[trigger] self.entities@[i]).position,
            ) && self.entities@[i].level == self.idx && self.entities@[i].object.wf()
        &&& forall|i: int, j: int|
            0 <= i < j < self.entities@.len() ==> (#[trigger] self.entities@[i]).object.spec_idx()
                != (#[trigger] self.entities@[j]).object.spec_idx()
    }

    /// Whether an entity with this id is stored.
    pub open spec fn contains_id(self, id: Idx) -> bool {
        exists|i: int| 0 <= i < self.entities@.len() && (#[trigger] self.entities@[i]).object.spec_idx() == id
    }

    /// The position of the entity with this id, or `None` when it is not
    /// stored (well defined for a well-formed level, whose ids are
    /// unique).
    pub open spec fn spec_position_of(self, id: Idx) -> Option<IPoint> {
        if self.contains_id(id) {
            Some(
                self.entities@[choose|i: int|
                    0 <= i < self.entities@.len() && (#[trigger] self.entities@[i]).object.spec_idx()
                        == id].position,
            )
        } else {
            None
        }
    }

    /// An empty level of the given size.
    pub fn new(idx: Idx, size: IPoint) -> (r: Level)
        requires
            1 <= size.x <= 4096,
            1 <= size.y <= 4096,
        ensures
            r.idx == idx,
            r.size == size,
            r.entities@.len() == 0,
            r.wf(),
    {
        Level { idx, size, entities: Vec::new() }
    }

    /// The id of this level.
    pub fn idx(&self) -> (r: Idx)
        ensures
            r == self.idx,
    {
        self.idx
    }

    /// The size of this level's board.
    pub fn size(&self) -> (r: IPoint)
        ensures
            r == self.size,
    {
        self.size
    }

    /// How many entities the level holds.
    pub fn entity_count(&self) -> (r: usize)
        ensures
            r == self.entities@.len(),
    {
        self.entities.len()
    }

    /// The entity at storage index `i`.
    pub fn entity_at(&self, i: usize) -> (r: Entity)
        requires
            i < self.entities@.len(),
        ensures
            r == self.entities@[i as int],
    {
        self.entities[i]
    }

    /// The storage index of the entity with the given id.
    pub fn find_entity(&self, id: Idx) -> (r: Option<usize>)
        ensures
            match r {
                None => !self.contains_id(id),
                Some(i) => i < self.entities@.len() && self.entities@[i as int].object.spec_idx()
                    == id,
            },
    {
        let mut i: usize = 0;
        while i < self.entities.len()
            invariant
                0 <= i <= self.entities@.len(),
                forall|j: int|
                    0 <= j < i ==> (#[trigger] self.entities@[j]).object.spec_idx() != id,
            decreases self.entities@.len() - i,
        {
            if self.entities[i].object.get_idx() == id {
                return Some(i);
            }
            i = i + 1;
        }
        None
    }

    /// The position of the entity with the given id, if it is stored.
    pub fn get_position(&self, id: Idx) -> (r: Option<IPoint>)
        requires
            self.wf(),
        ensures
            r == self.spec_position_of(id),
            match r {
                None => !self.contains_id(id),
                Some(p) => self.contains_id(id) && forall|i: int|
                    0 <= i < self.entities@.len() && (#[trigger] self.entities@[i]).object.spec_idx()
                        == id ==> self.entities@[i].position == p,
            },
    {
        match self.find_entity(id) {
            None => None,
            Some(i) => {
                let p = self.entities[i].position;
                proof {
                    assert forall|j: int|
                        0 <= j < self.entities@.len()
                            && (#[trigger] self.entities@[j]).object.spec_idx() == id implies self
                        .entities@[j].position == p by {
                        if j != i as int {
                            assert(self.entities@[j].object.spec_idx() != self.entities@[
                                i as int
                            ].object.spec_idx());
                        }
                    }
                }
                Some(p)
            },
        }
    }

    /// The entity with the given id, if it is stored.
    pub fn get_entity(&self, id: Idx) -> (r: Option<Entity>)
        requires
            self.wf(),
        ensures
            match r {
                None => !self.contains_id(id),
                Some(e) => self.contains_id(id) && e.object.spec_idx() == id && exists|i: int|
                    0 <= i < self.entities@.len() && self.entities@[i] == e,
            },
    {
        match self.find_entity(id) {
            None => None,
            Some(i) => Some(self.entities[i]),
        }
    }

    /// Add an entity. An id already stored is refused with a
    /// `DuplicateEntity` failure naming the conflicting id, and nothing
    /// changes.
    pub fn add_entity(&mut self, object: Object, position: IPoint) -> (r: Result<(), EngineError>)
        requires
            old(self).wf(),
            inside_board(old(self).size, position),
            object.wf(),
        ensures
            final(self).wf(),
            final(self).idx == old(self).idx,
            final(self).size == old(self).size,
            old(self).contains_id(object.spec_idx()) ==> r == Result::<(), EngineError>::Err(
                EngineError::DuplicateEntity(object.spec_idx()),
            ) && *final(self) == *old(self),
            !old(self).contains_id(object.spec_idx()) ==> r == Result::<(), EngineError>::Ok(())
                && final(self).entities@ == old(self).entities@.push(
                Entity { object, level: old(self).idx, position },
            ),
    {
        let id = object.get_idx();
        match self.find_entity(id) {
            Some(_) => Err(EngineError::DuplicateEntity(id)),
            None => {
                let e = Entity { object, level: self.idx, position };
                self.entities.push(e);
                Ok(())
            },
        }
    }

    /// Detach and return the entity with the given id, or `None` when no
    /// such entity is stored.
    pub fn remove_entity(&mut self, id: Idx) -> (r: Option<Entity>)
        requires
            old(self).wf(),
        ensures
            final(self).wf(),
            final(self).idx == old(self).idx,
            final(self).size == old(self).size,
            match r {
                None => !old(self).contains_id(id) && *final(self) == *old(self),
                Some(e) => old(self).contains_id(id) && e.object.spec_idx() == id && exists|i: int|
                    0 <= i < old(self).entities@.len() && old(self).entities@[i] == e
                        && final(self).entities@ == old(self).entities@.remove(i),
            },
            !old(self).contains_id(id) ==> r is None,
            final(self).entities@.len() >= old(self).entities@.len() - 1,
            forall|other: Idx|
                other != id ==> #[trigger] final(self).contains_id(other) == old(
                    self,
                ).contains_id(other),
    {
        match self.find_entity(id) {
            None => None,
            Some(i) => {
                let e = self.entities.remove(i);
                proof {
                    let oldseq = old(self).entities@;
                    assert(self.entities@ == oldseq.remove(i as int));
                    assert forall|other: Idx| other != id implies #[trigger] self.contains_id(
                        other,
                    ) == old(self).contains_id(other) by {
                        if old(self).contains_id(other) {
                            let j = choose|j: int|
                                0 <= j < oldseq.len() && (#[trigger] oldseq[j]).object.spec_idx()
                                    == other;
                            if j < i as int {
                                assert(self.entities@[j] == oldseq[j]);
                            } else {
                                assert(j > i as int);
                                assert(self.entities@[j - 1] == oldseq[j]);
                            }
                        }
                        if self.contains_id(other) {
                            let j = choose|j: int|
                                0 <= j < self.entities@.len() && (
                                #[trigger] self.entities@[j]).object.spec_idx() == other;
                            if j < i as int {
                                assert(oldseq[j] == self.entities@[j]);
                            } else {
                                assert(oldseq[j + 1] == self.entities@[j]);
                            }
                        }
                    }
                }
                Some(e)
            },
        }
    }

    /// Move the entity with the given id onto `new_position`, keeping its
    /// behavior object; its tile stacking moves to the end. Reports whether
    /// an entity with that id was stored.
    pub fn move_entity(&mut self, id: Idx, new_position: IPoint) -> (moved: bool)
        requires
            old(self).wf(),
            inside_board(old(self).size, new_position),
        ensures
            final(self).wf(),
            final(self).idx == old(self).idx,
            final(self).size == old(self).size,
            !moved ==> !old(self).contains_id(id) && *final(self) == *old(self),
            moved ==> old(self).contains_id(id) && exists|i: int|
                0 <= i < old(self).entities@.len() && (#[trigger] old(
                    self,
                ).entities@[i]).object.spec_idx() == id && final(self).entities@ == old(
                    self,
                ).entities@.remove(i).push(
                    Entity {
                        object: old(self).entities@[i].object,
                        level: old(self).idx,
                        position: new_position,
                    },
                ),
            forall|other: Idx|
                other != id ==> #[trigger] final(self).contains_id(other) == old(
                    self,
                ).contains_id(other),
            moved ==> final(self).contains_id(id),
    {
        let removed = self.remove_entity(id);
        match removed {
            None => false,
            Some(entity) => {
                let ghost mid = *self;
                let r = self.add_entity(entity.object, new_position);
                proof {
                    assert(!mid.contains_id(id));
                    assert(r is Ok);
                    let pushed = Entity {
                        object: entity.object,
                        level: mid.idx,
                        position: new_position,
                    };
                    assert(self.entities@ == mid.entities@.push(pushed));
                    assert(self.entities@[mid.entities@.len() as int] == pushed);
                    assert(self.contains_id(id));
                    assert forall|other: Idx| other != id implies #[trigger] self.contains_id(
                        other,
                    ) == mid.contains_id(other) by {
                        if mid.contains_id(other) {
                            let j = choose|j: int|
                                0 <= j < mid.entities@.len() && (
                                #[trigger] mid.entities@[j]).object.spec_idx() == other;
                            assert(self.entities@[j] == mid.entities@[j]);
                        }
                        if self.contains_id(other) {
                            let j = choose|j: int|
                                0 <= j < self.entities@.len() && (
                                #[trigger] self.entities@[j]).object.spec_idx() == other;
                            assert(j < mid.entities@.len());
                            assert(mid.entities@[j] == self.entities@[j]);
                        }
                    }
                }
                true
            },
        }
    }

    /// The occupants of the tile at `position`, in stacking order, or
    /// `None` for a position off the board.
    pub fn get_tile(&self, position: IPoint) -> (r: Option<Vec<Entity>>)
        ensures
            match r {
                None => !inside_board(self.size, position),
                Some(v) => inside_board(self.size, position) && v@ == tile_of(
                    self.entities@,
                    position,
                ),
            },
    {
        if position.x < 0 || position.x >= self.size.x || position.y < 0 || position.y
            >= self.size.y {
            return None;
        }
        let mut v: Vec<Entity> = Vec::new();
        let mut i: usize = 0;
        proof {
            assert(self.entities@.subrange(0, 0) =~= Seq::<Entity>::empty());
            assert(v@ =~= tile_of(self.entities@.subrange(0, 0), position));
        }
        while i < self.entities.len()
            invariant
                0 <= i <= self.entities@.len(),
                v@ == tile_of(self.entities@.subrange(0, i as int), position),
            decreases self.entities@.len() - i,
        {
            let ghost pre = self.entities@.subrange(0, i as int);
            let ghost post = self.entities@.subrange(0, i as int + 1);
            proof {
                assert(post.drop_last() =~= pre);
                assert(post.last() == self.entities@[i as int]);
            }
            let e = self.entities[i];
            if e.position.x == position.x && e.position.y == position.y {
                v.push(e);
            }
            proof {
                assert(v@ == tile_of(post, position));
            }
            i = i + 1;
        }
        proof {
            assert(self.entities@.subrange(0, self.entities@.len() as int) =~= self.entities@);
        }
        Some(v)
    }

    /// Whether some occupant of the tile blocks movement.
    pub fn is_blocking(tile: &Vec<Entity>) -> (r: bool)
        ensures
            r == spec_tile_blocking(tile@),
    {
        let mut i: usize = 0;
        while i < tile.len()
            invariant
                0 <= i <= tile@.len(),
                forall|j: int| 0 <= j < i ==> !(#[trigger] tile@[j]).object.spec_is_blocking(),
            decreases tile@.len() - i,
        {
            if tile[i].object.is_blocking() {
                return true;
            }
            i = i + 1;
        }
        false
    }

    /// Whether no occupant of the tile blocks sight.
    pub fn is_transparent(tile: &Vec<Entity>) -> (r: bool)
        ensures
            r == spec_tile_transparent(tile@),
    {
        let mut i: usize = 0;
        while i < tile.len()
            invariant
                0 <= i <= tile@.len(),
                forall|j: int| 0 <= j < i ==> !(#[trigger] tile@[j]).object.spec_is_opaque(),
            decreases tile@.len() - i,
        {
            if tile[i].object.is_opaque() {
                return false;
            }
            i = i + 1;
        }
        true
    }

    /// Replace the behavior object of the entity at storage index `i`; the
    /// new behavior keeps the entity's id.
    pub fn set_entity_object(&mut self, i: usize, object: Object)
        requires
            old(self).wf(),
            i < old(self).entities@.len(),
            object.wf(),
            object.spec_idx() == old(self).entities@[i as int].object.spec_idx(),
        ensures
            final(self).wf(),
            final(self).idx == old(self).idx,
            final(self).size == old(self).size,
            final(self).entities@ == old(self).entities@.update(
                i as int,
                Entity { object, ..old(self).entities@[i as int] },
            ),
            forall|id: Idx| #[trigger]
                final(self).contains_id(id) == old(self).contains_id(id),
    {
        let position = self.entities[i].position;
        let level = self.entities[i].level;
        self.entities[i] = Entity { object, level, position };
        proof {
            assert(self.entities@ =~= old(self).entities@.update(
                i as int,
                Entity { object, ..old(self).entities@[i as int] },
            ));
            assert forall|id: Idx| #[trigger]
                self.contains_id(id) == old(self).contains_id(id) by {
                if old(self).contains_id(id) {
                    let j = choose|j: int|
                        0 <= j < old(self).entities@.len() && (#[trigger] old(
                            self,
                        ).entities@[j]).object.spec_idx() == id;
                    assert(self.entities@[j].object.spec_idx() == id);
                }
                if self.contains_id(id) {
                    let j = choose|j: int|
                        0 <= j < self.entities@.len() && (
                        #[trigger] self.entities@[j]).object.spec_idx() == id;
                    assert(old(self).entities@[j].object.spec_idx() == id);
                }
            }
        }
    }

    /// Let `interval` ticks pass for every entity of the level.
    pub fn lapse_all(&mut self, interval: i64)
        requires
            old(self).wf(),
            0 <= interval,
        ensures
            final(self).wf(),
            final(self).idx == old(self).idx,
            final(self).size == old(self).size,
            final(self).entities@.len() == old(self).entities@.len(),
            forall|i: int|
                0 <= i < old(self).entities@.len() ==> final(self).entities@[i] == (Entity {
                    object: (#[trigger] old(self).entities@[i]).object.spec_lapse(interval),
                    ..old(self).entities@[i]
                }),
            forall|id: Idx| #[trigger]
                final(self).contains_id(id) == old(self).contains_id(id),
    {
        let mut i: usize = 0;
        while i < self.entities.len()
            invariant
                old(self).wf(),
                0 <= interval,
                0 <= i <= self.entities@.len(),
                self.entities@.len() == old(self).entities@.len(),
                self.idx == old(self).idx,
                self.size == old(self).size,
                forall|j: int|
                    0 <= j < i ==> self.entities@[j] == (Entity {
                        object: (#[trigger] old(self).entities@[j]).object.spec_lapse(interval),
                        ..old(self).entities@[j]
                    }),
                forall|j: int|
                    i <= j < self.entities@.len() ==> self.entities@[j] == old(self).entities@[j],
            decreases self.entities@.len() - i,
        {
            let mut e = self.entities[i];
            e.object.lapse_time(interval);
            self.entities[i] = e;
            i = i + 1;
        }
        proof {
            assert forall|j: int|
                0 <= j < self.entities@.len() implies inside_board(
                self.size,
                (#[trigger] self.entities@[j]).position,
            ) && self.entities@[j].level == self.idx && self.entities@[j].object.wf() by {
                assert(self.entities@[j] == (Entity {
                    object: old(self).entities@[j].object.spec_lapse(interval),
                    ..old(self).entities@[j]
                }));
                assert(old(self).entities@[j].object.wf());
            }
            assert forall|i: int, j: int|
                0 <= i < j < self.entities@.len() implies (
            #[trigger] self.entities@[i]).object.spec_idx() != (
            #[trigger] self.entities@[j]).object.spec_idx() by {
                assert(old(self).entities@[i].object.spec_idx() != old(
                    self,
                ).entities@[j].object.spec_idx());
            }
            assert forall|id: Idx| #[trigger]
                self.contains_id(id) == old(self).contains_id(id) by {
                if old(self).contains_id(id) {
                    let j = choose|j: int|
                        0 <= j < old(self).entities@.len() && (#[trigger] old(
                            self,
                        ).entities@[j]).object.spec_idx() == id;
                    assert(self.entities@[j].object.spec_idx() == id);
                }
                if self.contains_id(id) {
                    let j = choose|j: int|
                        0 <= j < self.entities@.len() && (
                        #[trigger] self.entities@[j]).object.spec_idx() == id;
                    assert(old(self).entities@[j].object.spec_idx() == id);
                }
            }
        }
    }

    /// The smallest cooldown among the entities of the level, or the
    /// maximum value when the level is empty or nothing can act.
    pub fn min_cooldown(&self) -> (r: i64)
        ensures
            forall|i: int|
                0 <= i < self.entities@.len() ==> r <= (
                #[trigger] self.entities@[i]).object.spec_cooldown(),
            r == i64::MAX || exists|i: int|
                0 <= i < self.entities@.len() && (#[trigger] self.entities@[i]).object.spec_cooldown()
                    == r,
    {
        let mut r: i64 = i64::MAX;
        let mut i: usize = 0;
        while i < self.entities.len()
            invariant
                0 <= i <= self.entities@.len(),
                forall|j: int|
                    0 <= j < i ==> r <= (#[trigger] self.entities@[j]).object.spec_cooldown(),
                r == i64::MAX || exists|j: int|
                    0 <= j < i && (#[trigger] self.entities@[j]).object.spec_cooldown() == r,
            decreases self.entities@.len() - i,
        {
            let c = self.entities[i].object.get_cooldown();
            if c < r {
                r = c;
            }
            i = i + 1;
        }
        r
    }

    /// The id of the first stored entity whose cooldown is zero, in
    /// storage order, or `None` when no entity is ready.
    pub fn first_ready(&self) -> (r: Option<Idx>)
        ensures
            match r {
                None => forall|i: int|
                    0 <= i < self.entities@.len() ==> (
                    #[trigger] self.entities@[i]).object.spec_cooldown() != 0,
                Some(id) => exists|i: int|
                    0 <= i < self.entities@.len() && (#[trigger] self.entities@[i]).object.spec_cooldown()
                        == 0 && self.entities@[i].object.spec_idx() == id && (forall|j: int|
                        0 <= j < i ==> (#[trigger] self.entities@[j]).object.spec_cooldown() != 0),
            },
    {
        let mut i: usize = 0;
        while i < self.entities.len()
            invariant
                0 <= i <= self.entities@.len(),
                forall|j: int|
                    0 <= j < i ==> (#[trigger] self.entities@[j]).object.spec_cooldown() != 0,
            decreases self.entities@.len() - i,
        {
            if self.entities[i].object.get_cooldown() == 0 {
                return Some(self.entities[i].object.get_idx());
            }
            i = i + 1;
        }
        None
    }
}

/// The occupant that renders a tile: the one with the highest stacking
/// ordinal, later occupants winning ties.
pub open spec fn spec_best(s: Seq<Entity>) -> Option<Entity>
    decreases s.len(),
{
    if s.len() == 0 {
        None
    } else {
        match spec_best(s.drop_last()) {
            None => Some(s.last()),
            Some(b) => if s.last().object.spec_ordinal() >= b.object.spec_ordinal() {
                Some(s.last())
            } else {
                Some(b)
            },
        }
    }
}

/// The environment occupants of `s`, in order.
pub open spec fn spec_env_only(s: Seq<Entity>) -> Seq<Entity>
    decreases s.len(),
{
    if s.len() == 0 {
        Seq::empty()
    } else {
        let rest = spec_env_only(s.drop_last());
        if s.last().object.spec_is_environment() {
            rest.push(s.last())
        } else {
            rest
        }
    }
}

/// The pixel a tile renders as when currently visible.
pub open spec fn spec_build_pixel(s: Seq<Entity>) -> Pixel {
    match spec_best(s) {
        None => Pixel(Icon::Empty, Color(255, 255, 255)),
        Some(e) => e.object.spec_pixel(),
    }
}

/// The pixel a tile is remembered as: its best environment occupant,
/// desaturated.
pub open spec fn spec_build_mem_pixel(s: Seq<Entity>) -> Pixel {
    match spec_best(spec_env_only(s)) {
        None => Pixel(Icon::Empty, Color(255, 255, 255)),
        Some(e) => Pixel(e.object.spec_pixel().0, Color(128, 128, 128)),
    }
}

impl Level {
    /// The pixel of a currently visible tile: its occupant with the
    /// highest stacking ordinal, or the empty pixel for a bare tile.
    pub fn build_pixel(tile: &Vec<Entity>) -> (r: Pixel)
        ensures
            r == spec_build_pixel(tile@),
    {
        let mut best: Option<Entity> = None;
        let mut i: usize = 0;
        proof {
            assert(tile@.subrange(0, 0) =~= Seq::<Entity>::empty());
        }
        while i < tile.len()
            invariant
                0 <= i <= tile@.len(),
                best == spec_best(tile@.subrange(0, i as int)),
            decreases tile@.len() - i,
        {
            let ghost pre = tile@.subrange(0, i as int);
            let ghost post = tile@.subrange(0, i as int + 1);
            proof {
                assert(post.drop_last() =~= pre);
                assert(post.last() == tile@[i as int]);
            }
            let e = tile[i];
            best = match best {
                None => Some(e),
                Some(b) => if e.object.get_ordinal() >= b.object.get_ordinal() {
                    Some(e)
                } else {
                    Some(b)
                },
            };
            i = i + 1;
        }
        proof {
            assert(tile@.subrange(0, tile@.len() as int) =~= tile@);
        }
        match best {
            None => Pixel::empty(),
            Some(e) => e.object.get_pixel(),
        }
    }

    /// The remembered pixel of a tile: its best environment occupant,
    /// desaturated, or the empty pixel when no environment occupant is
    /// there.
    pub fn build_mem_pixel(tile: &Vec<Entity>) -> (r: Pixel)
        ensures
            r == spec_build_mem_pixel(tile@),
    {
        let mut best: Option<Entity> = None;
        let mut i: usize = 0;
        proof {
            assert(tile@.subrange(0, 0) =~= Seq::<Entity>::empty());
            assert(spec_env_only(tile@.subrange(0, 0)) =~= Seq::<Entity>::empty());
        }
        while i < tile.len()
            invariant
                0 <= i <= tile@.len(),
                best == spec_best(spec_env_only(tile@.subrange(0, i as int))),
            decreases tile@.len() - i,
        {
            let ghost pre = tile@.subrange(0, i as int);
            let ghost post = tile@.subrange(0, i as int + 1);
            proof {
                assert(post.drop_last() =~= pre);
                assert(post.last() == tile@[i as int]);
            }
            let e = tile[i];
            if e.object.is_environment() {
                proof {
                    let env = spec_env_only(pre);
                    assert(spec_env_only(post) == env.push(tile@[i as int]));
                    assert(env.push(tile@[i as int]).drop_last() =~= env);
                    assert(env.push(tile@[i as int]).last() == tile@[i as int]);
                }
                best = match best {
                    None => Some(e),
                    Some(b) => if e.object.get_ordinal() >= b.object.get_ordinal() {
                        Some(e)
                    } else {
                        Some(b)
                    },
                };
            }
            i = i + 1;
        }
        proof {
            assert(tile@.subrange(0, tile@.len() as int) =~= tile@);
        }
        match best {
            None => Pixel::empty(),
            Some(e) => e.object.get_pixel().gray(),
        }
    }

    /// Whether no entity standing at the coordinates `q` blocks sight.
    pub open spec fn spec_cell_transparent(self, q: (int, int)) -> bool {
        forall|i: int|
            0 <= i < self.entities@.len() && view_pt((#[trigger] self.entities@[i]).position) == q
                ==> !self.entities@[i].object.spec_is_opaque()
    }

    /// The transparent in-bounds cells within sight range of `origin`: what
    /// the visibility oracle gets to trace rays over.
    pub open spec fn spec_trans_within(self, origin: IPoint, tenths: int) -> Set<(int, int)> {
        Set::new(
            |q: (int, int)|
                in_bounds_pt(self.size, q) && within_range(origin, q, tenths)
                    && self.spec_cell_transparent(q),
        )
    }

    /// Whether no occupant of the cell `q` blocks sight.
    fn cell_transparent(&self, q: IPoint) -> (r: bool)
        ensures
            r == self.spec_cell_transparent(view_pt(q)),
    {
        let mut i: usize = 0;
        while i < self.entities.len()
            invariant
                0 <= i <= self.entities@.len(),
                forall|j: int|
                    0 <= j < i && view_pt((#[trigger] self.entities@[j]).position) == view_pt(q)
                        ==> !self.entities@[j].object.spec_is_opaque(),
            decreases self.entities@.len() - i,
        {
            let e = self.entities[i];
            if e.position.x == q.x && e.position.y == q.y && e.object.is_opaque() {
                return false;
            }
            i = i + 1;
        }
        true
    }
}

/// The transparent cells within range that a scan standing on column `x`
/// of row `y` of the candidate box has already collected.
pub open spec fn trans_scanned(lvl: Level, origin: IPoint, tenths: int, x: int, y: int) -> Set<
    (int, int),
> {
    Set::new(
        |q: (int, int)|
            in_bounds_pt(lvl.size, q) && within_range(origin, q, tenths)
                && lvl.spec_cell_transparent(q) && (q.1 < y || (q.1 == y && q.0 < x)),
    )
}

impl Level {
    /// The set of cells visible from `pos` at the given sight range (in
    /// tenths of a cell): the visibility oracle applied to the transparent
    /// cells within range, exactly as the oracle's contract states.
    pub fn visible_points(&self, pos: IPoint, range_tenths: u32) -> (r: PointSet)
        requires
            self.wf(),
            inside_board(self.size, pos),
            range_tenths <= 100000,
        ensures
            r.wf(),
            r@ == spec_visibility(
                self.spec_trans_within(pos, range_tenths as int),
                self.size,
                pos,
                range_tenths as int,
            ),
            r@.contains(view_pt(pos)),
    {
        let ghost t = range_tenths as int;
        let radius: i32 = ((range_tenths + 9) / 10) as i32;
        let x0: i32 = if pos.x - radius >= 0 {
            pos.x - radius
        } else {
            0
        };
        let y0: i32 = if pos.y - radius >= 0 {
            pos.y - radius
        } else {
            0
        };
        let x1: i32 = if pos.x + radius + 1 <= self.size.x {
            pos.x + radius + 1
        } else {
            self.size.x
        };
        let y1: i32 = if pos.y + radius + 1 <= self.size.y {
            pos.y + radius + 1
        } else {
            self.size.y
        };
        let mut trans = PointSet::new();
        proof {
            assert forall|q: (int, int)|
                !trans_scanned(*self, pos, t, x0 as int, y0 as int).contains(q) by {
                if in_bounds_pt(self.size, q) && within_range(pos, q, t) {
                    lemma_range_inside_candidates(pos, q, t);
                    assert(q.1 >= y0 as int);
                }
            }
            assert(trans@ =~= trans_scanned(*self, pos, t, x0 as int, y0 as int));
        }
        let mut y: i32 = y0;
        while y < y1
            invariant
                self.wf(),
                inside_board(self.size, pos),
                range_tenths <= 100000,
                t == range_tenths as int,
                0 <= radius <= 10001,
                radius == (t + 9) / 10,
                0 <= x0,
                0 <= y0 <= y,
                x1 <= self.size.x,
                y1 <= self.size.y,
                x0 == if pos.x - radius >= 0 { pos.x - radius as int } else { 0 },
                y0 == if pos.y - radius >= 0 { pos.y - radius as int } else { 0 },
                x1 == if pos.x + radius + 1 <= self.size.x { pos.x + radius + 1 } else { self.size.x as int },
                y1 == if pos.y + radius + 1 <= self.size.y { pos.y + radius + 1 } else { self.size.y as int },
                y <= y1 || y == y0,
                trans.wf(),
                trans@ == trans_scanned(*self, pos, t, x0 as int, y as int),
            decreases y1 - y,
        {
            let mut x: i32 = x0;
            while x < x1
                invariant
                    self.wf(),
                    inside_board(self.size, pos),
                    range_tenths <= 100000,
                    t == range_tenths as int,
                    0 <= radius <= 10001,
                    radius == (t + 9) / 10,
                    0 <= x0 <= x,
                    0 <= y0 <= y < y1,
                    x1 <= self.size.x,
                    y1 <= self.size.y,
                    x0 == if pos.x - radius >= 0 { pos.x - radius as int } else { 0 },
                    y0 == if pos.y - radius >= 0 { pos.y - radius as int } else { 0 },
                    x1 == if pos.x + radius + 1 <= self.size.x { pos.x + radius + 1 } else { self.size.x as int },
                    y1 == if pos.y + radius + 1 <= self.size.y { pos.y + radius + 1 } else { self.size.y as int },
                    x <= x1 || x == x0,
                    trans.wf(),
                    trans@ == trans_scanned(*self, pos, t, x as int, y as int),
                decreases x1 - x,
            {
                let q = IPoint { x, y };
                proof {
                    assert(q.bounded());
                    assert(pos.bounded());
                }
                let d2: i64 = pos.dist2(&q);
                let tt: i64 = range_tenths as i64;
                proof {
                    assert(0 <= tt * tt <= 10000000000i64) by (nonlinear_arith)
                        requires
                            0 <= tt <= 100000,
                    ;
                    assert(0 <= d2 <= 200000000000i64) by (nonlinear_arith)
                        requires
                            d2 == (pos.x - q.x) * (pos.x - q.x) + (pos.y - q.y) * (pos.y - q.y),
                            -4096 <= pos.x - q.x <= 4096,
                            -4096 <= pos.y - q.y <= 4096,
                    ;
                }
                if 100 * d2 <= tt * tt && self.cell_transparent(q) {
                    trans.insert(q);
                    proof {
                        assert(trans@ =~= trans_scanned(*self, pos, t, x as int + 1, y as int));
                    }
                } else {
                    proof {
                        assert(trans@ =~= trans_scanned(*self, pos, t, x as int + 1, y as int));
                    }
                }
                x = x + 1;
            }
            proof {
                assert(x >= x1);
                assert forall|q: (int, int)|
                    trans_scanned(*self, pos, t, x0 as int, y as int + 1).contains(q)
                        implies trans_scanned(*self, pos, t, x as int, y as int).contains(q) by {
                    if q.1 == y as int {
                        lemma_range_inside_candidates(pos, q, t);
                        assert(q.0 <= pos.x + ((t + 9) / 10));
                        assert(q.0 < self.size.x);
                        assert(q.0 < x1 as int);
                        assert(q.0 < x as int);
                    }
                    if q.1 == y as int + 1 {
                        lemma_range_inside_candidates(pos, q, t);
                        assert(q.0 >= x0 as int);
                    }
                }
                assert(trans@ =~= trans_scanned(*self, pos, t, x0 as int, y as int + 1));
            }
            y = y + 1;
        }
        proof {
            assert forall|q: (int, int)|
                self.spec_trans_within(pos, t).contains(q) implies trans@.contains(q) by {
                lemma_range_inside_candidates(pos, q, t);
            }
            assert(trans@ =~= self.spec_trans_within(pos, t));
        }
        visibility_set(&trans, self.size, pos, range_tenths)
    }
}

} // verus!
