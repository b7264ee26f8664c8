//! Pointer-driven drag and drop: world positions of chained objects,
//! hit-testing with depth tie-breaks, the single drag session, and the drop
//! resolver that commits a legal move or rolls the card back.

use vstd::prelude::*;
use crate::card::Card;
use crate::table::{
    anc_chain, attach_links, detach_links, in_range, lemma_attach_wf, lemma_chain_len_bound,
    lemma_chain_props, lemma_detach_wf, lemma_not_on_parent_chain, links_ok, obj_ok, root_of,
    up_chain, wf_objs, Obj, Table, MAX_OBJS, POS_LIMIT,
};

verus! {

/// Draw depth of the pointer plane; a carried card is lifted to it.
pub const CURSOR_Z: i64 = 500;

/// Largest world coordinate a chain can accumulate.
pub const WORLD_LIMIT: i64 = 100_000_000_000_000;

/// World position of object `i`: its translation plus everything above it,
/// following at most `fuel` parent links.
pub open spec fn world_rec(t: Seq<Obj>, i: int, fuel: nat) -> (int, int, int)
    decreases fuel,
{
    let rest = match t[i].parent {
        None => (0int, 0int, 0int),
        Some(p) => if fuel == 0 {
            (0int, 0int, 0int)
        } else {
            world_rec(t, p as int, (fuel - 1) as nat)
        },
    };
    (t[i].x + rest.0, t[i].y + rest.1, t[i].z + rest.2)
}

/// World position of object `i` in a well-formed table.
pub open spec fn world_of(t: Seq<Obj>, i: int) -> (int, int, int) {
    world_rec(t, i, t.len() as nat)
}

/// Once the chain has reached its root, more fuel changes nothing.
pub proof fn lemma_world_rec_sat(t: Seq<Obj>, i: int, f: nat, g: nat)
    requires
        in_range(t, i),
        links_ok(t),
        f <= g,
        t[up_chain(t, i, f).last()].parent is None,
    ensures
        world_rec(t, i, g) == world_rec(t, i, f),
    decreases f,
{
    match t[i].parent {
        None => {},
        Some(p) => {
            assert(f > 0) by {
                if f == 0 {
                    assert(up_chain(t, i, f) == seq![i]);
                }
            }
            assert(obj_ok(t, i));
            assert(up_chain(t, i, f) == seq![i] + up_chain(t, p as int, (f - 1) as nat));
            assert(up_chain(t, i, f).last() == up_chain(t, p as int, (f - 1) as nat).last());
            lemma_world_rec_sat(t, p as int, (f - 1) as nat, (g - 1) as nat);
        },
    }
}

/// Stepping to the parent: the world position is the local translation plus
/// the parent's world position.
pub proof fn lemma_world_step(t: Seq<Obj>, i: int)
    requires
        in_range(t, i),
        links_ok(t),
        all_rooted_at(t),
        t[i].parent is Some,
    ensures
        world_of(t, i).0 == t[i].x + world_of(t, t[i].parent->Some_0 as int).0,
        world_of(t, i).1 == t[i].y + world_of(t, t[i].parent->Some_0 as int).1,
        world_of(t, i).2 == t[i].z + world_of(t, t[i].parent->Some_0 as int).2,
{
    let p = t[i].parent->Some_0 as int;
    assert(obj_ok(t, i));
    lemma_chain_props(t, i);
    lemma_chain_props(t, p);
    assert(anc_chain(t, i) == seq![i] + anc_chain(t, p));
    assert(anc_chain(t, i).last() == anc_chain(t, p).last());
    let f = t.len() as nat;
    assert(f > 0);
    assert(world_of(t, i).0 == t[i].x + world_rec(t, p, (f - 1) as nat).0);
    assert(up_chain(t, p, (f - 1) as nat) == anc_chain(t, p)) by {
        assert(anc_chain(t, p).len() + 1 == anc_chain(t, i).len());
        lemma_chain_len_bound(t, i);
        crate::table::lemma_up_chain_shrink(t, p, (f - 1) as nat);
    }
    lemma_world_rec_sat(t, p, (f - 1) as nat, f);
}

/// Shorthand for the rootedness half of well-formedness.
pub open spec fn all_rooted_at(t: Seq<Obj>) -> bool {
    crate::table::all_rooted(t)
}

/// World coordinates stay within `WORLD_LIMIT`: at most one bounded
/// translation per chain member, and chains never outgrow the table.
pub proof fn lemma_world_bound(t: Seq<Obj>, i: int)
    requires
        in_range(t, i),
        wf_objs(t),
    ensures
        -WORLD_LIMIT <= world_of(t, i).0 <= WORLD_LIMIT,
        -WORLD_LIMIT <= world_of(t, i).1 <= WORLD_LIMIT,
        -WORLD_LIMIT <= world_of(t, i).2 <= WORLD_LIMIT,
{
    lemma_world_bound_rec(t, i);
    lemma_chain_len_bound(t, i);
    let d = anc_chain(t, i).len();
    assert(d * POS_LIMIT <= MAX_OBJS * POS_LIMIT) by (nonlinear_arith)
        requires d <= MAX_OBJS;
}

proof fn lemma_world_bound_rec(t: Seq<Obj>, i: int)
    requires
        in_range(t, i),
        links_ok(t),
        all_rooted_at(t),
    ensures
        -anc_chain(t, i).len() * POS_LIMIT <= world_of(t, i).0 <= anc_chain(t, i).len()
            * POS_LIMIT,
        -anc_chain(t, i).len() * POS_LIMIT <= world_of(t, i).1 <= anc_chain(t, i).len()
            * POS_LIMIT,
        -anc_chain(t, i).len() * POS_LIMIT <= world_of(t, i).2 <= anc_chain(t, i).len()
            * POS_LIMIT,
    decreases anc_chain(t, i).len(),
{
    lemma_chain_props(t, i);
    assert(obj_ok(t, i));
    match t[i].parent {
        None => {
            assert(anc_chain(t, i).len() == 1);
            assert(world_of(t, i).0 == t[i].x);
        },
        Some(p) => {
            assert(anc_chain(t, i) == seq![i] + anc_chain(t, p as int));
            lemma_world_bound_rec(t, p as int);
            lemma_world_step(t, i);
        },
    }
}

impl Table {
    /// World position of object `i`: its slot's position plus the fan
    /// offsets accumulated down the chain (or its carried position).
    pub fn world_pos(&self, i: usize) -> (r: (i64, i64, i64))
        requires
            self.wf(),
            (i as int) < self.objs@.len(),
        ensures
            r.0 as int == world_of(self.objs@, i as int).0,
            r.1 as int == world_of(self.objs@, i as int).1,
            r.2 as int == world_of(self.objs@, i as int).2,
            -WORLD_LIMIT <= r.0 <= WORLD_LIMIT,
            -WORLD_LIMIT <= r.1 <= WORLD_LIMIT,
            -WORLD_LIMIT <= r.2 <= WORLD_LIMIT,
    {
        let ghost t = self.objs@;
        let mut cur = i;
        let o = self.objs[i];
        let mut wx = o.x;
        let mut wy = o.y;
        let mut wz = o.z;
        proof {
            lemma_world_bound(t, i as int);
        }
        loop
            invariant
                self.wf(),
                t == self.objs@,
                (cur as int) < t.len(),
                (i as int) < t.len(),
                wx as int == world_of(t, i as int).0 - world_of(t, cur as int).0
                    + t[cur as int].x,
                wy as int == world_of(t, i as int).1 - world_of(t, cur as int).1
                    + t[cur as int].y,
                wz as int == world_of(t, i as int).2 - world_of(t, cur as int).2
                    + t[cur as int].z,
            ensures
                (cur as int) < t.len(),
                t[cur as int].parent is None,
                wx as int == world_of(t, i as int).0 - world_of(t, cur as int).0
                    + t[cur as int].x,
                wy as int == world_of(t, i as int).1 - world_of(t, cur as int).1
                    + t[cur as int].y,
                wz as int == world_of(t, i as int).2 - world_of(t, cur as int).2
                    + t[cur as int].z,
            decreases crate::table::depth_of(t, cur as int),
        {
            proof {
                lemma_world_bound(t, i as int);
                lemma_world_bound(t, cur as int);
                assert(obj_ok(t, cur as int));
            }
            match self.objs[cur].parent {
                None => {
                    break ;
                },
                Some(p) => {
                    proof {
                        lemma_world_step(t, cur as int);
                        lemma_world_bound(t, p as int);
                        assert(obj_ok(t, p as int));
                        lemma_chain_props(t, cur as int);
                        lemma_chain_props(t, p as int);
                        assert(anc_chain(t, cur as int) == seq![cur as int] + anc_chain(
                            t,
                            p as int,
                        ));
                    }
                    let po = self.objs[p];
                    wx = wx + po.x;
                    wy = wy + po.y;
                    wz = wz + po.z;
                    cur = p;
                },
            }
        }
        proof {
            assert(anc_chain(t, cur as int) == seq![cur as int]);
            assert(world_of(t, cur as int).0 == t[cur as int].x);
            assert(world_of(t, cur as int).1 == t[cur as int].y);
            assert(world_of(t, cur as int).2 == t[cur as int].z);
            lemma_world_bound(t, i as int);
        }
        (wx, wy, wz)
    }
}

/// A point is inside a box exactly when it is strictly within the half
/// extents on both axes.
pub open spec fn spec_inside(rel_x: int, rel_y: int, half_x: int, half_y: int) -> bool {
    &&& rel_x > -half_x
    &&& rel_y > -half_y
    &&& rel_x < half_x
    &&& rel_y < half_y
}

/// Whether a point relative to an object's world position falls strictly
/// inside its bounding box.
pub fn inside_bounding_box(rel_x: i64, rel_y: i64, half_x: i64, half_y: i64) -> (r: bool)
    requires
        0 <= half_x,
        0 <= half_y,
    ensures
        r == spec_inside(rel_x as int, rel_y as int, half_x as int, half_y as int),
{
    rel_x > -half_x && rel_y > -half_y && rel_x < half_x && rel_y < half_y
}

/// The pointer is over object `i`.
pub open spec fn over(t: Seq<Obj>, i: int, px: int, py: int) -> bool {
    spec_inside(
        px - world_of(t, i).0,
        py - world_of(t, i).1,
        t[i].half_x as int,
        t[i].half_y as int,
    )
}

/// `i` is a pick-up candidate: a liftable object under the pointer, resting
/// on something.
pub open spec fn drag_hit(t: Seq<Obj>, i: int, px: int, py: int) -> bool {
    &&& in_range(t, i)
    &&& t[i].draggable.0
    &&& t[i].parent is Some
    &&& over(t, i, px, py)
}

/// The pick-up candidate among indices below `n`: of the hits, the one drawn
/// topmost (greatest world depth; later index on ties).
pub open spec fn best_drag(t: Seq<Obj>, px: int, py: int, n: int) -> Option<int>
    decreases n,
{
    if n <= 0 {
        None
    } else {
        let prev = best_drag(t, px, py, n - 1);
        if drag_hit(t, n - 1, px, py) {
            match prev {
                None => Some(n - 1),
                Some(j) => if world_of(t, n - 1).2 >= world_of(t, j).2 {
                    Some(n - 1)
                } else {
                    Some(j)
                },
            }
        } else {
            prev
        }
    }
}

/// `i` is a landing candidate: a drop target under the pointer, other than
/// the card being carried.
pub open spec fn drop_hit(t: Seq<Obj>, i: int, px: int, py: int, carried: int) -> bool {
    &&& in_range(t, i)
    &&& i != carried
    &&& t[i].drop_target
    &&& over(t, i, px, py)
}

/// The landing candidate among indices below `n`: of the hits, the one drawn
/// topmost (greatest world depth; later index on ties).
pub open spec fn best_drop(t: Seq<Obj>, px: int, py: int, carried: int, n: int) -> Option<int>
    decreases n,
{
    if n <= 0 {
        None
    } else {
        let prev = best_drop(t, px, py, carried, n - 1);
        if drop_hit(t, n - 1, px, py, carried) {
            match prev {
                None => Some(n - 1),
                Some(j) => if world_of(t, n - 1).2 >= world_of(t, j).2 {
                    Some(n - 1)
                } else {
                    Some(j)
                },
            }
        } else {
            prev
        }
    }
}

/// The chosen pick-up candidate is a hit and no hit is drawn above it;
/// when there is no candidate, nothing was hit.
pub proof fn lemma_best_drag_props(t: Seq<Obj>, px: int, py: int, n: int)
    ensures
        best_drag(t, px, py, n) matches Some(i) ==> 0 <= i < n && drag_hit(t, i, px, py)
            && forall|j: int| 0 <= j < n && drag_hit(t, j, px, py)
                ==> (#[trigger] world_of(t, j)).2 <= world_of(t, i).2,
        best_drag(t, px, py, n) is None ==> forall|j: int|
            0 <= j < n ==> !drag_hit(t, j, px, py),
    decreases n,
{
    if n > 0 {
        lemma_best_drag_props(t, px, py, n - 1);
    }
}

/// The chosen landing candidate is a hit and no hit is drawn above it;
/// when there is no candidate, nothing was hit.
pub proof fn lemma_best_drop_props(t: Seq<Obj>, px: int, py: int, carried: int, n: int)
    ensures
        best_drop(t, px, py, carried, n) matches Some(i) ==> 0 <= i < n && drop_hit(
            t,
            i,
            px,
            py,
            carried,
        ) && forall|j: int| 0 <= j < n && drop_hit(t, j, px, py, carried)
            ==> (#[trigger] world_of(t, j)).2 <= world_of(t, i).2,
        best_drop(t, px, py, carried, n) is None ==> forall|j: int|
            0 <= j < n ==> !drop_hit(t, j, px, py, carried),
    decreases n,
{
    if n > 0 {
        lemma_best_drop_props(t, px, py, carried, n - 1);
    }
}

impl Table {
    /// HitTest for DragController: the liftable object under the pointer
    /// drawn topmost.
    pub fn find_drag_candidate(&self, px: i64, py: i64) -> (r: Option<usize>)
        requires
            self.wf(),
            -POS_LIMIT <= px <= POS_LIMIT,
            -POS_LIMIT <= py <= POS_LIMIT,
        ensures
            match r {
                Some(i) => Some(i as int) == best_drag(self.objs@, px as int, py as int, self.objs@.len() as int),
                None => best_drag(self.objs@, px as int, py as int, self.objs@.len() as int) is None,
            },
    {
        let ghost t = self.objs@;
        let n = self.objs.len();
        let mut best: Option<usize> = None;
        let mut best_z: i64 = 0;
        let mut i: usize = 0;
        while i < n
            invariant
                self.wf(),
                t == self.objs@,
                n == t.len(),
                i <= n,
                -POS_LIMIT <= px <= POS_LIMIT,
                -POS_LIMIT <= py <= POS_LIMIT,
                match best {
                    Some(b) => Some(b as int) == best_drag(t, px as int, py as int, i as int)
                        && best_z as int == world_of(t, b as int).2,
                    None => best_drag(t, px as int, py as int, i as int) is None,
                },
            decreases n - i,
        {
            let o = self.objs[i];
            let mut is_hit = false;
            let (wx, wy, wz) = self.world_pos(i);
            if o.draggable.0 && o.parent.is_some() {
                proof {
                    assert(obj_ok(t, i as int));
                }
                is_hit = inside_bounding_box(px - wx, py - wy, o.half_x, o.half_y);
            }
            proof {
                assert(is_hit == drag_hit(t, i as int, px as int, py as int));
            }
            if is_hit {
                match best {
                    None => {
                        best = Some(i);
                        best_z = wz;
                    },
                    Some(_) => {
                        if wz >= best_z {
                            best = Some(i);
                            best_z = wz;
                        }
                    },
                }
            }
            i = i + 1;
        }
        best
    }

    /// HitTest for DropResolver: the drop target under the pointer drawn
    /// topmost, the carried card itself excluded.
    pub fn find_drop_target(&self, px: i64, py: i64, carried: usize) -> (r: Option<usize>)
        requires
            self.wf(),
            -POS_LIMIT <= px <= POS_LIMIT,
            -POS_LIMIT <= py <= POS_LIMIT,
        ensures
            match r {
                Some(i) => Some(i as int) == best_drop(
                    self.objs@,
                    px as int,
                    py as int,
                    carried as int,
                    self.objs@.len() as int,
                ),
                None => best_drop(
                    self.objs@,
                    px as int,
                    py as int,
                    carried as int,
                    self.objs@.len() as int,
                ) is None,
            },
    {
        let ghost t = self.objs@;
        let n = self.objs.len();
        let mut best: Option<usize> = None;
        let mut best_z: i64 = 0;
        let mut i: usize = 0;
        while i < n
            invariant
                self.wf(),
                t == self.objs@,
                n == t.len(),
                i <= n,
                -POS_LIMIT <= px <= POS_LIMIT,
                -POS_LIMIT <= py <= POS_LIMIT,
                match best {
                    Some(b) => Some(b as int) == best_drop(
                        t,
                        px as int,
                        py as int,
                        carried as int,
                        i as int,
                    ) && best_z as int == world_of(t, b as int).2,
                    None => best_drop(t, px as int, py as int, carried as int, i as int) is None,
                },
            decreases n - i,
        {
            let o = self.objs[i];
            let mut is_hit = false;
            let (wx, wy, wz) = self.world_pos(i);
            if o.drop_target && i != carried {
                proof {
                    assert(obj_ok(t, i as int));
                }
                is_hit = inside_bounding_box(px - wx, py - wy, o.half_x, o.half_y);
            }
            proof {
                assert(is_hit == drop_hit(t, i as int, px as int, py as int, carried as int));
            }
            if is_hit {
                match best {
                    None => {
                        best = Some(i);
                        best_z = wz;
                    },
                    Some(_) => {
                        if wz >= best_z {
                            best = Some(i);
                            best_z = wz;
                        }
                    },
                }
            }
            i = i + 1;
        }
        best
    }
}

/// Keep a coordinate within the per-object bound.
pub open spec fn clamp_spec(v: int) -> int {
    if v < -POS_LIMIT {
        -POS_LIMIT as int
    } else if v > POS_LIMIT {
        POS_LIMIT as int
    } else {
        v
    }
}

fn clamp_pos(v: i64) -> (r: i64)
    ensures
        r as int == clamp_spec(v as int),
{
    if v < -POS_LIMIT {
        -POS_LIMIT
    } else if v > POS_LIMIT {
        POS_LIMIT
    } else {
        v
    }
}

/// A pick-up to pointer offset never exceeds a world coordinate plus a
/// pointer coordinate.
pub const OFFSET_LIMIT: i64 = 200_000_000_000_000;

/// The carried card's translation while it floats free: pinned to the given
/// point (kept in bounds) on the pointer plane.
pub open spec fn carried_write(o: Obj, x: int, y: int) -> Obj {
    Obj { x: clamp_spec(x) as i64, y: clamp_spec(y) as i64, z: CURSOR_Z, ..o }
}

/// The table right after a pick-up: the card unlinked from its parent and
/// floated, in place, to the pointer plane.
pub open spec fn pickup_objs(t: Seq<Obj>, c: int) -> Seq<Obj> {
    let t2 = detach_links(t, c);
    t2.update(c, carried_write(t2[c], world_of(t, c).0, world_of(t, c).1))
}

/// The in-progress drag: which card is carried, where it came from, and the
/// pointer-to-card offset fixed at pick-up so the grabbed point stays under
/// the cursor.
#[derive(Clone, Copy, Debug)]
pub struct DragSession {
    pub card: usize,
    pub previous_parent: usize,
    pub offset_x: i64,
    pub offset_y: i64,
}

/// Every card's chain ends at a slot — except, mid-drag, the chain hanging
/// from the carried card.
pub open spec fn roots_ok(t: Seq<Obj>, except: Option<int>) -> bool {
    forall|i: int| in_range(t, i) && t[i].is_card() ==> t[#[trigger] root_of(t, i)].is_slot()
        || (except matches Some(e) && root_of(t, i) == e)
}

/// A released card together with where it may land and where it came from.
#[derive(Clone, Copy, Debug)]
pub struct DropEvent {
    pub dropped: usize,
    pub target: usize,
    pub previous_parent: usize,
}

/// The state a table is in between releasing a card and resolving the drop:
/// the dropped card is a free-floating chain root; its previous parent is
/// childless, sits in a slot-rooted pile, and can always take it back.
pub open spec fn pending_drop(tb: Table, ev: DropEvent) -> bool {
    let t = tb.objs@;
    &&& tb.wf()
    &&& in_range(t, ev.dropped as int)
    &&& t[ev.dropped as int].is_card()
    &&& t[ev.dropped as int].parent is None
    &&& in_range(t, ev.previous_parent as int)
    &&& t[ev.previous_parent as int].child is None
    &&& root_of(t, ev.previous_parent as int) != ev.dropped as int
    &&& t[root_of(t, ev.previous_parent as int)].is_slot()
    &&& in_range(t, ev.target as int)
    &&& ev.target != ev.dropped
    &&& roots_ok(t, Some(ev.dropped as int))
}

/// The drop commits exactly when the target is outside the carried chain,
/// has nothing on it, and is a slot or a card of rank one above the
/// dropped card's. Suit is not checked here: a run may be extended across
/// suits, even though only same-suit runs can later be lifted together.
pub open spec fn drop_legal(t: Seq<Obj>, dropped: int, target: int) -> bool {
    &&& root_of(t, target) != dropped
    &&& t[target].child is None
    &&& (t[target].is_slot() || t[target].spec_card().rank() == t[dropped].spec_card().rank()
        + 1)
}

impl DropEvent {
    pub fn dropped(&self) -> (r: usize)
        ensures
            r == self.dropped,
    {
        self.dropped
    }

    pub fn target(&self) -> (r: usize)
        ensures
            r == self.target,
    {
        self.target
    }

    pub fn previous_parent(&self) -> (r: usize)
        ensures
            r == self.previous_parent,
    {
        self.previous_parent
    }

    /// Commit: reparent the dropped card onto the target.
    pub fn attach_to_target(&self, table: &mut Table)
        requires
            pending_drop(*old(table), *self),
            old(table).objs@[self.target as int].child is None,
            root_of(old(table).objs@, self.target as int) != self.dropped as int,
        ensures
            final(table).wf(),
            final(table).objs@ == attach_links(
                old(table).objs@,
                self.dropped as int,
                self.target as int,
            ),
            final(table).stacks@ == old(table).stacks@,
    {
        table.attach(self.dropped, self.target);
    }

    /// Rollback: reparent the dropped card onto the parent it was lifted from.
    pub fn return_to_parent(&self, table: &mut Table)
        requires
            pending_drop(*old(table), *self),
        ensures
            final(table).wf(),
            final(table).objs@ == attach_links(
                old(table).objs@,
                self.dropped as int,
                self.previous_parent as int,
            ),
            final(table).stacks@ == old(table).stacks@,
    {
        proof {
            let t = old(table).objs@;
            lemma_chain_props(t, self.dropped as int);
        }
        table.attach(self.dropped, self.previous_parent);
    }
}

impl Table {
    /// DropResolver's rule, in the order the resolver applies it: a slot with
    /// nothing below it takes the card; a childless card takes it only on an
    /// exact rank step; everything else — an occupied target, or a target
    /// inside the carried chain itself — rolls the card back to its previous
    /// parent. Either way the forest of slot-rooted chains is restored.
    pub fn handle_dropped_card(&mut self, ev: &DropEvent)
        requires
            pending_drop(*old(self), *ev),
        ensures
            final(self).wf(),
            roots_ok(final(self).objs@, None),
            final(self).stacks@ == old(self).stacks@,
            drop_legal(old(self).objs@, ev.dropped as int, ev.target as int)
                ==> final(self).objs@ == attach_links(
                old(self).objs@,
                ev.dropped as int,
                ev.target as int,
            ),
            !drop_legal(old(self).objs@, ev.dropped as int, ev.target as int)
                ==> final(self).objs@ == attach_links(
                old(self).objs@,
                ev.dropped as int,
                ev.previous_parent as int,
            ),
    {
        let ghost t = self.objs@;
        let target_root = self.root_index(ev.target);
        let legal: bool = if target_root == ev.dropped {
            false
        } else {
            let child_free = match self.objs[ev.target].child {
                None => true,
                Some(_) => false,
            };
            if !child_free {
                false
            } else {
                match self.objs[ev.target].kind {
                    crate::table::ObjKind::Slot => true,
                    crate::table::ObjKind::Card(tc) => {
                        let dc = match self.objs[ev.dropped].kind {
                            crate::table::ObjKind::Card(c) => c,
                            crate::table::ObjKind::Slot => {
                                proof {
                                    assert(false);
                                }
                                tc
                            },
                        };
                        tc.value.as_number() == dc.value.as_number() + 1
                    },
                }
            }
        };
        proof {
            assert(legal == drop_legal(t, ev.dropped as int, ev.target as int));
        }
        if legal {
            ev.attach_to_target(self);
        } else {
            ev.return_to_parent(self);
        }
        proof {
            let g: int = if legal {
                ev.target as int
            } else {
                ev.previous_parent as int
            };
            lemma_attach_wf(t, ev.dropped as int, g);
            // the landing point is rooted in a slot, so every chain is again
            assert(t[root_of(t, g)].is_slot()) by {
                if legal {
                    if t[g].is_card() {
                        assert(root_of(t, g) != ev.dropped as int);
                    } else {
                        assert(obj_ok(t, g));
                        lemma_chain_props(t, g);
                        assert(anc_chain(t, g) == seq![g]);
                    }
                }
            }
            assert forall|i: int|
                in_range(final(self).objs@, i) && final(self).objs@[i].is_card()
                implies final(self).objs@[#[trigger] root_of(final(self).objs@, i)].is_slot() by {
                assert(final(self).objs@[i].kind == t[i].kind);
                assert(root_of(final(self).objs@, i) == (
                    if root_of(t, i) == ev.dropped as int {
                        root_of(t, g)
                    } else {
                        root_of(t, i)
                    }
                ));
                lemma_chain_props(t, i);
                assert(anc_chain(t, i).contains(root_of(t, i))) by {
                    assert(anc_chain(t, i).last() == root_of(t, i));
                }
                lemma_chain_props(t, g);
                assert(anc_chain(t, g).contains(root_of(t, g))) by {
                    assert(anc_chain(t, g).last() == root_of(t, g));
                }
                if root_of(t, i) != ev.dropped as int {
                    assert(t[root_of(t, i)].is_slot());
                }
                assert(final(self).objs@[root_of(final(self).objs@, i)].kind
                    == t[root_of(final(self).objs@, i)].kind);
            }
        }
    }
}

/// The core's whole state: the scene, the pointer in world coordinates, and
/// the single drag in progress, if any. At most one card is ever carried.
pub struct GameState {
    pub table: Table,
    pub pointer_x: i64,
    pub pointer_y: i64,
    pub drag: Option<DragSession>,
}

impl GameState {
    pub open spec fn drag_ok(self) -> bool {
        match self.drag {
            None => roots_ok(self.table.objs@, None),
            Some(s) => {
                let t = self.table.objs@;
                &&& in_range(t, s.card as int)
                &&& t[s.card as int].is_card()
                &&& t[s.card as int].parent is None
                &&& in_range(t, s.previous_parent as int)
                &&& t[s.previous_parent as int].child is None
                &&& root_of(t, s.previous_parent as int) != s.card as int
                &&& t[root_of(t, s.previous_parent as int)].is_slot()
                &&& roots_ok(t, Some(s.card as int))
                &&& -OFFSET_LIMIT <= s.offset_x <= OFFSET_LIMIT
                &&& -OFFSET_LIMIT <= s.offset_y <= OFFSET_LIMIT
            },
        }
    }

    pub open spec fn inv(self) -> bool {
        &&& self.table.wf()
        &&& -POS_LIMIT <= self.pointer_x <= POS_LIMIT
        &&& -POS_LIMIT <= self.pointer_y <= POS_LIMIT
        &&& self.drag_ok()
    }

    pub fn new(table: Table) -> (r: GameState)
        requires
            table.wf(),
            roots_ok(table.objs@, None),
        ensures
            r.inv(),
            r.table == table,
            r.pointer_x == 0,
            r.pointer_y == 0,
            r.drag is None,
    {
        GameState { table, pointer_x: 0, pointer_y: 0, drag: None }
    }

    /// PointerTracker: take this frame's pointer position in world
    /// coordinates, or keep the last one if the pointer is outside the
    /// viewport. While a card is carried it follows the pointer at the
    /// offset fixed when it was picked up.
    pub fn update_cursor(&mut self, pos: Option<(i64, i64)>)
        requires
            old(self).inv(),
            pos matches Some(p) ==> -POS_LIMIT <= p.0 <= POS_LIMIT && -POS_LIMIT <= p.1
                <= POS_LIMIT,
        ensures
            final(self).inv(),
            final(self).drag == old(self).drag,
            final(self).table.stacks@ == old(self).table.stacks@,
            match pos {
                None => final(self).pointer_x == old(self).pointer_x && final(self).pointer_y
                    == old(self).pointer_y,
                Some(p) => final(self).pointer_x == p.0 && final(self).pointer_y == p.1,
            },
            match old(self).drag {
                None => final(self).table.objs@ == old(self).table.objs@,
                Some(s) => final(self).table.objs@ == old(self).table.objs@.update(
                    s.card as int,
                    carried_write(
                        old(self).table.objs@[s.card as int],
                        final(self).pointer_x + s.offset_x,
                        final(self).pointer_y + s.offset_y,
                    ),
                ),
            },
    {
        let ghost t0 = self.table.objs@;
        match pos {
            Some((x, y)) => {
                self.pointer_x = x;
                self.pointer_y = y;
            },
            None => {},
        }
        match self.drag {
            None => {},
            Some(s) => {
                let cx = clamp_pos(self.pointer_x + s.offset_x);
                let cy = clamp_pos(self.pointer_y + s.offset_y);
                self.table.objs[s.card].x = cx;
                self.table.objs[s.card].y = cy;
                self.table.objs[s.card].z = CURSOR_Z;
                proof {
                    let t = self.table.objs@;
                    assert(t =~= t0.update(
                        s.card as int,
                        carried_write(
                            t0[s.card as int],
                            self.pointer_x + s.offset_x,
                            self.pointer_y + s.offset_y,
                        ),
                    ));
                    assert forall|i: int| in_range(t0, i) implies {
                        &&& (#[trigger] t[i]).parent == t0[i].parent
                        &&& t[i].child == t0[i].child
                        &&& t[i].kind == t0[i].kind
                        &&& t[i].pos_bounded()
                    } by {
                        assert(obj_ok(t0, i));
                    }
                    crate::sync::lemma_links_preserved(t0, t);
                    assert forall|sl: int| in_range(t, sl)
                        implies crate::table::stack_entries_ok(
                        t,
                        #[trigger] self.table.stacks@[sl]@,
                    ) by {
                        assert(crate::table::stack_entries_ok(
                            t0,
                            old(self).table.stacks@[sl]@,
                        ));
                        assert forall|q: int| 0 <= q < self.table.stacks@[sl]@.len()
                            implies in_range(t, #[trigger] self.table.stacks@[sl]@[q] as int)
                            && t[self.table.stacks@[sl]@[q] as int].is_card() by {
                            assert(t[self.table.stacks@[sl]@[q] as int].kind
                                == t0[self.table.stacks@[sl]@[q] as int].kind);
                        }
                    }
                    crate::table::lemma_root_in_range(t0, s.previous_parent as int);
                    lemma_roots_ok_transfer_except(t0, t, Some(s.card as int));
                }
            },
        }
    }

    /// DragController's pick-up, run on a "pointer pressed" edge. Among the
    /// liftable objects under the pointer, the one drawn topmost is unlinked
    /// from its parent (the chain it carries comes along), floats to the
    /// pointer plane, and becomes the single drag in progress, remembering
    /// its parent for rollback. No candidate, or a drag already in progress:
    /// a no-op.
    pub fn drag(&mut self)
        requires
            old(self).inv(),
        ensures
            final(self).inv(),
            final(self).pointer_x == old(self).pointer_x,
            final(self).pointer_y == old(self).pointer_y,
            old(self).drag is Some ==> *final(self) == *old(self),
            old(self).drag is None ==> {
                let t = old(self).table.objs@;
                match best_drag(
                    t,
                    old(self).pointer_x as int,
                    old(self).pointer_y as int,
                    t.len() as int,
                ) {
                    None => *final(self) == *old(self),
                    Some(c) => {
                        &&& final(self).table.objs@ == pickup_objs(t, c)
                        &&& final(self).table.stacks@ == old(self).table.stacks@
                        &&& final(self).drag matches Some(s) && s.card as int == c && Some(
                            s.previous_parent,
                        ) == t[c].parent && s.offset_x as int == world_of(t, c).0 - old(
                            self,
                        ).pointer_x && s.offset_y as int == world_of(t, c).1 - old(self).pointer_y
                    },
                }
            },
    {
        match self.drag {
            Some(_) => {
                return ;
            },
            None => {},
        }
        let ghost t = self.table.objs@;
        let cand = self.table.find_drag_candidate(self.pointer_x, self.pointer_y);
        let c = match cand {
            None => {
                return ;
            },
            Some(c) => c,
        };
        proof {
            lemma_best_drag_props(
                t,
                self.pointer_x as int,
                self.pointer_y as int,
                t.len() as int,
            );
            assert(drag_hit(t, c as int, self.pointer_x as int, self.pointer_y as int));
            assert(obj_ok(t, c as int));
        }
        let (wx, wy, _wz) = self.table.world_pos(c);
        let p = match self.table.objs[c].parent {
            Some(p) => p,
            None => {
                proof {
                    assert(false);
                }
                0
            },
        };
        self.table.detach(c);
        let ghost t2 = self.table.objs@;
        let cx = clamp_pos(wx);
        let cy = clamp_pos(wy);
        self.table.objs[c].x = cx;
        self.table.objs[c].y = cy;
        self.table.objs[c].z = CURSOR_Z;
        self.drag = Some(
            DragSession {
                card: c,
                previous_parent: p,
                offset_x: wx - self.pointer_x,
                offset_y: wy - self.pointer_y,
            },
        );
        proof {
            let tf = self.table.objs@;
            lemma_detach_wf(t, c as int);
            assert(tf =~= pickup_objs(t, c as int));
            assert forall|i: int| in_range(t2, i) implies {
                &&& (#[trigger] tf[i]).parent == t2[i].parent
                &&& tf[i].child == t2[i].child
                &&& tf[i].kind == t2[i].kind
                &&& tf[i].pos_bounded()
            } by {
                assert(obj_ok(t2, i));
            }
            crate::sync::lemma_links_preserved(t2, tf);
            // the stack caches still index cards
            assert forall|sl: int| in_range(tf, sl) implies crate::table::stack_entries_ok(
                tf,
                #[trigger] self.table.stacks@[sl]@,
            ) by {
                assert(crate::table::stack_entries_ok(t, old(self).table.stacks@[sl]@));
                assert forall|q: int| 0 <= q < self.table.stacks@[sl]@.len()
                    implies in_range(tf, #[trigger] self.table.stacks@[sl]@[q] as int)
                    && tf[self.table.stacks@[sl]@[q] as int].is_card() by {
                    assert(tf[self.table.stacks@[sl]@[q] as int].kind
                        == t[self.table.stacks@[sl]@[q] as int].kind);
                }
            }
            // the previous parent's chain never ran through the lifted card,
            // so it still ends at its old slot
            lemma_not_on_parent_chain(t, c as int);
            assert(root_of(t2, p as int) == root_of(t, p as int));
            assert(root_of(tf, p as int) == root_of(t, p as int));
            assert(t[root_of(t, p as int)].is_slot()) by {
                crate::table::lemma_root_in_range(t, p as int);
                if t[p as int].is_card() {
                    assert(t[root_of(t, p as int)].is_slot());
                } else {
                    assert(obj_ok(t, p as int));
                    lemma_chain_props(t, p as int);
                    assert(anc_chain(t, p as int) == seq![p as int]);
                }
            }
            crate::table::lemma_root_in_range(t, p as int);
            assert(tf[root_of(tf, p as int)].kind == t[root_of(t, p as int)].kind);
            assert(tf[c as int].is_card());
            // every other card keeps its slot; the lifted chain is the one
            // exception
            assert forall|i: int| in_range(tf, i) && tf[i].is_card()
                implies tf[#[trigger] root_of(tf, i)].is_slot() || root_of(tf, i)
                == c as int by {
                assert(in_range(t, i));
                assert(t2 == detach_links(t, c as int));
                assert(root_of(tf, i) == root_of(t2, i));
                assert(root_of(t2, i) == (
                    if anc_chain(t, i).contains(c as int) {
                        c as int
                    } else {
                        root_of(t, i)
                    }
                ));
                if !anc_chain(t, i).contains(c as int) {
                    assert(t[i].kind == tf[i].kind);
                    crate::table::lemma_root_in_range(t, i);
                    assert(t[root_of(t, i)].is_slot());
                    assert(tf[root_of(t, i)].kind == t[root_of(t, i)].kind);
                }
            }
        }
    }

    /// DropResolver's first half, run on a "pointer released" edge: the drag
    /// ends here whatever happens. With no drop target under the pointer the
    /// card simply returns to its previous parent; otherwise the topmost
    /// target under the pointer is handed on as a [`DropEvent`] for the
    /// legality rule.
    pub fn drop_card(&mut self) -> (r: Option<DropEvent>)
        requires
            old(self).inv(),
        ensures
            final(self).drag is None,
            final(self).pointer_x == old(self).pointer_x,
            final(self).pointer_y == old(self).pointer_y,
            final(self).table.wf(),
            r is None ==> final(self).inv(),
            old(self).drag is None ==> *final(self) == *old(self) && r is None,
            old(self).drag matches Some(s) ==> {
                let t = old(self).table.objs@;
                match best_drop(
                    t,
                    old(self).pointer_x as int,
                    old(self).pointer_y as int,
                    s.card as int,
                    t.len() as int,
                ) {
                    None => {
                        &&& r is None
                        &&& final(self).table.objs@ == attach_links(
                            t,
                            s.card as int,
                            s.previous_parent as int,
                        )
                        &&& final(self).table.stacks@ == old(self).table.stacks@
                    },
                    Some(g) => {
                        &&& r == Some(
                            DropEvent {
                                dropped: s.card,
                                target: g as usize,
                                previous_parent: s.previous_parent,
                            },
                        )
                        &&& final(self).table == old(self).table
                        &&& pending_drop(final(self).table, r->Some_0)
                    },
                }
            },
    {
        let s = match self.drag {
            None => {
                return None;
            },
            Some(s) => s,
        };
        self.drag = None;
        let ghost t = self.table.objs@;
        let cand = self.table.find_drop_target(self.pointer_x, self.pointer_y, s.card);
        match cand {
            None => {
                // nothing under the pointer: roll back to the old parent
                let ev = DropEvent {
                    dropped: s.card,
                    target: s.previous_parent,
                    previous_parent: s.previous_parent,
                };
                self.table.handle_dropped_card(&ev);
                None
            },
            Some(g) => {
                proof {
                    lemma_best_drop_props(
                        t,
                        self.pointer_x as int,
                        self.pointer_y as int,
                        s.card as int,
                        t.len() as int,
                    );
                }
                Some(DropEvent { dropped: s.card, target: g, previous_parent: s.previous_parent })
            },
        }
    }

    /// A whole release, in frame order: resolve the drop (commit or roll
    /// back), then rebuild the cached stacks of the affected piles and rerun
    /// layout and run-draggability on them. Afterwards the released card
    /// rests on the chosen target if the move was legal, else on its old
    /// parent, and no drag is in progress.
    pub fn release(&mut self)
        requires
            old(self).inv(),
        ensures
            final(self).inv(),
            final(self).drag is None,
            final(self).pointer_x == old(self).pointer_x,
            final(self).pointer_y == old(self).pointer_y,
            old(self).drag is None ==> *final(self) == *old(self),
            old(self).drag matches Some(s) ==> {
                let t = old(self).table.objs@;
                let dest: int = match best_drop(
                    t,
                    old(self).pointer_x as int,
                    old(self).pointer_y as int,
                    s.card as int,
                    t.len() as int,
                ) {
                    None => s.previous_parent as int,
                    Some(g) => if drop_legal(t, s.card as int, g) {
                        g
                    } else {
                        s.previous_parent as int
                    },
                };
                final(self).table.objs@[s.card as int].parent == Some(dest as usize)
            },
    {
        let s = match self.drag {
            None => {
                return ;
            },
            Some(s) => s,
        };
        let ev_opt = self.drop_card();
        match ev_opt {
            None => {
                // rolled back: the old pile is the only one touched
                self.table.update_stack_children(s.card);
                let r = self.table.root_index(s.card);
                let ghost ta = self.table.objs@;
                self.table.resize_stack(r);
                proof {
                    lemma_roots_ok_transfer_except(ta, self.table.objs@, None);
                }
                let ghost tb = self.table.objs@;
                self.table.make_draggable(r);
                proof {
                    lemma_roots_ok_transfer_except(tb, self.table.objs@, None);
                }
            },
            Some(ev) => {
                proof {
                    lemma_best_drop_props(
                        old(self).table.objs@,
                        old(self).pointer_x as int,
                        old(self).pointer_y as int,
                        s.card as int,
                        old(self).table.objs@.len() as int,
                    );
                }
                self.table.handle_dropped_card(&ev);
                self.table.update_stack_children(ev.dropped);
                self.table.update_stack_children(ev.previous_parent);
                let r1 = self.table.root_index(ev.dropped);
                let r2 = self.table.root_index(ev.previous_parent);
                let ghost ta = self.table.objs@;
                self.table.resize_stack(r1);
                proof {
                    lemma_roots_ok_transfer_except(ta, self.table.objs@, None);
                }
                let ghost tb = self.table.objs@;
                self.table.resize_stack(r2);
                proof {
                    lemma_roots_ok_transfer_except(tb, self.table.objs@, None);
                }
                let ghost tc = self.table.objs@;
                self.table.make_draggable(r1);
                proof {
                    lemma_roots_ok_transfer_except(tc, self.table.objs@, None);
                }
                let ghost td = self.table.objs@;
                self.table.make_draggable(r2);
                proof {
                    lemma_roots_ok_transfer_except(td, self.table.objs@, None);
                }
            },
        }
    }
}

/// Rollback is exact: picking a card up and dropping it with no legal target
/// under the pointer restores every parent and child link, so its old parent
/// is its parent again and every pile's rebuilt membership — which is a
/// function of the links alone — is what it was before the drag.
pub proof fn lemma_rollback_restores_piles(t: Seq<Obj>, c: int)
    requires
        wf_objs(t),
        in_range(t, c),
        t[c].parent is Some,
    ensures
        ({
            let p = t[c].parent->Some_0 as int;
            let t2 = attach_links(pickup_objs(t, c), c, p);
            &&& forall|i: int| in_range(t, i) ==> (#[trigger] t2[i]).parent == t[i].parent
                && t2[i].child == t[i].child && t2[i].kind == t[i].kind
            &&& forall|i: int| in_range(t, i) ==> crate::table::desc_chain(t2, i)
                == crate::table::desc_chain(t, i)
            &&& forall|i: int| in_range(t, i) ==> root_of(t2, i) == root_of(t, i)
        }),
{
    let p = t[c].parent->Some_0 as int;
    let t2 = attach_links(pickup_objs(t, c), c, p);
    assert(obj_ok(t, c));
    assert(obj_ok(t, p));
    assert forall|i: int| in_range(t, i) implies (#[trigger] t2[i]).parent == t[i].parent
        && t2[i].child == t[i].child && t2[i].kind == t[i].kind && t2[i].pos_bounded() by {
        assert(obj_ok(t, i));
        if i != c && i != p {
            assert(t2[i] == t[i]);
        }
    }
    crate::sync::lemma_links_preserved(t, t2);
}

/// Roots do not move when links and kinds are untouched, so neither does the
/// slot-rootedness of every card.
proof fn lemma_roots_ok_transfer_except(t1: Seq<Obj>, t2: Seq<Obj>, except: Option<int>)
    requires
        wf_objs(t1),
        roots_ok(t1, except),
        t2.len() == t1.len(),
        forall|i: int| in_range(t1, i) ==> root_of(t2, i) == root_of(t1, i),
        forall|i: int| in_range(t1, i) ==> (#[trigger] t2[i]).kind == t1[i].kind,
    ensures
        roots_ok(t2, except),
{
    assert forall|i: int| in_range(t2, i) && t2[i].is_card()
        implies t2[#[trigger] root_of(t2, i)].is_slot() || (except matches Some(e) && root_of(
        t2,
        i,
    ) == e) by {
        assert(t1[i].kind == t2[i].kind);
        crate::table::lemma_root_in_range(t1, i);
        assert(root_of(t2, i) == root_of(t1, i));
        if !(except matches Some(e) && root_of(t1, i) == e) {
            assert(t1[root_of(t1, i)].is_slot());
            assert(t2[root_of(t1, i)].kind == t1[root_of(t1, i)].kind);
        }
    }
}

} // verus!
