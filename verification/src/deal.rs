//! The opening layout: ten slots in a row, each dealt a short chain of cards
//! from a shuffled deck.

use vstd::prelude::*;
use crate::deck::Deck;
use crate::drag::roots_ok;
use crate::table::{
    attach_links, in_range, lemma_attach_wf, lemma_push_wf, lemma_root_in_range, root_of, Obj,
    Table, MAX_OBJS,
};

verus! {

/// Horizontal spacing between neighbouring slots.
pub const SLOT_SPACING: i64 = 250;

/// Height of the slot row.
pub const SLOT_ROW_Y: i64 = 400;

/// Bounding half extents shared by slots and cards.
pub const HALF_X: i64 = 85;

pub const HALF_Y: i64 = 122;

/// Cards dealt to slot `x`: eight for the first three slots, then one fewer
/// per slot.
pub open spec fn cards_for_slot(x: int) -> int {
    if 10 - x < 8 {
        10 - x
    } else {
        8
    }
}

/// Cards still to be dealt once the first `x` slots are filled.
pub open spec fn cards_after_slot(x: int) -> int {
    if x <= 0 {
        52
    } else if x == 1 {
        44
    } else if x == 2 {
        36
    } else if x == 3 {
        28
    } else if x == 4 {
        21
    } else if x == 5 {
        15
    } else if x == 6 {
        10
    } else if x == 7 {
        6
    } else if x == 8 {
        3
    } else if x == 9 {
        1
    } else {
        0
    }
}

/// Deal the opening layout into `table`: ten slots across the row, slot `x`
/// at `(x * SLOT_SPACING - 1125, SLOT_ROW_Y)`, each given its chain of cards
/// drawn in order from `deck`. Returns the ten slot indices. The caller runs
/// the derived-state passes over them, as after any structural change.
pub fn spawn_cards(table: &mut Table, deck: &mut Deck) -> (r: Vec<usize>)
    requires
        old(table).wf(),
        roots_ok(old(table).objs@, None),
        old(table).objs@.len() + 62 <= MAX_OBJS,
        old(deck).wf(),
        old(deck).remaining().len() >= 52,
    ensures
        final(table).wf(),
        roots_ok(final(table).objs@, None),
        final(table).objs@.len() == old(table).objs@.len() + 62,
        final(deck).wf(),
        r@.len() == 10,
        forall|k: int| 0 <= k < 10 ==> {
            &&& in_range(final(table).objs@, #[trigger] r@[k] as int)
            &&& final(table).objs@[r@[k] as int].is_slot()
            &&& final(table).objs@[r@[k] as int].x == k * SLOT_SPACING - 1125
            &&& final(table).objs@[r@[k] as int].y == SLOT_ROW_Y
        },
{
    let ghost len0 = old(table).objs@.len() as int;
    let mut slots: Vec<usize> = Vec::new();
    let mut x: u64 = 0;
    while x < 10
        invariant
            table.wf(),
            roots_ok(table.objs@, None),
            deck.wf(),
            x <= 10,
            slots@.len() == x,
            table.objs@.len() == len0 + x + (52 - cards_after_slot(x as int)),
            len0 + 62 <= MAX_OBJS,
            deck.remaining().len() >= cards_after_slot(x as int),
            forall|k: int| 0 <= k < slots@.len() ==> {
                &&& in_range(table.objs@, #[trigger] slots@[k] as int)
                &&& table.objs@[slots@[k] as int].is_slot()
                &&& table.objs@[slots@[k] as int].x == k * SLOT_SPACING - 1125
                &&& table.objs@[slots@[k] as int].y == SLOT_ROW_Y
            },
        decreases 10 - x,
    {
        let cards_in_slot: u64 = if 10 - x < 8 {
            10 - x
        } else {
            8
        };
        let sx: i64 = (x as i64) * SLOT_SPACING - 1125;
        let ghost t_before = table.objs@;
        let slot = table.push_slot(sx, SLOT_ROW_Y, 0, HALF_X, HALF_Y);
        proof {
            assert forall|k: int| 0 <= k < slots@.len() implies {
                &&& in_range(table.objs@, #[trigger] slots@[k] as int)
                &&& table.objs@[slots@[k] as int].is_slot()
                &&& table.objs@[slots@[k] as int].x == k * SLOT_SPACING - 1125
                &&& table.objs@[slots@[k] as int].y == SLOT_ROW_Y
            } by {
                assert(table.objs@[slots@[k] as int] == t_before[slots@[k] as int]);
            }
            lemma_push_wf(
                t_before,
                Obj {
                    kind: crate::table::ObjKind::Slot,
                    parent: None,
                    child: None,
                    x: sx,
                    y: SLOT_ROW_Y,
                    z: 0,
                    half_x: HALF_X,
                    half_y: HALF_Y,
                    draggable: crate::table::Draggable(false),
                    drop_target: true,
                },
            );
            assert forall|i: int| in_range(table.objs@, i) && table.objs@[i].is_card()
                implies table.objs@[#[trigger] root_of(table.objs@, i)].is_slot() by {
                assert(in_range(t_before, i));
                assert(table.objs@[i] == t_before[i]);
                assert(root_of(table.objs@, i) == root_of(t_before, i));
                lemma_root_in_range(t_before, i);
                assert(t_before[root_of(t_before, i)].is_slot());
                assert(table.objs@[root_of(t_before, i)] == t_before[root_of(t_before, i)]);
            }
        }
        let mut parent = slot;
        let mut dealt: u64 = 0;
        while dealt < cards_in_slot
            invariant
                table.wf(),
                roots_ok(table.objs@, None),
                deck.wf(),
                x < 10,
                cards_in_slot as int == cards_for_slot(x as int),
                dealt <= cards_in_slot,
                len0 + 62 <= MAX_OBJS,
                table.objs@.len() == len0 + x + 1 + (52 - cards_after_slot(x as int)) + dealt,
                deck.remaining().len() >= cards_after_slot(x as int) - dealt,
                (parent as int) < table.objs@.len(),
                table.objs@[parent as int].child is None,
                table.objs@[root_of(table.objs@, parent as int)].is_slot(),
                (slot as int) < table.objs@.len(),
                table.objs@[slot as int].is_slot(),
                table.objs@[slot as int].x == sx,
                table.objs@[slot as int].y == SLOT_ROW_Y,
                sx as int == x * SLOT_SPACING - 1125,
                forall|k: int| 0 <= k < slots@.len() ==> {
                    &&& in_range(table.objs@, #[trigger] slots@[k] as int)
                    &&& table.objs@[slots@[k] as int].is_slot()
                    &&& table.objs@[slots@[k] as int].x == k * SLOT_SPACING - 1125
                    &&& table.objs@[slots@[k] as int].y == SLOT_ROW_Y
                },
                slots@.len() == x,
            decreases cards_in_slot - dealt,
        {
            let card = match deck.draw() {
                Some(card) => card,
                None => {
                    proof {
                        assert(false);
                    }
                    crate::card::Card {
                        suit: crate::card::Suit::Spades,
                        value: crate::card::Value::Ace,
                    }
                },
            };
            let ghost t0 = table.objs@;
            let child = table.push_card(card, parent, 0, 0, 1, HALF_X, HALF_Y);
            proof {
                let o = Obj {
                    kind: crate::table::ObjKind::Card(card),
                    parent: None,
                    child: None,
                    x: 0,
                    y: 0,
                    z: 1,
                    half_x: HALF_X,
                    half_y: HALF_Y,
                    draggable: crate::table::Draggable(false),
                    drop_target: true,
                };
                let tp = t0.push(o);
                lemma_push_wf(t0, o);
                lemma_root_in_range(t0, parent as int);
                assert(root_of(tp, parent as int) == root_of(t0, parent as int));
                assert(root_of(t0, parent as int) < t0.len());
                lemma_attach_wf(tp, child as int, parent as int);
                assert(table.objs@ == attach_links(tp, child as int, parent as int));
                assert forall|i: int| in_range(table.objs@, i) && table.objs@[i].is_card()
                    implies table.objs@[#[trigger] root_of(table.objs@, i)].is_slot() by {
                    if i < t0.len() {
                        assert(root_of(tp, i) == root_of(t0, i));
                        lemma_root_in_range(t0, i);
                        assert(root_of(tp, i) != child as int);
                        assert(root_of(table.objs@, i) == root_of(t0, i));
                        assert(table.objs@[i].kind == tp[i].kind);
                        assert(t0[i].kind == tp[i].kind);
                        assert(table.objs@[root_of(t0, i)].kind == t0[root_of(t0, i)].kind);
                        if t0[i].is_card() {
                            assert(t0[root_of(t0, i)].is_slot());
                        }
                    } else {
                        assert(i == child as int);
                        assert(root_of(tp, child as int) == child as int);
                        assert(root_of(table.objs@, i) == root_of(tp, parent as int));
                        assert(root_of(tp, parent as int) == root_of(t0, parent as int));
                        assert(table.objs@[root_of(t0, parent as int)].kind == t0[root_of(
                            t0,
                            parent as int,
                        )].kind);
                    }
                }
                assert forall|k: int| 0 <= k < slots@.len() implies {
                    &&& in_range(table.objs@, #[trigger] slots@[k] as int)
                    &&& table.objs@[slots@[k] as int].is_slot()
                    &&& table.objs@[slots@[k] as int].x == k * SLOT_SPACING - 1125
                    &&& table.objs@[slots@[k] as int].y == SLOT_ROW_Y
                } by {
                    let j = slots@[k] as int;
                    assert(t0[j].is_slot());
                    if j == parent as int {
                        assert(table.objs@[j] == Obj { child: Some(child), ..tp[j] });
                    } else {
                        assert(table.objs@[j] == t0[j]);
                    }
                }
                assert(table.objs@[slot as int].is_slot() && table.objs@[slot as int].x == sx
                    && table.objs@[slot as int].y == SLOT_ROW_Y) by {
                    if slot == parent {
                        assert(table.objs@[slot as int] == Obj { child: Some(child), ..tp[slot as int] });
                    } else {
                        assert(table.objs@[slot as int] == t0[slot as int]);
                    }
                }
                assert(table.objs@[child as int].child is None);
                assert(root_of(table.objs@, child as int) == root_of(t0, parent as int));
                assert(table.objs@[root_of(t0, parent as int)].kind == t0[root_of(
                    t0,
                    parent as int,
                )].kind);
            }
            parent = child;
            dealt = dealt + 1;
        }
        slots.push(slot);
        x = x + 1;
    }
    slots
}

} // verus!
