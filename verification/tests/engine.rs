use solitaire::card::{Card, Suit, Value};
use solitaire::table::{ObjKind, Table};

fn card(suit: Suit, value: Value) -> Card {
    Card { suit, value }
}

/// A slot at `(x, 0)` holding the given chain, root first.
fn pile(table: &mut Table, x: i64, cards: &[Card]) -> (usize, Vec<usize>) {
    let slot = table.push_slot(x, 0, 0, 85, 122);
    let mut ids = Vec::new();
    let mut parent = slot;
    for c in cards {
        let id = table.push_card(*c, parent, 0, 0, 1, 85, 122);
        ids.push(id);
        parent = id;
    }
    (slot, ids)
}

fn refresh(table: &mut Table, slot: usize) {
    table.update_stack_children(slot);
    table.resize_stack(slot);
    table.make_draggable(slot);
}

#[test]
fn stack_sync_rebuilds_membership_from_links() {
    let mut table = Table::new();
    let cards = [
        card(Suit::Spades, Value::King),
        card(Suit::Spades, Value::Queen),
        card(Suit::Spades, Value::Jack),
    ];
    let (slot, ids) = pile(&mut table, 0, &cards);
    table.update_stack_children(ids[1]);
    assert_eq!(table.stacks[slot], ids);
}

#[test]
fn stack_sync_from_the_slot_itself() {
    let mut table = Table::new();
    let (slot, ids) = pile(&mut table, 0, &[card(Suit::Hearts, Value::Ace)]);
    table.update_stack_children(slot);
    assert_eq!(table.stacks[slot], ids);
}

#[test]
fn detached_card_is_a_sync_no_op() {
    let mut table = Table::new();
    let cards = [card(Suit::Spades, Value::King), card(Suit::Spades, Value::Queen)];
    let (slot, ids) = pile(&mut table, 0, &cards);
    table.update_stack_children(ids[0]);
    let before = table.stacks[slot].clone();
    table.detach(ids[0]);
    // mid-transaction: the chain has no slot above it, so nothing changes
    table.update_stack_children(ids[0]);
    assert_eq!(table.stacks[slot], before);
}

#[test]
fn layout_fans_cards_by_the_clamped_gap() {
    let mut table = Table::new();
    let cards = [
        card(Suit::Spades, Value::King),
        card(Suit::Spades, Value::Queen),
        card(Suit::Spades, Value::Jack),
    ];
    let (slot, ids) = pile(&mut table, 0, &cards);
    table.update_stack_children(ids[0]);
    table.resize_stack(slot);
    // 1000 / 3 = 333, capped at 100 per card
    assert_eq!(
        (table.objs[ids[0]].x, table.objs[ids[0]].y, table.objs[ids[0]].z),
        (0, 0, 1)
    );
    assert_eq!(
        (table.objs[ids[1]].x, table.objs[ids[1]].y, table.objs[ids[1]].z),
        (0, -100, 1)
    );
    assert_eq!(
        (table.objs[ids[2]].x, table.objs[ids[2]].y, table.objs[ids[2]].z),
        (0, -100, 1)
    );
}

#[test]
fn layout_gap_shrinks_for_tall_piles() {
    let mut table = Table::new();
    // eleven cards: 1000 / 11 = 90, under the cap
    let mut cards = Vec::new();
    for v in [
        Value::King,
        Value::Queen,
        Value::Jack,
        Value::Ten,
        Value::Nine,
        Value::Eight,
        Value::Seven,
        Value::Six,
        Value::Five,
        Value::Four,
        Value::Three,
    ] {
        cards.push(card(Suit::Clubs, v));
    }
    let (slot, ids) = pile(&mut table, 0, &cards);
    table.update_stack_children(ids[0]);
    table.resize_stack(slot);
    assert_eq!(table.objs[ids[1]].y, -90);
    assert_eq!(table.objs[ids[10]].y, -90);
    assert_eq!(table.objs[ids[0]].y, 0);
}

#[test]
fn layout_is_idempotent_on_an_unchanged_stack() {
    let mut table = Table::new();
    let cards = [
        card(Suit::Diamonds, Value::Nine),
        card(Suit::Diamonds, Value::Eight),
    ];
    let (slot, ids) = pile(&mut table, 0, &cards);
    table.update_stack_children(ids[0]);
    table.resize_stack(slot);
    let first: Vec<(i64, i64, i64)> =
        ids.iter().map(|&i| (table.objs[i].x, table.objs[i].y, table.objs[i].z)).collect();
    table.resize_stack(slot);
    let second: Vec<(i64, i64, i64)> =
        ids.iter().map(|&i| (table.objs[i].x, table.objs[i].y, table.objs[i].z)).collect();
    assert_eq!(first, second);
}

#[test]
fn same_suit_descending_run_is_fully_draggable() {
    let mut table = Table::new();
    let cards = [
        card(Suit::Spades, Value::King),
        card(Suit::Spades, Value::Queen),
        card(Suit::Spades, Value::Jack),
    ];
    let (slot, ids) = pile(&mut table, 0, &cards);
    refresh(&mut table, slot);
    assert!(table.objs[ids[0]].draggable.0);
    assert!(table.objs[ids[1]].draggable.0);
    assert!(table.objs[ids[2]].draggable.0);
}

#[test]
fn suit_break_stops_the_run() {
    let mut table = Table::new();
    let cards = [
        card(Suit::Spades, Value::King),
        card(Suit::Hearts, Value::Queen),
    ];
    let (slot, ids) = pile(&mut table, 0, &cards);
    refresh(&mut table, slot);
    assert!(table.objs[ids[1]].draggable.0);
    assert!(!table.objs[ids[0]].draggable.0);
}

#[test]
fn rank_gap_stops_the_run() {
    let mut table = Table::new();
    let cards = [
        card(Suit::Clubs, Value::King),
        card(Suit::Clubs, Value::Jack),
        card(Suit::Clubs, Value::Ten),
    ];
    let (slot, ids) = pile(&mut table, 0, &cards);
    refresh(&mut table, slot);
    assert!(table.objs[ids[2]].draggable.0);
    assert!(table.objs[ids[1]].draggable.0);
    assert!(!table.objs[ids[0]].draggable.0);
}

#[test]
fn draggability_is_a_suffix_of_the_pile() {
    let mut table = Table::new();
    let cards = [
        card(Suit::Clubs, Value::King),
        card(Suit::Hearts, Value::Queen),
        card(Suit::Hearts, Value::Jack),
        card(Suit::Hearts, Value::Ten),
    ];
    let (slot, ids) = pile(&mut table, 0, &cards);
    refresh(&mut table, slot);
    let flags: Vec<bool> = ids.iter().map(|&i| table.objs[i].draggable.0).collect();
    assert_eq!(flags, vec![false, true, true, true]);
    // once draggable, everything above is draggable
    let first = flags.iter().position(|&b| b).unwrap();
    assert!(flags[first..].iter().all(|&b| b));
    assert!(*flags.last().unwrap());
}

#[test]
fn top_card_is_always_draggable() {
    let mut table = Table::new();
    let cards = [
        card(Suit::Clubs, Value::Two),
        card(Suit::Diamonds, Value::King),
    ];
    let (slot, ids) = pile(&mut table, 0, &cards);
    refresh(&mut table, slot);
    assert!(table.objs[ids[1]].draggable.0);
    assert!(!table.objs[ids[0]].draggable.0);
}

#[test]
fn world_positions_accumulate_down_the_chain() {
    let mut table = Table::new();
    let cards = [
        card(Suit::Spades, Value::Five),
        card(Suit::Spades, Value::Four),
    ];
    let (slot, ids) = pile(&mut table, 200, &cards);
    table.update_stack_children(ids[0]);
    table.resize_stack(slot);
    assert_eq!(table.world_pos(slot), (200, 0, 0));
    assert_eq!(table.world_pos(ids[0]), (200, 0, 1));
    // two cards: gap is capped at 100
    assert_eq!(table.world_pos(ids[1]), (200, -100, 2));
}

#[test]
fn empty_pile_layout_changes_nothing() {
    let mut table = Table::new();
    let slot = table.push_slot(0, 0, 0, 85, 122);
    table.update_stack_children(slot);
    table.resize_stack(slot);
    table.make_draggable(slot);
    assert!(table.stacks[slot].is_empty());
    assert_eq!(table.objs[slot].x, 0);
}

#[test]
fn kinds_are_preserved_by_structure_changes() {
    let mut table = Table::new();
    let (slot, ids) = pile(&mut table, 0, &[card(Suit::Hearts, Value::Seven)]);
    table.detach(ids[0]);
    assert!(matches!(table.objs[slot].kind, ObjKind::Slot));
    match table.objs[ids[0]].kind {
        ObjKind::Card(c) => assert_eq!(c.value.as_number(), 7),
        ObjKind::Slot => panic!("card index must stay a card"),
    }
    assert!(table.objs[ids[0]].parent.is_none());
    assert!(table.objs[slot].child.is_none());
}
