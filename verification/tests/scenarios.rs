use solitaire::card::{Card, Suit, Value};
use solitaire::deal::spawn_cards;
use solitaire::deck::Deck;
use solitaire::drag::GameState;
use solitaire::table::Table;

fn card(suit: Suit, value: Value) -> Card {
    Card { suit, value }
}

fn pile(table: &mut Table, x: i64, cards: &[Card]) -> (usize, Vec<usize>) {
    let slot = table.push_slot(x, 0, 0, 85, 122);
    let mut ids = Vec::new();
    let mut parent = slot;
    for c in cards {
        let id = table.push_card(*c, parent, 0, 0, 1, 85, 122);
        ids.push(id);
        parent = id;
    }
    (slot, ids)
}

fn refresh(table: &mut Table, slot: usize) {
    table.update_stack_children(slot);
    table.resize_stack(slot);
    table.make_draggable(slot);
}

#[test]
fn ace_dropped_on_empty_slot_becomes_its_stack() {
    let mut table = Table::new();
    let (slot0, ids) = pile(&mut table, 0, &[card(Suit::Spades, Value::Ace)]);
    let slot1 = table.push_slot(300, 0, 0, 85, 122);
    refresh(&mut table, slot0);
    let ace = ids[0];
    let mut state = GameState::new(table);
    state.update_cursor(Some((0, 0)));
    state.drag();
    assert!(state.drag.is_some());
    state.update_cursor(Some((300, 10)));
    state.release();
    assert!(state.drag.is_none());
    assert_eq!(state.table.objs[ace].parent, Some(slot1));
    assert_eq!(state.table.stacks[slot1], vec![ace]);
    assert!(state.table.stacks[slot0].is_empty());
    assert!(state.table.objs[ace].draggable.0);
}

#[test]
fn jack_extends_a_run_across_suits() {
    let mut table = Table::new();
    let (slot0, ids0) = pile(
        &mut table,
        0,
        &[card(Suit::Spades, Value::King), card(Suit::Hearts, Value::Queen)],
    );
    let (slot1, ids1) = pile(&mut table, 300, &[card(Suit::Diamonds, Value::Jack)]);
    refresh(&mut table, slot0);
    refresh(&mut table, slot1);
    let (king, queen, jack) = (ids0[0], ids0[1], ids1[0]);
    let mut state = GameState::new(table);
    state.update_cursor(Some((300, 0)));
    state.drag();
    assert_eq!(state.drag.map(|s| s.card), Some(jack));
    // the queen sits one fan gap below the king, drawn above it
    state.update_cursor(Some((0, -100)));
    state.release();
    assert_eq!(state.table.objs[jack].parent, Some(queen));
    assert_eq!(state.table.stacks[slot0], vec![king, queen, jack]);
    assert!(state.table.stacks[slot1].is_empty());
    // the jack may be lifted; the suit breaks below it stop the run there
    assert!(state.table.objs[jack].draggable.0);
    assert!(!state.table.objs[queen].draggable.0);
    assert!(!state.table.objs[king].draggable.0);
}

#[test]
fn occupied_card_target_rolls_back_regardless_of_rank() {
    let mut table = Table::new();
    let (slot0, ids0) = pile(
        &mut table,
        0,
        &[card(Suit::Spades, Value::King), card(Suit::Spades, Value::Queen)],
    );
    let (slot1, ids1) = pile(&mut table, 300, &[card(Suit::Diamonds, Value::Jack)]);
    refresh(&mut table, slot0);
    refresh(&mut table, slot1);
    let (king, jack) = (ids0[0], ids1[0]);
    let mut state = GameState::new(table);
    state.update_cursor(Some((300, 0)));
    state.drag();
    assert_eq!(state.drag.map(|s| s.card), Some(jack));
    // a point over the king but not over the queen fanned below it
    state.update_cursor(Some((0, 60)));
    state.release();
    assert_eq!(state.table.objs[king].child, Some(ids0[1]));
    assert_eq!(state.table.objs[jack].parent, Some(slot1));
    assert_eq!(state.table.stacks[slot1], vec![jack]);
    assert_eq!(state.table.stacks[slot0], ids0);
}

#[test]
fn non_draggable_king_cannot_be_picked_up() {
    let mut table = Table::new();
    let (slot0, ids0) = pile(
        &mut table,
        0,
        &[card(Suit::Spades, Value::King), card(Suit::Hearts, Value::Queen)],
    );
    refresh(&mut table, slot0);
    let king = ids0[0];
    assert!(!table.objs[king].draggable.0);
    let before_parent = table.objs[king].parent;
    let mut state = GameState::new(table);
    // over the king's exposed part only: the pick-up is a no-op
    state.update_cursor(Some((0, 60)));
    state.drag();
    assert!(state.drag.is_none());
    assert_eq!(state.table.objs[king].parent, before_parent);
}

#[test]
fn release_over_nothing_restores_parent_and_stack() {
    let mut table = Table::new();
    let (slot0, ids0) = pile(
        &mut table,
        0,
        &[card(Suit::Spades, Value::King), card(Suit::Spades, Value::Queen)],
    );
    refresh(&mut table, slot0);
    let (king, queen) = (ids0[0], ids0[1]);
    let before_stack = table.stacks[slot0].clone();
    let mut state = GameState::new(table);
    state.update_cursor(Some((0, -100)));
    state.drag();
    assert_eq!(state.drag.map(|s| s.card), Some(queen));
    assert!(state.table.objs[queen].parent.is_none());
    state.update_cursor(Some((900, 900)));
    state.release();
    assert!(state.drag.is_none());
    assert_eq!(state.table.objs[queen].parent, Some(king));
    assert_eq!(state.table.stacks[slot0], before_stack);
}

#[test]
fn queen_commits_on_king_jack_rolls_back() {
    // a queen may land on a king (13 == 12 + 1); a jack may not (13 != 11 + 1)
    let mut table = Table::new();
    let (slot0, ids0) = pile(&mut table, 0, &[card(Suit::Spades, Value::King)]);
    let (_slot1, ids1) = pile(&mut table, 300, &[card(Suit::Diamonds, Value::Queen)]);
    let (slot2, ids2) = pile(&mut table, 600, &[card(Suit::Clubs, Value::Jack)]);
    let king = ids0[0];
    refresh(&mut table, slot0);
    refresh(&mut table, _slot1);
    refresh(&mut table, slot2);
    let mut state = GameState::new(table);

    // the jack first: it bounces back
    state.update_cursor(Some((600, 0)));
    state.drag();
    assert_eq!(state.drag.map(|s| s.card), Some(ids2[0]));
    state.update_cursor(Some((0, 0)));
    state.release();
    assert_eq!(state.table.objs[ids2[0]].parent, Some(slot2));
    assert!(state.table.objs[king].child.is_none());

    // the queen commits
    state.update_cursor(Some((300, 0)));
    state.drag();
    assert_eq!(state.drag.map(|s| s.card), Some(ids1[0]));
    state.update_cursor(Some((0, 0)));
    state.release();
    assert_eq!(state.table.objs[ids1[0]].parent, Some(king));
    assert_eq!(state.table.stacks[slot0], vec![king, ids1[0]]);
}

#[test]
fn occupied_slot_rolls_the_card_back() {
    let mut table = Table::new();
    // a wide slot whose rim sticks out past the card resting on it
    let slot0 = table.push_slot(0, 0, 0, 150, 122);
    let king = table.push_card(card(Suit::Spades, Value::King), slot0, 0, 0, 1, 85, 122);
    let (slot1, ids1) = pile(&mut table, 400, &[card(Suit::Clubs, Value::Five)]);
    table.update_stack_children(king);
    table.resize_stack(slot0);
    table.make_draggable(slot0);
    refresh(&mut table, slot1);
    let five = ids1[0];
    let mut state = GameState::new(table);
    state.update_cursor(Some((400, 0)));
    state.drag();
    assert_eq!(state.drag.map(|s| s.card), Some(five));
    // over the slot's exposed rim: the slot already has a chain, so no commit
    state.update_cursor(Some((120, 0)));
    state.release();
    assert_eq!(state.table.objs[five].parent, Some(slot1));
    assert_eq!(state.table.objs[slot0].child, Some(king));
    assert_eq!(state.table.stacks[slot0], vec![king]);
}

#[test]
fn carried_card_follows_the_pointer_at_a_fixed_offset() {
    let mut table = Table::new();
    let (slot0, ids0) = pile(&mut table, 0, &[card(Suit::Spades, Value::Ace)]);
    refresh(&mut table, slot0);
    let ace = ids0[0];
    let mut state = GameState::new(table);
    state.update_cursor(Some((10, 5)));
    state.drag();
    assert!(state.drag.is_some());
    // picked at world (0, 0, 1): offset is (-10, -5)
    state.update_cursor(Some((50, 40)));
    assert_eq!(state.table.objs[ace].x, 40);
    assert_eq!(state.table.objs[ace].y, 35);
    assert_eq!(state.table.objs[ace].z, 500);
    state.update_cursor(Some((-20, 7)));
    assert_eq!(state.table.objs[ace].x, -30);
    assert_eq!(state.table.objs[ace].y, 2);
}

#[test]
fn pointer_outside_the_viewport_keeps_the_last_position() {
    let mut table = Table::new();
    let _ = pile(&mut table, 0, &[card(Suit::Spades, Value::Ace)]);
    let mut state = GameState::new(table);
    state.update_cursor(Some((5, 6)));
    state.update_cursor(None);
    assert_eq!((state.pointer_x, state.pointer_y), (5, 6));
}

#[test]
fn carried_chain_moves_as_one_piece() {
    let mut table = Table::new();
    let (slot0, ids0) = pile(
        &mut table,
        0,
        &[
            card(Suit::Spades, Value::King),
            card(Suit::Spades, Value::Queen),
            card(Suit::Spades, Value::Jack),
        ],
    );
    let slot1 = table.push_slot(400, 0, 0, 85, 122);
    refresh(&mut table, slot0);
    let (king, queen, jack) = (ids0[0], ids0[1], ids0[2]);
    let mut state = GameState::new(table);
    // a point over the queen but not over the jack fanned below it:
    // the queen is picked, and the jack chained on it comes along
    state.update_cursor(Some((0, -50)));
    state.drag();
    assert_eq!(state.drag.map(|s| s.card), Some(queen));
    assert_eq!(state.table.objs[queen].child, Some(jack));
    state.update_cursor(Some((400, 0)));
    state.release();
    assert_eq!(state.table.objs[queen].parent, Some(slot1));
    assert_eq!(state.table.stacks[slot1], vec![queen, jack]);
    assert_eq!(state.table.stacks[slot0], vec![king]);
    assert!(state.table.objs[king].draggable.0);
}

#[test]
fn dealt_layout_has_ten_thinning_piles() {
    let mut table = Table::new();
    let mut deck = Deck::shuffled();
    let slots = spawn_cards(&mut table, &mut deck);
    assert_eq!(slots.len(), 10);
    assert_eq!(table.objs.len(), 62);
    assert!(deck.draw().is_none());
    let expected = [8usize, 8, 8, 7, 6, 5, 4, 3, 2, 1];
    for (k, &slot) in slots.iter().enumerate() {
        refresh(&mut table, slot);
        assert_eq!(table.stacks[slot].len(), expected[k]);
        assert_eq!(table.objs[slot].x, k as i64 * 250 - 1125);
        assert_eq!(table.objs[slot].y, 400);
        // the top of every pile may be lifted
        let top = *table.stacks[slot].last().unwrap();
        assert!(table.objs[top].draggable.0);
    }
}
