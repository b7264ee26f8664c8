//! The passes that run after a parent link changes: rebuilding a slot's
//! cached stack from the chain itself, re-fanning the pile's offsets, and
//! recomputing which suffix of the pile may be lifted.

use vstd::prelude::*;
use crate::card::Card;
use crate::table::{
    anc_chain, desc_chain, in_range, lemma_chain_props, lemma_down_chain_same, lemma_down_props,
    lemma_nodup_len_bound, lemma_up_chain_same, links_ok, obj_ok, root_of, stack_entries_ok,
    wf_objs, Draggable, Obj, ObjKind, Table,
};

verus! {

/// Tables with identical links and kinds have identical chains; repositioning
/// or re-flagging objects never moves a pile.
pub proof fn lemma_links_preserved(t1: Seq<Obj>, t2: Seq<Obj>)
    requires
        wf_objs(t1),
        t2.len() == t1.len(),
        forall|i: int| in_range(t1, i) ==> {
            &&& (#[trigger] t2[i]).parent == t1[i].parent
            &&& t2[i].child == t1[i].child
            &&& t2[i].kind == t1[i].kind
            &&& t2[i].pos_bounded()
        },
    ensures
        wf_objs(t2),
        forall|i: int| in_range(t1, i) ==> anc_chain(t2, i) == anc_chain(t1, i),
        forall|i: int| in_range(t1, i) ==> desc_chain(t2, i) == desc_chain(t1, i),
        forall|i: int| in_range(t1, i) ==> root_of(t2, i) == root_of(t1, i),
{
    let n = t1.len() as int;
    assert forall|i: int| in_range(t1, i) implies anc_chain(t2, i) == anc_chain(t1, i)
        && desc_chain(t2, i) == desc_chain(t1, i) by {
        lemma_chain_props(t1, i);
        assert(!anc_chain(t1, i).contains(n)) by {
            if anc_chain(t1, i).contains(n) {
                let k = choose|k: int|
                    0 <= k < anc_chain(t1, i).len() && anc_chain(t1, i)[k] == n;
                assert(in_range(t1, anc_chain(t1, i)[k]));
            }
        }
        lemma_up_chain_same(t1, t2, i, t1.len() as nat, n);
        lemma_down_props(t1, i, t1.len() as nat);
        assert(!desc_chain(t1, i).contains(n)) by {
            if desc_chain(t1, i).contains(n) {
                let k = choose|k: int|
                    0 <= k < desc_chain(t1, i).len() && desc_chain(t1, i)[k] == n;
                assert(in_range(t1, desc_chain(t1, i)[k]));
            }
        }
        lemma_down_chain_same(t1, t2, i, t1.len() as nat, n);
    }
    assert(links_ok(t2)) by {
        assert forall|i: int| in_range(t2, i) implies obj_ok(t2, i) by {
            assert(obj_ok(t1, i));
        }
    }
    assert forall|i: int| in_range(t2, i)
        implies t2[#[trigger] root_of(t2, i)].parent is None by {
        assert(root_of(t2, i) == root_of(t1, i));
        lemma_chain_props(t1, i);
        assert(anc_chain(t1, i).contains(root_of(t1, i))) by {
            assert(anc_chain(t1, i).last() == root_of(t1, i));
        }
    }
}

/// A slot's cached stack never outgrows the arena: its entries are distinct
/// in-range indices.
pub proof fn lemma_stack_len_bound(t: Seq<Obj>, st: Seq<usize>)
    requires
        stack_entries_ok(t, st),
    ensures
        st.len() <= t.len(),
{
    let m = st.map_values(|u: usize| u as int);
    assert(m.no_duplicates()) by {
        assert forall|a: int, b: int| 0 <= a < m.len() && 0 <= b < m.len() && a != b
            implies m[a] != m[b] by {
            assert(st[a] != st[b]);
        }
    }
    assert forall|k: int| 0 <= k < m.len() implies 0 <= #[trigger] m[k] < t.len() by {
        assert(in_range(t, st[k] as int));
    }
    lemma_nodup_len_bound(m, t.len() as int);
}

/// The cached stack lists exactly the chain hanging below the root, in order.
pub open spec fn stack_matches_chain(st: Seq<usize>, ch: Seq<int>) -> bool {
    &&& st.len() + 1 == ch.len()
    &&& forall|k: int| 0 <= k < st.len() ==> #[trigger] st[k] as int == ch[k + 1]
}

/// Fan gap between consecutive cards of a pile of `n` cards: a fixed budget
/// split over the pile, capped per card.
pub open spec fn fan_gap(n: int) -> int {
    let d = 1000int / (if n < 1 { 1int } else { n });
    if d > 100 {
        100
    } else {
        d
    }
}

/// One card's translation after layout: position `k` of the pile sits one gap
/// below its parent (the root card directly on its slot), one depth step up.
pub open spec fn layout_write(o: Obj, k: int, gap: int) -> Obj {
    Obj { x: 0, y: (if k == 0 { 0int } else { -gap }) as i64, z: 1, ..o }
}

/// The whole table after laying out the pile cached as `st`.
pub open spec fn spec_layout(t: Seq<Obj>, st: Seq<usize>) -> Seq<Obj> {
    Seq::new(
        t.len(),
        |i: int|
            if st.contains(i as usize) {
                layout_write(t[i], st.index_of(i as usize), fan_gap(st.len() as int))
            } else {
                t[i]
            },
    )
}

/// The cards a stack refers to.
pub open spec fn stack_cards(t: Seq<Obj>, st: Seq<usize>) -> Seq<Card> {
    st.map_values(|u: usize| t[u as int].spec_card())
}

/// Consecutive pair `j`, `j + 1` of a pile continues a liftable run: the card
/// above shares the suit and sits exactly one rank lower.
pub open spec fn run_pair_ok(cards: Seq<Card>, j: int) -> bool {
    &&& cards[j + 1].suit == cards[j].suit
    &&& cards[j + 1].rank() == cards[j].rank() - 1
}

/// The card at position `k` may be lifted: everything from it to the top of
/// the pile is an unbroken same-suit run descending one rank per step.
/// The top card itself always may.
pub open spec fn run_draggable(cards: Seq<Card>, k: int) -> bool {
    forall|j: int| k <= j < cards.len() - 1 ==> #[trigger] run_pair_ok(cards, j)
}

/// Peeling one card off the bottom of a run check.
pub proof fn lemma_run_step(cards: Seq<Card>, k: int)
    requires
        0 <= k < cards.len() - 1,
    ensures
        run_draggable(cards, k) == (run_pair_ok(cards, k) && run_draggable(cards, k + 1)),
{
    if run_pair_ok(cards, k) && run_draggable(cards, k + 1) {
        assert forall|j: int| k <= j < cards.len() - 1 implies #[trigger] run_pair_ok(cards, j) by {
            if j != k {
                assert(run_pair_ok(cards, j));
            }
        }
    }
}

/// Layout is idempotent: each offset is a pure function of the stack and the
/// position in it, so running LayoutEngine twice over an unchanged stack
/// leaves exactly the offsets the first run wrote.
pub proof fn lemma_layout_idempotent(t: Seq<Obj>, st: Seq<usize>)
    ensures
        spec_layout(spec_layout(t, st), st) == spec_layout(t, st),
{
    let t1 = spec_layout(t, st);
    assert(spec_layout(t1, st) =~= t1);
}

/// Draggability is a suffix of the pile: when the card at position `i` may
/// be lifted, so may every card above it, and the top card always may.
pub proof fn lemma_run_suffix(cards: Seq<Card>, i: int, j: int)
    requires
        0 <= i <= j < cards.len(),
        run_draggable(cards, i),
    ensures
        run_draggable(cards, j),
        run_draggable(cards, cards.len() - 1),
{
}

/// The whole table after recomputing the liftable flags of the pile cached
/// as `st`.
pub open spec fn spec_draggified(t: Seq<Obj>, st: Seq<usize>) -> Seq<Obj> {
    Seq::new(
        t.len(),
        |i: int|
            if st.contains(i as usize) {
                Obj {
                    draggable: Draggable(
                        run_draggable(stack_cards(t, st), st.index_of(i as usize)),
                    ),
                    ..t[i]
                }
            } else {
                t[i]
            },
    )
}

impl Table {
    /// StackSync: after `moved`'s parent link changed, rebuild the cached
    /// stack of the pile it now belongs to. If its chain is not rooted at a
    /// slot — the card is mid-drag — nothing changes.
    pub fn update_stack_children(&mut self, moved: usize)
        requires
            old(self).wf(),
            (moved as int) < old(self).objs@.len(),
        ensures
            final(self).wf(),
            final(self).objs@ == old(self).objs@,
            final(self).stacks@.len() == old(self).stacks@.len(),
            ({
                let r = root_of(old(self).objs@, moved as int);
                &&& (old(self).objs@[r].is_slot() ==> {
                    &&& stack_matches_chain(
                        final(self).stacks@[r]@,
                        desc_chain(old(self).objs@, r),
                    )
                    &&& forall|s: int| 0 <= s < old(self).stacks@.len() && s != r
                        ==> final(self).stacks@[s] == old(self).stacks@[s]
                })
                &&& (!old(self).objs@[r].is_slot()
                    ==> final(self).stacks@ == old(self).stacks@)
            }),
    {
        let ghost t = self.objs@;
        let r = self.root_index(moved);
        let is_slot = match self.objs[r].kind {
            ObjKind::Slot => true,
            ObjKind::Card(_) => false,
        };
        if !is_slot {
            return ;
        }
        let ghost d = desc_chain(t, r as int);
        proof {
            lemma_down_props(t, r as int, t.len() as nat);
        }
        let mut stack: Vec<usize> = Vec::new();
        let mut cur = r;
        loop
            invariant
                self.wf(),
                t == self.objs@,
                wf_objs(t),
                (r as int) < t.len(),
                d == desc_chain(t, r as int),
                stack@.len() + 1 <= d.len(),
                cur as int == d[stack@.len() as int],
                forall|m: int| 0 <= m < stack@.len() ==> #[trigger] stack@[m] as int == d[m + 1],
            ensures
                stack_matches_chain(stack@, d),
            decreases d.len() - stack@.len(),
        {
            proof {
                lemma_down_props(t, r as int, t.len() as nat);
                assert(in_range(t, d[stack@.len() as int]));
            }
            match self.objs[cur].child {
                None => {
                    proof {
                        // only the last chain entry is childless
                        if (stack@.len() + 1) as int != d.len() {
                            assert(t[d[stack@.len() as int]].child == Some(
                                d[stack@.len() as int + 1] as usize,
                            ));
                        }
                    }
                    break ;
                },
                Some(j) => {
                    proof {
                        if (stack@.len() + 1) as int == d.len() {
                            assert(t[d.last()].child is None);
                        }
                        assert(t[d[stack@.len() as int]].child == Some(
                            d[stack@.len() as int + 1] as usize,
                        ));
                    }
                    stack.push(j);
                    cur = j;
                },
            }
        }
        proof {
            lemma_down_props(t, r as int, t.len() as nat);
            assert(stack_entries_ok(t, stack@)) by {
                assert forall|k: int| 0 <= k < stack@.len()
                    implies in_range(t, #[trigger] stack@[k] as int)
                    && t[stack@[k] as int].is_card() by {
                    assert(stack@[k] as int == d[k + 1]);
                    assert(in_range(t, d[k + 1]));
                    // depth below the root is positive, so the entry has a
                    // parent and cannot be a slot
                    assert(t[d[k + 1]].parent is Some) by {
                        if t[d[k + 1]].parent is None {
                            assert(anc_chain(t, d[k + 1]) == seq![d[k + 1]]);
                            assert(crate::table::depth_of(t, d[k + 1]) == 0);
                            assert(crate::table::depth_of(t, d[k + 1])
                                == crate::table::depth_of(t, r as int) + k + 1);
                        }
                    }
                    assert(obj_ok(t, d[k + 1]));
                }
                assert(stack@.no_duplicates()) by {
                    assert forall|a: int, b: int|
                        0 <= a < stack@.len() && 0 <= b < stack@.len() && a != b
                        implies stack@[a] != stack@[b] by {
                        assert(stack@[a] as int == d[a + 1]);
                        assert(stack@[b] as int == d[b + 1]);
                        assert(d.no_duplicates());
                    }
                }
            }
        }
        self.stacks[r] = stack;
        proof {
            assert forall|sl: int| in_range(self.objs@, sl)
                implies stack_entries_ok(self.objs@, #[trigger] self.stacks@[sl]@) by {
                if sl != r as int {
                    assert(stack_entries_ok(t, old(self).stacks@[sl]@));
                }
            }
        }
    }

    /// LayoutEngine: re-fan the pile cached on slot `s`. Each member's
    /// translation becomes a pure function of the stack length and its
    /// position, so the pass is deterministic and idempotent.
    pub fn resize_stack(&mut self, s: usize)
        requires
            old(self).wf(),
            (s as int) < old(self).objs@.len(),
        ensures
            final(self).wf(),
            final(self).objs@ == spec_layout(old(self).objs@, old(self).stacks@[s as int]@),
            final(self).stacks@ == old(self).stacks@,
            forall|i: int| in_range(old(self).objs@, i) ==> {
                &&& root_of(final(self).objs@, i) == root_of(old(self).objs@, i)
                &&& (#[trigger] final(self).objs@[i]).kind == old(self).objs@[i].kind
                &&& final(self).objs@[i].parent == old(self).objs@[i].parent
                &&& final(self).objs@[i].child == old(self).objs@[i].child
            },
    {
        let ghost t = self.objs@;
        let ghost st = self.stacks@[s as int]@;
        let n = self.stacks[s].len();
        proof {
            assert(stack_entries_ok(t, st));
            lemma_stack_len_bound(t, st);
        }
        let gap: i64 = if n == 0 {
            100
        } else {
            let d = 1000i64 / (n as i64);
            if d > 100 {
                100
            } else {
                d
            }
        };
        proof {
            assert(gap == fan_gap(st.len() as int));
        }
        let mut k: usize = 0;
        while k < n
            invariant
                self.stacks@ == old(self).stacks@,
                st == self.stacks@[s as int]@,
                (s as int) < self.objs@.len(),
                n == st.len(),
                k <= n,
                0 <= gap <= 100,
                gap == fan_gap(st.len() as int),
                old(self).wf(),
                t == old(self).objs@,
                self.objs@.len() == t.len(),
                self.stacks@.len() == t.len(),
                stack_entries_ok(t, st),
                forall|i: int| in_range(t, i) && !st.contains(i as usize)
                    ==> self.objs@[i] == t[i],
                forall|m: int| 0 <= m < k ==> self.objs@[#[trigger] st[m] as int]
                    == layout_write(t[st[m] as int], m, gap as int),
                forall|m: int| k <= m < n ==> self.objs@[#[trigger] st[m] as int]
                    == t[st[m] as int],
            decreases n - k,
        {
            let idx = self.stacks[s][k];
            proof {
                assert(in_range(t, idx as int));
                assert(st.contains(idx)) by {
                    assert(st[k as int] == idx);
                }
                assert(st.index_of(idx) == k) by {
                    let m = st.index_of(idx);
                    assert(st.contains(idx)) by {
                        assert(st[k as int] == idx);
                    }
                    assert(0 <= m < st.len() && st[m] == idx);
                    assert(st.no_duplicates());
                }
            }
            self.objs[idx].x = 0;
            self.objs[idx].y = if k == 0 {
                0
            } else {
                -gap
            };
            self.objs[idx].z = 1;
            k = k + 1;
        }
        proof {
            assert forall|i: int| in_range(t, i) && st.contains(i as usize)
                implies self.objs@[i] == layout_write(
                t[i],
                st.index_of(i as usize),
                fan_gap(st.len() as int),
            ) by {
                let m = st.index_of(i as usize);
                assert(0 <= m < st.len() && st[m] == i as usize);
            }
            assert(self.objs@ =~= spec_layout(t, st));
            assert forall|i: int| in_range(t, i) implies {
                &&& (#[trigger] self.objs@[i]).parent == t[i].parent
                &&& self.objs@[i].child == t[i].child
                &&& self.objs@[i].kind == t[i].kind
                &&& self.objs@[i].pos_bounded()
            } by {
                assert(obj_ok(t, i));
            }
            lemma_links_preserved(t, self.objs@);
            assert forall|sl: int| in_range(self.objs@, sl)
                implies stack_entries_ok(self.objs@, #[trigger] self.stacks@[sl]@) by {
                assert(stack_entries_ok(t, old(self).stacks@[sl]@));
                assert forall|q: int| 0 <= q < self.stacks@[sl]@.len()
                    implies in_range(self.objs@, #[trigger] self.stacks@[sl]@[q] as int)
                    && self.objs@[self.stacks@[sl]@[q] as int].is_card() by {
                    assert(self.objs@[self.stacks@[sl]@[q] as int].kind
                        == t[self.stacks@[sl]@[q] as int].kind);
                }
            }
        }
    }

    /// RunDraggability: walk the pile cached on slot `s` from the top down,
    /// marking liftable exactly the cards whose suffix is an unbroken
    /// same-suit, descending-by-one run.
    #[verifier::rlimit(100)]
    #[verifier::spinoff_prover]
    pub fn make_draggable(&mut self, s: usize)
        requires
            old(self).wf(),
            (s as int) < old(self).objs@.len(),
        ensures
            final(self).wf(),
            final(self).objs@ == spec_draggified(old(self).objs@, old(self).stacks@[s as int]@),
            final(self).stacks@ == old(self).stacks@,
            forall|i: int| in_range(old(self).objs@, i) ==> {
                &&& root_of(final(self).objs@, i) == root_of(old(self).objs@, i)
                &&& (#[trigger] final(self).objs@[i]).kind == old(self).objs@[i].kind
                &&& final(self).objs@[i].parent == old(self).objs@[i].parent
                &&& final(self).objs@[i].child == old(self).objs@[i].child
            },
    {
        let ghost t = self.objs@;
        let ghost st = self.stacks@[s as int]@;
        let ghost cards = stack_cards(t, st);
        let n = self.stacks[s].len();
        proof {
            assert(stack_entries_ok(t, st));
            lemma_stack_len_bound(t, st);
        }
        if n == 0 {
            proof {
                assert(self.objs@ =~= spec_draggified(t, st));
            }
            return ;
        }
        let top_idx = self.stacks[s][n - 1];
        proof {
            assert(in_range(t, top_idx as int));
            assert(st.contains(top_idx)) by {
                assert(st[n - 1] == top_idx);
            }
            assert(st.index_of(top_idx) == n - 1) by {
                let m = st.index_of(top_idx);
                assert(st.contains(top_idx)) by {
                    assert(st[n - 1] == top_idx);
                }
                assert(0 <= m < st.len() && st[m] == top_idx);
                assert(st.no_duplicates());
            }
            assert(run_draggable(cards, n - 1));
        }
        let mut above: Card = match self.objs[top_idx].kind {
            ObjKind::Card(c) => c,
            ObjKind::Slot => {
                proof {
                    assert(false);
                }
                Card { suit: crate::card::Suit::Spades, value: crate::card::Value::Ace }
            },
        };
        self.objs[top_idx].draggable = Draggable(true);
        let mut ok = true;
        let mut k = n - 1;
        while k > 0
            invariant
                self.stacks@ == old(self).stacks@,
                st == self.stacks@[s as int]@,
                (s as int) < self.objs@.len(),
                n == st.len(),
                0 < n <= t.len(),
                k < n,
                t == old(self).objs@,
                wf_objs(t),
                self.objs@.len() == t.len(),
                self.stacks@.len() == t.len(),
                stack_entries_ok(t, st),
                cards == stack_cards(t, st),
                forall|i: int| in_range(t, i) ==> (#[trigger] self.objs@[i]).kind == t[i].kind,
                above == cards[k as int],
                ok == run_draggable(cards, k as int),
                forall|i: int| in_range(t, i) && !st.contains(i as usize)
                    ==> self.objs@[i] == t[i],
                forall|m: int| k <= m < n ==> self.objs@[#[trigger] st[m] as int]
                    == (Obj { draggable: Draggable(run_draggable(cards, m)), ..t[st[m] as int] }),
                forall|m: int| 0 <= m < k ==> self.objs@[#[trigger] st[m] as int]
                    == t[st[m] as int],
            decreases k,
        {
            let idx = self.stacks[s][k - 1];
            proof {
                assert(in_range(t, idx as int));
                assert(st.contains(idx)) by {
                    assert(st[k - 1] == idx);
                }
                assert(st.index_of(idx) == k - 1) by {
                    let m = st.index_of(idx);
                    assert(st.contains(idx)) by {
                        assert(st[k - 1] == idx);
                    }
                    assert(0 <= m < st.len() && st[m] == idx);
                    assert(st.no_duplicates());
                }
            }
            let c: Card = match self.objs[idx].kind {
                ObjKind::Card(c) => c,
                ObjKind::Slot => {
                    proof {
                        assert(false);
                    }
                    Card { suit: crate::card::Suit::Spades, value: crate::card::Value::Ace }
                },
            };
            proof {
                assert(c == cards[k - 1]);
                lemma_run_step(cards, k - 1);
            }
            if ok {
                let above_rank = above.value.as_number();
                let c_rank = c.value.as_number();
                ok = above.suit == c.suit && above_rank == c_rank - 1;
                proof {
                    assert(ok == run_pair_ok(cards, k - 1));
                }
            }
            self.objs[idx].draggable = Draggable(ok);
            above = c;
            k = k - 1;
        }
        proof {
            assert forall|i: int| in_range(t, i) && st.contains(i as usize)
                implies self.objs@[i] == (Obj {
                draggable: Draggable(run_draggable(cards, st.index_of(i as usize))),
                ..t[i]
            }) by {
                let m = st.index_of(i as usize);
                assert(0 <= m < st.len() && st[m] == i as usize);
            }
            assert(self.objs@ =~= spec_draggified(t, st));
            assert forall|i: int| in_range(t, i) implies {
                &&& (#[trigger] self.objs@[i]).parent == t[i].parent
                &&& self.objs@[i].child == t[i].child
                &&& self.objs@[i].kind == t[i].kind
                &&& self.objs@[i].pos_bounded()
            } by {
                assert(obj_ok(t, i));
            }
            lemma_links_preserved(t, self.objs@);
            assert forall|sl: int| in_range(self.objs@, sl)
                implies stack_entries_ok(self.objs@, #[trigger] self.stacks@[sl]@) by {
                assert(stack_entries_ok(t, old(self).stacks@[sl]@));
                assert forall|q: int| 0 <= q < self.stacks@[sl]@.len()
                    implies in_range(self.objs@, #[trigger] self.stacks@[sl]@[q] as int)
                    && self.objs@[self.stacks@[sl]@[q] as int].is_card() by {
                    assert(self.objs@[self.stacks@[sl]@[q] as int].kind
                        == t[self.stacks@[sl]@[q] as int].kind);
                }
            }
        }
    }
}

} // verus!
