//! The scene as an arena of objects. Each object is a slot or a card with a
//! translation relative to its parent, a bounding half-extent, and at most one
//! parent and one child: piles are simple chains rooted at slots. Structure
//! changes only through [`Table::detach`] and [`Table::attach`], which keep
//! the chains well formed.

use vstd::prelude::*;
use vstd::seq_lib::lemma_no_dup_in_concat;
use vstd::set_lib::{lemma_int_range, lemma_len_subset, set_int_range};
use crate::card::Card;

verus! {

/// Hard cap on the number of scene objects; keeps accumulated world
/// coordinates far from `i64` overflow.
pub const MAX_OBJS: usize = 100_000;

/// Per-object translations are kept within this bound, so a chain of
/// `MAX_OBJS` of them sums to at most `MAX_OBJS * POS_LIMIT`, well inside `i64`.
pub const POS_LIMIT: i64 = 1_000_000_000;

/// Whether a card may currently be lifted; recomputed from pile membership,
/// never authoritative input.
#[derive(Clone, Copy, PartialEq, Eq, Structural, Debug)]
pub struct Draggable(pub bool);

#[derive(Clone, Copy, Debug)]
pub enum ObjKind {
    Slot,
    Card(Card),
}

#[derive(Clone, Copy, Debug)]
pub struct Obj {
    pub kind: ObjKind,
    /// The object this one sits on; `None` for slots and for the carried card.
    pub parent: Option<usize>,
    /// The single object sitting on this one.
    pub child: Option<usize>,
    /// Translation relative to the parent (world position for parentless objects).
    pub x: i64,
    pub y: i64,
    /// Draw depth relative to the parent; greater is nearer the viewer.
    pub z: i64,
    /// Bounding-box half extents around the object's world position.
    pub half_x: i64,
    pub half_y: i64,
    pub draggable: Draggable,
    /// Whether a released card may land on this object.
    pub drop_target: bool,
}

impl Obj {
    pub open spec fn is_slot(self) -> bool {
        self.kind is Slot
    }

    pub open spec fn is_card(self) -> bool {
        self.kind is Card
    }

    pub open spec fn spec_card(self) -> Card {
        self.kind->Card_0
    }

    pub open spec fn pos_bounded(self) -> bool {
        &&& -POS_LIMIT <= self.x <= POS_LIMIT
        &&& -POS_LIMIT <= self.y <= POS_LIMIT
        &&& -POS_LIMIT <= self.z <= POS_LIMIT
        &&& 0 <= self.half_x
        &&& 0 <= self.half_y
    }
}

pub open spec fn in_range(t: Seq<Obj>, i: int) -> bool {
    0 <= i < t.len()
}

/// Local consistency of one object's links: indices are in range, parent and
/// child links mirror each other, slots have no parent, translations are bounded.
pub open spec fn obj_ok(t: Seq<Obj>, i: int) -> bool {
    &&& (t[i].parent matches Some(p) ==> in_range(t, p as int) && p as int != i
        && t[p as int].child == Some(i as usize))
    &&& (t[i].child matches Some(c) ==> in_range(t, c as int) && c as int != i
        && t[c as int].parent == Some(i as usize))
    &&& (t[i].is_slot() ==> t[i].parent is None)
    &&& t[i].pos_bounded()
}

pub open spec fn links_ok(t: Seq<Obj>) -> bool {
    forall|i: int| in_range(t, i) ==> #[trigger] obj_ok(t, i)
}

/// The parent chain from `i` upward, `i` first, following at most `fuel`
/// links; stops early if the fuel runs out.
pub open spec fn up_chain(t: Seq<Obj>, i: int, fuel: nat) -> Seq<int>
    decreases fuel,
{
    match t[i].parent {
        None => seq![i],
        Some(p) => if fuel == 0 {
            seq![i]
        } else {
            seq![i] + up_chain(t, p as int, (fuel - 1) as nat)
        },
    }
}

/// The child chain from `i` downward, `i` first.
pub open spec fn down_chain(t: Seq<Obj>, i: int, fuel: nat) -> Seq<int>
    decreases fuel,
{
    match t[i].child {
        None => seq![i],
        Some(c) => if fuel == 0 {
            seq![i]
        } else {
            seq![i] + down_chain(t, c as int, (fuel - 1) as nat)
        },
    }
}

/// The full parent chain of `i`: enough fuel for any well-formed table.
pub open spec fn anc_chain(t: Seq<Obj>, i: int) -> Seq<int> {
    up_chain(t, i, t.len() as nat)
}

/// The full child chain of `i`.
pub open spec fn desc_chain(t: Seq<Obj>, i: int) -> Seq<int> {
    down_chain(t, i, t.len() as nat)
}

/// The top of `i`'s parent chain: a parentless object in a well-formed table.
pub open spec fn root_of(t: Seq<Obj>, i: int) -> int {
    anc_chain(t, i).last()
}

/// Number of parent links above `i`.
pub open spec fn depth_of(t: Seq<Obj>, i: int) -> int {
    anc_chain(t, i).len() - 1
}

/// Every parent chain reaches a parentless object: the links form a forest
/// of simple chains, with no cycle.
pub open spec fn all_rooted(t: Seq<Obj>) -> bool {
    forall|i: int| in_range(t, i) ==> t[#[trigger] root_of(t, i)].parent is None
}

pub open spec fn wf_objs(t: Seq<Obj>) -> bool {
    &&& t.len() <= MAX_OBJS
    &&& links_ok(t)
    &&& all_rooted(t)
}

/// `t2` keeps `t1`'s parent links, except possibly at index `cp`.
pub open spec fn parents_same_except(t1: Seq<Obj>, t2: Seq<Obj>, cp: int) -> bool {
    &&& t1.len() <= t2.len()
    &&& forall|x: int| in_range(t1, x) && x != cp ==> t1[x].parent == #[trigger] t2[x].parent
}

/// `t2` keeps `t1`'s child links, except possibly at index `cc`.
pub open spec fn children_same_except(t1: Seq<Obj>, t2: Seq<Obj>, cc: int) -> bool {
    &&& t1.len() <= t2.len()
    &&& forall|x: int| in_range(t1, x) && x != cc ==> t1[x].child == #[trigger] t2[x].child
}

/// A truncated parent chain whose last object is parentless is the chain at
/// any larger fuel too.
pub proof fn lemma_up_chain_sat(t: Seq<Obj>, i: int, f: nat, g: nat)
    requires
        in_range(t, i),
        links_ok(t),
        f <= g,
        t[up_chain(t, i, f).last()].parent is None,
    ensures
        up_chain(t, i, g) == up_chain(t, i, f),
    decreases f,
{
    match t[i].parent {
        None => {},
        Some(p) => {
            assert(f > 0) by {
                if f == 0 {
                    assert(up_chain(t, i, f) == seq![i]);
                }
            }
            assert(obj_ok(t, i));
            let rest = up_chain(t, p as int, (f - 1) as nat);
            assert(up_chain(t, i, f) == seq![i] + rest);
            assert((seq![i] + rest).last() == rest.last());
            lemma_up_chain_sat(t, p as int, (f - 1) as nat, (g - 1) as nat);
            assert(up_chain(t, i, g) == seq![i] + up_chain(t, p as int, (g - 1) as nat));
        },
    }
}

/// If the full-fuel chain fits within `f + 1` objects, fuel `f` already
/// produces it.
pub proof fn lemma_up_chain_shrink(t: Seq<Obj>, i: int, f: nat)
    requires
        in_range(t, i),
        links_ok(t),
        all_rooted(t),
        anc_chain(t, i).len() <= f + 1,
    ensures
        up_chain(t, i, f) == anc_chain(t, i),
    decreases f,
{
    lemma_chain_props(t, i);
    match t[i].parent {
        None => {
            assert(anc_chain(t, i) == seq![i]);
            assert(up_chain(t, i, f) == seq![i]);
        },
        Some(p) => {
            assert(obj_ok(t, i));
            assert(anc_chain(t, i) == seq![i] + anc_chain(t, p as int));
            assert(anc_chain(t, i).len() == 1 + anc_chain(t, p as int).len());
            assert(f >= 1);
            lemma_up_chain_shrink(t, p as int, (f - 1) as nat);
            assert(up_chain(t, i, f) == seq![i] + up_chain(t, p as int, (f - 1) as nat));
        },
    }
}

/// Facts about a well-formed parent chain: where it starts and ends, that its
/// members are in range with equal roots and descending depths, and that it
/// never repeats an object.
pub proof fn lemma_chain_props(t: Seq<Obj>, i: int)
    requires
        in_range(t, i),
        links_ok(t),
        all_rooted(t),
    ensures
        anc_chain(t, i).len() >= 1,
        anc_chain(t, i)[0] == i,
        anc_chain(t, i).last() == root_of(t, i),
        t[root_of(t, i)].parent is None,
        t[i].parent matches Some(p) ==> anc_chain(t, i) == seq![i] + anc_chain(t, p as int),
        forall|k: int| 0 <= k < anc_chain(t, i).len() ==> in_range(t, #[trigger] anc_chain(t, i)[k]),
        forall|k: int| 0 <= k < anc_chain(t, i).len()
            ==> root_of(t, #[trigger] anc_chain(t, i)[k]) == root_of(t, i),
        forall|k: int| 0 <= k < anc_chain(t, i).len()
            ==> depth_of(t, #[trigger] anc_chain(t, i)[k]) == depth_of(t, i) - k,
        anc_chain(t, i).no_duplicates(),
    decreases anc_chain(t, i).len(),
{
    let ch = anc_chain(t, i);
    match t[i].parent {
        None => {
            assert(ch == seq![i]);
        },
        Some(p) => {
            assert(obj_ok(t, i));
            let fuel = t.len() as nat;
            let rest = up_chain(t, p as int, (fuel - 1) as nat);
            assert(fuel > 0);
            assert(ch == seq![i] + rest);
            assert(ch.last() == rest.last());
            // the truncated chain of `p` ends at `i`'s root, which is parentless,
            // so it is `p`'s full chain
            assert(rest.last() == root_of(t, i));
            lemma_up_chain_sat(t, p as int, (fuel - 1) as nat, fuel);
            assert(rest == anc_chain(t, p as int));
            assert(ch.len() == 1 + rest.len());
            lemma_chain_props(t, p as int);
            assert forall|k: int| 0 <= k < ch.len() implies in_range(t, #[trigger] ch[k]) by {
                if k > 0 {
                    assert(ch[k] == rest[k - 1]);
                }
            }
            assert forall|k: int| 0 <= k < ch.len()
                implies root_of(t, #[trigger] ch[k]) == root_of(t, i) by {
                if k > 0 {
                    assert(ch[k] == rest[k - 1]);
                    assert(root_of(t, ch[k]) == root_of(t, p as int));
                }
                assert(root_of(t, i) == root_of(t, p as int)) by {
                    assert(ch.last() == rest.last());
                }
            }
            assert forall|k: int| 0 <= k < ch.len()
                implies depth_of(t, #[trigger] ch[k]) == depth_of(t, i) - k by {
                assert(depth_of(t, i) == depth_of(t, p as int) + 1);
                if k > 0 {
                    assert(ch[k] == rest[k - 1]);
                }
            }
            assert(ch.no_duplicates()) by {
                assert forall|a: int, b: int| 0 <= a < ch.len() && 0 <= b < ch.len() && a != b
                    implies ch[a] != ch[b] by {
                    assert(depth_of(t, ch[a]) == depth_of(t, i) - a);
                    assert(depth_of(t, ch[b]) == depth_of(t, i) - b);
                }
            }
        },
    }
}

/// No-duplicate sequence of indices into `0..n`: at most `n` of them.
pub proof fn lemma_nodup_len_bound(s: Seq<int>, n: int)
    requires
        s.no_duplicates(),
        n >= 0,
        forall|k: int| 0 <= k < s.len() ==> 0 <= #[trigger] s[k] < n,
    ensures
        s.len() <= n,
{
    s.unique_seq_to_set();
    lemma_int_range(0, n);
    assert(s.to_set().subset_of(set_int_range(0, n))) by {
        assert forall|x: int| s.to_set().contains(x) implies set_int_range(0, n).contains(x) by {
            assert(s.contains(x));
            let k = choose|k: int| 0 <= k < s.len() && s[k] == x;
            assert(0 <= s[k] < n);
        }
    }
    lemma_len_subset(s.to_set(), set_int_range(0, n));
}

/// In a well-formed table no parent chain is longer than the table itself.
pub proof fn lemma_chain_len_bound(t: Seq<Obj>, i: int)
    requires
        in_range(t, i),
        links_ok(t),
        all_rooted(t),
    ensures
        anc_chain(t, i).len() <= t.len(),
{
    lemma_chain_props(t, i);
    lemma_nodup_len_bound(anc_chain(t, i), t.len() as int);
}

/// A parent chain that avoids the one changed index is the same chain in the
/// changed table.
pub proof fn lemma_up_chain_same(t1: Seq<Obj>, t2: Seq<Obj>, i: int, f: nat, cp: int)
    requires
        in_range(t1, i),
        links_ok(t1),
        parents_same_except(t1, t2, cp),
        !up_chain(t1, i, f).contains(cp),
    ensures
        up_chain(t2, i, f) == up_chain(t1, i, f),
    decreases f,
{
    let ch = up_chain(t1, i, f);
    assert(ch[0] == i);
    assert(i != cp);
    assert(t2[i].parent == t1[i].parent);
    match t1[i].parent {
        None => {},
        Some(p) => {
            if f > 0 {
                assert(obj_ok(t1, i));
                let rest = up_chain(t1, p as int, (f - 1) as nat);
                assert(ch == seq![i] + rest);
                assert(!rest.contains(cp)) by {
                    if rest.contains(cp) {
                        let k = choose|k: int| 0 <= k < rest.len() && rest[k] == cp;
                        assert(ch[k + 1] == cp);
                    }
                }
                lemma_up_chain_same(t1, t2, p as int, (f - 1) as nat, cp);
            }
        },
    }
}

/// A child chain that avoids the one changed index is the same chain in the
/// changed table.
pub proof fn lemma_down_chain_same(t1: Seq<Obj>, t2: Seq<Obj>, i: int, f: nat, cc: int)
    requires
        in_range(t1, i),
        links_ok(t1),
        children_same_except(t1, t2, cc),
        !down_chain(t1, i, f).contains(cc),
    ensures
        down_chain(t2, i, f) == down_chain(t1, i, f),
    decreases f,
{
    let ch = down_chain(t1, i, f);
    assert(ch[0] == i);
    assert(i != cc);
    assert(t2[i].child == t1[i].child);
    match t1[i].child {
        None => {},
        Some(c) => {
            if f > 0 {
                assert(obj_ok(t1, i));
                let rest = down_chain(t1, c as int, (f - 1) as nat);
                assert(ch == seq![i] + rest);
                assert(!rest.contains(cc)) by {
                    if rest.contains(cc) {
                        let k = choose|k: int| 0 <= k < rest.len() && rest[k] == cc;
                        assert(ch[k + 1] == cc);
                    }
                }
                lemma_down_chain_same(t1, t2, c as int, (f - 1) as nat, cc);
            }
        },
    }
}

/// Cutting `c` loose truncates at `c` every chain that ran through it: in the
/// new table such a chain ends at `c`.
pub proof fn lemma_up_chain_cut(t1: Seq<Obj>, t2: Seq<Obj>, i: int, f: nat, c: int)
    requires
        in_range(t1, i),
        links_ok(t1),
        parents_same_except(t1, t2, c),
        in_range(t1, c),
        t2.len() == t1.len(),
        t2[c].parent is None,
        up_chain(t1, i, f).contains(c),
    ensures
        up_chain(t2, i, f).last() == c,
        t2[up_chain(t2, i, f).last()].parent is None,
        forall|k: int| 0 <= k < up_chain(t2, i, f).len()
            ==> up_chain(t1, i, f).contains(#[trigger] up_chain(t2, i, f)[k]),
    decreases f,
{
    let ch1 = up_chain(t1, i, f);
    let ch2 = up_chain(t2, i, f);
    if i == c {
        assert(ch2 == seq![c]);
        assert(ch1[0] == i);
        assert(ch1.contains(ch2[0]));
    } else {
        assert(t2[i].parent == t1[i].parent);
        match t1[i].parent {
            None => {
                assert(ch1 == seq![i]);
                let k = choose|k: int| 0 <= k < ch1.len() && ch1[k] == c;
                assert(false);
            },
            Some(p) => {
                assert(obj_ok(t1, i));
                if f == 0 {
                    assert(ch1 == seq![i]);
                    let k = choose|k: int| 0 <= k < ch1.len() && ch1[k] == c;
                    assert(false);
                }
                let rest1 = up_chain(t1, p as int, (f - 1) as nat);
                assert(ch1 == seq![i] + rest1);
                assert(rest1.contains(c)) by {
                    let k = choose|k: int| 0 <= k < ch1.len() && ch1[k] == c;
                    assert(k > 0);
                    assert(rest1[k - 1] == c);
                }
                lemma_up_chain_cut(t1, t2, p as int, (f - 1) as nat, c);
                let rest2 = up_chain(t2, p as int, (f - 1) as nat);
                assert(ch2 == seq![i] + rest2);
                assert(ch2.last() == rest2.last());
                assert forall|k: int| 0 <= k < ch2.len()
                    implies ch1.contains(#[trigger] ch2[k]) by {
                    if k == 0 {
                        assert(ch1[0] == i);
                    } else {
                        assert(ch2[k] == rest2[k - 1]);
                        assert(rest1.contains(rest2[k - 1]));
                        let m = choose|m: int| 0 <= m < rest1.len() && rest1[m] == rest2[k - 1];
                        assert(ch1[m + 1] == rest2[k - 1]);
                    }
                }
            },
        }
    }
}

/// No object has two children: parent links mirror child links, and an
/// object's child link holds at most one index. Piles can therefore never
/// branch, whatever sequence of drops produced them.
pub proof fn lemma_at_most_one_child(t: Seq<Obj>, i: usize, j: int, k: int)
    requires
        links_ok(t),
        t.len() <= MAX_OBJS,
        in_range(t, j),
        in_range(t, k),
        t[j].parent == Some(i),
        t[k].parent == Some(i),
    ensures
        j == k,
{
    assert(obj_ok(t, j));
    assert(obj_ok(t, k));
}

/// The root of any in-range object is itself in range.
pub proof fn lemma_root_in_range(t: Seq<Obj>, i: int)
    requires
        links_ok(t),
        all_rooted(t),
        in_range(t, i),
    ensures
        in_range(t, root_of(t, i)),
        t[root_of(t, i)].parent is None,
{
    lemma_chain_props(t, i);
    assert(anc_chain(t, i).contains(root_of(t, i))) by {
        assert(anc_chain(t, i).last() == root_of(t, i));
    }
}

/// Facts about a well-formed child chain, at any fuel that covers the whole
/// chain: where it starts, that it steps through child links with rising
/// depths, that it ends childless, and that it never repeats an object.
pub proof fn lemma_down_props(t: Seq<Obj>, i: int, f: nat)
    requires
        in_range(t, i),
        links_ok(t),
        all_rooted(t),
        t.len() <= MAX_OBJS,
        t.len() <= f + depth_of(t, i) + 1,
    ensures
        down_chain(t, i, f).len() >= 1,
        down_chain(t, i, f)[0] == i,
        t[down_chain(t, i, f).last()].child is None,
        forall|k: int| 0 <= k < down_chain(t, i, f).len()
            ==> in_range(t, #[trigger] down_chain(t, i, f)[k]),
        forall|k: int| 0 <= k < down_chain(t, i, f).len() - 1
            ==> t[#[trigger] down_chain(t, i, f)[k]].child == Some(down_chain(t, i, f)[k + 1] as usize),
        forall|k: int| 0 <= k < down_chain(t, i, f).len()
            ==> depth_of(t, #[trigger] down_chain(t, i, f)[k]) == depth_of(t, i) + k,
        forall|k: int| 0 <= k < down_chain(t, i, f).len()
            ==> root_of(t, #[trigger] down_chain(t, i, f)[k]) == root_of(t, i),
        down_chain(t, i, f).no_duplicates(),
    decreases f,
{
    let ch = down_chain(t, i, f);
    match t[i].child {
        None => {
            assert(ch == seq![i]);
        },
        Some(c) => {
            assert(obj_ok(t, i));
            assert(obj_ok(t, c as int));
            // the child sits one step deeper
            lemma_chain_props(t, c as int);
            assert(anc_chain(t, c as int) == seq![c as int] + anc_chain(t, i));
            assert(depth_of(t, c as int) == depth_of(t, i) + 1);
            lemma_chain_len_bound(t, c as int);
            assert(depth_of(t, c as int) <= t.len() - 1);
            assert(f >= 1);
            let rest = down_chain(t, c as int, (f - 1) as nat);
            assert(ch == seq![i] + rest);
            lemma_down_props(t, c as int, (f - 1) as nat);
            assert(ch.last() == rest.last());
            assert forall|k: int| 0 <= k < ch.len() implies in_range(t, #[trigger] ch[k]) by {
                if k > 0 {
                    assert(ch[k] == rest[k - 1]);
                }
            }
            assert forall|k: int| 0 <= k < ch.len() - 1
                implies t[#[trigger] ch[k]].child == Some(ch[k + 1] as usize) by {
                if k > 0 {
                    assert(ch[k] == rest[k - 1]);
                    assert(ch[k + 1] == rest[k]);
                }
            }
            assert forall|k: int| 0 <= k < ch.len()
                implies depth_of(t, #[trigger] ch[k]) == depth_of(t, i) + k by {
                if k > 0 {
                    assert(ch[k] == rest[k - 1]);
                }
            }
            assert forall|k: int| 0 <= k < ch.len()
                implies root_of(t, #[trigger] ch[k]) == root_of(t, i) by {
                if k > 0 {
                    assert(ch[k] == rest[k - 1]);
                    assert(root_of(t, ch[k]) == root_of(t, c as int));
                }
                assert(root_of(t, c as int) == root_of(t, i)) by {
                    assert(anc_chain(t, c as int).last() == anc_chain(t, i).last());
                }
            }
            assert(ch.no_duplicates()) by {
                assert forall|a: int, b: int| 0 <= a < ch.len() && 0 <= b < ch.len() && a != b
                    implies ch[a] != ch[b] by {
                    assert(depth_of(t, ch[a]) == depth_of(t, i) + a);
                    assert(depth_of(t, ch[b]) == depth_of(t, i) + b);
                }
            }
        },
    }
}

/// Unlinking `c` from its parent: `c` loses its parent, the parent its child.
pub open spec fn detach_links(t: Seq<Obj>, c: int) -> Seq<Obj>
    recommends
        in_range(t, c),
        t[c].parent is Some,
{
    let p = t[c].parent->Some_0 as int;
    t.update(c, Obj { parent: None, ..t[c] }).update(p, Obj { child: None, ..t[p] })
}

/// Linking parentless `c` under childless `g`.
pub open spec fn attach_links(t: Seq<Obj>, c: int, g: int) -> Seq<Obj>
    recommends
        in_range(t, c),
        in_range(t, g),
{
    t.update(c, Obj { parent: Some(g as usize), ..t[c] }).update(
        g,
        Obj { child: Some(c as usize), ..t[g] },
    )
}

/// An object is never on its own parent's chain, since everything there sits
/// at a strictly smaller depth.
pub proof fn lemma_not_on_parent_chain(t: Seq<Obj>, c: int)
    requires
        in_range(t, c),
        links_ok(t),
        all_rooted(t),
        t[c].parent is Some,
    ensures
        !anc_chain(t, t[c].parent->Some_0 as int).contains(c),
{
    let p = t[c].parent->Some_0 as int;
    assert(obj_ok(t, c));
    lemma_chain_props(t, c);
    lemma_chain_props(t, p);
    assert(anc_chain(t, c) == seq![c] + anc_chain(t, p));
    assert(depth_of(t, c) == depth_of(t, p) + 1);
    if anc_chain(t, p).contains(c) {
        let k = choose|k: int| 0 <= k < anc_chain(t, p).len() && anc_chain(t, p)[k] == c;
        assert(depth_of(t, anc_chain(t, p)[k]) == depth_of(t, p) - k);
    }
}

/// Detaching a linked object keeps the table well formed. Chains that ran
/// through `c` now end at `c`; every other object keeps its root.
pub proof fn lemma_detach_wf(t: Seq<Obj>, c: int)
    requires
        wf_objs(t),
        in_range(t, c),
        t[c].parent is Some,
    ensures
        wf_objs(detach_links(t, c)),
        detach_links(t, c).len() == t.len(),
        forall|i: int| in_range(t, i) ==> root_of(detach_links(t, c), i) == (
            if anc_chain(t, i).contains(c) {
                c
            } else {
                root_of(t, i)
            }
        ),
        forall|i: int| in_range(t, i)
            ==> (#[trigger] detach_links(t, c)[i]).kind == t[i].kind,
{
    let p = t[c].parent->Some_0 as int;
    let t2 = detach_links(t, c);
    assert(obj_ok(t, c));
    assert(p != c);
    assert(t2.len() == t.len());
    assert(parents_same_except(t, t2, c));
    assert(links_ok(t2)) by {
        assert forall|i: int| in_range(t2, i) implies obj_ok(t2, i) by {
            assert(obj_ok(t, i));
            match t2[i].parent {
                None => {},
                Some(q) => {
                    assert(t[i].parent == Some(q));
                    assert(obj_ok(t, q as int));
                    // only `p`'s child changed; `p`'s old child was `c`, and `c`
                    // has no parent in the new table
                    if q as int == p {
                        assert(t[p].child == Some(c as usize));
                        assert(i == c as int);
                        assert(false);
                    }
                },
            }
            match t2[i].child {
                None => {},
                Some(j) => {
                    assert(i != p);
                    assert(t[i].child == Some(j));
                    if j as int == c {
                        assert(t[c].parent == Some(i as usize));
                        assert(i == p);
                        assert(false);
                    }
                },
            }
        }
    }
    assert forall|i: int| in_range(t, i) implies root_of(t2, i) == (
        if anc_chain(t, i).contains(c) {
            c
        } else {
            root_of(t, i)
        }
    ) && t2[#[trigger] root_of(t2, i)].parent is None by {
        lemma_chain_props(t, i);
        if anc_chain(t, i).contains(c) {
            lemma_up_chain_cut(t, t2, i, t.len() as nat, c);
        } else {
            lemma_up_chain_same(t, t2, i, t.len() as nat, c);
            assert(anc_chain(t, i).contains(root_of(t, i))) by {
                assert(anc_chain(t, i).last() == root_of(t, i));
            }
            assert(root_of(t, i) != c);
        }
    }
}

/// Building the chain of `i` in the attached table: it is `i`'s old chain
/// (which ended at `c`) followed by the chain above `g`.
proof fn lemma_up_chain_append(t: Seq<Obj>, t2: Seq<Obj>, i: int, f: nat, c: int, g: int)
    requires
        links_ok(t),
        all_rooted(t),
        in_range(t, i),
        in_range(t, c),
        in_range(t, g),
        t.len() <= MAX_OBJS,
        t2.len() == t.len(),
        parents_same_except(t, t2, c),
        t[c].parent is None,
        t2[c].parent == Some(g as usize),
        root_of(t, i) == c,
        anc_chain(t, i).len() <= f,
    ensures
        up_chain(t2, i, f) == anc_chain(t, i) + up_chain(
            t2,
            g,
            (f - anc_chain(t, i).len()) as nat,
        ),
    decreases f,
{
    lemma_chain_props(t, i);
    if i == c {
        assert(anc_chain(t, i) == seq![i]);
        assert(up_chain(t2, i, f) == seq![i] + up_chain(t2, g, (f - 1) as nat));
        assert(up_chain(t2, i, f) =~= anc_chain(t, i) + up_chain(t2, g, (f - 1) as nat));
    } else {
        match t[i].parent {
            None => {
                assert(anc_chain(t, i) == seq![i]);
                assert(root_of(t, i) == i);
                assert(false);
            },
            Some(p) => {
                assert(obj_ok(t, i));
                assert(anc_chain(t, i) == seq![i] + anc_chain(t, p as int));
                assert(root_of(t, p as int) == c) by {
                    assert(anc_chain(t, i).last() == anc_chain(t, p as int).last());
                }
                assert(t2[i].parent == t[i].parent);
                lemma_up_chain_append(t, t2, p as int, (f - 1) as nat, c, g);
                let tailfuel = (f - anc_chain(t, i).len()) as nat;
                assert(up_chain(t2, i, f) == seq![i] + up_chain(t2, p as int, (f - 1) as nat));
                assert(up_chain(t2, i, f) =~= anc_chain(t, i) + up_chain(t2, g, tailfuel));
            },
        }
    }
}

/// Attaching a parentless card under a childless target outside its own
/// subtree keeps the table well formed. Objects rooted at `c` — `c` and
/// whatever it carries — are now rooted where `g` is; every other object
/// keeps its root.
pub proof fn lemma_attach_wf(t: Seq<Obj>, c: int, g: int)
    requires
        wf_objs(t),
        in_range(t, c),
        in_range(t, g),
        t[c].is_card(),
        t[c].parent is None,
        t[g].child is None,
        root_of(t, g) != c,
    ensures
        wf_objs(attach_links(t, c, g)),
        attach_links(t, c, g).len() == t.len(),
        forall|i: int| in_range(t, i) ==> root_of(attach_links(t, c, g), i) == (
            if root_of(t, i) == c {
                root_of(t, g)
            } else {
                root_of(t, i)
            }
        ),
        forall|i: int| in_range(t, i)
            ==> (#[trigger] attach_links(t, c, g)[i]).kind == t[i].kind,
{
    let t2 = attach_links(t, c, g);
    lemma_chain_props(t, c);
    assert(anc_chain(t, c) == seq![c]);
    assert(root_of(t, c) == c);
    assert(g != c);
    lemma_chain_props(t, g);
    assert(t2.len() == t.len());
    assert(parents_same_except(t, t2, c));
    assert(links_ok(t2)) by {
        assert forall|i: int| in_range(t2, i) implies obj_ok(t2, i) by {
            assert(obj_ok(t, i));
            assert(obj_ok(t, c));
            assert(obj_ok(t, g));
            match t2[i].parent {
                None => {},
                Some(q) => {
                    if i == c {
                        assert(q as int == g);
                    } else {
                        assert(t[i].parent == Some(q));
                        if q as int == g {
                            assert(t[g].child == Some(i as usize));
                            assert(false);
                        }
                    }
                },
            }
            match t2[i].child {
                None => {},
                Some(j) => {
                    if i == g {
                        assert(j as int == c);
                    } else {
                        assert(t[i].child == Some(j));
                        if j as int == c {
                            assert(t[c].parent == Some(i as usize));
                            assert(false);
                        }
                    }
                },
            }
        }
    }
    // the old chain of anything rooted at `c` and the chain of `g` share no
    // object, so together they still fit in the table
    assert forall|i: int| in_range(t, i) implies root_of(t2, i) == (
        if root_of(t, i) == c {
            root_of(t, g)
        } else {
            root_of(t, i)
        }
    ) && t2[#[trigger] root_of(t2, i)].parent is None by {
        lemma_chain_props(t, i);
        let chi = anc_chain(t, i);
        let chg = anc_chain(t, g);
        if root_of(t, i) == c {
            assert forall|a: int, b: int|
                0 <= a < chi.len() && 0 <= b < chg.len() implies chi[a] != chg[b] by {
                assert(root_of(t, chi[a]) == c);
                assert(root_of(t, chg[b]) == root_of(t, g));
            }
            lemma_no_dup_in_concat(chi, chg);
            lemma_nodup_len_bound(chi + chg, t.len() as int);
            assert(chi.len() + chg.len() <= t.len());
            let tailfuel = (t.len() - chi.len()) as nat;
            lemma_up_chain_append(t, t2, i, t.len() as nat, c, g);
            // below `g` nothing changed, so `g`'s chain is its old one
            lemma_up_chain_shrink(t, g, tailfuel);
            assert(!up_chain(t, g, tailfuel).contains(c)) by {
                if chg.contains(c) {
                    let k = choose|k: int| 0 <= k < chg.len() && chg[k] == c;
                    assert(root_of(t, chg[k]) == root_of(t, g));
                }
            }
            lemma_up_chain_same(t, t2, g, tailfuel, c);
            assert(up_chain(t2, g, tailfuel) == chg);
            assert(up_chain(t2, i, t.len() as nat) == chi + chg);
            assert((chi + chg).last() == chg.last());
            assert(root_of(t2, i) == root_of(t, g));
            assert(t2[root_of(t, g)].parent == t[root_of(t, g)].parent);
        } else {
            assert(!chi.contains(c)) by {
                if chi.contains(c) {
                    let k = choose|k: int| 0 <= k < chi.len() && chi[k] == c;
                    assert(root_of(t, chi[k]) == root_of(t, i));
                }
            }
            lemma_up_chain_same(t, t2, i, t.len() as nat, c);
            assert(anc_chain(t, i).contains(root_of(t, i))) by {
                assert(anc_chain(t, i).last() == root_of(t, i));
            }
            assert(root_of(t, i) != c);
            assert(t2[root_of(t, i)].parent == t[root_of(t, i)].parent);
        }
    }
}

/// Appending a fresh object with no links disturbs no existing chain.
pub proof fn lemma_push_wf(t: Seq<Obj>, o: Obj)
    requires
        wf_objs(t),
        t.len() < MAX_OBJS,
        o.parent is None,
        o.child is None,
        o.pos_bounded(),
    ensures
        wf_objs(t.push(o)),
        forall|i: int| in_range(t, i) ==> root_of(t.push(o), i) == root_of(t, i),
        root_of(t.push(o), t.len() as int) == t.len() as int,
{
    let t2 = t.push(o);
    let newi = t.len() as int;
    assert(links_ok(t2)) by {
        assert forall|i: int| in_range(t2, i) implies obj_ok(t2, i) by {
            if i < newi {
                assert(obj_ok(t, i));
            }
        }
    }
    assert forall|i: int| in_range(t, i)
        implies root_of(t2, i) == root_of(t, i) && t2[#[trigger] root_of(t2, i)].parent is None by {
        lemma_chain_props(t, i);
        lemma_up_chain_sat(t, i, t.len() as nat, t2.len() as nat);
        assert(!up_chain(t, i, t2.len() as nat).contains(newi)) by {
            if up_chain(t, i, t2.len() as nat).contains(newi) {
                let k = choose|k: int|
                    0 <= k < anc_chain(t, i).len() && anc_chain(t, i)[k] == newi;
                assert(in_range(t, anc_chain(t, i)[k]));
            }
        }
        lemma_up_chain_same(t, t2, i, t2.len() as nat, newi);
    }
    assert(anc_chain(t2, newi) == seq![newi]);
}

/// The entries of a slot's cached stack: distinct in-range cards.
pub open spec fn stack_entries_ok(t: Seq<Obj>, st: Seq<usize>) -> bool {
    &&& st.no_duplicates()
    &&& forall|k: int| 0 <= k < st.len()
        ==> in_range(t, #[trigger] st[k] as int) && t[st[k] as int].is_card()
}

/// The scene: an arena of objects and, parallel to it, the cached pile
/// membership of each slot (root to top, the slot itself excluded).
pub struct Table {
    pub objs: Vec<Obj>,
    pub stacks: Vec<Vec<usize>>,
}

impl Table {
    pub open spec fn stacks_ok(self) -> bool {
        &&& self.stacks@.len() == self.objs@.len()
        &&& forall|s: int| in_range(self.objs@, s)
            ==> stack_entries_ok(self.objs@, #[trigger] self.stacks@[s]@)
    }

    pub open spec fn wf(self) -> bool {
        &&& wf_objs(self.objs@)
        &&& self.stacks_ok()
    }

    pub fn new() -> (r: Table)
        ensures
            r.wf(),
            r.objs@.len() == 0,
    {
        Table { objs: Vec::new(), stacks: Vec::new() }
    }

    pub fn len(&self) -> (r: usize)
        ensures
            r == self.objs@.len(),
    {
        self.objs.len()
    }

    /// Add a parentless slot at a world position; returns its index.
    pub fn push_slot(&mut self, x: i64, y: i64, z: i64, half_x: i64, half_y: i64) -> (r: usize)
        requires
            old(self).wf(),
            old(self).objs@.len() < MAX_OBJS,
            -POS_LIMIT <= x <= POS_LIMIT,
            -POS_LIMIT <= y <= POS_LIMIT,
            -POS_LIMIT <= z <= POS_LIMIT,
            0 <= half_x,
            0 <= half_y,
        ensures
            final(self).wf(),
            r == old(self).objs@.len(),
            final(self).objs@ == old(self).objs@.push(
                Obj {
                    kind: ObjKind::Slot,
                    parent: None,
                    child: None,
                    x,
                    y,
                    z,
                    half_x,
                    half_y,
                    draggable: Draggable(false),
                    drop_target: true,
                },
            ),
            final(self).stacks@.len() == old(self).stacks@.len() + 1,
            forall|s: int| 0 <= s < old(self).stacks@.len()
                ==> final(self).stacks@[s] == old(self).stacks@[s],
            final(self).stacks@.last()@ == Seq::<usize>::empty(),
    {
        let o = Obj {
            kind: ObjKind::Slot,
            parent: None,
            child: None,
            x,
            y,
            z,
            half_x,
            half_y,
            draggable: Draggable(false),
            drop_target: true,
        };
        let r = self.objs.len();
        proof {
            lemma_push_wf(self.objs@, o);
        }
        self.objs.push(o);
        self.stacks.push(Vec::new());
        proof {
            assert forall|s: int| in_range(self.objs@, s)
                implies stack_entries_ok(self.objs@, #[trigger] self.stacks@[s]@) by {
                if s < r {
                    assert(stack_entries_ok(old(self).objs@, old(self).stacks@[s]@));
                }
            }
        }
        r
    }

    /// Unlink card `c` from its parent; the chain it carries comes with it.
    pub fn detach(&mut self, c: usize)
        requires
            old(self).wf(),
            (c as int) < old(self).objs@.len(),
            old(self).objs@[c as int].parent is Some,
        ensures
            final(self).wf(),
            final(self).objs@ == detach_links(old(self).objs@, c as int),
            final(self).stacks@ == old(self).stacks@,
    {
        let ghost t = self.objs@;
        let p = match self.objs[c].parent {
            Some(p) => p,
            None => {
                proof {
                    assert(false);
                }
                0
            },
        };
        proof {
            assert(obj_ok(t, c as int));
            lemma_detach_wf(t, c as int);
        }
        self.objs[c].parent = None;
        self.objs[p].child = None;
        proof {
            assert(self.objs@ =~= detach_links(t, c as int));
            assert forall|s: int| in_range(self.objs@, s)
                implies stack_entries_ok(self.objs@, #[trigger] self.stacks@[s]@) by {
                assert(stack_entries_ok(t, old(self).stacks@[s]@));
                assert forall|k: int| 0 <= k < self.stacks@[s]@.len()
                    implies in_range(self.objs@, #[trigger] self.stacks@[s]@[k] as int)
                    && self.objs@[self.stacks@[s]@[k] as int].is_card() by {
                    assert(self.objs@[self.stacks@[s]@[k] as int].kind
                        == t[self.stacks@[s]@[k] as int].kind);
                }
            }
        }
    }

    /// Link parentless card `c` under childless `g`, which must not sit in
    /// the chain `c` carries.
    pub fn attach(&mut self, c: usize, g: usize)
        requires
            old(self).wf(),
            (c as int) < old(self).objs@.len(),
            (g as int) < old(self).objs@.len(),
            old(self).objs@[c as int].is_card(),
            old(self).objs@[c as int].parent is None,
            old(self).objs@[g as int].child is None,
            root_of(old(self).objs@, g as int) != c as int,
        ensures
            final(self).wf(),
            final(self).objs@ == attach_links(old(self).objs@, c as int, g as int),
            final(self).stacks@ == old(self).stacks@,
    {
        let ghost t = self.objs@;
        proof {
            lemma_attach_wf(t, c as int, g as int);
        }
        self.objs[c].parent = Some(g);
        self.objs[g].child = Some(c);
        proof {
            assert(self.objs@ =~= attach_links(t, c as int, g as int));
            assert forall|s: int| in_range(self.objs@, s)
                implies stack_entries_ok(self.objs@, #[trigger] self.stacks@[s]@) by {
                assert(stack_entries_ok(t, old(self).stacks@[s]@));
                assert forall|k: int| 0 <= k < self.stacks@[s]@.len()
                    implies in_range(self.objs@, #[trigger] self.stacks@[s]@[k] as int)
                    && self.objs@[self.stacks@[s]@[k] as int].is_card() by {
                    assert(self.objs@[self.stacks@[s]@[k] as int].kind
                        == t[self.stacks@[s]@[k] as int].kind);
                }
            }
        }
    }

    /// Add a card resting on `g` (a slot or a childless card); returns its index.
    pub fn push_card(&mut self, card: Card, g: usize, x: i64, y: i64, z: i64, half_x: i64, half_y: i64) -> (r: usize)
        requires
            old(self).wf(),
            old(self).objs@.len() < MAX_OBJS,
            (g as int) < old(self).objs@.len(),
            old(self).objs@[g as int].child is None,
            -POS_LIMIT <= x <= POS_LIMIT,
            -POS_LIMIT <= y <= POS_LIMIT,
            -POS_LIMIT <= z <= POS_LIMIT,
            0 <= half_x,
            0 <= half_y,
        ensures
            final(self).wf(),
            r == old(self).objs@.len(),
            final(self).objs@ == attach_links(
                old(self).objs@.push(
                    Obj {
                        kind: ObjKind::Card(card),
                        parent: None,
                        child: None,
                        x,
                        y,
                        z,
                        half_x,
                        half_y,
                        draggable: Draggable(false),
                        drop_target: true,
                    },
                ),
                old(self).objs@.len() as int,
                g as int,
            ),
            final(self).stacks@.len() == old(self).stacks@.len() + 1,
            forall|s: int| 0 <= s < old(self).stacks@.len()
                ==> final(self).stacks@[s] == old(self).stacks@[s],
            final(self).stacks@.last()@ == Seq::<usize>::empty(),
    {
        let o = Obj {
            kind: ObjKind::Card(card),
            parent: None,
            child: None,
            x,
            y,
            z,
            half_x,
            half_y,
            draggable: Draggable(false),
            drop_target: true,
        };
        let r = self.objs.len();
        proof {
            lemma_push_wf(self.objs@, o);
            lemma_chain_props(self.objs@, g as int);
            assert(anc_chain(self.objs@, g as int).contains(root_of(self.objs@, g as int))) by {
                assert(anc_chain(self.objs@, g as int).last() == root_of(self.objs@, g as int));
            }
            assert(in_range(self.objs@, root_of(self.objs@, g as int)));
        }
        self.objs.push(o);
        self.stacks.push(Vec::new());
        proof {
            assert forall|s: int| in_range(self.objs@, s)
                implies stack_entries_ok(self.objs@, #[trigger] self.stacks@[s]@) by {
                if s < r {
                    assert(stack_entries_ok(old(self).objs@, old(self).stacks@[s]@));
                }
            }
        }
        self.attach(r, g);
        r
    }

    /// Walk parent links from `i` to the top of its chain.
    pub fn root_index(&self, i: usize) -> (r: usize)
        requires
            self.wf(),
            (i as int) < self.objs@.len(),
        ensures
            r as int == root_of(self.objs@, i as int),
            (r as int) < self.objs@.len(),
            self.objs@[r as int].parent is None,
    {
        let ghost t = self.objs@;
        let mut cur = i;
        proof {
            lemma_chain_props(t, i as int);
        }
        loop
            invariant
                self.wf(),
                t == self.objs@,
                (cur as int) < t.len(),
                root_of(t, cur as int) == root_of(t, i as int),
            decreases depth_of(t, cur as int),
        {
            proof {
                lemma_chain_props(t, cur as int);
            }
            match self.objs[cur].parent {
                None => {
                    proof {
                        assert(anc_chain(t, cur as int) == seq![cur as int]);
                    }
                    return cur;
                },
                Some(p) => {
                    proof {
                        assert(obj_ok(t, cur as int));
                        lemma_chain_props(t, p as int);
                        assert(anc_chain(t, cur as int) == seq![cur as int] + anc_chain(
                            t,
                            p as int,
                        ));
                        assert(anc_chain(t, cur as int).last() == anc_chain(t, p as int).last());
                    }
                    cur = p;
                },
            }
        }
    }
}

} // verus!
