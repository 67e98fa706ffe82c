//! Extraction: the term of least total weight in a class, where a term's
//! weight is the sum of a per-head weight over its nodes.
use vstd::prelude::*;
use crate::seqs::{count_true, compose_seq, lemma_compose_count, lemma_count_set, lemma_count_le_len};
use crate::lift::{Lift, lemma_lift_len, lemma_count_push};
use crate::id::{Id, RAW_MASK, lemma_id_lift_inv};
use crate::unionfind::{ctx_at, id_valid, walk, lemma_walk};
use crate::egraph::{EGraph, Node, node_ok, wf_body, lemma_egraph_specs};
use crate::matching::{MatchMode, placements_ok, placement, lists, all_in_class};
use crate::keeping::{in_class, placed_at, place, class_id};
use crate::holds::{leaf_entry, lemma_leaf_placement, lemma_leaf_equiv, lemma_holds_within_use, atom_at, no_flags, lemma_holds_atom, var_at, lemma_holds_var};
use crate::lift::single_true;
use crate::memo::memo_entries;
use crate::egraph::node_of;
use crate::debruijn::{DeBruijnIndex, DeBruijnLevel};
use crate::term::{Term, TermCtx, term_size};

verus! {

/// An e-node's head, without its children, as passed to an extraction
/// weight function. Weights cannot depend on children: the extractor sums
/// node weights, so a subterm's cost never depends on where it is used.
#[derive(Clone, Debug, PartialEq, Eq)]
pub enum Head {
    Var,
    Atom(String),
    App,
    Binder(String),
}

/// The cheapest e-node found for a class placement, the lift that places
/// it there, its total weight, when it was settled, and the weight of its
/// head alone.
#[derive(Clone, Copy)]
pub(crate) struct Choice {
    pub(crate) cost: u64,
    pub(crate) node: Node,
    pub(crate) by: Lift,
    pub(crate) order: Ghost<nat>,
    pub(crate) hw: u64,
    pub(crate) head: Ghost<Head>,
}

/// The first entry of a bucket for the placement with flags `flags`.
pub(crate) open spec fn find_entry(b: Seq<(Lift, Option<Choice>)>, flags: Seq<bool>) -> Option<Option<Choice>>
    decreases b.len(),
{
    if b.len() == 0 {
        None
    } else if b[0].0@ == flags {
        Some(b[0].1)
    } else {
        find_entry(b.drop_first(), flags)
    }
}

/// The entry for a canonical placement: flags and root class.
pub(crate) open spec fn lookup(ch: Seq<Vec<(Lift, Option<Choice>)>>, key: (Seq<bool>, int)) -> Option<Option<Choice>> {
    if 0 <= key.1 < ch.len() {
        find_entry(ch[key.1]@, key.0)
    } else {
        None
    }
}

/// The canonical placement of `x` placed further out by `by`.
pub(crate) open spec fn placed_canon(g: EGraph, by: Seq<bool>, x: Id) -> (Seq<bool>, int) {
    let w = g.class_root(x.raw_spec() as int);
    (compose_seq(compose_seq(by, x.lift_spec()@), w.0), w.1)
}

/// A child's placement has a settled choice, settled before `order`.
pub(crate) open spec fn child_ok(ch: Seq<Vec<(Lift, Option<Choice>)>>, key: (Seq<bool>, int), order: nat) -> bool {
    lookup(ch, key) matches Some(Some(c)) && c.order@ < order
}

/// Every child of `node`, placed by `by`, has a settled choice.
pub(crate) open spec fn children_ok(g: EGraph, ch: Seq<Vec<(Lift, Option<Choice>)>>, node: Node, by: Seq<bool>, order: nat) -> bool {
    match node {
        Node::App(f, a) => child_ok(ch, placed_canon(g, by, f), order) && child_ok(ch, placed_canon(g, by, a), order),
        Node::Binder(_, b) => child_ok(ch, placed_canon(g, by.push(true), b), order),
        _ => true,
    }
}

/// `x` plus `y`, saturating at the largest `u64`.
pub open spec fn sat_add(x: int, y: int) -> int {
    if x + y > u64::MAX {
        u64::MAX as int
    } else {
        x + y
    }
}

/// The recorded total weight of a settled placement.
pub(crate) open spec fn cost_of(ch: Seq<Vec<(Lift, Option<Choice>)>>, key: (Seq<bool>, int)) -> int {
    lookup(ch, key)->Some_0->Some_0.cost as int
}

/// The total weight of `node` placed by `by`: its head weight `hw` plus
/// the recorded totals of its children, added from left to right with
/// saturation.
pub(crate) open spec fn node_cost(g: EGraph, ch: Seq<Vec<(Lift, Option<Choice>)>>, node: Node, by: Seq<bool>, hw: int) -> int {
    match node {
        Node::App(f, a) => sat_add(sat_add(hw, cost_of(ch, placed_canon(g, by, f))), cost_of(ch, placed_canon(g, by, a))),
        Node::Binder(_, b) => sat_add(hw, cost_of(ch, placed_canon(g, by.push(true), b))),
        _ => hw,
    }
}

/// `node` placed by `by` into a `ctx`-variable context may be chosen: a
/// variable must be placed on a single context variable, and a binder's
/// body needs room for one more variable.
pub(crate) open spec fn eligible(node: Node, by: Seq<bool>, ctx: nat) -> bool {
    &&& (node is Var ==> count_true(by) == 1)
    &&& (node is Binder ==> ctx < 7)
}

/// The placement `key` has a settled choice.
pub(crate) open spec fn settled(ch: Seq<Vec<(Lift, Option<Choice>)>>, key: (Seq<bool>, int)) -> bool {
    lookup(ch, key) matches Some(Some(_))
}

/// Every child of `node` placed by `by` has a settled choice.
pub(crate) open spec fn children_settled(g: EGraph, ch: Seq<Vec<(Lift, Option<Choice>)>>, node: Node, by: Seq<bool>) -> bool {
    match node {
        Node::App(f, a) => settled(ch, placed_canon(g, by, f)) && settled(ch, placed_canon(g, by, a)),
        Node::Binder(_, b) => settled(ch, placed_canon(g, by.push(true), b)),
        _ => true,
    }
}

/// The placement `key` has no finite term for now: it is in progress or
/// has none, or it is absent while its class is on the current path.
pub(crate) open spec fn stuck(ch: Seq<Vec<(Lift, Option<Choice>)>>, active: Seq<bool>, key: (Seq<bool>, int)) -> bool {
    ||| lookup(ch, key) == Some(None::<Choice>)
    ||| (lookup(ch, key) is None && 0 <= key.1 < active.len() && active[key.1])
}

/// Some child of `node` placed by `by` is stuck.
pub(crate) open spec fn blocked(g: EGraph, ch: Seq<Vec<(Lift, Option<Choice>)>>, active: Seq<bool>, node: Node, by: Seq<bool>) -> bool {
    match node {
        Node::App(f, a) => stuck(ch, active, placed_canon(g, by, f)) || stuck(ch, active, placed_canon(g, by, a)),
        Node::Binder(_, b) => stuck(ch, active, placed_canon(g, by.push(true), b)),
        _ => false,
    }
}

/// Stuck children stay stuck and settled children stay settled, at the
/// same totals, as the table grows.
proof fn lemma_children_persist(
    g: EGraph,
    ch1: Seq<Vec<(Lift, Option<Choice>)>>,
    ch2: Seq<Vec<(Lift, Option<Choice>)>>,
    a1: Seq<bool>,
    a2: Seq<bool>,
    node: Node,
    by: Seq<bool>,
)
    requires
        extends_choices(ch1, ch2),
        forall|key: (Seq<bool>, int)| #[trigger] stuck(ch1, a1, key) ==> stuck(ch2, a2, key),
    ensures
        blocked(g, ch1, a1, node, by) ==> blocked(g, ch2, a2, node, by),
        children_settled(g, ch1, node, by) ==> children_settled(g, ch2, node, by),
        children_settled(g, ch1, node, by) ==> forall|hw: int| #[trigger] node_cost(g, ch2, node, by, hw) == node_cost(g, ch1, node, by, hw),
{
    match node {
        Node::App(f, a) => {
            assert(stuck(ch1, a1, placed_canon(g, by, f)) ==> stuck(ch2, a2, placed_canon(g, by, f)));
            assert(stuck(ch1, a1, placed_canon(g, by, a)) ==> stuck(ch2, a2, placed_canon(g, by, a)));
        },
        Node::Binder(_, b) => {
            assert(stuck(ch1, a1, placed_canon(g, by.push(true), b)) ==> stuck(ch2, a2, placed_canon(g, by.push(true), b)));
        },
        _ => {},
    }
    lemma_settled_persist(g, ch1, ch2, node, by);
}

/// Settled children stay settled, at the same totals, as the table grows.
proof fn lemma_settled_persist(
    g: EGraph,
    ch1: Seq<Vec<(Lift, Option<Choice>)>>,
    ch2: Seq<Vec<(Lift, Option<Choice>)>>,
    node: Node,
    by: Seq<bool>,
)
    requires
        extends_choices(ch1, ch2),
    ensures
        children_settled(g, ch1, node, by) ==> children_settled(g, ch2, node, by),
        children_settled(g, ch1, node, by) ==> forall|hw: int| #[trigger] node_cost(g, ch2, node, by, hw) == node_cost(g, ch1, node, by, hw),
{
    match node {
        Node::App(f, a) => {
            if settled(ch1, placed_canon(g, by, f)) {
                assert(lookup(ch2, placed_canon(g, by, f)) == lookup(ch1, placed_canon(g, by, f)));
            }
            if settled(ch1, placed_canon(g, by, a)) {
                assert(lookup(ch2, placed_canon(g, by, a)) == lookup(ch1, placed_canon(g, by, a)));
            }
        },
        Node::Binder(_, b) => {
            if settled(ch1, placed_canon(g, by.push(true), b)) {
                assert(lookup(ch2, placed_canon(g, by.push(true), b)) == lookup(ch1, placed_canon(g, by.push(true), b)));
            }
        },
        _ => {},
    }
}

/// An e-node with a stuck child that only one placement, `root`, has
/// settled since weighs at least as much as `root`'s total.
proof fn lemma_blocked_by_root(
    g: EGraph,
    ch1: Seq<Vec<(Lift, Option<Choice>)>>,
    ch2: Seq<Vec<(Lift, Option<Choice>)>>,
    a1: Seq<bool>,
    node: Node,
    by: Seq<bool>,
    root: (Seq<bool>, int),
)
    requires
        blocked(g, ch1, a1, node, by),
        children_settled(g, ch2, node, by),
        forall|key: (Seq<bool>, int)| key != root ==> #[trigger] lookup(ch2, key) == lookup(ch1, key),
    ensures
        node_cost(g, ch2, node, by, 1) >= cost_of(ch2, root),
{
    match node {
        Node::App(f, a) => {
            let kf = placed_canon(g, by, f);
            let ka = placed_canon(g, by, a);
            if kf != root {
                assert(lookup(ch2, kf) == lookup(ch1, kf));
            }
            if ka != root {
                assert(lookup(ch2, ka) == lookup(ch1, ka));
            }
            let cf = cost_of(ch2, kf);
            let ca = cost_of(ch2, ka);
            assert(0 <= cf <= u64::MAX && 0 <= ca <= u64::MAX);
        },
        Node::Binder(_, b) => {
            let kb = placed_canon(g, by.push(true), b);
            if kb != root {
                assert(lookup(ch2, kb) == lookup(ch1, kb));
            }
        },
        _ => {},
    }
}

/// A settled choice for a placement in a `ctx`-variable context, whose
/// head weighs `hw` as `ws` allows.
pub(crate) open spec fn choice_ok(g: EGraph, ch: Seq<Vec<(Lift, Option<Choice>)>>, c: Choice, ctx: nat, ws: spec_fn(Head, u64) -> bool) -> bool {
    &&& ws(c.head@, c.hw)
    &&& head_is(g.symbols@, c.head@, c.node)
    &&& c.cost as int == node_cost(g, ch, c.node, c.by@, c.hw as int)
    &&& c.by.inv()
    &&& c.by@.len() == ctx
    &&& node_ok(g.parent@, g.symbols@.len(), c.node, count_true(c.by@))
    &&& (c.node is Var ==> count_true(c.by@) == 1)
    &&& (c.node is Binder ==> ctx < 7)
    &&& children_ok(g, ch, c.node, c.by@, c.order@)
}

/// Where the reverse index is complete, the chosen e-node of a placement
/// is an e-node of that placement's class.
pub(crate) open spec fn choice_in_class(g: EGraph, key: (Seq<bool>, int), c: Choice) -> bool {
    (g.rev_valid || !g.rev_tracked) ==> exists|x: Id| #[trigger] g.canon(x) == key && x.inv() && id_valid(g.parent@, x)
        && in_class(g, x, c.node, c.by@)
}

/// Every settled choice is good and was settled before `counter`.
pub(crate) open spec fn choices_ok(g: EGraph, ch: Seq<Vec<(Lift, Option<Choice>)>>, counter: nat, ws: spec_fn(Head, u64) -> bool) -> bool {
    &&& ch.len() == g.parent@.len()
    &&& forall|key: (Seq<bool>, int)| #[trigger] lookup(ch, key) matches Some(Some(c)) ==> c.order@ < counter
        && choice_ok(g, ch, c, key.0.len(), ws) && choice_in_class(g, key, c)
}

/// Settled choices stay settled, and placeholders stay.
pub(crate) open spec fn extends_choices(ch1: Seq<Vec<(Lift, Option<Choice>)>>, ch2: Seq<Vec<(Lift, Option<Choice>)>>) -> bool {
    &&& ch2.len() == ch1.len()
    &&& forall|key: (Seq<bool>, int)| #[trigger] lookup(ch1, key) matches Some(Some(c)) ==> lookup(ch2, key) == Some(Some(c))
}

/// A good choice stays good as the table grows.
proof fn lemma_choice_extend(g: EGraph, ch1: Seq<Vec<(Lift, Option<Choice>)>>, ch2: Seq<Vec<(Lift, Option<Choice>)>>, c: Choice, ctx: nat, ws: spec_fn(Head, u64) -> bool)
    requires
        choice_ok(g, ch1, c, ctx, ws),
        extends_choices(ch1, ch2),
    ensures
        choice_ok(g, ch2, c, ctx, ws),
{
    match c.node {
        Node::App(f, a) => {
            assert(lookup(ch1, placed_canon(g, c.by@, f)) is Some);
            assert(lookup(ch1, placed_canon(g, c.by@, a)) is Some);
            assert(lookup(ch2, placed_canon(g, c.by@, f)) == lookup(ch1, placed_canon(g, c.by@, f)));
            assert(lookup(ch2, placed_canon(g, c.by@, a)) == lookup(ch1, placed_canon(g, c.by@, a)));
        },
        Node::Binder(_, b) => {
            assert(lookup(ch1, placed_canon(g, c.by@.push(true), b)) is Some);
            assert(lookup(ch2, placed_canon(g, c.by@.push(true), b)) == lookup(ch1, placed_canon(g, c.by@.push(true), b)));
        },
        _ => {},
    }
}

/// `extends_choices` is transitive.
proof fn lemma_extends_choices_trans(a: Seq<Vec<(Lift, Option<Choice>)>>, b: Seq<Vec<(Lift, Option<Choice>)>>, c: Seq<Vec<(Lift, Option<Choice>)>>)
    requires
        extends_choices(a, b),
        extends_choices(b, c),
    ensures
        extends_choices(a, c),
{
    assert forall|key: (Seq<bool>, int)| #[trigger] lookup(a, key) matches Some(Some(_)) implies lookup(c, key) == lookup(a, key) by {
        assert(lookup(b, key) == lookup(a, key));
    }
}

/// Appending an entry leaves the first entry of every other placement.
proof fn lemma_find_push(b: Seq<(Lift, Option<Choice>)>, e: (Lift, Option<Choice>), flags: Seq<bool>)
    ensures
        find_entry(b.push(e), flags) == (if find_entry(b, flags) is Some {
            find_entry(b, flags)
        } else if e.0@ == flags {
            Some(e.1)
        } else {
            None
        }),
    decreases b.len(),
{
    if b.len() == 0 {
        assert(b.push(e).drop_first() =~= Seq::<(Lift, Option<Choice>)>::empty());
        assert(b.push(e)[0] == e);
        assert(find_entry(Seq::<(Lift, Option<Choice>)>::empty(), flags) is None);
    } else {
        assert(b.push(e).drop_first() =~= b.drop_first().push(e));
        assert(b.push(e)[0] == b[0]);
        lemma_find_push(b.drop_first(), e, flags);
    }
}

/// Position of the first entry for `flags`.
pub(crate) open spec fn first_index(b: Seq<(Lift, Option<Choice>)>, flags: Seq<bool>, p: int) -> bool {
    &&& 0 <= p < b.len()
    &&& b[p].0@ == flags
    &&& forall|k: int| 0 <= k < p ==> b[k].0@ != flags
}

/// Replacing the first entry for one placement changes only its lookup.
proof fn lemma_find_update(b: Seq<(Lift, Option<Choice>)>, p: int, e: (Lift, Option<Choice>), flags: Seq<bool>)
    requires
        first_index(b, e.0@, p),
    ensures
        find_entry(b.update(p, e), flags) == (if flags == e.0@ {
            Some(e.1)
        } else {
            find_entry(b, flags)
        }),
    decreases b.len(),
{
    if p == 0 {
        assert(b.update(p, e).drop_first() =~= b.drop_first());
    } else {
        assert(b.update(p, e).drop_first() =~= b.drop_first().update(p - 1, e));
        assert forall|k: int| 0 <= k < p - 1 implies b.drop_first()[k].0@ != e.0@ by {
            assert(b.drop_first()[k] == b[k + 1]);
        }
        lemma_find_update(b.drop_first(), p - 1, e, flags);
    }
}

/// The first entry that `find_entry` finds is at some position.
proof fn lemma_find_index(b: Seq<(Lift, Option<Choice>)>, flags: Seq<bool>, p: int)
    requires
        first_index(b, flags, p),
    ensures
        find_entry(b, flags) == Some(b[p].1),
    decreases b.len(),
{
    if p > 0 {
        assert forall|k: int| 0 <= k < p - 1 implies b.drop_first()[k].0@ != flags by {
            assert(b.drop_first()[k] == b[k + 1]);
        }
        lemma_find_index(b.drop_first(), flags, p - 1);
    }
}

/// No entry for `flags` before `p`.
proof fn lemma_find_absent(b: Seq<(Lift, Option<Choice>)>, flags: Seq<bool>)
    requires
        forall|k: int| 0 <= k < b.len() ==> b[k].0@ != flags,
    ensures
        find_entry(b, flags) is None,
    decreases b.len(),
{
    if b.len() > 0 {
        assert forall|k: int| 0 <= k < b.drop_first().len() implies b.drop_first()[k].0@ != flags by {
            assert(b.drop_first()[k] == b[k + 1]);
        }
        lemma_find_absent(b.drop_first(), flags);
    }
}

/// Where the entry for a placement sits in its bucket, if anywhere.
fn find_position(bucket: &Vec<(Lift, Option<Choice>)>, l: Lift) -> (r: Option<usize>)
    ensures
        r matches Some(p) ==> first_index(bucket@, l@, p as int),
        r is None ==> find_entry(bucket@, l@) is None,
{
    let mut k: usize = 0;
    while k < bucket.len()
        invariant
            k <= bucket@.len(),
            forall|j: int| 0 <= j < k ==> bucket@[j].0@ != l@,
        decreases bucket@.len() - k,
    {
        let e = bucket[k].0;
        proof {
            use_type_invariant(&e);
            use_type_invariant(&l);
        }
        if e == l {
            return Some(k);
        }
        proof {
            if e@ == l@ {
                crate::lift::lemma_view_injective(e, l);
            }
        }
        k = k + 1;
    }
    proof {
        lemma_find_absent(bucket@, l@);
    }
    None
}


/// Adding a placeholder for an absent placement.
proof fn lemma_insert_placeholder(
    g: EGraph,
    ch: Seq<Vec<(Lift, Option<Choice>)>>,
    ch2: Seq<Vec<(Lift, Option<Choice>)>>,
    counter: nat,
    raw: int,
    l: Lift,
    ws: spec_fn(Head, u64) -> bool,
)
    requires
        choices_ok(g, ch, counter, ws),
        0 <= raw < ch.len(),
        find_entry(ch[raw]@, l@) is None,
        ch2 == ch.update(raw, ch2[raw]),
        ch2[raw]@ == ch[raw]@.push((l, None::<Choice>)),
    ensures
        choices_ok(g, ch2, counter, ws),
        extends_choices(ch, ch2),
        lookup(ch2, (l@, raw)) == Some(None::<Choice>),
        forall|key: (Seq<bool>, int)| lookup(ch, key) == Some(None::<Choice>) ==> #[trigger] lookup(ch2, key) == Some(None::<Choice>),
        forall|key: (Seq<bool>, int)| key != (l@, raw) ==> #[trigger] lookup(ch2, key) == lookup(ch, key),
{
    assert forall|key: (Seq<bool>, int)| #[trigger] lookup(ch2, key) == (if key == (l@, raw) {
        Some(None::<Choice>)
    } else {
        lookup(ch, key)
    }) by {
        if key.1 == raw {
            lemma_find_push(ch[raw]@, (l, None::<Choice>), key.0);
        } else if 0 <= key.1 < ch.len() {
            assert(ch2[key.1] == ch[key.1]);
        }
    }
    assert(extends_choices(ch, ch2));
    assert forall|key: (Seq<bool>, int)| #[trigger] lookup(ch2, key) matches Some(Some(_)) implies lookup(ch2, key)->Some_0->Some_0.order@ < counter
        && choice_ok(g, ch2, lookup(ch2, key)->Some_0->Some_0, key.0.len(), ws)
        && choice_in_class(g, key, lookup(ch2, key)->Some_0->Some_0) by {
        assert(lookup(ch, key) == lookup(ch2, key));
        let c = lookup(ch2, key)->Some_0->Some_0;
        lemma_choice_extend(g, ch, ch2, c, key.0.len(), ws);
    }
}

/// Settling the choice of a placement that had a placeholder.
proof fn lemma_settle(
    g: EGraph,
    ch: Seq<Vec<(Lift, Option<Choice>)>>,
    ch2: Seq<Vec<(Lift, Option<Choice>)>>,
    counter: nat,
    raw: int,
    l: Lift,
    p: int,
    best: Option<Choice>,
    ws: spec_fn(Head, u64) -> bool,
)
    requires
        choices_ok(g, ch, counter, ws),
        0 <= raw < ch.len(),
        first_index(ch[raw]@, l@, p),
        ch[raw]@[p].1 is None,
        ch2 == ch.update(raw, ch2[raw]),
        ch2[raw]@ == ch[raw]@.update(p, (l, best)),
        best matches Some(c) ==> c.order@ == counter && choice_ok(g, ch, c, l@.len(), ws) && choice_in_class(g, (l@, raw), c),
    ensures
        choices_ok(g, ch2, counter + 1, ws),
        extends_choices(ch, ch2),
        lookup(ch2, (l@, raw)) == Some(best),
        forall|key: (Seq<bool>, int)| lookup(ch, key) == Some(None::<Choice>) && key != (l@, raw) ==> #[trigger] lookup(ch2, key) == Some(None::<Choice>),
        forall|key: (Seq<bool>, int)| key != (l@, raw) ==> #[trigger] lookup(ch2, key) == lookup(ch, key),
{
    lemma_find_index(ch[raw]@, l@, p);
    assert forall|key: (Seq<bool>, int)| #[trigger] lookup(ch2, key) == (if key == (l@, raw) {
        Some(best)
    } else {
        lookup(ch, key)
    }) by {
        if key.1 == raw {
            lemma_find_update(ch[raw]@, p, (l, best), key.0);
        } else if 0 <= key.1 < ch.len() {
            assert(ch2[key.1] == ch[key.1]);
        }
    }
    assert(extends_choices(ch, ch2));
    assert forall|key: (Seq<bool>, int)| #[trigger] lookup(ch2, key) matches Some(Some(_)) implies lookup(ch2, key)->Some_0->Some_0.order@ < counter + 1
        && choice_ok(g, ch2, lookup(ch2, key)->Some_0->Some_0, key.0.len(), ws)
        && choice_in_class(g, key, lookup(ch2, key)->Some_0->Some_0) by {
        let c = lookup(ch2, key)->Some_0->Some_0;
        if key == (l@, raw) {
            lemma_choice_extend(g, ch, ch2, c, key.0.len(), ws);
        } else {
            assert(lookup(ch, key) == lookup(ch2, key));
            lemma_choice_extend(g, ch, ch2, c, key.0.len(), ws);
        }
    }
}

/// A candidate e-node: every child settled before `counter`.
pub(crate) open spec fn candidate_ok(g: EGraph, ch: Seq<Vec<(Lift, Option<Choice>)>>, node: Node, by: Lift, ctx: nat, counter: nat) -> bool {
    &&& by.inv()
    &&& by@.len() == ctx
    &&& node_ok(g.parent@, g.symbols@.len(), node, count_true(by@))
    &&& (node is Var ==> count_true(by@) == 1)
    &&& (node is Binder ==> ctx < 7)
    &&& children_ok(g, ch, node, by@, counter)
}

proof fn lemma_candidate_extend(
    g: EGraph,
    ch1: Seq<Vec<(Lift, Option<Choice>)>>,
    ch2: Seq<Vec<(Lift, Option<Choice>)>>,
    node: Node,
    by: Lift,
    ctx: nat,
    c1: nat,
    c2: nat,
)
    requires
        candidate_ok(g, ch1, node, by, ctx, c1),
        extends_choices(ch1, ch2),
        c1 <= c2,
    ensures
        candidate_ok(g, ch2, node, by, ctx, c2),
        forall|hw: int| #[trigger] node_cost(g, ch2, node, by@, hw) == node_cost(g, ch1, node, by@, hw),
{
    match node {
        Node::App(f, a) => {
            assert(lookup(ch1, placed_canon(g, by@, f)) is Some);
            assert(lookup(ch1, placed_canon(g, by@, a)) is Some);
            assert(lookup(ch2, placed_canon(g, by@, f)) == lookup(ch1, placed_canon(g, by@, f)));
            assert(lookup(ch2, placed_canon(g, by@, a)) == lookup(ch1, placed_canon(g, by@, a)));
        },
        Node::Binder(_, b) => {
            assert(lookup(ch1, placed_canon(g, by@.push(true), b)) is Some);
            assert(lookup(ch2, placed_canon(g, by@.push(true), b)) == lookup(ch1, placed_canon(g, by@.push(true), b)));
        },
        _ => {},
    }
}

/// `h` is the head of `node`, its symbol named as in `symbols`.
pub(crate) open spec fn head_is(symbols: Seq<String>, h: Head, node: Node) -> bool {
    match (h, node) {
        (Head::Var, Node::Var) => true,
        (Head::Atom(t), Node::Atom(s)) => t@ == symbols[s as int]@,
        (Head::App, Node::App(_, _)) => true,
        (Head::Binder(t), Node::Binder(s, _)) => t@ == symbols[s as int]@,
        _ => false,
    }
}

impl EGraph {
    /// The weight of an e-node's head.
    fn head_weight<F: Fn(Head) -> u64>(&self, node: Node, weight: &F) -> (r: u64)
        requires
            self.wf(),
            node matches Node::Atom(s) ==> (s as int) < self.symbols@.len(),
            node matches Node::Binder(s, _) ==> (s as int) < self.symbols@.len(),
            forall|h: Head| weight.requires((h,)),
        ensures
            exists|h: Head| #[trigger] weight.ensures((h,), r) && head_is(self.symbols@, h, node),
    {
        match node {
            Node::Var => weight(Head::Var),
            Node::Atom(s) => weight(Head::Atom(self.symbols[s as usize].clone())),
            Node::App(_, _) => weight(Head::App),
            Node::Binder(s, _) => weight(Head::Binder(self.symbols[s as usize].clone())),
        }
    }
}


/// Everything `choose` keeps about the table between calls.
pub(crate) open spec fn table_ok(g: EGraph, ch: Seq<Vec<(Lift, Option<Choice>)>>, counter: nat, active: Seq<bool>, ws: spec_fn(Head, u64) -> bool) -> bool {
    &&& choices_ok(g, ch, counter, ws)
    &&& active.len() == g.parent@.len()
}

/// A placed e-node with no children: an atom, or a variable placed on one
/// context variable.
pub(crate) open spec fn leaf_pair(p: (Node, Lift)) -> bool {
    p.0 is Atom || (p.0 is Var && count_true(p.1@) == 1)
}

impl EGraph {
    /// Pick the cheapest e-node for `target` and, recursively, for every
    /// class it reaches; record the winner and its total weight. Returns
    /// `None` for a class with no finite term. A class on the current
    /// path (`active`) counts as having none, which skips cyclic e-nodes.
    fn choose_class<F: Fn(Head) -> u64>(
        &self,
        target: &Id,
        choices: &mut Vec<Vec<(Lift, Option<Choice>)>>,
        active: &mut Vec<bool>,
        counter: &mut Ghost<nat>,
        weight: &F,
        Ghost(ws): Ghost<spec_fn(Head, u64) -> bool>,
    ) -> (r: Option<u64>)
        requires
            self.wf(),
            self.valid(*target),
            table_ok(*self, old(choices)@, old(counter)@, old(active)@, ws),
            forall|h: Head| weight.requires((h,)),
            forall|h: Head, w: u64| #[trigger] weight.ensures((h,), w) ==> ws(h, w),
        ensures
            table_ok(*self, final(choices)@, final(counter)@, final(active)@, ws),
            final(active)@ == old(active)@,
            extends_choices(old(choices)@, final(choices)@),
            old(counter)@ <= final(counter)@,
            forall|key: (Seq<bool>, int)| lookup(old(choices)@, key) == Some(None::<Choice>) ==> #[trigger] lookup(final(choices)@, key) == Some(None::<Choice>),
            r matches Some(cost) ==> lookup(final(choices)@, self.canon(*target)) matches Some(Some(c)) && c.cost == cost,
            lookup(old(choices)@, self.canon(*target)) is None && !old(active)@[self.canon(*target).1]
                && (self.rev_valid || !self.rev_tracked) && self.holds_some_leaf(*target) ==> (r matches Some(cost)
                && ((forall|h: Head, w: u64| #[trigger] ws(h, w) ==> w == 1) ==> cost <= 1)),
            forall|key: (Seq<bool>, int)| #[trigger] stuck(old(choices)@, old(active)@, key) ==> stuck(final(choices)@, final(active)@, key),
            r is None ==> stuck(final(choices)@, final(active)@, self.canon(*target)),
            lookup(old(choices)@, self.canon(*target)) is None && !old(active)@[self.canon(*target).1]
                && (forall|h: Head, w: u64| #[trigger] ws(h, w) ==> w == 1) ==> (r matches Some(cost)
                ==> forall|x: Id, i: int, by: Seq<bool>| x.inv() && x.lift_spec()@ == self.canon(*target).0
                    && x.raw_spec() as int == self.canon(*target).1 && #[trigger] placement(*self, x, i, by)
                    && (self.rev_valid || !self.rev_tracked)
                    && eligible(node_of(memo_entries(self.memo)[i].0), by, x.ctx_spec())
                    && children_settled(*self, final(choices)@, node_of(memo_entries(self.memo)[i].0), by)
                    ==> cost <= node_cost(*self, final(choices)@, node_of(memo_entries(self.memo)[i].0), by, 1)),
        decreases self.parent@.len() - count_true(old(active)@),
    {
        proof {
            lemma_egraph_specs(*self);
            lemma_count_le_len(active@);
        }
        let t = self.find(target);
        let tl = t.lift();
        let raw = t.raw() as usize;
        proof {
            use_type_invariant(&t);
            use_type_invariant(&tl);
            lemma_id_lift_inv(t);
            assert(self.canon(*target) == (tl@, raw as int));
        }
        match find_position(&choices[raw], tl) {
            Some(p) => {
                proof {
                    lemma_find_index(choices@[raw as int]@, tl@, p as int);
                }
                return match choices[raw][p].1 {
                    Some(c) => Some(c.cost),
                    None => None,
                };
            },
            None => {},
        }
        if active[raw] {
            return None;
        }
        let ghost ch0 = choices@;
        let ghost a0 = active@;
        active.set(raw, true);
        proof {
            lemma_count_set(a0, raw as int);
        }
        let mut bucket: Vec<(Lift, Option<Choice>)> = Vec::new();
        choices.set_and_swap(raw, &mut bucket);
        bucket.push((tl, None));
        choices.set(raw, bucket);
        proof {
            assert(choices@ =~= ch0.update(raw as int, choices@[raw as int]));
            lemma_insert_placeholder(*self, ch0, choices@, counter@, raw as int, tl, ws);
        }
        let ghost ch1 = choices@;
        let tctx = t.ctx();
        let nodes = self.nodes_in_class(&t, MatchMode::Lifted);
        let mut best: Option<(u64, Node, Lift, u64, Ghost<Head>)> = None;
        let mut i: usize = 0;
        while i < nodes.len()
            invariant
                self.wf(),
                wf_body(*self),
                forall|x: Id| #[trigger] self.valid(x) == id_valid(self.parent@, x),
                forall|x: Id| #[trigger] self.canon(x) == crate::unionfind::find_spec(self.parent@, self.rank@, self.rank_bound@, x),
                forall|q: int| #[trigger] self.class_root(q) == walk(self.parent@, self.rank@, self.rank_bound@, q),
                forall|q: int| #[trigger] self.class_ctx(q) == ctx_at(self.parent@, q),
                forall|h: Head| weight.requires((h,)),
                forall|h: Head, w: u64| #[trigger] weight.ensures((h,), w) ==> ws(h, w),
                placements_ok(*self, t, nodes@),
                tctx == t.ctx_spec(),
                tctx <= 7,
                table_ok(*self, choices@, counter@, active@, ws),
                active@ == a0.update(raw as int, true),
                count_true(active@) == count_true(a0) + 1,
                count_true(a0) == count_true(old(active)@),
                a0 == old(active)@,
                raw < a0.len(),
                extends_choices(ch0, ch1),
                extends_choices(ch1, choices@),
                extends_choices(old(choices)@, ch0),
                ch0 == old(choices)@,
                old(counter)@ <= counter@,
                lookup(choices@, (tl@, raw as int)) == Some(None::<Choice>),
                forall|key: (Seq<bool>, int)| lookup(ch1, key) == Some(None::<Choice>) ==> #[trigger] lookup(choices@, key) == Some(None::<Choice>),
                best matches Some(b) ==> candidate_ok(*self, choices@, b.1, b.2, tctx as nat, counter@),
                best matches Some(b) ==> ws(b.4@, b.3) && head_is(self.symbols@, b.4@, b.1)
                    && b.0 as int == node_cost(*self, choices@, b.1, b.2@, b.3 as int),
                best matches Some(b) ==> ((self.rev_valid || !self.rev_tracked) ==> in_class(*self, t, b.1, b.2@)),
                self.rev_valid || !self.rev_tracked ==> all_in_class(*self, t, nodes@),
                i <= nodes@.len(),
                (exists|j: int| 0 <= j < i && #[trigger] leaf_pair(nodes@[j])) ==> (best matches Some(b)
                    && ((forall|h: Head, w: u64| #[trigger] ws(h, w) ==> w == 1) ==> b.0 <= 1)),
                forall|key: (Seq<bool>, int)| #[trigger] stuck(ch0, a0, key) ==> stuck(choices@, active@, key),
                forall|j: int| 0 <= j < i && eligible((#[trigger] nodes@[j]).0, nodes@[j].1@, tctx as nat) ==>
                    blocked(*self, choices@, active@, nodes@[j].0, nodes@[j].1@)
                    || (best matches Some(b) && children_settled(*self, choices@, nodes@[j].0, nodes@[j].1@)
                        && ((forall|h: Head, w: u64| #[trigger] ws(h, w) ==> w == 1)
                            ==> b.0 <= node_cost(*self, choices@, nodes@[j].0, nodes@[j].1@, 1))),
            decreases nodes@.len() - i,
        {
            let (node, by) = nodes[i];
            proof {
                let _ = nodes@[i as int];
                use_type_invariant(&by);
                lemma_lift_len(by);
            }
            let dom = by.dom();
            let skip = match node {
                Node::Var => dom != 1,
                Node::Binder(_, _) => tctx >= 7,
                _ => false,
            };
            let ghost chb = choices@;
            let ghost bestb = best;
            if !skip {
                let hw = self.head_weight(node, weight);
                let ghost head = choose|h: Head| #[trigger] weight.ensures((h,), hw) && head_is(self.symbols@, h, node);
                let mut total = hw;
                let mut finite = true;
                let ghost chs = choices@;
                let ghost cs = counter@;
                match node {
                    Node::App(f, a) => {
                        let fc = f.weaken(&by);
                        let ac = a.weaken(&by);
                        proof {
                            lemma_compose_count(by@, f.lift_spec()@);
                            lemma_compose_count(by@, a.lift_spec()@);
                            assert(placed_canon(*self, by@, f) == self.canon(fc));
                            assert(placed_canon(*self, by@, a) == self.canon(ac));
                        }
                        proof {
                            lemma_count_le_len(active@);
                        }
                        match self.choose_class(&fc, choices, active, counter, weight, Ghost(ws)) {
                            None => {
                                finite = false;
                                proof {
                                    assert(stuck(choices@, active@, placed_canon(*self, by@, f)));
                                    assert(blocked(*self, choices@, active@, node, by@));
                                }
                            },
                            Some(c) => {
                                total = total.saturating_add(c);
                                let ghost chm = choices@;
                                proof {
                                    lemma_count_le_len(active@);
                                }
                                match self.choose_class(&ac, choices, active, counter, weight, Ghost(ws)) {
                                    None => {
                                        finite = false;
                                        proof {
                                            assert(stuck(choices@, active@, placed_canon(*self, by@, a)));
                                            assert(blocked(*self, choices@, active@, node, by@));
                                        }
                                    },
                                    Some(c2) => {
                                        total = total.saturating_add(c2);
                                        proof {
                                            lemma_extends_choices_trans(chs, chm, choices@);
                                            assert(lookup(chm, self.canon(fc)) is Some);
                                            assert(placed_canon(*self, by@, f) == self.canon(fc));
                                            assert(placed_canon(*self, by@, a) == self.canon(ac));
                                            assert(lookup(choices@, self.canon(fc)) == lookup(chm, self.canon(fc)));
                                            assert(total as int == node_cost(*self, choices@, node, by@, hw as int));
                                            assert(settled(choices@, placed_canon(*self, by@, f)));
                                            assert(settled(choices@, placed_canon(*self, by@, a)));
                                            assert(children_settled(*self, choices@, node, by@));
                                        }
                                    },
                                }
                                proof {
                                    lemma_extends_choices_trans(chs, chm, choices@);
                                    assert forall|key: (Seq<bool>, int)| #[trigger] stuck(chs, active@, key) implies stuck(choices@, active@, key) by {
                                        assert(stuck(chm, active@, key));
                                    }
                                }
                            },
                        }
                    },
                    Node::Binder(_, b) => {
                        let under = by.append(true);
                        proof {
                            lemma_count_push(by@, true);
                        }
                        let bc = b.weaken(&under);
                        proof {
                            lemma_compose_count(under@, b.lift_spec()@);
                        }
                        proof {
                            lemma_count_le_len(active@);
                        }
                        proof {
                            assert(placed_canon(*self, by@.push(true), b) == self.canon(bc));
                        }
                        match self.choose_class(&bc, choices, active, counter, weight, Ghost(ws)) {
                            None => {
                                finite = false;
                                proof {
                                    assert(stuck(choices@, active@, placed_canon(*self, by@.push(true), b)));
                                    assert(blocked(*self, choices@, active@, node, by@));
                                }
                            },
                            Some(c) => {
                                total = total.saturating_add(c);
                                proof {
                                    assert(placed_canon(*self, by@.push(true), b) == self.canon(bc));
                                    assert(total as int == node_cost(*self, choices@, node, by@, hw as int));
                                    assert(settled(choices@, placed_canon(*self, by@.push(true), b)));
                                    assert(children_settled(*self, choices@, node, by@));
                                }
                            },
                        }
                    },
                    _ => {},
                }
                proof {
                    assert(forall|key: (Seq<bool>, int)| #[trigger] stuck(chs, active@, key) ==> stuck(choices@, active@, key));
                    assert(finite ==> children_settled(*self, choices@, node, by@) && total as int == node_cost(*self, choices@, node, by@, hw as int));
                    assert(!finite ==> blocked(*self, choices@, active@, node, by@));
                    assert(ws(head, hw));
                }
                proof {
                    lemma_extends_choices_trans(ch1, chs, choices@);
                    match best {
                        Some(bb) => {
                            lemma_candidate_extend(*self, chs, choices@, bb.1, bb.2, tctx as nat, cs, counter@);
                        },
                        None => {},
                    }
                }
                let better = match best {
                    None => true,
                    Some(b) => total < b.0,
                };
                if finite && better {
                    proof {
                        if self.rev_valid || !self.rev_tracked {
                            assert(in_class(*self, t, nodes@[i as int].0, nodes@[i as int].1@));
                        }
                    }
                    best = Some((total, node, by, hw, Ghost(head)));
                }
                proof {
                    assert(bestb is Some ==> best is Some && best->Some_0.0 <= bestb->Some_0.0);
                    assert(finite ==> best is Some && best->Some_0.0 <= total);
                    assert forall|j: int| 0 <= j < i + 1 && eligible((#[trigger] nodes@[j]).0, nodes@[j].1@, tctx as nat) implies
                        blocked(*self, choices@, active@, nodes@[j].0, nodes@[j].1@)
                        || (best matches Some(b) && children_settled(*self, choices@, nodes@[j].0, nodes@[j].1@)
                            && ((forall|h: Head, w: u64| #[trigger] ws(h, w) ==> w == 1)
                                ==> b.0 <= node_cost(*self, choices@, nodes@[j].0, nodes@[j].1@, 1))) by {
                        if j < i {
                            lemma_children_persist(*self, chb, choices@, active@, active@, nodes@[j].0, nodes@[j].1@);
                        } else {
                            assert(nodes@[j] == (node, by));
                        }
                    }
                }
            } else {
                proof {
                    assert forall|j: int| 0 <= j < i + 1 && eligible((#[trigger] nodes@[j]).0, nodes@[j].1@, tctx as nat) implies
                        blocked(*self, choices@, active@, nodes@[j].0, nodes@[j].1@)
                        || (best matches Some(b) && children_settled(*self, choices@, nodes@[j].0, nodes@[j].1@)
                            && ((forall|h: Head, w: u64| #[trigger] ws(h, w) ==> w == 1)
                                ==> b.0 <= node_cost(*self, choices@, nodes@[j].0, nodes@[j].1@, 1))) by {
                        if j == i {
                            assert(nodes@[j] == (node, by));
                        }
                    }
                }
            }
            proof {
                if exists|j: int| 0 <= j < i + 1 && #[trigger] leaf_pair(nodes@[j]) {
                    let j = choose|j: int| 0 <= j < i + 1 && #[trigger] leaf_pair(nodes@[j]);
                    if j < i {
                        assert(exists|j2: int| 0 <= j2 < i && #[trigger] leaf_pair(nodes@[j2]));
                    }
                }
            }
            i = i + 1;
        }
        proof {
            if (self.rev_valid || !self.rev_tracked) && self.holds_some_leaf(*target) {
                lemma_leaf_placement(*self, *target);
                let (i0, by0) = choose|i0: int, by0: Seq<bool>| #[trigger] placement(*self, *target, i0, by0) && leaf_entry(*self, i0, by0);
                crate::egraph::lemma_canon_root_id(*self, t);
                assert(placement(*self, t, i0, by0));
                assert(lists(nodes@, node_of(memo_entries(self.memo)[i0].0), by0, MatchMode::Lifted));
                let j = choose|j: int| 0 <= j < nodes@.len() && nodes@[j].0 == node_of(memo_entries(self.memo)[i0].0)
                    && (MatchMode::Lifted == MatchMode::Lifted ==> nodes@[j].1@ == by0);
                assert(leaf_pair(nodes@[j]));
            }
        }
        let ghost al = active@;
        active.set(raw, false);
        proof {
            assert(active@ =~= a0);
        }
        let choice = match best {
            None => None,
            Some(b) => Some(Choice { cost: b.0, node: b.1, by: b.2, order: Ghost(counter@), hw: b.3, head: b.4 }),
        };
        proof {
            crate::egraph::lemma_canon_root_id(*self, t);
            if let Some(c) = choice {
                if self.rev_valid || !self.rev_tracked {
                    assert(self.canon(t) == (tl@, raw as int) && t.inv() && id_valid(self.parent@, t)
                        && in_class(*self, t, c.node, c.by@));
                }
                assert(choice_in_class(*self, (tl@, raw as int), c));
            }
        }
        let ghost ch2 = choices@;
        let p = match find_position(&choices[raw], tl) {
            Some(p) => p,
            None => {
                proof {
                    assert(false);
                }
                0
            },
        };
        proof {
            lemma_find_index(choices@[raw as int]@, tl@, p as int);
        }
        let mut bucket: Vec<(Lift, Option<Choice>)> = Vec::new();
        choices.set_and_swap(raw, &mut bucket);
        bucket.set(p, (tl, choice));
        choices.set(raw, bucket);
        proof {
            assert(choices@ =~= ch2.update(raw as int, choices@[raw as int]));
            lemma_settle(*self, ch2, choices@, counter@, raw as int, tl, p as int, choice, ws);
            counter@ = counter@ + 1;
            lemma_extends_choices_trans(ch1, ch2, choices@);
            lemma_extends_choices_trans(ch0, ch1, choices@);
            assert forall|key: (Seq<bool>, int)| #[trigger] stuck(ch0, a0, key) implies stuck(choices@, a0, key) by {
                assert(stuck(ch2, al, key));
                if key != (tl@, raw as int) {
                    assert(lookup(choices@, key) == lookup(ch2, key));
                    if key.1 == raw as int {
                        assert(lookup(ch0, key) == Some(None::<Choice>));
                    }
                }
            }
            if (forall|h: Head, w: u64| #[trigger] ws(h, w) ==> w == 1) && best is Some {
                let cost = best->Some_0.0;
                assert forall|x: Id, i: int, by: Seq<bool>| x.inv() && x.lift_spec()@ == self.canon(*target).0
                    && x.raw_spec() as int == self.canon(*target).1 && #[trigger] placement(*self, x, i, by)
                    && (self.rev_valid || !self.rev_tracked)
                    && eligible(node_of(memo_entries(self.memo)[i].0), by, x.ctx_spec())
                    && children_settled(*self, choices@, node_of(memo_entries(self.memo)[i].0), by)
                    implies cost <= node_cost(*self, choices@, node_of(memo_entries(self.memo)[i].0), by, 1) by {
                    let node_i = node_of(memo_entries(self.memo)[i].0);
                    crate::id::lemma_id_eq(x, t);
                    assert(lists(nodes@, node_i, by, MatchMode::Lifted));
                    let j = choose|j: int| 0 <= j < nodes@.len() && nodes@[j].0 == node_i
                        && (MatchMode::Lifted == MatchMode::Lifted ==> nodes@[j].1@ == by);
                    assert(eligible(nodes@[j].0, nodes@[j].1@, tctx as nat));
                    if blocked(*self, ch2, al, node_i, by) {
                        lemma_blocked_by_root(*self, ch2, choices@, al, node_i, by, (tl@, raw as int));
                    } else {
                        lemma_settled_persist(*self, ch2, choices@, node_i, by);
                    }
                }
            }
        }
        match best {
            None => None,
            Some(b) => Some(b.0),
        }
    }
}


/// The position of the first selected variable.
pub open spec fn first_true(s: Seq<bool>) -> int
    decreases s.len(),
{
    if s.len() == 0 {
        0
    } else if s[0] {
        0
    } else {
        1 + first_true(s.drop_first())
    }
}

/// The variable that a `Var` e-node placed by `by` denotes in a
/// `ctx`-variable context whose first `root_scope` variables are free:
/// `None` unless the placement selects exactly one variable.
pub open spec fn var_term_spec(by: Seq<bool>, ctx: nat, root_scope: nat) -> Option<(bool, nat)> {
    if count_true(by) != 1 {
        None
    } else {
        let index = first_true(by);
        if index < root_scope {
            Some((true, index as nat))
        } else if index + 1 <= ctx {
            Some((false, (ctx - index - 1) as nat))
        } else {
            None
        }
    }
}

/// A selected variable exists where some flag is set.
proof fn lemma_first_true(s: Seq<bool>)
    requires
        count_true(s) > 0,
    ensures
        0 <= first_true(s) < s.len(),
        s[first_true(s)],
        forall|k: int| 0 <= k < first_true(s) ==> !s[k],
    decreases s.len(),
{
    if !s[0] {
        assert(s.len() > 0);
        lemma_count_drop_first(s);
        lemma_first_true(s.drop_first());
        assert forall|k: int| 0 <= k < first_true(s) implies !s[k] by {
            if k > 0 {
                assert(s[k] == s.drop_first()[k - 1]);
            }
        }
    }
}

/// Dropping an unset first flag keeps the count.
proof fn lemma_count_drop_first(s: Seq<bool>)
    requires
        s.len() > 0,
    ensures
        count_true(s) == count_true(s.drop_first()) + if s[0] { 1nat } else { 0nat },
    decreases s.len(),
{
    if s.len() > 1 {
        lemma_count_drop_first(s.drop_last());
        assert(s.drop_last().drop_first() =~= s.drop_first().drop_last());
    } else {
        assert(s.drop_first() =~= Seq::<bool>::empty());
        assert(s.drop_last() =~= Seq::<bool>::empty());
    }
}

/// The variable a `Var` e-node placement denotes, or `None` when the
/// placement does not select exactly one ambient variable. Variables below
/// `root_scope` are free; the rest are bound inside the extracted term.
pub(crate) fn var_term(by: &Lift, ctx: usize, root_scope: usize) -> (r: Option<Term>)
    ensures
        match var_term_spec(by@, ctx as nat, root_scope as nat) {
            None => r is None,
            Some((free, n)) => r matches Some(t) && (if free { t matches Term::FVar(l) && l@ == n } else { t matches Term::BVar(i) && i@ == n }),
        },
{
    if by.dom() != 1 {
        return None;
    }
    proof {
        lemma_first_true(by@);
    }
    let n = by.cod();
    let mut index: usize = 0;
    while index < n
        invariant
            n == by@.len(),
            index <= first_true(by@),
            0 <= first_true(by@) < n,
            forall|k: int| 0 <= k < first_true(by@) ==> !by@[k],
            by@[first_true(by@)],
            count_true(by@) == 1,
        decreases n - index,
    {
        if by.get(index) {
            proof {
                assert(index as int == first_true(by@));
            }
            if index < root_scope {
                return Some(Term::FVar(DeBruijnLevel::new(index)));
            }
            return match ctx.checked_sub(index + 1) {
                Some(i) => Some(Term::BVar(DeBruijnIndex::new(i))),
                None => None,
            };
        }
        index = index + 1;
    }
    None
}

/// The extracted term `t` starts with the e-node `node`: a variable for
/// `Var`, the atom or binder named by its symbol, an application for `App`.
pub(crate) open spec fn built_head(symbols: Seq<String>, node: Node, t: Term) -> bool {
    match node {
        Node::Var => t is FVar || t is BVar,
        Node::Atom(s) => t matches Term::Atom(name) && name@ == symbols[s as int]@,
        Node::App(_, _) => t is App,
        Node::Binder(s, _) => t matches Term::Binder(name, _) && name@ == symbols[s as int]@,
    }
}

/// No flag of `s` is set.
proof fn lemma_count_zero(s: Seq<bool>)
    requires
        count_true(s) == 0,
    ensures
        s =~= no_flags(s.len()),
    decreases s.len(),
{
    if s.len() > 0 {
        lemma_count_zero(s.drop_last());
        assert forall|j: int| 0 <= j < s.len() implies !s[j] by {
            if j < s.len() - 1 {
                assert(s[j] == s.drop_last()[j]);
            }
        }
    }
}

/// A placement that selects one variable, the first set flag, is that
/// variable alone.
proof fn lemma_count_one(s: Seq<bool>)
    requires
        count_true(s) == 1,
    ensures
        s =~= single_true(s.len(), first_true(s)),
    decreases s.len(),
{
    lemma_first_true(s);
    lemma_count_drop_first(s);
    if s[0] {
        lemma_count_zero(s.drop_first());
        assert forall|j: int| 0 < j < s.len() implies !s[j] by {
            assert(s[j] == s.drop_first()[j - 1]);
        }
    } else {
        lemma_count_one(s.drop_first());
        assert forall|j: int| 0 < j < s.len() implies s[j] == (j == first_true(s)) by {
            assert(s[j] == s.drop_first()[j - 1]);
        }
    }
}

/// A variable extracted at the root of a class is a variable the class
/// holds.
#[verifier::rlimit(60)]
proof fn lemma_root_var(
    g: EGraph,
    t: Id,
    target: Id,
    ch: Seq<Vec<(Lift, Option<Choice>)>>,
    counter: nat,
    level: nat,
    ws: spec_fn(Head, u64) -> bool,
)
    requires
        g.wf(),
        g.rev_valid,
        choices_ok(g, ch, counter, ws),
        target.inv(),
        id_valid(g.parent@, target),
        g.canon(t) == g.canon(target),
        g.canon(target).0.len() == target.lift_spec()@.len(),
        lookup(ch, g.canon(t)) matches Some(Some(c)) && c.node is Var && level == first_true(c.by@),
    ensures
        g.holds_var(target, level),
{
    let key = g.canon(t);
    let c = lookup(ch, key)->Some_0->Some_0;
    assert(choice_ok(g, ch, c, key.0.len(), ws) && choice_in_class(g, key, c));
    let x = choose|x: Id| #[trigger] g.canon(x) == key && x.inv() && id_valid(g.parent@, x) && in_class(g, x, c.node, c.by@);
    let i = choose|i: int| #[trigger] placed_at(g, i, x, c.node, c.by@);
    let entries = memo_entries(g.memo);
    let (k, r) = entries[i];
    assert({
        &&& (r as int) < g.parent@.len()
        &&& node_ok(g.parent@, g.symbols@.len(), node_of(k), ctx_at(g.parent@, r as int))
    }) by {
        lemma_egraph_specs(g);
        let _ = entries[i];
    }
    lemma_count_one(c.by@);
    lemma_first_true(c.by@);
    assert(c.by@ == single_true(target.lift_spec()@.len(), level as int));
    assert(var_at(g, i, target, level));
    lemma_holds_var(g, target, level, i);
}

/// An atom extracted at the root of a class is an atom the class holds.
#[verifier::rlimit(60)]
proof fn lemma_root_atom(
    g: EGraph,
    t: Id,
    target: Id,
    ch: Seq<Vec<(Lift, Option<Choice>)>>,
    counter: nat,
    term: Term,
    ws: spec_fn(Head, u64) -> bool,
)
    requires
        g.wf(),
        g.rev_valid,
        choices_ok(g, ch, counter, ws),
        target.inv(),
        id_valid(g.parent@, target),
        g.canon(t) == g.canon(target),
        g.canon(target).0.len() == target.lift_spec()@.len(),
        lookup(ch, g.canon(t)) matches Some(Some(c)) && built_head(g.symbols@, c.node, term),
        term is Atom,
    ensures
        g.holds_atom(target, term->Atom_0@),
{
    let key = g.canon(t);
    let c = lookup(ch, key)->Some_0->Some_0;
    assert(choice_ok(g, ch, c, key.0.len(), ws) && choice_in_class(g, key, c));
    let x = choose|x: Id| #[trigger] g.canon(x) == key && x.inv() && id_valid(g.parent@, x) && in_class(g, x, c.node, c.by@);
    let i = choose|i: int| #[trigger] placed_at(g, i, x, c.node, c.by@);
    let entries = memo_entries(g.memo);
    let (k, r) = entries[i];
    assert({
        &&& (r as int) < g.parent@.len()
        &&& node_ok(g.parent@, g.symbols@.len(), node_of(k), ctx_at(g.parent@, r as int))
    }) by {
        lemma_egraph_specs(g);
        let _ = entries[i];
    }
    lemma_count_zero(c.by@);
    assert(c.by@ == no_flags(target.lift_spec()@.len()));
    assert(atom_at(g, i, target, term->Atom_0@));
    lemma_holds_atom(g, target, term->Atom_0@, i);
}

impl EGraph {
    /// Materialize the term from the recorded winners. The winners form a
    /// DAG, each settled after its children, so this costs one step per
    /// node of the output.
    #[verifier::spinoff_prover]
    #[verifier::rlimit(80)]
    fn build(
        &self,
        target: &Id,
        root_scope: usize,
        choices: &Vec<Vec<(Lift, Option<Choice>)>>,
        Ghost(counter): Ghost<nat>,
        Ghost(ws): Ghost<spec_fn(Head, u64) -> bool>,
    ) -> (r: Option<Term>)
        requires
            self.wf(),
            self.valid(*target),
            choices_ok(*self, choices@, counter, ws),
            lookup(choices@, self.canon(*target)) matches Some(Some(_)),
        ensures
            r matches Some(t) && built_head(self.symbols@, lookup(choices@, self.canon(*target))->Some_0->Some_0.node, t),
            root_scope == target.ctx_spec() && lookup(choices@, self.canon(*target))->Some_0->Some_0.node is Var ==> (r matches Some(t)
                && t matches Term::FVar(l) && l@ == first_true(lookup(choices@, self.canon(*target))->Some_0->Some_0.by@)),
            (forall|h: Head, w: u64| #[trigger] ws(h, w) ==> w == 1) ==> (r matches Some(t)
                && cost_of(choices@, self.canon(*target)) == sat_add(0, term_size(t) as int)),
        decreases lookup(choices@, self.canon(*target))->Some_0->Some_0.order@,
    {
        proof {
            lemma_egraph_specs(*self);
        }
        let t = self.find(target);
        let tl = t.lift();
        let raw = t.raw() as usize;
        proof {
            use_type_invariant(&t);
            use_type_invariant(&tl);
            lemma_id_lift_inv(t);
        }
        let p = match find_position(&choices[raw], tl) {
            Some(p) => p,
            None => {
                return None;
            },
        };
        proof {
            lemma_find_index(choices@[raw as int]@, tl@, p as int);
        }
        let c = match choices[raw][p].1 {
            Some(c) => c,
            None => {
                return None;
            },
        };
        proof {
            let key = (tl@, raw as int);
            assert(lookup(choices@, key) == Some(Some(c)));
            assert(choice_ok(*self, choices@, c, tl@.len(), ws));
            use_type_invariant(&c.by);
        }
        match c.node {
            Node::Var => {
                proof {
                    lemma_first_true(c.by@);
                    assert(c.by@.len() == t.ctx_spec());
                    assert(t.ctx_spec() == target.ctx_spec());
                }
                var_term(&c.by, t.ctx(), root_scope)
            },
            Node::Atom(s) => Some(Term::Atom(self.symbols[s as usize].clone())),
            Node::App(f, a) => {
                let fc = f.weaken(&c.by);
                let ac = a.weaken(&c.by);
                proof {
                    lemma_compose_count(c.by@, f.lift_spec()@);
                    lemma_compose_count(c.by@, a.lift_spec()@);
                    assert(placed_canon(*self, c.by@, f) == self.canon(fc));
                    assert(placed_canon(*self, c.by@, a) == self.canon(ac));
                }
                let function = match self.build(&fc, root_scope, choices, Ghost(counter), Ghost(ws)) {
                    Some(x) => x,
                    None => {
                        return None;
                    },
                };
                let argument = match self.build(&ac, root_scope, choices, Ghost(counter), Ghost(ws)) {
                    Some(x) => x,
                    None => {
                        return None;
                    },
                };
                Some(Term::App(Box::new(function), Box::new(argument)))
            },
            Node::Binder(op, b) => {
                let under = c.by.append(true);
                proof {
                    lemma_count_push(c.by@, true);
                }
                let bc = b.weaken(&under);
                proof {
                    lemma_compose_count(under@, b.lift_spec()@);
                    assert(placed_canon(*self, c.by@.push(true), b) == self.canon(bc));
                }
                let body = match self.build(&bc, root_scope, choices, Ghost(counter), Ghost(ws)) {
                    Some(x) => x,
                    None => {
                        return None;
                    },
                };
                Some(Term::Binder(self.symbols[op as usize].clone(), Box::new(body)))
            },
        }
    }

    /// Extract the term of least total weight, where a term's weight is
    /// the sum of `weight` over its nodes. `None` when the class has no
    /// finite term.
    pub fn extract_with<F: Fn(Head) -> u64>(&mut self, target: &Id, weight: F) -> (r: Option<TermCtx>)
        requires
            old(self).wf(),
            old(self).valid(*target),
            forall|h: Head| weight.requires((h,)),
        ensures
            final(self).wf(),
            old(self).extends(*final(self)),
            r matches Some(tc) ==> tc.scope == target.ctx_spec(),
            old(self).holds_some_leaf(*target) && final(self).rebuilt() ==> r is Some,
            r matches Some(tc) ==> (final(self).rebuilt() && tc.t is Atom ==> final(self).holds_atom(*target, tc.t->Atom_0@)),
            r matches Some(tc) ==> (final(self).rebuilt() && tc.t is FVar ==> final(self).holds_var(*target, tc.t->FVar_0@ as nat)),
            (forall|h: Head, w: u64| #[trigger] weight.ensures((h,), w) ==> w == 1) && old(self).holds_some_leaf(*target)
                && final(self).rebuilt() ==> (r matches Some(tc) && term_size(tc.t) == 1),
    {
        let ghost s0 = *self;
        self.rebuild();
        proof {
            lemma_egraph_specs(s0);
            lemma_egraph_specs(*self);
            assert(self.valid(*target));
        }
        let t = self.find(target);
        let scope = t.ctx();
        let len = self.parent.len();
        let mut choices: Vec<Vec<(Lift, Option<Choice>)>> = Vec::new();
        let mut active: Vec<bool> = Vec::new();
        while choices.len() < len
            invariant
                choices@.len() == active@.len(),
                choices@.len() <= len,
                forall|r: int| 0 <= r < choices@.len() ==> (#[trigger] choices@[r])@.len() == 0,
                forall|r: int| 0 <= r < active@.len() ==> !(#[trigger] active@[r]),
            decreases len - choices@.len(),
        {
            choices.push(Vec::new());
            active.push(false);
        }
        let mut counter: Ghost<nat> = Ghost(0);
        let ghost ws: spec_fn(Head, u64) -> bool = |h: Head, w: u64| weight.ensures((h,), w);
        proof {
            assert forall|key: (Seq<bool>, int)| #[trigger] lookup(choices@, key) is None by {
                if 0 <= key.1 < choices@.len() {
                    assert(choices@[key.1]@.len() == 0);
                }
            }
        }
        proof {
            if s0.holds_some_leaf(*target) {
                lemma_holds_within_use(s0, *self);
                if exists|index: nat| s0.holds_var(*target, index) {
                    let index = choose|index: nat| s0.holds_var(*target, index);
                    assert(self.holds_var(*target, index));
                } else {
                    let name = choose|name: Seq<char>| s0.holds_atom(*target, name);
                    assert(self.holds_atom(*target, name));
                }
                assert(self.holds_some_leaf(*target));
                use_type_invariant(target);
                use_type_invariant(&t);
                crate::unionfind::lemma_find_valid(self.parent@, self.rank@, self.rank_bound@, *target);
                crate::egraph::lemma_canon_root_id(*self, t);
                lemma_leaf_equiv(*self, *target, t);
            }
            assert(lookup(choices@, self.canon(t)) is None);
        }
        let best = self.choose_class(&t, &mut choices, &mut active, &mut counter, &weight, Ghost(ws));
        proof {
            lemma_egraph_specs(*self);
            crate::unionfind::lemma_find_valid(self.parent@, self.rank@, self.rank_bound@, *target);
            crate::unionfind::lemma_find_root(self.parent@, self.rank@, self.rank_bound@, t);
        }
        match best {
            None => None,
            Some(_) => match self.build(&t, scope, &choices, counter, Ghost(ws)) {
                None => None,
                Some(term) => {
                    proof {
                        use_type_invariant(target);
                        crate::egraph::lemma_canon_root_id(*self, t);
                        if self.rev_valid && term is Atom {
                            lemma_root_atom(*self, t, *target, choices@, counter@, term, ws);
                        }
                        if self.rev_valid && term is FVar {
                            let c = lookup(choices@, self.canon(t))->Some_0->Some_0;
                            assert(c.node is Var);
                            lemma_root_var(*self, t, *target, choices@, counter@, term->FVar_0@ as nat, ws);
                        }
                    }
                    Some(TermCtx { scope, t: term })
                },
            },
        }
    }

    /// Extract a smallest term, counting every node as 1.
    pub fn extract(&mut self, target: &Id) -> (r: Option<TermCtx>)
        requires
            old(self).wf(),
            old(self).valid(*target),
        ensures
            final(self).wf(),
            old(self).extends(*final(self)),
            r matches Some(tc) ==> tc.scope == target.ctx_spec(),
            old(self).holds_some_leaf(*target) && final(self).rebuilt() ==> r is Some,
            r matches Some(tc) ==> (final(self).rebuilt() && tc.t is Atom ==> final(self).holds_atom(*target, tc.t->Atom_0@)),
            r matches Some(tc) ==> (final(self).rebuilt() && tc.t is FVar ==> final(self).holds_var(*target, tc.t->FVar_0@ as nat)),
            old(self).holds_some_leaf(*target) && final(self).rebuilt() ==> (r matches Some(tc) && term_size(tc.t) == 1),
    {
        self.extract_with(target, |h: Head| -> (w: u64)
            ensures
                w == 1,
            { 1 })
    }
}

} // verus!
