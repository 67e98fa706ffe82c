//! What the classes of an e-graph hold: the e-nodes that its hash-cons
//! table stands for in them.
use vstd::prelude::*;
use crate::seqs::{count_true, compose_seq};
use crate::lift::{all_true, single_true, lemma_count_single};
use crate::id::{Id, lemma_id_lift_inv};
use crate::memo::{memo_entries, has_key};
use crate::matching::placement;
use crate::unionfind::{ctx_at, id_valid};
use crate::egraph::{EGraph, Node, node_of, key_of, lemma_egraph_specs, lemma_extends_ctx};
use crate::keeping::{
    class_id, place, stands_for, stood_for, node_at_ok, lemma_class_id, lemma_place, lemma_place_equiv,
    lemma_place_identity, lemma_equiv_extends, lemma_stands_for_extends, lemma_stands_for_chain,
    kept, lemma_keeps_nodes_kept,
};

verus! {

/// Entry `i` of the table of `g` files a variable, whose class placed at
/// level `index` of `x`'s context is equivalent to `x`.
pub(crate) open spec fn var_at(g: EGraph, i: int, x: Id, index: nat) -> bool {
    0 <= i < memo_entries(g.memo).len() && {
        let (k, r) = memo_entries(g.memo)[i];
        &&& node_of(k) == Node::Var
        &&& (r as int) < g.parent@.len()
        &&& ctx_at(g.parent@, r as int) == 1
        &&& x.inv()
        &&& id_valid(g.parent@, x)
        &&& index < x.lift_spec()@.len()
        &&& g.equiv(x, place(class_id(g, r as int), single_true(x.lift_spec()@.len(), index as int)))
    }
}

/// The flags of the empty context placed in an `n`-variable one.
pub(crate) open spec fn no_flags(n: nat) -> Seq<bool> {
    Seq::new(n, |j: int| false)
}

/// Entry `i` of the table of `g` files the atom `name`, whose class placed
/// in `x`'s context is equivalent to `x`.
pub(crate) open spec fn atom_at(g: EGraph, i: int, x: Id, name: Seq<char>) -> bool {
    0 <= i < memo_entries(g.memo).len() && {
        let (k, r) = memo_entries(g.memo)[i];
        &&& node_of(k) == Node::Atom(k.1)
        &&& (k.1 as int) < g.symbols@.len()
        &&& g.symbols@[k.1 as int]@ == name
        &&& (r as int) < g.parent@.len()
        &&& ctx_at(g.parent@, r as int) == 0
        &&& x.inv()
        &&& id_valid(g.parent@, x)
        &&& g.equiv(x, place(class_id(g, r as int), no_flags(x.lift_spec()@.len())))
    }
}

/// The classes that hold the body and the replacement of a substitution.
pub open spec fn subst_parts(body: Id, replacement: Id) -> (Id, Id) {
    (body, replacement)
}

impl EGraph {
    /// The class of `x` holds the variable at level `index` of `x`'s
    /// context.
    pub closed spec fn holds_var(self, x: Id, index: nat) -> bool {
        exists|i: int| #[trigger] var_at(self, i, x, index)
    }

    /// The class of `x` holds the atom `name`.
    pub closed spec fn holds_atom(self, x: Id, name: Seq<char>) -> bool {
        exists|i: int| #[trigger] atom_at(self, i, x, name)
    }

    /// The class of `x` holds a variable of its context or an atom.
    pub open spec fn holds_some_leaf(self, x: Id) -> bool {
        (exists|index: nat| self.holds_var(x, index)) || (exists|name: Seq<char>| self.holds_atom(x, name))
    }

    /// The class of `x` holds the application of `function` to `argument`:
    /// a hash-consed e-node stands for it there.
    pub closed spec fn holds_app(self, x: Id, function: Id, argument: Id) -> bool {
        &&& node_at_ok(self, Node::App(function, argument), x)
        &&& stood_for(self, memo_entries(self.memo), Node::App(function, argument), x)
    }

    /// The class of `x` holds the binder `op` over `body`.
    pub closed spec fn holds_binder(self, x: Id, op: Seq<char>, body: Id) -> bool {
        exists|s: u32|
            (s as int) < self.symbols@.len() && self.symbols@[s as int]@ == op
                && node_at_ok(self, Node::Binder(s, body), x)
                && #[trigger] stood_for(self, memo_entries(self.memo), Node::Binder(s, body), x)
    }

    /// The class of `x` holds `(op a1 ... an)` in curried form: with no
    /// arguments the atom `op`, else the application, to `an`, of a class
    /// that holds `(op a1 ... a(n-1))`.
    pub closed spec fn holds_apps(self, x: Id, op: Seq<char>, arguments: Seq<Id>) -> bool
        decreases arguments.len(),
    {
        if arguments.len() == 0 {
            self.holds_atom(x, op)
        } else {
            exists|p: Id|
                #[trigger] self.holds_app(x, p, arguments.last()) && self.holds_apps(p, op, arguments.drop_last())
        }
    }

    /// Every class of `next` holds what it holds in this e-graph.
    pub closed spec fn holds_within(self, next: EGraph) -> bool {
        &&& forall|x: Id, index: nat| self.holds_var(x, index) ==> #[trigger] next.holds_var(x, index)
        &&& forall|x: Id, name: Seq<char>| self.holds_atom(x, name) ==> #[trigger] next.holds_atom(x, name)
        &&& forall|x: Id, f: Id, a: Id| self.holds_app(x, f, a) ==> #[trigger] next.holds_app(x, f, a)
        &&& forall|x: Id, op: Seq<char>, b: Id| self.holds_binder(x, op, b) ==> #[trigger] next.holds_binder(x, op, b)
        &&& forall|x: Id, op: Seq<char>, arguments: Seq<Id>|
            self.holds_apps(x, op, arguments) ==> #[trigger] next.holds_apps(x, op, arguments)
    }

    /// `next` keeps every entry of this e-graph's hash-cons table in place,
    /// and every symbol.
    pub closed spec fn keeps_table(self, next: EGraph) -> bool {
        &&& memo_entries(self.memo).len() <= memo_entries(next.memo).len()
        &&& forall|k: int|
            0 <= k < memo_entries(self.memo).len() ==> #[trigger] memo_entries(next.memo)[k]
                == memo_entries(self.memo)[k]
        &&& self.symbols@.len() <= next.symbols@.len()
        &&& forall|k: int| 0 <= k < self.symbols@.len() ==> #[trigger] next.symbols@[k] == self.symbols@[k]
    }
}

pub(crate) proof fn lemma_holds_var(g: EGraph, x: Id, index: nat, i: int)
    requires
        var_at(g, i, x, index),
    ensures
        g.holds_var(x, index),
{
}

pub(crate) proof fn lemma_holds_atom(g: EGraph, x: Id, name: Seq<char>, i: int)
    requires
        atom_at(g, i, x, name),
    ensures
        g.holds_atom(x, name),
{
}

/// A class that holds a variable or an atom has a hash-consed leaf e-node
/// placed into it: an atom, or a variable placed on one context variable.
pub(crate) proof fn lemma_leaf_placement(g: EGraph, x: Id)
    requires
        g.holds_some_leaf(x),
    ensures
        exists|i: int, by: Seq<bool>| #[trigger] placement(g, x, i, by) && leaf_entry(g, i, by),
{
    if exists|index: nat| g.holds_var(x, index) {
        let index = choose|index: nat| g.holds_var(x, index);
        let i = choose|i: int| #[trigger] var_at(g, i, x, index);
        let by = single_true(x.lift_spec()@.len(), index as int);
        lemma_count_single(x.lift_spec()@.len(), index as int);
        assert(placement(g, x, i, by) && leaf_entry(g, i, by));
    } else {
        let name = choose|name: Seq<char>| g.holds_atom(x, name);
        let i = choose|i: int| #[trigger] atom_at(g, i, x, name);
        let by = no_flags(x.lift_spec()@.len());
        crate::seqs::lemma_count_none_true(x.lift_spec()@.len());
        assert(placement(g, x, i, by) && leaf_entry(g, i, by));
    }
}

/// A class that holds the variable at level `index` has a hash-consed
/// variable e-node placed into it on that variable.
pub(crate) proof fn lemma_var_placement(g: EGraph, x: Id, index: nat)
    requires
        g.holds_var(x, index),
    ensures
        exists|i: int| #[trigger] placement(g, x, i, single_true(x.ctx_spec(), index as int))
            && node_of(memo_entries(g.memo)[i].0) == Node::Var,
{
    let i = choose|i: int| #[trigger] var_at(g, i, x, index);
    lemma_count_single(x.lift_spec()@.len(), index as int);
    assert(placement(g, x, i, single_true(x.ctx_spec(), index as int)));
}

/// Where a class holding the atom `name` finds it in the table.
pub(crate) proof fn lemma_atom_entry(g: EGraph, x: Id, name: Seq<char>) -> (i: int)
    requires
        g.holds_atom(x, name),
    ensures
        atom_at(g, i, x, name),
{
    choose|i: int| #[trigger] atom_at(g, i, x, name)
}

/// A class that holds the atom `name` has a hash-consed atom e-node of that
/// name placed into it.
pub(crate) proof fn lemma_atom_placement(g: EGraph, x: Id, name: Seq<char>)
    requires
        g.holds_atom(x, name),
    ensures
        exists|i: int, by: Seq<bool>| #[trigger] placement(g, x, i, by)
            && atom_named(g.symbols@, node_of(memo_entries(g.memo)[i].0), name),
{
    let i = choose|i: int| #[trigger] atom_at(g, i, x, name);
    let by = no_flags(x.lift_spec()@.len());
    crate::seqs::lemma_count_none_true(x.lift_spec()@.len());
    assert(placement(g, x, i, by));
}

/// `node` is an atom named `name` among `symbols`.
pub(crate) open spec fn atom_named(symbols: Seq<String>, node: Node, name: Seq<char>) -> bool {
    node matches Node::Atom(s) && (s as int) < symbols.len() && symbols[s as int]@ == name
}

/// Holding a leaf is shared by equal placements in one context.
pub(crate) proof fn lemma_leaf_equiv(g: EGraph, x: Id, y: Id)
    requires
        g.holds_some_leaf(x),
        g.equiv(x, y),
        x.ctx_spec() == y.ctx_spec(),
        y.inv(),
        id_valid(g.parent@, y),
    ensures
        g.holds_some_leaf(y),
{
    if exists|index: nat| g.holds_var(x, index) {
        let index = choose|index: nat| g.holds_var(x, index);
        let i = choose|i: int| #[trigger] var_at(g, i, x, index);
        assert(var_at(g, i, y, index));
        assert(g.holds_var(y, index));
    } else {
        let name = choose|name: Seq<char>| g.holds_atom(x, name);
        let i = choose|i: int| #[trigger] atom_at(g, i, x, name);
        assert(atom_at(g, i, y, name));
        assert(g.holds_atom(y, name));
    }
}

/// Entry `i` of the table is an atom, or a variable placed by `by` on one
/// context variable.
pub(crate) open spec fn leaf_entry(g: EGraph, i: int, by: Seq<bool>) -> bool {
    node_of(memo_entries(g.memo)[i].0) is Atom || (node_of(memo_entries(g.memo)[i].0) is Var && count_true(by) == 1)
}

pub(crate) proof fn lemma_holds_app(g: EGraph, x: Id, function: Id, argument: Id)
    requires
        node_at_ok(g, Node::App(function, argument), x),
        stood_for(g, memo_entries(g.memo), Node::App(function, argument), x),
    ensures
        g.holds_app(x, function, argument),
{
}

pub(crate) proof fn lemma_holds_binder(g: EGraph, x: Id, op: Seq<char>, body: Id, s: u32)
    requires
        (s as int) < g.symbols@.len(),
        g.symbols@[s as int]@ == op,
        node_at_ok(g, Node::Binder(s, body), x),
        stood_for(g, memo_entries(g.memo), Node::Binder(s, body), x),
    ensures
        g.holds_binder(x, op, body),
{
}

/// A table that only grows keeps it.
pub(crate) proof fn lemma_keeps_table(g1: EGraph, g2: EGraph)
    requires
        memo_entries(g1.memo).len() <= memo_entries(g2.memo).len(),
        forall|k: int|
            0 <= k < memo_entries(g1.memo).len() ==> #[trigger] memo_entries(g2.memo)[k]
                == memo_entries(g1.memo)[k],
        g1.symbols@.len() <= g2.symbols@.len(),
        forall|k: int| 0 <= k < g1.symbols@.len() ==> #[trigger] g2.symbols@[k] == g1.symbols@[k],
    ensures
        g1.keeps_table(g2),
{
}

/// Keeping the table is transitive.
pub proof fn lemma_keeps_table_trans(g1: EGraph, g2: EGraph, g3: EGraph)
    requires
        g1.keeps_table(g2),
        g2.keeps_table(g3),
    ensures
        g1.keeps_table(g3),
{
    assert forall|k: int| 0 <= k < memo_entries(g1.memo).len() implies #[trigger] memo_entries(g3.memo)[k]
        == memo_entries(g1.memo)[k] by {
        assert(memo_entries(g2.memo)[k] == memo_entries(g1.memo)[k]);
    }
    assert forall|k: int| 0 <= k < g1.symbols@.len() implies #[trigger] g3.symbols@[k] == g1.symbols@[k] by {
        assert(g2.symbols@[k] == g1.symbols@[k]);
    }
}

/// A variable filed in `g1` is filed in the same entry of any e-graph
/// that extends `g1` and keeps its table.
proof fn lemma_var_at_extends(g1: EGraph, g2: EGraph, i: int, x: Id, index: nat)
    requires
        g1.wf(),
        g2.wf(),
        g1.extends(g2),
        g1.keeps_table(g2),
        var_at(g1, i, x, index),
    ensures
        var_at(g2, i, x, index),
{
    lemma_egraph_specs(g1);
    lemma_egraph_specs(g2);
    lemma_extends_ctx(g1, g2);
    let (k, r) = memo_entries(g1.memo)[i];
    let l = single_true(x.lift_spec()@.len(), index as int);
    assert(memo_entries(g2.memo)[i] == memo_entries(g1.memo)[i]);
    assert(g1.valid(x));
    lemma_class_id(g1, r as int);
    lemma_id_lift_inv(x);
    lemma_count_single(x.lift_spec()@.len(), index as int);
    lemma_place(g1, class_id(g1, r as int), l);
    lemma_equiv_extends(g1, g2, x, place(class_id(g1, r as int), l));
    assert(class_id(g2, r as int) == class_id(g1, r as int));
}

/// An atom filed in `g1` is filed in the same entry of any e-graph that
/// extends `g1` and keeps its table.
proof fn lemma_atom_at_extends(g1: EGraph, g2: EGraph, i: int, x: Id, name: Seq<char>)
    requires
        g1.wf(),
        g2.wf(),
        g1.extends(g2),
        g1.keeps_table(g2),
        atom_at(g1, i, x, name),
    ensures
        atom_at(g2, i, x, name),
{
    lemma_egraph_specs(g1);
    lemma_egraph_specs(g2);
    lemma_extends_ctx(g1, g2);
    let (k, r) = memo_entries(g1.memo)[i];
    let l = no_flags(x.lift_spec()@.len());
    assert(memo_entries(g2.memo)[i] == memo_entries(g1.memo)[i]);
    assert(g2.symbols@[k.1 as int] == g1.symbols@[k.1 as int]);
    assert(g1.valid(x));
    lemma_class_id(g1, r as int);
    lemma_id_lift_inv(x);
    crate::seqs::lemma_count_none_true(x.lift_spec()@.len());
    lemma_place(g1, class_id(g1, r as int), l);
    lemma_equiv_extends(g1, g2, x, place(class_id(g1, r as int), l));
    assert(class_id(g2, r as int) == class_id(g1, r as int));
}

/// A class that holds a variable shows that the variable is hash-consed.
pub(crate) proof fn lemma_var_filed(g: EGraph, x: Id, index: nat)
    requires
        g.wf(),
        g.holds_var(x, index),
    ensures
        has_key(memo_entries(g.memo), key_of(Node::Var)),
{
    lemma_egraph_specs(g);
    let entries = memo_entries(g.memo);
    let i = choose|i: int| #[trigger] var_at(g, i, x, index);
    let _ = entries[i];
    assert(entries[i].0 == key_of(Node::Var));
}

/// All variables share one class: two placements whose classes hold the
/// variable at the same level of the same context are equivalent. So
/// asking twice for a variable gives equivalent IDs.
pub proof fn law_variables_shared(g: EGraph, x: Id, y: Id, index: nat)
    requires
        g.wf(),
        g.holds_var(x, index),
        g.holds_var(y, index),
        x.ctx_spec() == y.ctx_spec(),
    ensures
        g.equiv(x, y),
{
    lemma_egraph_specs(g);
    let entries = memo_entries(g.memo);
    let i = choose|i: int| #[trigger] var_at(g, i, x, index);
    let j = choose|j: int| #[trigger] var_at(g, j, y, index);
    let _ = entries[i];
    let _ = entries[j];
    assert(entries[i].0 == key_of(Node::Var));
    assert(entries[j].0 == key_of(Node::Var));
    assert(i == j);
}

/// What the classes of an e-graph hold, they still hold in any e-graph
/// that extends it and keeps its table: after adding variables, atoms,
/// applications and binders, and after unions.
pub proof fn law_holds_persist(g1: EGraph, g2: EGraph)
    requires
        g1.wf(),
        g2.wf(),
        g1.extends(g2),
        g1.keeps_table(g2),
    ensures
        forall|x: Id, index: nat| g1.holds_var(x, index) ==> #[trigger] g2.holds_var(x, index),
        forall|x: Id, name: Seq<char>| g1.holds_atom(x, name) ==> #[trigger] g2.holds_atom(x, name),
        forall|x: Id, f: Id, a: Id| g1.holds_app(x, f, a) ==> #[trigger] g2.holds_app(x, f, a),
        forall|x: Id, op: Seq<char>, b: Id| g1.holds_binder(x, op, b) ==> #[trigger] g2.holds_binder(x, op, b),
{
    let e1 = memo_entries(g1.memo);
    let e2 = memo_entries(g2.memo);
    assert forall|x: Id, index: nat| g1.holds_var(x, index) implies #[trigger] g2.holds_var(x, index) by {
        let i = choose|i: int| #[trigger] var_at(g1, i, x, index);
        lemma_var_at_extends(g1, g2, i, x, index);
    }
    assert forall|x: Id, name: Seq<char>| g1.holds_atom(x, name) implies #[trigger] g2.holds_atom(x, name) by {
        let i = choose|i: int| #[trigger] atom_at(g1, i, x, name);
        lemma_atom_at_extends(g1, g2, i, x, name);
    }
    assert forall|x: Id, f: Id, a: Id| g1.holds_app(x, f, a) implies #[trigger] g2.holds_app(x, f, a) by {
        let n = Node::App(f, a);
        let (i, l) = choose|i: int, l: Seq<bool>| #[trigger] stands_for(g1, e1, i, l, n, x);
        let _ = e2[i];
        lemma_stands_for_extends(g1, g2, e1, e2, i, l, n, x);
        assert(stands_for(g2, e2, i, l, n, x));
    }
    assert forall|x: Id, op: Seq<char>, b: Id| g1.holds_binder(x, op, b) implies #[trigger] g2.holds_binder(x, op, b) by {
        let s = choose|s: u32|
            (s as int) < g1.symbols@.len() && g1.symbols@[s as int]@ == op
                && node_at_ok(g1, Node::Binder(s, b), x)
                && #[trigger] stood_for(g1, e1, Node::Binder(s, b), x);
        let n = Node::Binder(s, b);
        let (i, l) = choose|i: int, l: Seq<bool>| #[trigger] stands_for(g1, e1, i, l, n, x);
        let _ = e2[i];
        lemma_stands_for_extends(g1, g2, e1, e2, i, l, n, x);
        assert(stands_for(g2, e2, i, l, n, x));
        assert(g2.symbols@[s as int] == g1.symbols@[s as int]);
        assert(stood_for(g2, e2, n, x));
        lemma_holds_binder(g2, x, op, b, s);
    }
}

/// A variable filed in `g1` is filed in some entry of an e-graph that
/// extends `g1` and keeps its e-nodes.
proof fn lemma_var_at_kept(g1: EGraph, g2: EGraph, i: int, x: Id, index: nat)
    requires
        g1.wf(),
        g2.wf(),
        g1.extends(g2),
        kept(g2, memo_entries(g1.memo), memo_entries(g1.memo).len() as int, memo_entries(g2.memo)),
        var_at(g1, i, x, index),
    ensures
        exists|j: int| #[trigger] var_at(g2, j, x, index),
{
    lemma_egraph_specs(g1);
    lemma_egraph_specs(g2);
    lemma_extends_ctx(g1, g2);
    let e1 = memo_entries(g1.memo);
    let e2 = memo_entries(g2.memo);
    let (k, r) = e1[i];
    let cr = class_id(g2, r as int);
    assert(cr == class_id(g1, r as int));
    assert(stood_for(g2, e2, node_of(k), cr));
    let (j, l2) = choose|j: int, l: Seq<bool>| #[trigger] stands_for(g2, e2, j, l, node_of(k), cr);
    let (k2, r2) = e2[j];
    let c2 = class_id(g2, r2 as int);
    lemma_class_id(g2, r as int);
    lemma_class_id(g2, r2 as int);
    assert(node_of(k2) == Node::Var);
    assert(ctx_at(g2.parent@, r2 as int) == 1);
    assert(l2.len() == 1);
    assert(count_true(l2) == 1);
    assert(l2 =~= all_true(1)) by {
        assert(count_true(l2.drop_last()) == 0);
        assert(l2.last());
    }
    lemma_place_identity(g2, c2);
    assert(g2.equiv(cr, c2));
    let l = single_true(x.lift_spec()@.len(), index as int);
    lemma_id_lift_inv(x);
    lemma_count_single(x.lift_spec()@.len(), index as int);
    assert(g1.valid(x));
    lemma_class_id(g1, r as int);
    lemma_place(g1, cr, l);
    lemma_equiv_extends(g1, g2, x, place(cr, l));
    lemma_place_equiv(g2, cr, c2, l);
    assert(var_at(g2, j, x, index));
}

/// An atom filed in `g1` is filed in some entry of an e-graph that extends
/// `g1`, keeps its e-nodes and its symbols.
proof fn lemma_atom_at_kept(g1: EGraph, g2: EGraph, i: int, x: Id, name: Seq<char>)
    requires
        g1.wf(),
        g2.wf(),
        g1.extends(g2),
        g2.symbols == g1.symbols,
        kept(g2, memo_entries(g1.memo), memo_entries(g1.memo).len() as int, memo_entries(g2.memo)),
        atom_at(g1, i, x, name),
    ensures
        exists|j: int| #[trigger] atom_at(g2, j, x, name),
{
    lemma_egraph_specs(g1);
    lemma_egraph_specs(g2);
    lemma_extends_ctx(g1, g2);
    let e1 = memo_entries(g1.memo);
    let e2 = memo_entries(g2.memo);
    let (k, r) = e1[i];
    let cr = class_id(g2, r as int);
    assert(cr == class_id(g1, r as int));
    assert(stood_for(g2, e2, node_of(k), cr));
    let (j, l2) = choose|j: int, l: Seq<bool>| #[trigger] stands_for(g2, e2, j, l, node_of(k), cr);
    let (k2, r2) = e2[j];
    let c2 = class_id(g2, r2 as int);
    lemma_class_id(g2, r as int);
    lemma_class_id(g2, r2 as int);
    assert(l2 =~= all_true(0));
    lemma_place_identity(g2, c2);
    assert(g2.equiv(cr, c2));
    let l = no_flags(x.lift_spec()@.len());
    lemma_id_lift_inv(x);
    crate::seqs::lemma_count_none_true(x.lift_spec()@.len());
    assert(g1.valid(x));
    lemma_class_id(g1, r as int);
    lemma_place(g1, cr, l);
    lemma_equiv_extends(g1, g2, x, place(cr, l));
    lemma_place_equiv(g2, cr, c2, l);
    assert(atom_at(g2, j, x, name));
}

/// What the classes of an e-graph hold, they still hold after a rebuild:
/// it keeps every hash-consed e-node, if maybe in another entry.
pub proof fn law_rebuild_holds(g1: EGraph, g2: EGraph)
    requires
        g1.wf(),
        g2.wf(),
        g1.extends(g2),
        g1.keeps_nodes(g2),
        g2.same_symbols(g1),
    ensures
        forall|x: Id, index: nat| g1.holds_var(x, index) ==> #[trigger] g2.holds_var(x, index),
        forall|x: Id, name: Seq<char>| g1.holds_atom(x, name) ==> #[trigger] g2.holds_atom(x, name),
        forall|x: Id, f: Id, a: Id| g1.holds_app(x, f, a) ==> #[trigger] g2.holds_app(x, f, a),
        forall|x: Id, op: Seq<char>, b: Id| g1.holds_binder(x, op, b) ==> #[trigger] g2.holds_binder(x, op, b),
{
    lemma_egraph_specs(g2);
    lemma_keeps_nodes_kept(g1, g2);
    let e1 = memo_entries(g1.memo);
    let e2 = memo_entries(g2.memo);
    assert forall|x: Id, index: nat| g1.holds_var(x, index) implies #[trigger] g2.holds_var(x, index) by {
        let i = choose|i: int| #[trigger] var_at(g1, i, x, index);
        lemma_var_at_kept(g1, g2, i, x, index);
    }
    assert forall|x: Id, name: Seq<char>| g1.holds_atom(x, name) implies #[trigger] g2.holds_atom(x, name) by {
        let i = choose|i: int| #[trigger] atom_at(g1, i, x, name);
        lemma_atom_at_kept(g1, g2, i, x, name);
    }
    assert forall|x: Id, f: Id, a: Id| g1.holds_app(x, f, a) implies #[trigger] g2.holds_app(x, f, a) by {
        let n = Node::App(f, a);
        lemma_stood_for_kept(g1, g2, n, x);
    }
    assert forall|x: Id, op: Seq<char>, b: Id| g1.holds_binder(x, op, b) implies #[trigger] g2.holds_binder(x, op, b) by {
        let s = choose|s: u32|
            (s as int) < g1.symbols@.len() && g1.symbols@[s as int]@ == op
                && node_at_ok(g1, Node::Binder(s, b), x)
                && #[trigger] stood_for(g1, e1, Node::Binder(s, b), x);
        let n = Node::Binder(s, b);
        lemma_stood_for_kept(g1, g2, n, x);
        lemma_holds_binder(g2, x, op, b, s);
    }
}

/// An e-node stood for in `g1` is stood for in an e-graph that extends
/// `g1`, keeps its e-nodes and its symbols.
proof fn lemma_stood_for_kept(g1: EGraph, g2: EGraph, n: Node, x: Id)
    requires
        g1.wf(),
        g2.wf(),
        g1.extends(g2),
        g2.symbols == g1.symbols,
        kept(g2, memo_entries(g1.memo), memo_entries(g1.memo).len() as int, memo_entries(g2.memo)),
        node_at_ok(g1, n, x),
        stood_for(g1, memo_entries(g1.memo), n, x),
    ensures
        node_at_ok(g2, n, x),
        stood_for(g2, memo_entries(g2.memo), n, x),
{
    let e1 = memo_entries(g1.memo);
    let e2 = memo_entries(g2.memo);
    let (i, l1) = choose|i: int, l: Seq<bool>| #[trigger] stands_for(g1, e1, i, l, n, x);
    lemma_stands_for_extends(g1, g2, e1, e1, i, l1, n, x);
    let (k, r) = e1[i];
    let cr = class_id(g2, r as int);
    assert(stood_for(g2, e2, node_of(k), cr));
    let (j, l2) = choose|j: int, l: Seq<bool>| #[trigger] stands_for(g2, e2, j, l, node_of(k), cr);
    lemma_stands_for_chain(g2, e1, i, l1, e2, j, l2, n, x);
    assert(stands_for(g2, e2, j, compose_seq(l1, l2), n, x));
}

/// The atom `op` is `op` applied to nothing.
pub(crate) proof fn lemma_holds_apps_atom(g: EGraph, x: Id, op: Seq<char>)
    requires
        g.holds_atom(x, op),
    ensures
        g.holds_apps(x, op, Seq::<Id>::empty()),
{
}

/// Applying a class that holds `(op a1 ... an)` to `a` gives one that holds
/// `(op a1 ... an a)`.
pub(crate) proof fn lemma_holds_apps_step(g: EGraph, x: Id, p: Id, op: Seq<char>, arguments: Seq<Id>, a: Id)
    requires
        g.holds_app(x, p, a),
        g.holds_apps(p, op, arguments),
    ensures
        g.holds_apps(x, op, arguments.push(a)),
{
    assert(arguments.push(a).drop_last() =~= arguments);
    assert(arguments.push(a).last() == a);
}

/// Curried applications persist as their parts do.
proof fn lemma_holds_apps_persist(g1: EGraph, g2: EGraph, x: Id, op: Seq<char>, arguments: Seq<Id>)
    requires
        g1.wf(),
        g2.wf(),
        g1.extends(g2),
        g1.keeps_table(g2),
        g1.holds_apps(x, op, arguments),
    ensures
        g2.holds_apps(x, op, arguments),
    decreases arguments.len(),
{
    law_holds_persist(g1, g2);
    if arguments.len() > 0 {
        let p = choose|p: Id|
            #[trigger] g1.holds_app(x, p, arguments.last()) && g1.holds_apps(p, op, arguments.drop_last());
        lemma_holds_apps_persist(g1, g2, p, op, arguments.drop_last());
        assert(g2.holds_app(x, p, arguments.last()));
    }
}

/// What a class holds in curried form, it still holds in any e-graph that
/// extends its own and keeps its table.
pub proof fn law_holds_apps_persist(g1: EGraph, g2: EGraph)
    requires
        g1.wf(),
        g2.wf(),
        g1.extends(g2),
        g1.keeps_table(g2),
    ensures
        forall|x: Id, op: Seq<char>, arguments: Seq<Id>|
            g1.holds_apps(x, op, arguments) ==> #[trigger] g2.holds_apps(x, op, arguments),
{
    assert forall|x: Id, op: Seq<char>, arguments: Seq<Id>| g1.holds_apps(x, op, arguments) implies #[trigger] g2.holds_apps(
        x,
        op,
        arguments,
    ) by {
        lemma_holds_apps_persist(g1, g2, x, op, arguments);
    }
}

/// Curried applications survive a rebuild as their parts do.
proof fn lemma_rebuild_holds_apps(g1: EGraph, g2: EGraph, x: Id, op: Seq<char>, arguments: Seq<Id>)
    requires
        g1.wf(),
        g2.wf(),
        g1.extends(g2),
        g1.keeps_nodes(g2),
        g2.same_symbols(g1),
        g1.holds_apps(x, op, arguments),
    ensures
        g2.holds_apps(x, op, arguments),
    decreases arguments.len(),
{
    law_rebuild_holds(g1, g2);
    if arguments.len() > 0 {
        let p = choose|p: Id|
            #[trigger] g1.holds_app(x, p, arguments.last()) && g1.holds_apps(p, op, arguments.drop_last());
        lemma_rebuild_holds_apps(g1, g2, p, op, arguments.drop_last());
        assert(g2.holds_app(x, p, arguments.last()));
    }
}

/// What a class holds in curried form, it still holds after a rebuild.
pub proof fn law_rebuild_holds_apps(g1: EGraph, g2: EGraph)
    requires
        g1.wf(),
        g2.wf(),
        g1.extends(g2),
        g1.keeps_nodes(g2),
        g2.same_symbols(g1),
    ensures
        forall|x: Id, op: Seq<char>, arguments: Seq<Id>|
            g1.holds_apps(x, op, arguments) ==> #[trigger] g2.holds_apps(x, op, arguments),
{
    assert forall|x: Id, op: Seq<char>, arguments: Seq<Id>| g1.holds_apps(x, op, arguments) implies #[trigger] g2.holds_apps(
        x,
        op,
        arguments,
    ) by {
        lemma_rebuild_holds_apps(g1, g2, x, op, arguments);
    }
}

/// What is held in one e-graph and carried to a second and then a third
/// is held in the third.
pub proof fn lemma_holds_within_trans(g1: EGraph, g2: EGraph, g3: EGraph)
    requires
        g1.holds_within(g2),
        g2.holds_within(g3),
    ensures
        g1.holds_within(g3),
{
}

/// An e-graph holds what it holds.
pub proof fn lemma_holds_within_refl(g: EGraph)
    ensures
        g.holds_within(g),
{
}

/// Extending an e-graph and keeping its table keeps what it holds.
/// A kept table keeps every symbol.
pub(crate) proof fn lemma_keeps_table_symbols(g1: EGraph, g2: EGraph)
    requires
        g1.keeps_table(g2),
    ensures
        g1.symbols_len() <= g2.symbols_len(),
{
    lemma_egraph_specs(g1);
    lemma_egraph_specs(g2);
}

pub(crate) proof fn lemma_holds_within_table(g1: EGraph, g2: EGraph)
    requires
        g1.wf(),
        g2.wf(),
        g1.extends(g2),
        g1.keeps_table(g2),
    ensures
        g1.holds_within(g2),
{
    law_holds_persist(g1, g2);
    law_holds_apps_persist(g1, g2);
}

/// A rebuild keeps what the e-graph holds.
pub(crate) proof fn lemma_holds_within_rebuild(g1: EGraph, g2: EGraph)
    requires
        g1.wf(),
        g2.wf(),
        g1.extends(g2),
        g1.keeps_nodes(g2),
        g2.same_symbols(g1),
    ensures
        g1.holds_within(g2),
{
    law_rebuild_holds(g1, g2);
    law_rebuild_holds_apps(g1, g2);
}

/// What `holds_within` says, clause by clause.
pub proof fn lemma_holds_within_use(g1: EGraph, g2: EGraph)
    requires
        g1.holds_within(g2),
    ensures
        forall|x: Id, index: nat| g1.holds_var(x, index) ==> #[trigger] g2.holds_var(x, index),
        forall|x: Id, name: Seq<char>| g1.holds_atom(x, name) ==> #[trigger] g2.holds_atom(x, name),
        forall|x: Id, f: Id, a: Id| g1.holds_app(x, f, a) ==> #[trigger] g2.holds_app(x, f, a),
        forall|x: Id, op: Seq<char>, b: Id| g1.holds_binder(x, op, b) ==> #[trigger] g2.holds_binder(x, op, b),
        forall|x: Id, op: Seq<char>, arguments: Seq<Id>|
            g1.holds_apps(x, op, arguments) ==> #[trigger] g2.holds_apps(x, op, arguments),
{
}

} // verus!
