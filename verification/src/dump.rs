//! A deterministic, low-level view of every e-class, for debugging.
use vstd::prelude::*;
use crate::seqs::lemma_count_all_true;
use crate::lift::{Lift, all_true};
use crate::id::{Id, RAW_MASK, show_spec, lemma_id_lift_inv};
use crate::memo::memo_len;
use crate::unionfind::{ctx_at, id_valid, is_root};
use crate::egraph::{EGraph, Node, node_ok, wf_body, lemma_egraph_specs, lemma_extends_trans};
use crate::term::{atom_text, write_atom};
use crate::text::{push_str, push_char, push_decimal, decimal, has_prefix};

verus! {

/// Number of roots among the first `n` raw classes.
pub(crate) open spec fn roots_below(parent: Seq<Id>, n: int) -> nat
    decreases n,
{
    if n <= 0 {
        0
    } else {
        roots_below(parent, n - 1) + if is_root(parent, n - 1) { 1nat } else { 0nat }
    }
}

/// Appending keeps a prefix.
proof fn lemma_prefix_grow(a: Seq<char>, b: Seq<char>, p: Seq<char>)
    requires
        has_prefix(a, p),
        has_prefix(b, a),
    ensures
        has_prefix(b, p),
{
    assert(b.take(p.len() as int) =~= a.take(p.len() as int));
}

/// The first line of a dump.
pub open spec fn dump_header(classes: nat, nodes: nat) -> Seq<char> {
    "egraph: "@ + decimal(classes) + " classes, "@ + decimal(nodes) + " e-nodes"@
}

/// An e-graph without raw classes has no e-classes.
pub(crate) proof fn lemma_class_count_empty(g: EGraph)
    requires
        g.parent@.len() == 0,
    ensures
        g.class_count_spec() == 0,
{
}

impl EGraph {
    /// Number of e-classes: the roots of the union-find.
    pub closed spec fn class_count_spec(self) -> nat {
        roots_below(self.parent@, self.parent@.len() as int)
    }

    /// Number of e-classes.
    pub fn class_count(&self) -> (r: usize)
        requires
            self.wf(),
        ensures
            r == self.class_count_spec(),
    {
        proof {
            lemma_egraph_specs(*self);
        }
        let mut count: usize = 0;
        let mut raw: usize = 0;
        while raw < self.parent.len()
            invariant
                raw <= self.parent@.len(),
                self.parent@.len() <= RAW_MASK + 1,
                count == roots_below(self.parent@, raw as int),
                count <= raw,
            decreases self.parent@.len() - raw,
        {
            if self.parent[raw].raw() == raw as u32 {
                count = count + 1;
            }
            raw = raw + 1;
        }
        count
    }

    /// How an e-node is shown: `var`, an atom, `(f a)` of placed IDs, or
    /// `(@op body)`.
    fn push_node_text(&self, out: &mut String, node: Node)
        requires
            self.wf(),
            node matches Node::Atom(s) ==> (s as int) < self.symbols@.len(),
            node matches Node::Binder(s, _) ==> (s as int) < self.symbols@.len(),
        ensures
            exists|x: Seq<char>| final(out)@ == old(out)@ + x,
    {
        let ghost o = out@;
        match node {
            Node::Var => push_str(out, "var"),
            Node::Atom(s) => write_atom(out, self.symbols[s as usize].as_str(), false),
            Node::App(function, argument) => {
                push_char(out, '(');
                let f = function.show();
                push_str(out, f.as_str());
                push_char(out, ' ');
                let a = argument.show();
                push_str(out, a.as_str());
                push_char(out, ')');
            },
            Node::Binder(op, body) => {
                push_str(out, "(@");
                write_atom(out, self.symbols[op as usize].as_str(), false);
                push_char(out, ' ');
                let b = body.show();
                push_str(out, b.as_str());
                push_char(out, ')');
            },
        }
        proof {
            assert(out@ =~= o + out@.skip(o.len() as int));
        }
    }

    /// Every e-class with its context, a smallest representative term, and
    /// its e-nodes, each with the lift that embeds its own context into the
    /// class context. The first line counts classes and e-nodes.
    pub fn dump(&mut self) -> (r: String)
        requires
            old(self).wf(),
        ensures
            final(self).wf(),
            old(self).extends(*final(self)),
            exists|g: EGraph| old(self).extends(g) && g.extends(*final(self)) && #[trigger] has_prefix(
                r@,
                dump_header(g.class_count_spec(), g.node_len()),
            ),
            old(self).len() == 0 && old(self).node_len() == 0 ==> r@ == dump_header(0, 0),
    {
        let ghost s0 = *self;
        self.rebuild();
        let ghost s1 = *self;
        let classes = self.class_count();
        let nodes = memo_len(&self.memo);
        let mut out = String::new();
        push_str(&mut out, "egraph: ");
        push_decimal(&mut out, classes);
        push_str(&mut out, " classes, ");
        push_decimal(&mut out, nodes);
        push_str(&mut out, " e-nodes");
        let ghost header = out@;
        proof {
            lemma_egraph_specs(s1);
            assert(header == dump_header(s1.class_count_spec(), s1.node_len()));
        }
        let len = self.parent.len();
        let mut raw: usize = 0;
        proof {
            assert(out@.take(header.len() as int) =~= header);
        }
        while raw < len
            invariant
                self.wf(),
                s1.extends(*self),
                s0.extends(s1),
                len == s1.parent@.len(),
                raw <= len,
                has_prefix(out@, header),
                len == 0 ==> out@ == header,
            decreases len - raw,
        {
            proof {
                lemma_egraph_specs(s1);
                lemma_egraph_specs(*self);
                assert(self.class_ctx(raw as int) == s1.class_ctx(raw as int));
                assert(self.len() >= s1.len());
            }
            if self.parent[raw].raw() == raw as u32 {
                let ctx = self.parent[raw].ctx();
                let ghost before = out@;
                proof {
                    lemma_id_lift_inv(self.parent@[raw as int]);
                    lemma_count_all_true(ctx as nat);
                    let _ = self.rank@[raw as int];
                }
                let id = Id::new(Lift::identity(ctx), raw as u32);
                push_char(&mut out, '\n');
                push_char(&mut out, 'e');
                push_decimal(&mut out, raw);
                push_str(&mut out, " = ctx");
                push_decimal(&mut out, ctx);
                push_str(&mut out, " |-> ");
                let ghost before_extract = *self;
                match self.extract(&id) {
                    None => push_str(&mut out, "<recursive>"),
                    Some(term) => {
                        let named = term.display();
                        let text = named.to_string();
                        push_str(&mut out, text.as_str());
                    },
                }
                proof {
                    lemma_extends_trans(s1, before_extract, *self);
                    lemma_egraph_specs(*self);
                    assert(out@.take(before.len() as int) =~= before);
                    lemma_prefix_grow(before, out@, header);
                }
                let count = self.rev[raw].len();
                let mut k: usize = 0;
                while k < count
                    invariant
                        self.wf(),
                        wf_body(*self),
                        (raw as int) < self.parent@.len(),
                        raw <= RAW_MASK,
                        count == self.rev@[raw as int]@.len(),
                        k <= count,
                        has_prefix(out@, header),
                    decreases count - k,
                {
                    let (node, lift) = self.rev[raw][k];
                    proof {
                        let _ = self.rev@[raw as int]@[k as int];
                    }
                    let ghost start = out@;
                    push_str(&mut out, "\n  ");
                    let placed = Id::new(lift, raw as u32);
                    let shown = placed.show();
                    push_str(&mut out, shown.as_str());
                    push_str(&mut out, " <- ");
                    let ghost mid = out@;
                    self.push_node_text(&mut out, node);
                    proof {
                        assert(mid.take(start.len() as int) =~= start);
                        lemma_prefix_grow(start, mid, header);
                        let x = choose|x: Seq<char>| out@ == mid + x;
                        assert(out@.take(mid.len() as int) =~= mid);
                        lemma_prefix_grow(mid, out@, header);
                    }
                    k = k + 1;
                }
            }
            raw = raw + 1;
        }
        proof {
            lemma_extends_trans(s0, s1, *self);
        }
        out
    }
}

} // verus!
