//! Fat e-class IDs: a raw e-class number together with the lift that places
//! the class's own context into an ambient context.
use vstd::prelude::*;
use crate::bits::{bit, top, lemma_pack, lemma_id_split, lemma_bits_equal, lemma_top_bit};
use crate::seqs::{count_true, compose_seq};
use crate::lift::{Lift, lemma_view_injective, lemma_lift_len, lift_of, lemma_lift_of};
use crate::text::{push_char, push_str, push_decimal, decimal};

verus! {

/// The largest raw e-class number that fits beside a lift.
pub const RAW_MASK: u32 = 0xff_ffffu32;

/// Upper 8 bits encode the lift; lower 24 bits hold the raw class number.
#[derive(Clone, Copy, Debug, PartialEq, Eq, Hash, Structural)]
pub struct Id(pub(crate) u32);

impl Id {
    #[verifier::type_invariant]
    pub(crate) open spec fn inv(self) -> bool {
        (self.0 >> 24u32) as u8 >= 1
    }

    /// The lift part.
    pub closed spec fn lift_spec(self) -> Lift {
        Lift((self.0 >> 24u32) as u8)
    }

    /// The raw class number.
    pub closed spec fn raw_spec(self) -> u32 {
        self.0 & RAW_MASK
    }

    /// The size of the ambient context.
    pub open spec fn ctx_spec(self) -> nat {
        self.lift_spec()@.len()
    }
}

/// An ID is determined by its lift and its raw number.
pub proof fn lemma_id_ext(a: Id, b: Id)
    requires
        a.lift_spec() == b.lift_spec(),
        a.raw_spec() == b.raw_spec(),
    ensures
        a == b,
{
    lemma_id_split(a.0);
    lemma_id_split(b.0);
}

/// The ID of raw class `raw` placed through the flags `s`.
pub(crate) open spec fn id_of(s: Seq<bool>, raw: u32) -> Id {
    Id(((lift_of(s).0 as u32) << 24u32) | raw)
}

/// Every placement of a raw class through at most seven flags is an ID.
pub(crate) proof fn lemma_id_of(s: Seq<bool>, raw: u32)
    requires
        s.len() <= 7,
        raw <= RAW_MASK,
    ensures
        id_of(s, raw).lift_spec()@ == s,
        id_of(s, raw).raw_spec() == raw,
        id_of(s, raw).inv(),
{
    lemma_lift_of(s);
    lemma_pack(lift_of(s).0, raw);
    assert(id_of(s, raw).lift_spec() == lift_of(s));
}

/// Two valid IDs are equal exactly when their flags and raw numbers are.
pub(crate) proof fn lemma_id_eq(a: Id, b: Id)
    requires
        a.inv(),
        b.inv(),
    ensures
        (a == b) <==> (a.lift_spec()@ == b.lift_spec()@ && a.raw_spec() == b.raw_spec()),
{
    if a.lift_spec()@ == b.lift_spec()@ && a.raw_spec() == b.raw_spec() {
        lemma_view_injective(a.lift_spec(), b.lift_spec());
        lemma_id_ext(a, b);
    }
}

/// The lift of a valid ID is a valid lift.
pub(crate) proof fn lemma_id_lift_inv(a: Id)
    requires
        a.inv(),
    ensures
        a.lift_spec().inv(),
        a.ctx_spec() <= 7,
{
    lemma_lift_len(a.lift_spec());
}

impl Id {
    pub(crate) fn new(lift: Lift, raw: u32) -> (r: Id)
        requires
            raw <= RAW_MASK,
        ensures
            r.lift_spec() == lift,
            r.raw_spec() == raw,
    {
        proof {
            use_type_invariant(&lift);
            lemma_pack(lift.0, raw);
        }
        Id(((lift.0 as u32) << 24u32) | raw)
    }

    pub fn lift(&self) -> (r: Lift)
        ensures
            r == self.lift_spec(),
    {
        proof {
            use_type_invariant(self);
        }
        Lift((self.0 >> 24u32) as u8)
    }

    pub fn raw(&self) -> (r: u32)
        ensures
            r == self.raw_spec(),
            r <= RAW_MASK,
    {
        proof {
            lemma_id_split(self.0);
        }
        self.0 & RAW_MASK
    }

    pub fn ctx(&self) -> (r: usize)
        ensures
            r == self.ctx_spec(),
            r <= 7,
    {
        self.lift().cod()
    }

    /// Place this ID further out through `by`, whose domain is this ID's
    /// ambient context.
    pub(crate) fn weaken(&self, by: &Lift) -> (r: Id)
        requires
            count_true(by@) == self.ctx_spec(),
        ensures
            r.raw_spec() == self.raw_spec(),
            r.lift_spec()@ == compose_seq(by@, self.lift_spec()@),
    {
        let l = by.compose(&self.lift());
        Id::new(l, self.raw())
    }
}

/// Resizing a lift past unused variables keeps its domain.
pub proof fn lemma_resize_count(l: Seq<bool>, n: nat)
    requires
        forall|i: int| n <= i < l.len() ==> !l[i],
    ensures
        count_true(resize_seq(l, n)) == count_true(l),
{
    let r = resize_seq(l, n);
    let m = if n <= l.len() { n as int } else { l.len() as int };
    crate::seqs::lemma_count_trailing_false(l, m);
    crate::seqs::lemma_count_trailing_false(r, m);
    assert(r.take(m) =~= l.take(m));
}

/// The flags of `l` viewed in a context of `n` variables: variables past
/// the old end are unused.
pub open spec fn resize_seq(l: Seq<bool>, n: nat) -> Seq<bool> {
    Seq::new(n, |i: int| i < l.len() && l[i])
}

impl Id {
    /// View the same e-class in a prefix-related context. Growing the context
    /// introduces unused variables; shrinking is possible only when none of
    /// the discarded variables is used.
    pub fn in_context(&self, ctx: usize) -> (r: Option<Id>)
        requires
            ctx <= 7,
        ensures
            r is None <==> (ctx < self.ctx_spec() && exists|i: int|
                ctx <= i < self.ctx_spec() && self.lift_spec()@[i]),
            r matches Some(x) ==> x.raw_spec() == self.raw_spec() && x.lift_spec()@ == resize_seq(
                self.lift_spec()@,
                ctx as nat,
            ),
    {
        let lift = self.lift();
        let old_ctx = lift.cod();
        if ctx < old_ctx {
            let mut i = ctx;
            while i < old_ctx
                invariant
                    ctx <= i <= old_ctx,
                    old_ctx == lift@.len(),
                    lift == self.lift_spec(),
                    forall|k: int| ctx <= k < i ==> !lift@[k],
                decreases old_ctx - i,
            {
                if lift.get(i) {
                    proof {
                        assert(ctx <= i < self.ctx_spec() && self.lift_spec()@[i as int]);
                    }
                    return None;
                }
                i = i + 1;
            }
            proof {
                assert(!(exists|i: int| ctx <= i < self.ctx_spec() && self.lift_spec()@[i]));
            }
        }
        let sb = lift.selected_bits();
        let l = Lift::from_bits(sb, ctx);
        proof {
            assert(l@ =~= resize_seq(lift@, ctx as nat));
        }
        Some(Id::new(l, self.raw()))
    }

    /// Drop ambient variable `index`, which must be unused.
    pub(crate) fn remove_context_variable(&self, index: usize) -> (r: Option<Id>)
        requires
            index < self.ctx_spec(),
        ensures
            self.lift_spec()@[index as int] ==> r is None,
            !self.lift_spec()@[index as int] ==> (r matches Some(x) && x.raw_spec() == self.raw_spec()
                && x.lift_spec()@ == self.lift_spec()@.remove(index as int)),
    {
        match self.lift().remove(index) {
            None => None,
            Some(l) => Some(Id::new(l, self.raw())),
        }
    }

    /// `eN` for an identity placement, `l_BITS(eN)` otherwise.
    pub fn show(&self) -> (r: String)
        ensures
            r@ == show_spec(self.lift_spec()@, self.raw_spec()),
    {
        let lift = self.lift();
        let mut s = String::new();
        if lift.is_identity() {
            push_char(&mut s, 'e');
            push_decimal(&mut s, self.raw() as usize);
        } else {
            let b = lift.bits();
            push_str(&mut s, "l_");
            push_str(&mut s, b.as_str());
            push_str(&mut s, "(e");
            push_decimal(&mut s, self.raw() as usize);
            push_char(&mut s, ')');
        }
        proof {
            reveal_strlit("l_");
            reveal_strlit("(e");
            assert(s@ =~= show_spec(self.lift_spec()@, self.raw_spec()));
        }
        s
    }
}

/// The text of a lift's flags, `1` for selected and `0` for unused.
pub open spec fn flags_text(l: Seq<bool>) -> Seq<char> {
    Seq::new(l.len(), |i: int| if l[i] { '1' } else { '0' })
}

/// How an ID is shown: `eN`, or `l_FLAGS(eN)` when not the identity.
pub open spec fn show_spec(l: Seq<bool>, raw: u32) -> Seq<char> {
    if l == Seq::new(l.len(), |i: int| true) {
        seq!['e'] + decimal(raw as nat)
    } else {
        seq!['l', '_'] + flags_text(l) + seq!['(', 'e'] + decimal(raw as nat) + seq![')']
    }
}

} // verus!
