//! Lifts: order-preserving injections of one variable context into another,
//! packed into one byte. The highest set bit records the codomain length;
//! the bits below it select where each domain variable occurs.
use vstd::prelude::*;
use crate::bits::{bit, mask_value, top, lemma_bit_or, lemma_bit_and, lemma_bit_single, lemma_bit_zero, lemma_bit_mask, lemma_bit_test, lemma_top_unique, lemma_bits_equal, lemma_shift_down, lemma_shift_positive, lemma_top_bit};
use crate::text::push_char;
use crate::seqs::{count_true, rank, compose_seq, or_seq, and_seq, subset_seq, lemma_count_take_step, lemma_rank_bounds, lemma_rank_selected, lemma_rank_full, lemma_rank_monotone, lemma_rank_surjective, lemma_rank_injective, lemma_count_all_true, lemma_rank_all_true, lemma_count_none_true, lemma_compose_rank, lemma_compose_count, lemma_count_le_len, lemma_rank_zero};

verus! {

/// The first `n` bits of `x`, as a sequence of flags.
pub open spec fn bits_seq(x: u8, n: nat) -> Seq<bool> {
    Seq::new(n, |i: int| bit(x, i))
}

/// An order-preserving injection into an ambient context.
#[derive(Clone, Copy, Debug, PartialEq, Eq, Hash, Structural)]
pub struct Lift(pub(crate) u8);

impl Lift {
    #[verifier::type_invariant]
    pub(crate) open spec fn inv(self) -> bool {
        self.0 >= 1
    }

    /// The packed byte.
    pub(crate) open spec fn byte(self) -> u8 {
        self.0
    }
}

impl View for Lift {
    type V = Seq<bool>;

    /// Flag `i` says whether ambient variable `i` is in the image.
    closed spec fn view(&self) -> Seq<bool> {
        bits_seq(self.byte(), top(self.byte()))
    }
}

/// The all-selected flags of length `n`.
pub open spec fn all_true(n: nat) -> Seq<bool> {
    Seq::new(n, |i: int| true)
}

/// The flags of length `n` with only `i` selected.
pub open spec fn single_true(n: nat, i: int) -> Seq<bool> {
    Seq::new(n, |k: int| k == i)
}

pub(crate) fn mask(n: usize) -> (m: u8)
    requires
        n <= 7,
    ensures
        m == mask_value(n as u8),
{
    if n == 0 {
        0
    } else {
        proof {
            lemma_shift_positive(n as u8);
        }
        (1u8 << (n as u8)) - 1
    }
}

proof fn lemma_from_bits_value(bits: u8, n: u8, x: u8)
    requires
        n <= 7,
        x == (1u8 << n) | (bits & mask_value(n)),
    ensures
        x >= 1,
        forall|i: int| 0 <= i < 8 ==> bit(x, i) == (i == n || (i < n && bit(bits, i))),
        top(x) == n,
        bits_seq(x, top(x)) == bits_seq(bits, n as nat),
{
    assert forall|i: int| 0 <= i < 8 implies bit(x, i) == (i == n || (i < n && bit(bits, i))) by {
        lemma_bit_or(1u8 << n, bits & mask_value(n), i as u8);
        lemma_bit_and(bits, mask_value(n), i as u8);
        lemma_bit_single(n, i as u8);
        lemma_bit_mask(n, i as u8);
    }
    assert(bit(x, n as int));
    if x == 0 {
        lemma_bit_zero(n);
    }
    lemma_top_unique(x, n as int);
    assert(bits_seq(x, top(x)) =~= bits_seq(bits, n as nat));
}

/// The byte whose low bits are the flags `s`.
pub(crate) open spec fn flags_byte(s: Seq<bool>) -> u8
    decreases s.len(),
{
    if s.len() == 0 {
        0u8
    } else {
        flags_byte(s.drop_last()) | (if s.last() { 1u8 << ((s.len() - 1) as u8) } else { 0u8 })
    }
}

proof fn lemma_flags_byte(s: Seq<bool>)
    requires
        s.len() <= 7,
    ensures
        forall|i: int| 0 <= i < s.len() ==> bit(flags_byte(s), i) == s[i],
    decreases s.len(),
{
    if s.len() > 0 {
        let t = s.drop_last();
        let m = (s.len() - 1) as u8;
        lemma_flags_byte(t);
        let hi = if s.last() { 1u8 << m } else { 0u8 };
        assert forall|i: int| 0 <= i < s.len() implies bit(flags_byte(s), i) == s[i] by {
            lemma_bit_or(flags_byte(t), hi, i as u8);
            lemma_bit_single(m, i as u8);
            if !s.last() {
                lemma_bit_zero(i as u8);
            }
            if i < m {
                assert(s[i] == t[i]);
            } else {
                assert(bit(flags_byte(t), i) == false) by {
                    lemma_flags_byte_high(t, i as u8);
                }
            }
        }
    }
}

proof fn lemma_flags_byte_high(s: Seq<bool>, i: u8)
    requires
        s.len() <= 7,
        s.len() <= i < 8,
    ensures
        !bit(flags_byte(s), i as int),
    decreases s.len(),
{
    if s.len() > 0 {
        let t = s.drop_last();
        let m = (s.len() - 1) as u8;
        lemma_flags_byte_high(t, i);
        let hi = if s.last() { 1u8 << m } else { 0u8 };
        lemma_bit_or(flags_byte(t), hi, i);
        lemma_bit_single(m, i);
        if !s.last() {
            lemma_bit_zero(i);
        }
    } else {
        lemma_bit_zero(i);
    }
}

/// The lift whose flags are `s`.
pub(crate) open spec fn lift_of(s: Seq<bool>) -> Lift {
    Lift((1u8 << (s.len() as u8)) | (flags_byte(s) & mask_value(s.len() as u8)))
}

/// Every list of at most seven flags is a lift.
pub(crate) proof fn lemma_lift_of(s: Seq<bool>)
    requires
        s.len() <= 7,
    ensures
        lift_of(s)@ == s,
        lift_of(s).inv(),
{
    let n = s.len() as u8;
    let x = (1u8 << n) | (flags_byte(s) & mask_value(n));
    lemma_from_bits_value(flags_byte(s), n, x);
    lemma_flags_byte(s);
    assert(bits_seq(flags_byte(s), n as nat) =~= s);
}

impl Lift {
    pub(crate) fn from_bits(bits: u8, n: usize) -> (r: Lift)
        requires
            n <= 7,
        ensures
            r@ == bits_seq(bits, n as nat),
    {
        let m = mask(n);
        let x = (1u8 << (n as u8)) | (bits & m);
        proof {
            lemma_from_bits_value(bits, n as u8, x);
        }
        Lift(x)
    }

    /// The identity lift on an `n`-variable context.
    pub fn identity(n: usize) -> (r: Lift)
        requires
            n <= 7,
        ensures
            r@ == all_true(n as nat),
    {
        let m = mask(n);
        let r = Self::from_bits(m, n);
        proof {
            assert forall|i: int| 0 <= i < n implies bit(m, i) by {
                lemma_bit_mask(n as u8, i as u8);
            }
            assert(r@ =~= all_true(n as nat));
        }
        r
    }

    /// The lift of the empty context into an `n`-variable context.
    pub(crate) fn unused(n: usize) -> (r: Lift)
        requires
            n <= 7,
        ensures
            r@ == Seq::new(n as nat, |i: int| false),
    {
        let r = Self::from_bits(0, n);
        proof {
            assert forall|i: int| 0 <= i < n implies !bit(0u8, i) by {
                lemma_bit_zero(i as u8);
            }
            assert(r@ =~= Seq::new(n as nat, |i: int| false));
        }
        r
    }

    /// The lift of a one-variable context onto variable `i` of `n`.
    pub fn select(n: usize, i: usize) -> (r: Lift)
        requires
            i < n <= 7,
        ensures
            r@ == single_true(n as nat, i as int),
    {
        let b = 1u8 << (i as u8);
        let r = Self::from_bits(b, n);
        proof {
            assert forall|k: int| 0 <= k < n implies bit(b, k) == (k == i) by {
                lemma_bit_single(i as u8, k as u8);
            }
            assert(r@ =~= single_true(n as nat, i as int));
        }
        r
    }

    /// The codomain length: the size of the ambient context.
    pub fn cod(&self) -> (r: usize)
        ensures
            r == self@.len(),
            r <= 7,
    {
        let x = self.0;
        if x >= 128 {
            7
        } else if x >= 64 {
            6
        } else if x >= 32 {
            5
        } else if x >= 16 {
            4
        } else if x >= 8 {
            3
        } else if x >= 4 {
            2
        } else if x >= 2 {
            1
        } else {
            0
        }
    }

    /// The selecting bits, with the length marker cleared.
    pub(crate) fn selected_bits(&self) -> (r: u8)
        ensures
            forall|i: int| 0 <= i < 8 ==> bit(r, i) == (i < self@.len() && self@[i]),
    {
        let n = self.cod();
        let r = self.0 & mask(n);
        proof {
            assert forall|i: int| 0 <= i < 8 implies bit(r, i) == (i < self@.len() && self@[i]) by {
                lemma_bit_and(self.0, mask_value(n as u8), i as u8);
                lemma_bit_mask(n as u8, i as u8);
            }
        }
        r
    }

    /// Whether ambient variable `i` is in the image.
    pub fn get(&self, i: usize) -> (r: bool)
        requires
            i < self@.len(),
        ensures
            r == self@[i as int],
    {
        let sb = self.selected_bits();
        proof {
            lemma_bit_test(sb, i as u8);
            assert(bit(sb, i as int) == self@[i as int]);
        }
        sb & (1u8 << (i as u8)) != 0
    }

    /// The domain length: how many ambient variables are selected.
    pub fn dom(&self) -> (r: usize)
        ensures
            r == count_true(self@),
            r <= self@.len(),
    {
        let n = self.cod();
        let mut c: usize = 0;
        let mut i: usize = 0;
        while i < n
            invariant
                n == self@.len(),
                i <= n,
                c == count_true(self@.take(i as int)),
                c <= i,
            decreases n - i,
        {
            proof {
                lemma_count_take_step(self@, i as int);
            }
            if self.get(i) {
                c = c + 1;
            }
            i = i + 1;
        }
        proof {
            assert(self@.take(n as int) =~= self@);
            lemma_count_le_len(self@);
        }
        c
    }
}


/// No bit of zero is set.
pub proof fn lemma_zero_bits()
    ensures
        forall|k: int| !bit(0u8, k),
{
    assert forall|k: int| !bit(0u8, k) by {
        if 0 <= k < 8 {
            lemma_bit_zero(k as u8);
        }
    }
}

/// Set bit `i` of `bits`.
pub(crate) fn set_bit(bits: u8, i: usize) -> (r: u8)
    requires
        i < 8,
    ensures
        forall|k: int| 0 <= k < 8 ==> bit(r, k) == (bit(bits, k) || k == i),
{
    let r = bits | (1u8 << (i as u8));
    proof {
        assert forall|k: int| 0 <= k < 8 implies bit(r, k) == (bit(bits, k) || k == i) by {
            lemma_bit_or(bits, 1u8 << (i as u8), k as u8);
            lemma_bit_single(i as u8, k as u8);
        }
    }
    r
}

/// The coproduct of two subcontexts of one ambient context: `lift` embeds
/// their union, and `left`/`right` embed each side into that union.
#[derive(Clone, Copy, Debug, PartialEq, Eq, Structural)]
pub(crate) struct Union {
    pub(crate) lift: Lift,
    pub(crate) left: Lift,
    pub(crate) right: Lift,
}

/// The meet of two subcontexts of one ambient context: `diagonal` embeds
/// their intersection, reached through either side.
#[derive(Clone, Copy, Debug, PartialEq, Eq, Structural)]
pub(crate) struct Pullback {
    pub(crate) diagonal: Lift,
    pub(crate) from_left: Lift,
    pub(crate) from_right: Lift,
}

/// The flags of length `n` that select exactly the listed positions.
pub open spec fn selected_seq(n: nat, indices: Seq<usize>) -> Seq<bool> {
    Seq::new(n, |k: int| indices.contains(k as usize))
}

/// Where each selected variable of `s` sits: position `k` holds the index
/// of the `k`-th set flag.
pub open spec fn positions_of(s: Seq<bool>, p: Seq<usize>) -> bool {
    &&& p.len() == count_true(s)
    &&& forall|k: int| 0 <= k < p.len() ==> (p[k] as int) < s.len() && s[p[k] as int] && rank(s, p[k] as int) == k
}

/// The equalizer of two lifts with one domain and one codomain: domain
/// variable `k` is kept exactly when both lifts send it to one variable.
pub open spec fn equalizer_seq(a: Seq<bool>, b: Seq<bool>) -> Seq<bool> {
    Seq::new(
        count_true(a),
        |k: int| exists|i: int| 0 <= i < a.len() && a[i] && b[i] && rank(a, i) == k && rank(b, i) == k,
    )
}

impl Lift {
    /// The lift of the listed variables into an `n`-variable context.
    pub(crate) fn selected(n: usize, indices: &[usize]) -> (r: Lift)
        requires
            n <= 7,
            forall|k: int| 0 <= k < indices@.len() ==> indices@[k] < n,
        ensures
            r@ == selected_seq(n as nat, indices@),
    {
        let mut bits: u8 = 0;
        let mut j: usize = 0;
        proof {
            lemma_zero_bits();
            assert(indices@.take(0) =~= Seq::<usize>::empty());
        }
        while j < indices.len()
            invariant
                n <= 7,
                j <= indices@.len(),
                forall|k: int| 0 <= k < indices@.len() ==> indices@[k] < n,
                forall|k: int| 0 <= k < 8 ==> bit(bits, k) == (k < n && indices@.take(j as int).contains(k as usize)),
            decreases indices@.len() - j,
        {
            let i = indices[j];
            let next = set_bit(bits, i);
            proof {
                assert forall|k: int| 0 <= k < 8 implies bit(next, k) == (k < n && indices@.take(j + 1).contains(k as usize)) by {
                    if indices@.take(j + 1).contains(k as usize) {
                        let w = choose|w: int| 0 <= w < j + 1 && #[trigger] indices@.take(j + 1)[w] == k as usize;
                        if w < j {
                            assert(indices@.take(j as int)[w] == k as usize);
                        }
                    }
                    if indices@.take(j as int).contains(k as usize) {
                        let w = choose|w: int| 0 <= w < j && #[trigger] indices@.take(j as int)[w] == k as usize;
                        assert(indices@.take(j + 1)[w] == k as usize);
                    }
                    if k == i {
                        assert(indices@.take(j + 1)[j as int] == i);
                    }
                }
                if j < 8 {
                    lemma_bit_zero(0);
                }
            }
            bits = next;
            j = j + 1;
        }
        let r = Self::from_bits(bits, n);
        proof {
            assert(indices@.take(indices@.len() as int) =~= indices@);
            assert(r@ =~= selected_seq(n as nat, indices@));
        }
        r
    }

    /// The first `n` variables of the ambient context.
    pub(crate) fn prefix(&self, n: usize) -> (r: Lift)
        requires
            n <= self@.len(),
        ensures
            r@ == self@.take(n as int),
    {
        let sb = self.selected_bits();
        let r = Self::from_bits(sb, n);
        proof {
            assert(r@ =~= self@.take(n as int));
        }
        r
    }

    /// Extend the ambient context by one variable, selected when `keep`.
    pub(crate) fn append(&self, keep: bool) -> (r: Lift)
        requires
            self@.len() < 7,
        ensures
            r@ == self@.push(keep),
    {
        let n = self.cod();
        let sb = self.selected_bits();
        let b = if keep {
            set_bit(sb, n)
        } else {
            sb
        };
        let r = Self::from_bits(b, n + 1);
        proof {
            assert(r@ =~= self@.push(keep));
        }
        r
    }

    /// Drop ambient variable `index`, which must not be selected.
    pub(crate) fn remove(&self, index: usize) -> (r: Option<Lift>)
        requires
            index < self@.len(),
        ensures
            self@[index as int] ==> r is None,
            !self@[index as int] ==> (r matches Some(l) && l@ == self@.remove(index as int)),
    {
        if self.get(index) {
            return None;
        }
        let n = self.cod();
        let sb = self.selected_bits();
        let low_mask = mask(index);
        let low = sb & low_mask;
        let high = (sb >> ((index + 1) as u8)) << (index as u8);
        let b = low | high;
        proof {
            assert forall|i: int| 0 <= i < n - 1 implies bit(b, i) == self@.remove(index as int)[i] by {
                lemma_bit_or(low, high, i as u8);
                lemma_bit_and(sb, low_mask, i as u8);
                lemma_bit_mask(index as u8, i as u8);
                lemma_shift_down(sb, index as u8, i as u8);
                assert(bit(sb, i) == (i < self@.len() && self@[i]));
                assert(bit(sb, i + 1) == (i + 1 < self@.len() && self@[i + 1]));
            }
        }
        let r = Self::from_bits(b, n - 1);
        proof {
            assert(r@ =~= self@.remove(index as int));
        }
        Some(r)
    }

    /// Whether every ambient variable is selected.
    pub(crate) fn is_identity(&self) -> (r: bool)
        ensures
            r == (self@ == all_true(self@.len())),
    {
        let n = self.cod();
        let sb = self.selected_bits();
        let m = mask(n);
        proof {
            assert forall|i: int| 0 <= i < 8 implies bit(m, i) == (i < n) by {
                lemma_bit_mask(n as u8, i as u8);
            }
            if self@ == all_true(self@.len()) {
                assert forall|i: int| 0 <= i < 8 implies bit(sb, i) == bit(m, i) by {
                    if i < n {
                        assert(self@[i]);
                    }
                }
                lemma_bits_equal(sb, m);
            }
            if sb == m {
                assert forall|i: int| 0 <= i < n implies self@[i] by {
                    assert(bit(sb, i));
                }
                assert(self@ =~= all_true(self@.len()));
            }
        }
        sb == m
    }

    /// Compose with a lift into this lift's domain.
    pub fn compose(&self, small: &Lift) -> (r: Lift)
        requires
            count_true(self@) == small@.len(),
        ensures
            r@ == compose_seq(self@, small@),
    {
        let n = self.cod();
        let mut bits: u8 = 0;
        let mut j: usize = 0;
        let mut i: usize = 0;
        proof {
            lemma_zero_bits();
            lemma_rank_zero(self@);
        }
        while i < n
            invariant
                n == self@.len(),
                count_true(self@) == small@.len(),
                i <= n,
                j == rank(self@, i as int),
                forall|k: int| 0 <= k < 8 ==> bit(bits, k) == (k < i && self@[k] && small@[rank(self@, k) as int]),
            decreases n - i,
        {
            proof {
                lemma_count_take_step(self@, i as int);
            }
            if self.get(i) {
                proof {
                    lemma_rank_selected(self@, i as int);
                }
                if small.get(j) {
                    bits = set_bit(bits, i);
                }
                j = j + 1;
            }
            i = i + 1;
        }
        let r = Self::from_bits(bits, n);
        proof {
            assert(r@ =~= compose_seq(self@, small@));
        }
        r
    }

    /// Factor `target` through this lift: the unique lift `r` into this
    /// lift's domain with `self.compose(r) == target`, when one exists.
    pub(crate) fn factor(&self, target: &Lift) -> (r: Option<Lift>)
        ensures
            r is Some <==> (self@.len() == target@.len() && subset_seq(target@, self@)),
            r matches Some(l) ==> l@.len() == count_true(self@) && compose_seq(self@, l@) == target@,
    {
        let n = self.cod();
        if n != target.cod() {
            return None;
        }
        let mut bits: u8 = 0;
        let mut position: usize = 0;
        let mut level: usize = 0;
        proof {
            lemma_zero_bits();
            lemma_rank_zero(self@);
        }
        while level < n
            invariant
                n == self@.len(),
                n == target@.len(),
                level <= n,
                position == rank(self@, level as int),
                forall|k: int| 0 <= k < level ==> (target@[k] ==> self@[k]),
                forall|k: int| 0 <= k < level && self@[k] ==> bit(bits, rank(self@, k) as int) == target@[k],
                forall|p: int| position <= p < 8 ==> !bit(bits, p),
            decreases n - level,
        {
            proof {
                lemma_count_take_step(self@, level as int);
            }
            if target.get(level) && !self.get(level) {
                return None;
            }
            if self.get(level) {
                proof {
                    lemma_rank_selected(self@, level as int);
                    lemma_rank_bounds(self@, level as int);
                    lemma_count_le_len(self@);
                    assert forall|k: int| 0 <= k < level && self@[k] implies rank(self@, k) < position by {
                        lemma_rank_monotone(self@, k, level as int);
                    }
                }
                if target.get(level) {
                    bits = set_bit(bits, position);
                }
                position = position + 1;
            }
            level = level + 1;
        }
        proof {
            lemma_rank_full(self@);
            lemma_count_le_len(self@);
        }
        let r = Self::from_bits(bits, position);
        proof {
            assert forall|k: int| 0 <= k < n implies compose_seq(self@, r@)[k] == target@[k] by {
                if self@[k] {
                    lemma_rank_selected(self@, k);
                }
            }
            assert(compose_seq(self@, r@) =~= target@);
        }
        Some(r)
    }
}


impl Lift {
    /// The union of two subcontexts of one ambient context: their coproduct
    /// in the subcontext lattice.
    pub(crate) fn union(&self, other: &Lift) -> (r: Union)
        requires
            self@.len() == other@.len(),
        ensures
            r.lift@ == or_seq(self@, other@),
            r.left@.len() == count_true(r.lift@),
            r.right@.len() == count_true(r.lift@),
            compose_seq(r.lift@, r.left@) == self@,
            compose_seq(r.lift@, r.right@) == other@,
    {
        let n = self.cod();
        let sa = self.selected_bits();
        let sb = other.selected_bits();
        let union = Self::from_bits(sa | sb, n);
        proof {
            assert forall|i: int| 0 <= i < n implies union@[i] == (self@[i] || other@[i]) by {
                lemma_bit_or(sa, sb, i as u8);
                assert(bit(sa, i) == self@[i]);
                assert(bit(sb, i) == other@[i]);
            }
            assert(union@ =~= or_seq(self@, other@));
            lemma_zero_bits();
            lemma_rank_zero(union@);
        }
        let mut left: u8 = 0;
        let mut right: u8 = 0;
        let mut j: usize = 0;
        let mut i: usize = 0;
        while i < n
            invariant
                n == self@.len(),
                n == other@.len(),
                union@ == or_seq(self@, other@),
                i <= n,
                j == rank(union@, i as int),
                forall|k: int| 0 <= k < i && union@[k] ==> bit(left, rank(union@, k) as int) == self@[k],
                forall|k: int| 0 <= k < i && union@[k] ==> bit(right, rank(union@, k) as int) == other@[k],
                forall|p: int| j <= p < 8 ==> !bit(left, p) && !bit(right, p),
            decreases n - i,
        {
            proof {
                lemma_count_take_step(union@, i as int);
            }
            if union.get(i) {
                proof {
                    lemma_rank_bounds(union@, i as int);
                    assert forall|k: int| 0 <= k < i && union@[k] implies rank(union@, k) < j by {
                        lemma_rank_monotone(union@, k, i as int);
                    }
                }
                if self.get(i) {
                    left = set_bit(left, j);
                }
                if other.get(i) {
                    right = set_bit(right, j);
                }
                j = j + 1;
            }
            i = i + 1;
        }
        proof {
            lemma_rank_full(union@);
            lemma_count_le_len(union@);
        }
        let l = Self::from_bits(left, j);
        let rr = Self::from_bits(right, j);
        proof {
            assert forall|k: int| 0 <= k < n implies compose_seq(union@, l@)[k] == self@[k] by {
                if union@[k] {
                    lemma_rank_selected(union@, k);
                }
            }
            assert forall|k: int| 0 <= k < n implies compose_seq(union@, rr@)[k] == other@[k] by {
                if union@[k] {
                    lemma_rank_selected(union@, k);
                }
            }
            assert(compose_seq(union@, l@) =~= self@);
            assert(compose_seq(union@, rr@) =~= other@);
        }
        Union { lift: union, left: l, right: rr }
    }

    /// The pullback of two lifts into one ambient context: their meet, the
    /// intersection of the two subcontexts.
    pub(crate) fn pullback(&self, other: &Lift) -> (r: Pullback)
        requires
            self@.len() == other@.len(),
        ensures
            r.diagonal@ == and_seq(self@, other@),
            r.from_left@.len() == count_true(self@),
            r.from_right@.len() == count_true(other@),
            compose_seq(self@, r.from_left@) == r.diagonal@,
            compose_seq(other@, r.from_right@) == r.diagonal@,
    {
        let n = self.cod();
        let sa = self.selected_bits();
        let sb = other.selected_bits();
        let diagonal = Self::from_bits(sa & sb, n);
        proof {
            assert forall|i: int| 0 <= i < n implies diagonal@[i] == (self@[i] && other@[i]) by {
                lemma_bit_and(sa, sb, i as u8);
                assert(bit(sa, i) == self@[i]);
                assert(bit(sb, i) == other@[i]);
            }
            assert(diagonal@ =~= and_seq(self@, other@));
            lemma_zero_bits();
            lemma_rank_zero(self@);
            lemma_rank_zero(other@);
        }
        let mut left: u8 = 0;
        let mut right: u8 = 0;
        let mut a: usize = 0;
        let mut b: usize = 0;
        let mut i: usize = 0;
        while i < n
            invariant
                n == self@.len(),
                n == other@.len(),
                i <= n,
                a == rank(self@, i as int),
                b == rank(other@, i as int),
                forall|k: int| 0 <= k < i && self@[k] ==> bit(left, rank(self@, k) as int) == other@[k],
                forall|k: int| 0 <= k < i && other@[k] ==> bit(right, rank(other@, k) as int) == self@[k],
                forall|p: int| a <= p < 8 ==> !bit(left, p),
                forall|p: int| b <= p < 8 ==> !bit(right, p),
            decreases n - i,
        {
            proof {
                lemma_count_take_step(self@, i as int);
                lemma_count_take_step(other@, i as int);
                lemma_rank_bounds(self@, i as int);
                lemma_rank_bounds(other@, i as int);
                assert forall|k: int| 0 <= k < i && self@[k] implies rank(self@, k) < a by {
                    lemma_rank_monotone(self@, k, i as int);
                }
                assert forall|k: int| 0 <= k < i && other@[k] implies rank(other@, k) < b by {
                    lemma_rank_monotone(other@, k, i as int);
                }
            }
            if self.get(i) {
                if other.get(i) {
                    left = set_bit(left, a);
                }
                a = a + 1;
            }
            if other.get(i) {
                if self.get(i) {
                    right = set_bit(right, b);
                }
                b = b + 1;
            }
            i = i + 1;
        }
        proof {
            lemma_rank_full(self@);
            lemma_rank_full(other@);
            lemma_count_le_len(self@);
            lemma_count_le_len(other@);
        }
        let fl = Self::from_bits(left, a);
        let fr = Self::from_bits(right, b);
        proof {
            assert forall|k: int| 0 <= k < n implies compose_seq(self@, fl@)[k] == diagonal@[k] by {
                if self@[k] {
                    lemma_rank_selected(self@, k);
                }
            }
            assert forall|k: int| 0 <= k < n implies compose_seq(other@, fr@)[k] == diagonal@[k] by {
                if other@[k] {
                    lemma_rank_selected(other@, k);
                }
            }
            assert(compose_seq(self@, fl@) =~= diagonal@);
            assert(compose_seq(other@, fr@) =~= diagonal@);
        }
        Pullback { diagonal, from_left: fl, from_right: fr }
    }

    /// The positions of the selected variables, in order.
    fn positions(&self) -> (p: Vec<usize>)
        ensures
            positions_of(self@, p@),
    {
        let n = self.cod();
        let mut p: Vec<usize> = Vec::new();
        let mut i: usize = 0;
        proof {
            lemma_rank_zero(self@);
        }
        while i < n
            invariant
                n == self@.len(),
                i <= n,
                p@.len() == rank(self@, i as int),
                forall|k: int| 0 <= k < p@.len() ==> (p@[k] as int) < i && self@[p@[k] as int] && rank(self@, p@[k] as int) == k,
            decreases n - i,
        {
            proof {
                lemma_count_take_step(self@, i as int);
            }
            if self.get(i) {
                p.push(i);
            }
            i = i + 1;
        }
        proof {
            lemma_rank_full(self@);
        }
        p
    }

    /// The largest subcontext of the shared domain on which the two lifts
    /// agree variable by variable.
    pub(crate) fn equalizer(&self, other: &Lift) -> (r: Lift)
        requires
            self@.len() == other@.len(),
            count_true(self@) == count_true(other@),
        ensures
            r@ == equalizer_seq(self@, other@),
    {
        let ps = self.positions();
        let qs = other.positions();
        let d = self.dom();
        proof {
            lemma_count_le_len(self@);
            lemma_zero_bits();
        }
        let mut bits: u8 = 0;
        let mut k: usize = 0;
        while k < d
            invariant
                d == count_true(self@),
                d == count_true(other@),
                d <= 7,
                positions_of(self@, ps@),
                positions_of(other@, qs@),
                k <= d,
                forall|m: int| 0 <= m < 8 ==> bit(bits, m) == (m < k && ps@[m] == qs@[m]),
            decreases d - k,
        {
            if ps[k] == qs[k] {
                bits = set_bit(bits, k);
            }
            k = k + 1;
        }
        let r = Self::from_bits(bits, d);
        proof {
            assert forall|m: int| 0 <= m < d implies r@[m] == equalizer_seq(self@, other@)[m] by {
                let i = ps@[m] as int;
                if ps@[m] == qs@[m] {
                    assert(0 <= i < self@.len() && self@[i] && other@[i] && rank(self@, i) == m && rank(other@, i) == m);
                }
                if exists|i: int| 0 <= i < self@.len() && self@[i] && other@[i] && rank(self@, i) == m && rank(other@, i) == m {
                    let w = choose|i: int| 0 <= i < self@.len() && self@[i] && other@[i] && rank(self@, i) == m && rank(other@, i) == m;
                    lemma_rank_injective(self@, w, ps@[m] as int);
                    lemma_rank_injective(other@, w, qs@[m] as int);
                }
            }
            assert(r@ =~= equalizer_seq(self@, other@));
        }
        r
    }
}

impl Lift {
    /// The flags as text: `1` for a selected variable, `0` for an unused one.
    pub fn bits(&self) -> (r: String)
        ensures
            r@ == Seq::new(self@.len(), |i: int| if self@[i] { '1' } else { '0' }),
    {
        let n = self.cod();
        let mut s = String::new();
        let mut i: usize = 0;
        while i < n
            invariant
                n == self@.len(),
                i <= n,
                s@ == Seq::new(i as nat, |k: int| if self@[k] { '1' } else { '0' }),
            decreases n - i,
        {
            let c = if self.get(i) {
                '1'
            } else {
                '0'
            };
            push_char(&mut s, c);
            proof {
                assert(s@ =~= Seq::new((i + 1) as nat, |k: int| if self@[k] { '1' } else { '0' }));
            }
            i = i + 1;
        }
        s
    }
}

/// Two lifts with the same flags are the same lift.
pub(crate) proof fn lemma_view_injective(a: Lift, b: Lift)
    requires
        a.inv(),
        b.inv(),
        a@ == b@,
    ensures
        a == b,
{
    let n = a@.len();
    assert(top(a.0) == n && top(b.0) == n);
    assert forall|i: int| 0 <= i < 8 implies bit(a.0, i) == bit(b.0, i) by {
        lemma_top_bit(a.0, i as u8);
        lemma_top_bit(b.0, i as u8);
        if i < n {
            assert(a@[i] == b@[i]);
            assert(a@[i] == bit(a.0, i));
            assert(b@[i] == bit(b.0, i));
        }
    }
    lemma_bits_equal(a.0, b.0);
}

/// A lift's context has at most seven variables.
pub proof fn lemma_lift_len(l: Lift)
    ensures
        l@.len() <= 7,
{
}

/// Exactly one variable is selected by `select`.
pub proof fn lemma_count_single(n: nat, i: int)
    requires
        0 <= i < n,
    ensures
        count_true(single_true(n, i)) == 1,
    decreases n,
{
    let s = single_true(n, i);
    if i == n - 1 {
        assert(s.drop_last() =~= Seq::new((n - 1) as nat, |k: int| false));
        lemma_count_none_true((n - 1) as nat);
    } else {
        assert(s.drop_last() =~= single_true((n - 1) as nat, i));
        lemma_count_single((n - 1) as nat, i);
    }
}

/// Composition with the identity on the context of a prefix.
pub proof fn lemma_count_push(s: Seq<bool>, b: bool)
    ensures
        count_true(s.push(b)) == count_true(s) + if b { 1nat } else { 0nat },
{
    assert(s.push(b).drop_last() =~= s);
}

} // verus!
