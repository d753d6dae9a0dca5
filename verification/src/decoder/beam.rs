//! One hypothesis of the beam search: a decoded prefix with the probability
//! that the frames so far produced it ending in a blank, or not.

use vstd::prelude::*;

use crate::util::log_space::{is_log_op, log_op, spec_log_add, LogSpaceF32};

verus! {

/// Three-way outcome of comparing two values.
#[derive(Clone, Copy, Debug, PartialEq, Eq, Structural)]
pub enum Comparison {
    Below,
    Same,
    Above,
}

/// Lexicographic order on prefixes, character by character (the order of
/// `String::cmp`, since UTF-8 preserves the order of code points).
pub open spec fn prefix_lt(a: Seq<char>, b: Seq<char>) -> bool
    decreases a.len(),
{
    if a.len() == 0 {
        b.len() > 0
    } else if b.len() == 0 {
        false
    } else if a[0] != b[0] {
        a[0] < b[0]
    } else {
        prefix_lt(a.drop_first(), b.drop_first())
    }
}

/// No prefix orders below itself.
pub proof fn lemma_prefix_lt_irreflexive(a: Seq<char>)
    ensures
        !prefix_lt(a, a),
    decreases a.len(),
{
    if a.len() > 0 {
        lemma_prefix_lt_irreflexive(a.drop_first());
    }
}

/// Of two distinct prefixes exactly one orders below the other.
pub proof fn lemma_prefix_lt_total(a: Seq<char>, b: Seq<char>)
    ensures
        a != b ==> (prefix_lt(a, b) || prefix_lt(b, a)),
        !(prefix_lt(a, b) && prefix_lt(b, a)),
    decreases a.len(),
{
    if a.len() > 0 && b.len() > 0 && a[0] == b[0] {
        lemma_prefix_lt_total(a.drop_first(), b.drop_first());
        if a != b {
            assert(a.drop_first() != b.drop_first()) by {
                if a.drop_first() == b.drop_first() {
                    assert(a =~= seq![a[0]] + a.drop_first());
                    assert(b =~= seq![b[0]] + b.drop_first());
                }
            }
        }
    } else if a.len() == 0 && b.len() == 0 {
        assert(a =~= b);
    }
}

/// The prefix order is transitive.
pub proof fn lemma_prefix_lt_transitive(a: Seq<char>, b: Seq<char>, c: Seq<char>)
    requires
        prefix_lt(a, b),
        prefix_lt(b, c),
    ensures
        prefix_lt(a, c),
    decreases a.len(),
{
    if a.len() > 0 && b.len() > 0 && c.len() > 0 && a[0] == b[0] && b[0] == c[0] {
        lemma_prefix_lt_transitive(a.drop_first(), b.drop_first(), c.drop_first());
    }
}

/// Dropping a common beginning keeps the order between two prefixes.
proof fn lemma_prefix_lt_skip(a: Seq<char>, b: Seq<char>, i: int)
    requires
        0 <= i <= a.len(),
        i <= b.len(),
        a.take(i) == b.take(i),
    ensures
        prefix_lt(a, b) == prefix_lt(a.skip(i), b.skip(i)),
    decreases i,
{
    if i > 0 {
        assert(a[0] == a.take(i)[0]);
        assert(b[0] == b.take(i)[0]);
        assert(a.drop_first().take(i - 1) =~= a.take(i).drop_first());
        assert(b.drop_first().take(i - 1) =~= b.take(i).drop_first());
        lemma_prefix_lt_skip(a.drop_first(), b.drop_first(), i - 1);
        assert(a.drop_first().skip(i - 1) =~= a.skip(i));
        assert(b.drop_first().skip(i - 1) =~= b.skip(i));
    } else {
        assert(a.skip(0) =~= a);
        assert(b.skip(0) =~= b);
    }
}

/// Compares two prefixes in the order `prefix_lt`.
pub fn compare_prefixes(a: &Vec<char>, b: &Vec<char>) -> (r: Comparison)
    ensures
        (r == Comparison::Below) == prefix_lt(a@, b@),
        (r == Comparison::Same) == (a@ == b@),
        (r == Comparison::Above) == prefix_lt(b@, a@),
{
    let mut i: usize = 0;
    while i < a.len() && i < b.len() && a[i] == b[i]
        invariant
            i <= a.len(),
            i <= b.len(),
            a@.take(i as int) == b@.take(i as int),
        decreases a.len() - i,
    {
        assert(a@.take(i + 1) =~= a@.take(i as int).push(a@[i as int]));
        assert(b@.take(i + 1) =~= b@.take(i as int).push(b@[i as int]));
        i = i + 1;
    }
    proof {
        lemma_prefix_lt_skip(a@, b@, i as int);
        lemma_prefix_lt_skip(b@, a@, i as int);
        lemma_prefix_lt_total(a@, b@);
        lemma_prefix_lt_irreflexive(a@);
        let sa = a@.skip(i as int);
        let sb = b@.skip(i as int);
        if i < a.len() && i < b.len() {
            assert(sa[0] == a@[i as int]);
            assert(sb[0] == b@[i as int]);
        }
        if i == a.len() && i == b.len() {
            assert(a@ =~= a@.take(i as int));
            assert(b@ =~= b@.take(i as int));
        }
    }
    if i == a.len() && i == b.len() {
        Comparison::Same
    } else if i == a.len() {
        Comparison::Below
    } else if i == b.len() {
        Comparison::Above
    } else if a[i] < b[i] {
        Comparison::Below
    } else {
        Comparison::Above
    }
}

/// The value of a beam: its prefix and its three probabilities.
pub struct BeamView {
    pub prefix: Seq<char>,
    pub with_blank: LogSpaceF32,
    pub without_blank: LogSpaceF32,
    pub total: LogSpaceF32,
}

/// The order of beams: by total probability (`f32::total_cmp`), then by prefix.
pub open spec fn beam_lt(a: BeamView, b: BeamView) -> bool {
    ||| a.total.spec_total_lt(b.total)
    ||| (a.total.bits() == b.total.bits() && prefix_lt(a.prefix, b.prefix))
}

/// Beams of distinct prefixes are ordered one way or the other, never both.
pub proof fn lemma_beam_lt_total(a: BeamView, b: BeamView)
    ensures
        a.prefix != b.prefix ==> (beam_lt(a, b) || beam_lt(b, a)),
        !(beam_lt(a, b) && beam_lt(b, a)),
        !beam_lt(a, a),
{
    lemma_prefix_lt_total(a.prefix, b.prefix);
    lemma_prefix_lt_irreflexive(a.prefix);
    crate::util::log_space::lemma_total_order_key_injective(a.total.bits(), b.total.bits());
}

/// The order of beams is transitive.
pub proof fn lemma_beam_lt_transitive(a: BeamView, b: BeamView, c: BeamView)
    requires
        beam_lt(a, b),
        beam_lt(b, c),
    ensures
        beam_lt(a, c),
{
    crate::util::log_space::lemma_total_order_key_injective(a.total.bits(), b.total.bits());
    crate::util::log_space::lemma_total_order_key_injective(b.total.bits(), c.total.bits());
    if a.total.bits() == b.total.bits() && b.total.bits() == c.total.bits() {
        lemma_prefix_lt_transitive(a.prefix, b.prefix, c.prefix);
    }
}

/// A fresh beam for `prefix`, with both probabilities zero.
pub open spec fn new_beam_view(prefix: Seq<char>) -> BeamView {
    BeamView {
        prefix,
        with_blank: LogSpaceF32 { log_bits: crate::util::log_space::NEG_INFINITY_BITS },
        without_blank: LogSpaceF32 { log_bits: crate::util::log_space::NEG_INFINITY_BITS },
        total: LogSpaceF32 { log_bits: crate::util::log_space::NEG_INFINITY_BITS },
    }
}

/// The starting beam: the empty prefix, certainly ending in a blank.
pub open spec fn blank_beam_view() -> BeamView {
    BeamView {
        prefix: Seq::empty(),
        with_blank: LogSpaceF32 { log_bits: crate::util::log_space::ZERO_BITS },
        without_blank: LogSpaceF32 { log_bits: crate::util::log_space::NEG_INFINITY_BITS },
        total: LogSpaceF32 { log_bits: crate::util::log_space::ZERO_BITS },
    }
}

/// `b` after adding `rhs` to the probability of ending in a blank.
pub open spec fn beam_add_with_blank(
    b: BeamView,
    rhs: LogSpaceF32,
    sum: spec_fn(LogSpaceF32, LogSpaceF32) -> LogSpaceF32,
) -> BeamView {
    let with_blank = spec_log_add(sum, b.with_blank, rhs);
    BeamView { with_blank, total: spec_log_add(sum, with_blank, b.without_blank), ..b }
}

/// `b` after adding `rhs` to the probability of not ending in a blank.
pub open spec fn beam_add_without_blank(
    b: BeamView,
    rhs: LogSpaceF32,
    sum: spec_fn(LogSpaceF32, LogSpaceF32) -> LogSpaceF32,
) -> BeamView {
    let without_blank = spec_log_add(sum, b.without_blank, rhs);
    BeamView { without_blank, total: spec_log_add(sum, b.with_blank, without_blank), ..b }
}

/// A hypothesis of the beam search.
pub struct Beam {
    prefix: Vec<char>,
    probability_with_blank: LogSpaceF32,
    probability_without_blank: LogSpaceF32,
    total_probability: LogSpaceF32,
}

impl View for Beam {
    type V = BeamView;

    closed spec fn view(&self) -> BeamView {
        BeamView {
            prefix: self.prefix@,
            with_blank: self.probability_with_blank,
            without_blank: self.probability_without_blank,
            total: self.total_probability,
        }
    }
}

impl Beam {
    /// A beam for `prefix` with both probabilities zero.
    pub fn new(prefix: Vec<char>) -> (r: Self)
        ensures
            r@ == new_beam_view(prefix@),
    {
        Beam {
            prefix,
            probability_with_blank: LogSpaceF32::zero(),
            probability_without_blank: LogSpaceF32::zero(),
            total_probability: LogSpaceF32::zero(),
        }
    }

    /// The empty prefix with probability one of ending in a blank.
    pub fn blank() -> (r: Self)
        ensures
            r@ == blank_beam_view(),
    {
        Beam {
            prefix: Vec::new(),
            probability_with_blank: LogSpaceF32::one(),
            probability_without_blank: LogSpaceF32::zero(),
            total_probability: LogSpaceF32::one(),
        }
    }

    /// Adds `rhs` to the probability of ending in a blank.
    pub fn add_to_probability_with_blank<S: Fn(LogSpaceF32, LogSpaceF32) -> LogSpaceF32>(
        &mut self,
        rhs: LogSpaceF32,
        log_sum: &S,
    )
        requires
            is_log_op(*log_sum),
        ensures
            final(self)@ == beam_add_with_blank(old(self)@, rhs, log_op(*log_sum)),
    {
        self.probability_with_blank = self.probability_with_blank.add(rhs, log_sum);
        self.total_probability = self.probability_with_blank.add(self.probability_without_blank, log_sum);
    }

    /// Adds `rhs` to the probability of not ending in a blank.
    pub fn add_to_probability_without_blank<S: Fn(LogSpaceF32, LogSpaceF32) -> LogSpaceF32>(
        &mut self,
        rhs: LogSpaceF32,
        log_sum: &S,
    )
        requires
            is_log_op(*log_sum),
        ensures
            final(self)@ == beam_add_without_blank(old(self)@, rhs, log_op(*log_sum)),
    {
        self.probability_without_blank = self.probability_without_blank.add(rhs, log_sum);
        self.total_probability = self.probability_with_blank.add(self.probability_without_blank, log_sum);
    }

    /// The decoded prefix.
    pub fn prefix(&self) -> (r: &Vec<char>)
        ensures
            r@ == self@.prefix,
    {
        &self.prefix
    }

    /// The probability of the prefix with the last frame a blank.
    pub fn probability_with_blank(&self) -> (r: LogSpaceF32)
        ensures
            r == self@.with_blank,
    {
        self.probability_with_blank
    }

    /// The probability of the prefix with the last frame not a blank.
    pub fn probability_without_blank(&self) -> (r: LogSpaceF32)
        ensures
            r == self@.without_blank,
    {
        self.probability_without_blank
    }

    /// The probability of the prefix.
    pub fn total_probability(&self) -> (r: LogSpaceF32)
        ensures
            r == self@.total,
    {
        self.total_probability
    }

    /// A copy of this beam.
    pub fn duplicate(&self) -> (r: Self)
        ensures
            r@ == self@,
    {
        Beam {
            prefix: self.prefix.clone(),
            probability_with_blank: self.probability_with_blank,
            probability_without_blank: self.probability_without_blank,
            total_probability: self.total_probability,
        }
    }

    /// Whether this beam orders strictly below `other`.
    pub fn is_below(&self, other: &Beam) -> (r: bool)
        ensures
            r == beam_lt(self@, other@),
    {
        if self.total_probability.total_lt(&other.total_probability) {
            true
        } else if self.total_probability.log_bits() == other.total_probability.log_bits() {
            compare_prefixes(&self.prefix, &other.prefix) == Comparison::Below
        } else {
            false
        }
    }
}

} // verus!
