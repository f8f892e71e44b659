//! Protocol configuration: the folding factor, the maximum remainder size,
//! and the domain offset, together with the derivation of how many folding
//! rounds an evaluation count needs.

use vstd::prelude::*;
use winter_math::fields::f64::BaseElement;

use crate::field::{elem_is_zero, field_generator};

verus! {

/// How many folding rounds are required before `domain_size` evaluations fit
/// within `max_remainder_size`.
pub open spec fn spec_num_layers(domain_size: nat, folding_factor: nat, max_remainder_size: nat) -> nat
    decreases domain_size,
    via spec_num_layers_decreases
{
    if folding_factor >= 2 && max_remainder_size >= 1 && domain_size > max_remainder_size {
        1 + spec_num_layers(domain_size / folding_factor, folding_factor, max_remainder_size)
    } else {
        0
    }
}

#[via_fn]
proof fn spec_num_layers_decreases(domain_size: nat, folding_factor: nat, max_remainder_size: nat) {
    if folding_factor >= 2 && max_remainder_size >= 1 && domain_size > max_remainder_size {
        assert(domain_size / folding_factor < domain_size) by (nonlinear_arith)
            requires
                folding_factor >= 2,
                domain_size >= 1,
        ;
    }
}

/// The round count never exceeds the domain size itself; in fact twice the
/// round count stays within `domain_size + 1`.
pub proof fn lemma_num_layers_le(domain_size: nat, folding_factor: nat, max_remainder_size: nat)
    ensures
        spec_num_layers(domain_size, folding_factor, max_remainder_size) <= domain_size,
        2 * spec_num_layers(domain_size, folding_factor, max_remainder_size) <= domain_size + 1,
    decreases domain_size,
{
    if folding_factor >= 2 && max_remainder_size >= 1 && domain_size > max_remainder_size {
        let q = domain_size / folding_factor;
        assert(q < domain_size && q <= domain_size / 2) by (nonlinear_arith)
            requires
                folding_factor >= 2,
                domain_size >= 1,
                q == domain_size / folding_factor,
        ;
        lemma_num_layers_le(q, folding_factor, max_remainder_size);
        assert(2 * spec_num_layers(domain_size, folding_factor, max_remainder_size)
            <= domain_size + 1) by (nonlinear_arith)
            requires
                spec_num_layers(domain_size, folding_factor, max_remainder_size) == 1
                    + spec_num_layers(q, folding_factor, max_remainder_size),
                2 * spec_num_layers(q, folding_factor, max_remainder_size) <= q + 1,
                q <= domain_size / 2,
                domain_size / 2 * 2 <= domain_size,
                domain_size >= 2,
        ;
    }
}

/// Configuration of one FRI protocol instance.
pub struct FriOptions {
    /// How many evaluations fold into one at each round.
    pub folding_factor: usize,
    /// The largest evaluation count the final layer may keep.
    pub max_remainder_size: usize,
    /// The nonzero field element that de-biases the evaluation domain.
    pub domain_offset: BaseElement,
}

impl FriOptions {
    /// The configuration is valid: a supported folding factor, room for at
    /// least one full row in the remainder, and a nonzero domain offset.
    pub open spec fn wf(self) -> bool {
        &&& (self.folding_factor == 4 || self.folding_factor == 8 || self.folding_factor == 16)
        &&& self.max_remainder_size >= self.folding_factor
        &&& !elem_is_zero(self.domain_offset)
    }

    /// Returns options with the given folding factor and remainder bound; the
    /// domain offset is the field's multiplicative-group generator.
    pub fn new(folding_factor: usize, max_remainder_size: usize) -> (r: FriOptions)
        requires
            folding_factor == 4 || folding_factor == 8 || folding_factor == 16,
            max_remainder_size >= folding_factor,
        ensures
            r.wf(),
            r.folding_factor == folding_factor,
            r.max_remainder_size == max_remainder_size,
    {
        FriOptions { folding_factor, max_remainder_size, domain_offset: field_generator() }
    }

    /// Returns the folding factor.
    pub fn folding_factor(&self) -> (r: usize)
        ensures
            r == self.folding_factor,
    {
        self.folding_factor
    }

    /// Returns the maximum remainder size.
    pub fn max_remainder_size(&self) -> (r: usize)
        ensures
            r == self.max_remainder_size,
    {
        self.max_remainder_size
    }

    /// Returns the domain offset.
    pub fn domain_offset(&self) -> (r: BaseElement)
        ensures
            r == self.domain_offset,
    {
        self.domain_offset
    }

    /// Computes how many folding rounds an input of `domain_size` evaluations
    /// requires before the remainder fits within the configured bound.
    pub fn num_fri_layers(&self, domain_size: usize) -> (r: usize)
        requires
            self.wf(),
        ensures
            r as nat == spec_num_layers(
                domain_size as nat,
                self.folding_factor as nat,
                self.max_remainder_size as nat,
            ),
    {
        let ghost total = spec_num_layers(
            domain_size as nat,
            self.folding_factor as nat,
            self.max_remainder_size as nat,
        );
        proof {
            lemma_num_layers_le(
                domain_size as nat,
                self.folding_factor as nat,
                self.max_remainder_size as nat,
            );
        }
        let mut result: usize = 0;
        let mut ds = domain_size;
        while ds > self.max_remainder_size
            invariant
                self.wf(),
                result as nat + spec_num_layers(
                    ds as nat,
                    self.folding_factor as nat,
                    self.max_remainder_size as nat,
                ) == total,
                total <= domain_size,
            decreases ds,
        {
            proof {
                assert((ds as int) / (self.folding_factor as int) < (ds as int)) by (nonlinear_arith)
                    requires
                        self.folding_factor >= 2,
                        ds >= 1,
                ;
            }
            ds = ds / self.folding_factor;
            result = result + 1;
        }
        result
    }
}

} // verus!
