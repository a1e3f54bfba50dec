//! What an index is built with, and how high a node may be placed.

use vstd::prelude::*;

verus! {

/// Hard ceiling on the level that an insertion may be assigned.
///
/// A level is drawn as `-ln(uniform) / ln(M)` times the level scale, so a large
/// scale gives a large level, and the index allocates one layer per level. A
/// hierarchy of `L` layers is of use only while `M^L` is at most the number of
/// nodes, so an index that wanted another layer would not fit in memory: the
/// ceiling never binds on an index that can be built.
pub const MAX_LEVEL: usize = 64;

/// The bits of `1.0`.
pub const UNIT_SCALE: u64 = 0x3ff0_0000_0000_0000;

/// The bits of positive infinity. The positive finite doubles are those whose
/// bits, read as an integer, lie strictly between zero and this.
pub const INFINITY_BITS: u64 = 0x7ff0_0000_0000_0000;

/// Whether a double, given by its bits, is finite and positive.
pub open spec fn is_positive_finite(bits: u64) -> bool {
    0 < bits < INFINITY_BITS
}

/// Where the levels of insertions come from: a random number generator and the
/// level distribution.
pub trait LevelSource: Sized {
    /// Whether `before` may draw `level` for a graph of the given degree and scale,
    /// and be `after` then.
    ///
    /// This is ghost code and is never run. Of a source that leaves the method out
    /// nothing is claimed.
    open spec fn draws(
        before: Self,
        degree: usize,
        level_scale: u64,
        level: usize,
        after: Self,
    ) -> bool {
        true
    }

    /// Draws a level for a graph of the given degree: the whole part of
    /// `-ln(uniform) / ln(degree)` times the scale, which is given by its bits.
    fn draw_level(&mut self, degree: usize, level_scale: u64) -> (level: usize)
        ensures
            Self::draws(*old(self), degree, level_scale, level, *final(self)),
    ;
}

/// The level that an insertion is given when `drawn` was drawn.
pub open spec fn capped_level(drawn: usize) -> usize {
    if drawn <= MAX_LEVEL {
        drawn
    } else {
        MAX_LEVEL
    }
}

/// Bounds a drawn level, so that no draw can allocate layers without limit.
pub fn cap_level(drawn: usize) -> (level: usize)
    ensures
        level == capped_level(drawn),
        level <= MAX_LEVEL,
{
    if drawn <= MAX_LEVEL {
        drawn
    } else {
        MAX_LEVEL
    }
}

/// The parameters of an index.
#[derive(Clone, Copy, Debug, PartialEq, Eq)]
pub struct Params {
    ef_construction: usize,
    /// Bits of the multiplier on the level distribution, see
    /// [`Params::level_scale`]. It shapes future insertions and is no part of the
    /// graph, so it is not on the wire.
    level_scale: u64,
}

impl Params {
    /// The candidate pool size of insertions.
    pub closed spec fn spec_ef_construction(self) -> usize {
        self.ef_construction
    }

    /// The bits of the level scale.
    pub closed spec fn spec_level_scale(self) -> u64 {
        self.level_scale
    }

    /// Whether these are the default parameters.
    pub open spec fn is_default(self) -> bool {
        self.spec_ef_construction() == 400 && self.spec_level_scale() == UNIT_SCALE
    }

    /// The default parameters.
    pub fn new() -> (params: Self)
        ensures
            params.is_default(),
    {
        Params { ef_construction: 400, level_scale: UNIT_SCALE }
    }

    /// This is referred to as `efConstruction` in the paper. It is the `ef` that
    /// insertions search with: the higher it is, the more likely the links of the
    /// graph are those to the nearest nodes, and the slower is an insertion.
    ///
    /// Defaults to `400`.
    pub fn ef_construction(self, ef_construction: usize) -> (params: Self)
        ensures
            params.spec_ef_construction() == ef_construction,
            params.spec_level_scale() == self.spec_level_scale(),
    {
        Params { ef_construction, level_scale: self.level_scale }
    }

    /// Scales the level distribution, and so how tall the hierarchy grows. The
    /// scale is given by its bits (`f64::to_bits`).
    ///
    /// Levels are drawn as `-ln(uniform) / ln(M)` times the scale. A scale below
    /// `1.0` gives fewer layers and a shorter descent per query, at some cost in
    /// recall. It defaults to `1.0`, and so does a scale that is not finite or not
    /// positive: it would put every node on the zero layer.
    pub fn level_scale(self, level_scale: u64) -> (params: Self)
        ensures
            params.spec_ef_construction() == self.spec_ef_construction(),
            params.spec_level_scale() == if is_positive_finite(level_scale) {
                level_scale
            } else {
                UNIT_SCALE
            },
    {
        let level_scale: u64 = if 0 < level_scale && level_scale < INFINITY_BITS {
            level_scale
        } else {
            UNIT_SCALE
        };
        Params { ef_construction: self.ef_construction, level_scale }
    }

    /// The candidate pool size of insertions.
    pub fn get_ef_construction(&self) -> (ef: usize)
        ensures
            ef == self.spec_ef_construction(),
    {
        self.ef_construction
    }

    /// The bits of the configured level scale.
    pub fn get_level_scale(&self) -> (bits: u64)
        ensures
            bits == self.spec_level_scale(),
    {
        self.level_scale
    }

    /// What is written of the parameters: `ef_construction` alone.
    pub fn to_wire(&self) -> (wire: u64)
        ensures
            wire == self.spec_ef_construction(),
    {
        self.ef_construction as u64
    }

    /// Reads parameters back. The level scale is not on the wire and comes back as
    /// `1.0`. A number that this target's `usize` cannot hold is refused.
    pub fn from_wire(wire: u64) -> (params: Option<Self>)
        ensures
            params is Some <==> wire <= usize::MAX,
            params matches Some(p) ==> p.spec_ef_construction() == wire && p.spec_level_scale()
                == UNIT_SCALE,
    {
        if wire <= usize::MAX as u64 {
            Some(Params { ef_construction: wire as usize, level_scale: UNIT_SCALE })
        } else {
            None
        }
    }
}

/// A level of at most 64 is given as it was drawn, and any other becomes 64. A higher
/// draw never gives a lower level.
pub proof fn law_levels_are_capped(drawn: usize, other: usize)
    ensures
        drawn <= 64 ==> capped_level(drawn) == drawn,
        drawn > 64 ==> capped_level(drawn) == 64,
        drawn <= other ==> capped_level(drawn) <= capped_level(other),
{
}

/// A level scale counts if and only if its bits are those of a positive finite double:
/// no sign, not zero, and an exponent that is not all ones.
pub proof fn law_scales_are_positive_and_finite(bits: u64)
    ensures
        is_positive_finite(bits) <==> 0 < bits && bits <= 0x7fef_ffff_ffff_ffff,
        UNIT_SCALE == 0x3ff0_0000_0000_0000,
{
}

/// The default parameters have a pool of 400 and a level scale of one, and no other
/// parameters are the default.
pub proof fn law_default_parameters(params: Params, other: Params)
    ensures
        params.is_default() <==> params.spec_ef_construction() == 400
            && params.spec_level_scale() == 0x3ff0_0000_0000_0000,
        params.is_default() && other.is_default() ==> params == other,
{
}

/// Parameters of the same values are the same.
pub proof fn law_params_are_their_values(one: Params, other: Params)
    requires
        one.spec_ef_construction() == other.spec_ef_construction(),
        one.spec_level_scale() == other.spec_level_scale(),
    ensures
        one == other,
{
}

impl Default for Params {
    fn default() -> (params: Self)
        ensures
            params.is_default(),
    {
        Params::new()
    }
}

} // verus!
