//! Symmetry classes of tiles and their transform permutations.
//!
//! Each tile belongs to a symmetry class that fixes how many distinct
//! orientations (variants) the tile has, together with two permutations over
//! those orientations: `rot`, the effect of a 90-degree rotation, and `refl`,
//! the effect of a reflection. The class is named by a short label in the
//! tileset description; an unrecognized label falls back to the fully
//! symmetric single-variant class.

use vstd::prelude::*;
use vstd::string::StringSliceAdditionalSpecFns;

verus! {

/// A tile's symmetry class. The letter names the shape whose symmetries the
/// tile shares: `X` is fully symmetric (one variant), `I` and `Backslash`
/// have two variants, `L` and `T` four, and `F` (no symmetry at all) eight.
#[derive(Clone, Copy, PartialEq, Eq, Structural, Debug)]
pub enum Symmetry {
    X,
    I,
    L,
    T,
    Backslash,
    F,
}

/// Number of distinct orientations a tile of this class has.
pub open spec fn spec_cardinality(s: Symmetry) -> int {
    match s {
        Symmetry::X => 1,
        Symmetry::I => 2,
        Symmetry::L => 4,
        Symmetry::T => 4,
        Symmetry::Backslash => 2,
        Symmetry::F => 8,
    }
}

/// The rotation permutation: orientation of a tile after a 90-degree
/// rotation. Meaningful for `0 <= x < spec_cardinality(s)`.
pub open spec fn spec_rot(s: Symmetry, x: int) -> int {
    match s {
        Symmetry::X => x,
        Symmetry::I => 1 - x,
        Symmetry::L => (x + 1) % 4,
        Symmetry::T => (x + 1) % 4,
        Symmetry::Backslash => 1 - x,
        Symmetry::F => if x < 4 {
            (x + 1) % 4
        } else {
            4 + ((x + 3) % 4)
        },
    }
}

/// The reflection permutation: orientation of a tile after a reflection.
/// Meaningful for `0 <= x < spec_cardinality(s)`.
pub open spec fn spec_refl(s: Symmetry, x: int) -> int {
    match s {
        Symmetry::X => x,
        Symmetry::I => x,
        Symmetry::L => if x % 2 == 0 {
            x + 1
        } else {
            x - 1
        },
        Symmetry::T => if x % 2 == 0 {
            x
        } else {
            4 - x
        },
        Symmetry::Backslash => 1 - x,
        Symmetry::F => if x < 4 {
            x + 4
        } else {
            x - 4
        },
    }
}

/// Both permutations map the orientation domain onto itself.
pub broadcast proof fn lemma_perms_in_range(s: Symmetry, x: int)
    requires
        0 <= x < spec_cardinality(s),
    ensures
        0 <= #[trigger] spec_rot(s, x) < spec_cardinality(s),
        0 <= #[trigger] spec_refl(s, x) < spec_cardinality(s),
{
}

/// Rotating four times is the identity on every symmetry class.
pub proof fn lemma_rotation_order(s: Symmetry, x: int)
    requires
        0 <= x < spec_cardinality(s),
    ensures
        spec_rot(s, spec_rot(s, spec_rot(s, spec_rot(s, x)))) == x,
{
}

/// Reflecting twice is the identity on every symmetry class.
pub proof fn lemma_reflection_involution(s: Symmetry, x: int)
    requires
        0 <= x < spec_cardinality(s),
    ensures
        spec_refl(s, spec_refl(s, x)) == x,
{
}

/// The symmetry class denoted by a label, given as the label's UTF-8 bytes.
/// The recognized labels are `I`, `L`, `T`, `F`, and a single backslash or a
/// double slash for the diagonal-mirror class; anything else means `X`.
pub open spec fn spec_symmetry_of_bytes(b: Seq<u8>) -> Symmetry {
    if b =~= seq![73u8] {
        Symmetry::I
    } else if b =~= seq![76u8] {
        Symmetry::L
    } else if b =~= seq![84u8] {
        Symmetry::T
    } else if b =~= seq![70u8] {
        Symmetry::F
    } else if b =~= seq![92u8] || b =~= seq![47u8, 47u8] {
        Symmetry::Backslash
    } else {
        Symmetry::X
    }
}

/// Parse a symmetry label.
pub fn symmetry_from_label(label: &str) -> (r: Symmetry)
    ensures
        r == spec_symmetry_of_bytes(label.spec_bytes()),
{
    let b: &[u8] = label.as_bytes();
    if b.len() == 1 {
        let c: u8 = b[0];
        proof {
            assert(label.spec_bytes() =~= seq![label.spec_bytes()[0]]);
        }
        if c == 73 {
            Symmetry::I
        } else if c == 76 {
            Symmetry::L
        } else if c == 84 {
            Symmetry::T
        } else if c == 70 {
            Symmetry::F
        } else if c == 92 {
            Symmetry::Backslash
        } else {
            Symmetry::X
        }
    } else if b.len() == 2 && b[0] == 47 && b[1] == 47 {
        proof {
            assert(label.spec_bytes() =~= seq![
                label.spec_bytes()[0],
                label.spec_bytes()[1],
            ]);
        }
        Symmetry::Backslash
    } else {
        Symmetry::X
    }
}

/// Number of distinct orientations, as an executable value.
pub fn cardinality(s: Symmetry) -> (r: u8)
    ensures
        r as int == spec_cardinality(s),
{
    match s {
        Symmetry::X => 1,
        Symmetry::I => 2,
        Symmetry::L => 4,
        Symmetry::T => 4,
        Symmetry::Backslash => 2,
        Symmetry::F => 8,
    }
}

/// The rotation permutation as a lookup table over `0..cardinality(s)`.
pub fn rotation_table(s: Symmetry) -> (r: Vec<u8>)
    ensures
        r@.len() == spec_cardinality(s),
        forall|x: int| 0 <= x < r@.len() ==> r@[x] as int == spec_rot(s, x),
{
    match s {
        Symmetry::X => vec![0],
        Symmetry::I => vec![1, 0],
        Symmetry::L => vec![1, 2, 3, 0],
        Symmetry::T => vec![1, 2, 3, 0],
        Symmetry::Backslash => vec![1, 0],
        Symmetry::F => vec![1, 2, 3, 0, 7, 4, 5, 6],
    }
}

/// The reflection permutation as a lookup table over `0..cardinality(s)`.
pub fn reflection_table(s: Symmetry) -> (r: Vec<u8>)
    ensures
        r@.len() == spec_cardinality(s),
        forall|x: int| 0 <= x < r@.len() ==> r@[x] as int == spec_refl(s, x),
{
    match s {
        Symmetry::X => vec![0],
        Symmetry::I => vec![0, 1],
        Symmetry::L => vec![1, 0, 3, 2],
        Symmetry::T => vec![0, 3, 2, 1],
        Symmetry::Backslash => vec![1, 0],
        Symmetry::F => vec![4, 5, 6, 7, 0, 1, 2, 3],
    }
}

/// A tile's variant count together with its rotation and reflection
/// permutations, keyed by the symmetry label.
pub fn get_variant_functions(symmetry: &str) -> (r: (u8, Vec<u8>, Vec<u8>))
    ensures
        ({
            let s = spec_symmetry_of_bytes(symmetry.spec_bytes());
            &&& r.0 as int == spec_cardinality(s)
            &&& r.1@.len() == spec_cardinality(s)
            &&& r.2@.len() == spec_cardinality(s)
            &&& forall|x: int| 0 <= x < r.1@.len() ==> r.1@[x] as int == spec_rot(s, x)
            &&& forall|x: int| 0 <= x < r.2@.len() ==> r.2@[x] as int == spec_refl(s, x)
        }),
{
    let s = symmetry_from_label(symmetry);
    (cardinality(s), rotation_table(s), reflection_table(s))
}

} // verus!
