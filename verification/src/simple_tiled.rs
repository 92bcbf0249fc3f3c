//! The simple-tiled model: action table, propagator, wave state and solver.
//!
//! The model is built once from a list of tile records and neighbor rules.
//! Each tile contributes one variant per orientation; the action table maps a
//! variant and a transform index to the resulting variant; the propagator
//! lists, per direction and variant, the variants admissible in the adjacent
//! cell. A solve repeatedly picks the most constrained cell, collapses it to
//! one variant by a weighted random draw, and propagates the eliminations.
//!
//! Weights are positive integers. A cell's selection key is its remaining
//! weight sum: banning a variant strictly lowers the key, so more constrained
//! cells are collapsed first, as with the usual entropy ordering; a seeded
//! random perturbation breaks ties reproducibly.

use vstd::prelude::*;
use crate::array_utils::{prefix_sum, weighted_random};
use vstd::arithmetic::div_mod::{lemma_fundamental_div_mod, lemma_fundamental_div_mod_converse};
use crate::rng::{rng_from_seed, rng_next_u32};
use crate::symmetry::{Symmetry, spec_cardinality, spec_rot, spec_refl, lemma_perms_in_range,
    cardinality, rotation_table, reflection_table};

verus! {

broadcast use crate::symmetry::lemma_perms_in_range;

/// One declared tile: a unique name, its symmetry class, and its weight.
/// Weights are strictly positive integers; a cell's likelihood of collapsing
/// to a variant is proportional to the variant's weight.
pub struct TileRecord {
    pub name: String,
    pub symmetry: Symmetry,
    pub weight: u32,
}

/// One declared adjacency: the tile named `left`, in orientation
/// `left_orientation`, may sit immediately to the west of the tile named
/// `right` in orientation `right_orientation`. All symmetry-equivalent
/// placements are derived from it.
pub struct NeighborRule {
    pub left: String,
    pub left_orientation: usize,
    pub right: String,
    pub right_orientation: usize,
}

/// Why model construction was rejected.
#[derive(Clone, Copy, PartialEq, Eq, Structural, Debug)]
pub enum ConfigError {
    /// The tile list is empty.
    EmptyTileset,
    /// Some tile has weight zero.
    ZeroWeight,
    /// The tiles' total weight does not fit the weight accumulator.
    WeightOverflow,
    /// A neighbor rule names a tile that does not exist.
    UnknownTile,
    /// A neighbor rule's orientation index is outside its tile's variant count.
    BadOrientation,
}

/// Number of `true` entries among the first `k` slots of a cell's domain row.
pub open spec fn count_true(row: Seq<bool>, k: int) -> int
    decreases k,
{
    if k <= 0 {
        0
    } else {
        count_true(row, k - 1) + if row[k - 1] {
            1int
        } else {
            0int
        }
    }
}

/// Total weight of the admissible variants among the first `k` slots.
pub open spec fn weight_sum(row: Seq<bool>, weights: Seq<u32>, k: int) -> int
    decreases k,
{
    if k <= 0 {
        0
    } else {
        weight_sum(row, weights, k - 1) + if row[k - 1] {
            weights[k - 1] as int
        } else {
            0int
        }
    }
}

pub proof fn lemma_count_true_bounds(row: Seq<bool>, k: int)
    requires
        0 <= k <= row.len(),
    ensures
        0 <= count_true(row, k) <= k,
    decreases k,
{
    if k > 0 {
        lemma_count_true_bounds(row, k - 1);
    }
}

/// Flipping one slot to `false` lowers the count by one exactly when the slot
/// was `true`, and leaves the other slots' contribution alone.
pub proof fn lemma_count_true_update(row: Seq<bool>, k: int, v: int)
    requires
        0 <= v < row.len(),
        0 <= k <= row.len(),
    ensures
        count_true(row.update(v, false), k) == count_true(row, k) - if v < k && row[v] {
            1int
        } else {
            0int
        },
    decreases k,
{
    if k > 0 {
        lemma_count_true_update(row, k - 1, v);
    }
}

pub proof fn lemma_weight_sum_update(row: Seq<bool>, weights: Seq<u32>, k: int, v: int)
    requires
        0 <= v < row.len(),
        0 <= k <= row.len(),
    ensures
        weight_sum(row.update(v, false), weights, k) == weight_sum(row, weights, k) - if v < k
            && row[v] {
            weights[v] as int
        } else {
            0int
        },
    decreases k,
{
    if k > 0 {
        lemma_weight_sum_update(row, weights, k - 1, v);
    }
}

/// An admissible slot contributes its weight: the cell's weight sum is at
/// least the weight of any single admissible variant.
pub proof fn lemma_weight_sum_lower(row: Seq<bool>, weights: Seq<u32>, k: int, v: int)
    requires
        0 <= v < k <= row.len(),
        row[v],
        k <= weights.len(),
    ensures
        weight_sum(row, weights, k) >= weights[v],
        count_true(row, k) >= 1,
    decreases k,
{
    lemma_weight_sum_nonneg(row, weights, k);
    lemma_count_true_bounds(row, k);
    if v < k - 1 {
        lemma_weight_sum_lower(row, weights, k - 1, v);
        lemma_count_true_bounds(row, k - 1);
    } else {
        lemma_weight_sum_nonneg(row, weights, k - 1);
        lemma_count_true_bounds(row, k - 1);
    }
}

pub proof fn lemma_weight_sum_nonneg(row: Seq<bool>, weights: Seq<u32>, k: int)
    requires
        0 <= k,
    ensures
        weight_sum(row, weights, k) >= 0,
    decreases k,
{
    if k > 0 {
        lemma_weight_sum_nonneg(row, weights, k - 1);
    }
}

/// With strictly positive weights, a cell's weight sum is zero exactly when
/// its candidate count is zero.
pub proof fn lemma_weight_sum_zero_iff(row: Seq<bool>, weights: Seq<u32>, k: int)
    requires
        0 <= k <= row.len(),
        k <= weights.len(),
        forall|j: int| 0 <= j < k ==> weights[j] >= 1,
    ensures
        weight_sum(row, weights, k) == 0 <==> count_true(row, k) == 0,
        weight_sum(row, weights, k) >= count_true(row, k),
    decreases k,
{
    if k > 0 {
        lemma_weight_sum_zero_iff(row, weights, k - 1);
        lemma_count_true_bounds(row, k - 1);
    }
}

/// A cell's weight sum never exceeds the total weight of all variants.
pub proof fn lemma_weight_sum_le_prefix(row: Seq<bool>, weights: Seq<u32>, k: int)
    requires
        0 <= k <= row.len(),
        k <= weights.len(),
    ensures
        weight_sum(row, weights, k) <= prefix_sum(weights, k),
    decreases k,
{
    if k > 0 {
        lemma_weight_sum_le_prefix(row, weights, k - 1);
    }
}

pub proof fn lemma_count_all_true(row: Seq<bool>, weights: Seq<u32>, k: int)
    requires
        0 <= k <= row.len(),
        forall|j: int| 0 <= j < k ==> row[j],
    ensures
        count_true(row, k) == k,
        weight_sum(row, weights, k) == prefix_sum(weights, k),
    decreases k,
{
    if k > 0 {
        lemma_count_all_true(row, weights, k - 1);
    }
}

/// Two distinct admissible slots force a count of at least two.
pub proof fn lemma_count_two(row: Seq<bool>, k: int, u: int, v: int)
    requires
        0 <= u < v < k <= row.len(),
        row[u],
        row[v],
    ensures
        count_true(row, k) >= 2,
    decreases k,
{
    if v < k - 1 {
        lemma_count_two(row, k - 1, u, v);
    } else {
        lemma_count_pos(row, k - 1, u);
    }
}

/// An admissible slot forces a positive count.
pub proof fn lemma_count_pos(row: Seq<bool>, k: int, v: int)
    requires
        0 <= v < k <= row.len(),
        row[v],
    ensures
        count_true(row, k) >= 1,
    decreases k,
{
    lemma_count_true_bounds(row, k - 1);
    if v < k - 1 {
        lemma_count_pos(row, k - 1, v);
    }
}

/// A row whose only admissible slot is `c` counts exactly one.
pub proof fn lemma_count_single(row: Seq<bool>, k: int, c: int)
    requires
        0 <= c < k <= row.len(),
        forall|j: int| 0 <= j < k ==> (row[j] <==> j == c),
    ensures
        count_true(row, k) == 1,
    decreases k,
{
    if c < k - 1 {
        lemma_count_single(row, k - 1, c);
    } else {
        lemma_count_true_bounds(row, k - 1);
        lemma_count_zero_range(row, k - 1);
    }
}

proof fn lemma_count_zero_range(row: Seq<bool>, k: int)
    requires
        0 <= k <= row.len(),
        forall|j: int| 0 <= j < k ==> !row[j],
    ensures
        count_true(row, k) == 0,
    decreases k,
{
    if k > 0 {
        lemma_count_zero_range(row, k - 1);
    }
}

/// How many values below `k` a list contains.
pub open spec fn contains_below(s: Seq<usize>, k: int) -> int
    decreases k,
{
    if k <= 0 {
        0
    } else {
        contains_below(s, k - 1) + if s.contains((k - 1) as usize) {
            1int
        } else {
            0int
        }
    }
}

proof fn lemma_contains_below_empty(s: Seq<usize>, k: int)
    requires
        s.len() == 0,
        0 <= k <= usize::MAX,
    ensures
        contains_below(s, k) == 0,
    decreases k,
{
    if k > 0 {
        lemma_contains_below_empty(s, k - 1);
    }
}

proof fn lemma_contains_below_drop(s: Seq<usize>, k: int)
    requires
        s.len() > 0,
        sorted_strict(s),
        0 <= k <= usize::MAX,
    ensures
        contains_below(s, k) == contains_below(s.drop_last(), k) + if s.last() < k {
            1int
        } else {
            0int
        },
    decreases k,
{
    let s2 = s.drop_last();
    assert(!s2.contains(s.last())) by {
        if s2.contains(s.last()) {
            let j = choose|j: int| 0 <= j < s2.len() && s2[j] == s.last();
            assert(s[j] == s[s.len() - 1]);
        }
    }
    if k > 0 {
        lemma_contains_below_drop(s, k - 1);
        let w = (k - 1) as usize;
        assert(s.contains(w) <==> (s2.contains(w) || w == s.last())) by {
            if s.contains(w) {
                let j = choose|j: int| 0 <= j < s.len() && s[j] == w;
                if j < s.len() - 1 {
                    assert(s2[j] == w);
                }
            }
            if s2.contains(w) {
                let j = choose|j: int| 0 <= j < s2.len() && s2[j] == w;
                assert(s[j] == w);
            }
            if w == s.last() {
                assert(s[s.len() - 1] == w);
            }
        }
    }
}

/// A strictly increasing list whose entries all lie below `k` contains
/// exactly its length many values below `k`.
proof fn lemma_contains_below_len(s: Seq<usize>, k: int)
    requires
        sorted_strict(s),
        forall|j: int| 0 <= j < s.len() ==> s[j] < k,
        0 <= k <= usize::MAX,
    ensures
        contains_below(s, k) == s.len(),
    decreases s.len(),
{
    if s.len() == 0 {
        lemma_contains_below_empty(s, k);
    } else {
        lemma_contains_below_drop(s, k);
        let s2 = s.drop_last();
        assert(sorted_strict(s2)) by {
            assert forall|a: int, b: int| 0 <= a < b < s2.len() implies s2[a] < s2[b] by {
                assert(s[a] == s2[a] && s[b] == s2[b]);
            }
        }
        assert(forall|j: int| 0 <= j < s2.len() ==> s2[j] == s[j]);
        lemma_contains_below_len(s2, k);
    }
}

/// Direction indices: 0 is west, 1 is south (grid y grows downward), 2 is
/// east, 3 is north. `spec_opposite` pairs each with its inverse.
pub open spec fn spec_opposite(d: int) -> int {
    if d == 0 {
        2
    } else if d == 1 {
        3
    } else if d == 2 {
        0
    } else {
        1
    }
}

pub fn opposite(d: usize) -> (r: usize)
    requires
        d < 4,
    ensures
        r as int == spec_opposite(d as int),
        r < 4,
{
    if d == 0 {
        2
    } else if d == 1 {
        3
    } else if d == 2 {
        0
    } else {
        1
    }
}

/// The variant a base orientation `i` becomes under transform `k`: transforms
/// 0 to 3 are successive 90-degree rotations, 4 to 7 are the reflection
/// composed with those rotations.
pub open spec fn spec_transform(s: Symmetry, i: int, k: int) -> int {
    if k <= 0 {
        i
    } else if k == 1 {
        spec_rot(s, i)
    } else if k == 2 {
        spec_rot(s, spec_rot(s, i))
    } else if k == 3 {
        spec_rot(s, spec_rot(s, spec_rot(s, i)))
    } else if k == 4 {
        spec_refl(s, i)
    } else if k == 5 {
        spec_refl(s, spec_rot(s, i))
    } else if k == 6 {
        spec_refl(s, spec_rot(s, spec_rot(s, i)))
    } else {
        spec_refl(s, spec_rot(s, spec_rot(s, spec_rot(s, i))))
    }
}

pub proof fn lemma_transform_in_range(s: Symmetry, i: int, k: int)
    requires
        0 <= i < spec_cardinality(s),
        0 <= k < 8,
    ensures
        0 <= spec_transform(s, i, k) < spec_cardinality(s),
{
}

/// The action row of a tile orientation: entry `k` is the variant id, offset
/// by the tile's base index `t`, that orientation `i` becomes under transform
/// `k`. Entry 0 is the identity: the variant itself.
pub fn get_map_row(i: usize, t: usize, s: Symmetry) -> (row: Vec<usize>)
    requires
        i < spec_cardinality(s),
        t + 8 <= usize::MAX,
    ensures
        row@.len() == 8,
        forall|k: int| 0 <= k < 8 ==> row@[k] as int == t + spec_transform(s, i as int, k),
        row@[0] as int == t + i,
        forall|k: int| 0 <= k < 8 ==> row@[k] < t + spec_cardinality(s),
{
    let a: Vec<u8> = rotation_table(s);
    let b: Vec<u8> = reflection_table(s);
    let i0: usize = i;
    let i1: usize = a[i0] as usize;
    proof {
        lemma_perms_in_range(s, i0 as int);
    }
    let i2: usize = a[i1] as usize;
    proof {
        lemma_perms_in_range(s, i1 as int);
    }
    let i3: usize = a[i2] as usize;
    proof {
        lemma_perms_in_range(s, i2 as int);
    }
    proof {
        lemma_perms_in_range(s, i3 as int);
    }
    let r0: usize = b[i0] as usize;
    let r1: usize = b[i1] as usize;
    let r2: usize = b[i2] as usize;
    let r3: usize = b[i3] as usize;
    let row: Vec<usize> = vec![
        t + i0,
        t + i1,
        t + i2,
        t + i3,
        t + r0,
        t + r1,
        t + r2,
        t + r3,
    ];
    proof {
        assert(row@[0] as int == t + spec_transform(s, i as int, 0));
        assert(row@[1] as int == t + spec_transform(s, i as int, 1));
        assert(row@[2] as int == t + spec_transform(s, i as int, 2));
        assert(row@[3] as int == t + spec_transform(s, i as int, 3));
        assert(row@[4] as int == t + spec_transform(s, i as int, 4));
        assert(row@[5] as int == t + spec_transform(s, i as int, 5));
        assert(row@[6] as int == t + spec_transform(s, i as int, 6));
        assert(row@[7] as int == t + spec_transform(s, i as int, 7));
        assert forall|k: int| 0 <= k < 8 implies row@[k] < t + spec_cardinality(s) by {
            lemma_transform_in_range(s, i as int, k);
        }
    }
    row
}

/// Whether one declared pair `(l, r)` marks `(x, y)` as compatible in the
/// west direction: the literal placement or one of its three derived
/// symmetry counterparts, read off the action table.
pub open spec fn mark_west(p: (usize, usize), action: Seq<Vec<usize>>, x: int, y: int) -> bool {
    let l = p.0 as int;
    let r = p.1 as int;
    ||| (x == r && y == l)
    ||| (x == action[r]@[6] && y == action[l]@[6])
    ||| (x == action[l]@[4] && y == action[r]@[4])
    ||| (x == action[l]@[2] && y == action[r]@[2])
}

/// Whether one declared pair marks `(x, y)` as compatible in the south
/// direction, via the pair's 90-degree-rotated partners.
pub open spec fn mark_south(p: (usize, usize), action: Seq<Vec<usize>>, x: int, y: int) -> bool {
    let d = action[p.0 as int]@[1] as int;
    let u = action[p.1 as int]@[1] as int;
    ||| (x == u && y == d)
    ||| (x == action[d]@[6] && y == action[u]@[6])
    ||| (x == action[u]@[4] && y == action[d]@[4])
    ||| (x == action[d]@[2] && y == action[u]@[2])
}

/// Whether some declared pair marks `(x, y)` as west-compatible.
pub open spec fn marks_west(pairs: Seq<(usize, usize)>, action: Seq<Vec<usize>>, x: int, y: int)
    -> bool {
    exists|k: int| 0 <= k < pairs.len() && #[trigger] mark_west(pairs[k], action, x, y)
}

/// Whether some declared pair marks `(x, y)` as south-compatible.
pub open spec fn marks_south(pairs: Seq<(usize, usize)>, action: Seq<Vec<usize>>, x: int, y: int)
    -> bool {
    exists|k: int| 0 <= k < pairs.len() && #[trigger] mark_south(pairs[k], action, x, y)
}

/// The full directional compatibility relation derived from the declared
/// pairs: east and north are the transposes of west and south.
pub open spec fn spec_compat(
    pairs: Seq<(usize, usize)>,
    action: Seq<Vec<usize>>,
    d: int,
    x: int,
    y: int,
) -> bool {
    if d == 0 {
        marks_west(pairs, action, x, y)
    } else if d == 1 {
        marks_south(pairs, action, x, y)
    } else if d == 2 {
        marks_west(pairs, action, y, x)
    } else {
        marks_south(pairs, action, y, x)
    }
}

/// A strictly increasing sequence (hence free of duplicates).
pub open spec fn sorted_strict(s: Seq<usize>) -> bool {
    forall|a: int, b: int| 0 <= a < b < s.len() ==> s[a] < s[b]
}

/// The simple-tiled model: the immutable tables built from the tileset, and
/// the per-solve wave state.
pub struct SimpleTiledModel {
    /// Per cell, per variant: whether the variant is still admissible.
    pub wave: Vec<Vec<bool>>,
    /// Per cell: the resolved variant, filled once a solve fully resolves.
    pub observed: Vec<Option<usize>>,
    /// Per direction, per variant: the variants admissible in the adjacent
    /// cell in that direction, as a sparse strictly increasing list.
    pub propagator: Vec<Vec<Vec<usize>>>,
    /// Per cell, per variant, per direction: how many of the neighbor's
    /// remaining candidates still support this variant from that direction.
    pub compatible: Vec<Vec<Vec<usize>>>,
    /// Pending ban events awaiting propagation.
    pub stack: Vec<(usize, usize)>,
    /// Grid width.
    pub m_x: usize,
    /// Grid height.
    pub m_y: usize,
    /// Total number of variants.
    pub t: usize,
    /// Footprint side length of a placed variant (one cell here).
    pub n: usize,
    /// Per variant: its strictly positive weight.
    pub weights: Vec<u32>,
    /// Sum of all variant weights.
    pub sum_of_weights: u32,
    /// Per cell: how many variants are still admissible.
    pub sums_of_ones: Vec<usize>,
    /// Per cell: total weight of the admissible variants, the selection key.
    pub sums_of_weights: Vec<u32>,
    /// Whether some cell has run out of candidates during this solve.
    pub contradiction: bool,
    /// Per variant: its display name, the tile name and orientation index.
    pub tilenames: Vec<String>,
    /// Per variant: its action row over the 8 transforms.
    pub action: Vec<Vec<usize>>,
    /// The declared neighbor pairs, resolved to variant ids, that the
    /// propagator was derived from.
    pub declared_pairs: Ghost<Seq<(usize, usize)>>,
}

impl SimpleTiledModel {
    /// Number of grid cells.
    pub open spec fn num_cells(self) -> int {
        self.m_x * self.m_y
    }

    /// Dimensions and immutable-table shape.
    pub open spec fn wf_dims(self) -> bool {
        &&& 1 <= self.t
        &&& self.n == 1
        &&& 1 <= self.m_x
        &&& 1 <= self.m_y
        &&& self.m_x * self.m_y <= usize::MAX
        &&& self.wave@.len() == self.num_cells()
        &&& self.observed@.len() == self.num_cells()
        &&& self.compatible@.len() == self.num_cells()
        &&& self.sums_of_ones@.len() == self.num_cells()
        &&& self.sums_of_weights@.len() == self.num_cells()
        &&& forall|i: int| 0 <= i < self.num_cells() ==> #[trigger] self.wave@[i]@.len() == self.t
        &&& forall|i: int|
            0 <= i < self.num_cells() ==> #[trigger] self.compatible@[i]@.len() == self.t
        &&& forall|i: int, v: int|
            0 <= i < self.num_cells() && 0 <= v < self.t
                ==> #[trigger] self.compatible@[i]@[v]@.len() == 4
        &&& self.weights@.len() == self.t
        &&& forall|v: int| 0 <= v < self.t ==> #[trigger] self.weights@[v] >= 1
        &&& self.sum_of_weights == prefix_sum(self.weights@, self.t as int)
        &&& self.tilenames@.len() == self.t
    }

    /// Action-table shape: one row of 8 variant ids per variant, with the
    /// identity at transform 0.
    pub open spec fn wf_action(self) -> bool {
        &&& self.action@.len() == self.t
        &&& forall|v: int| 0 <= v < self.t ==> #[trigger] self.action@[v]@.len() == 8
        &&& forall|v: int, k: int|
            0 <= v < self.t && 0 <= k < 8 ==> #[trigger] self.action@[v]@[k] < self.t
        &&& forall|v: int| 0 <= v < self.t ==> #[trigger] self.action@[v]@[0] == v
    }

    /// Propagator shape and meaning: per direction a row per variant, each a
    /// strictly increasing list of variants below `t`, containing exactly the
    /// pairs the declared rules mark compatible; east and north rows are the
    /// transposes of west and south.
    pub open spec fn wf_propagator(self) -> bool {
        &&& self.propagator@.len() == 4
        &&& forall|d: int| 0 <= d < 4 ==> #[trigger] self.propagator@[d]@.len() == self.t
        &&& forall|d: int, v: int|
            0 <= d < 4 && 0 <= v < self.t ==> sorted_strict(#[trigger] self.propagator@[d]@[v]@)
        &&& forall|d: int, v: int, j: int|
            0 <= d < 4 && 0 <= v < self.t && 0 <= j < self.propagator@[d]@[v]@.len()
                ==> #[trigger] self.propagator@[d]@[v]@[j] < self.t
        &&& forall|d: int, x: int, y: int|
            0 <= d < 4 && 0 <= x < self.t && 0 <= y < self.t
                ==> (#[trigger] self.propagator@[d]@[x]@.contains(y as usize) <==> spec_compat(
                self.declared_pairs@,
                self.action@,
                d,
                x,
                y,
            ))
    }

    /// Whether the pending-ban stack holds the event (c, v).
    pub open spec fn stack_has(self, c: int, v: int) -> bool {
        exists|k: int|
            0 <= k < self.stack@.len() && #[trigger] self.stack@[k] == (c as usize, v as usize)
    }

    /// A variant still counts as supporting its neighbors until its ban event
    /// has been propagated: it is either admissible, or banned with the event
    /// still pending on the stack.
    pub open spec fn pending(self, c: int, v: int) -> bool {
        self.wave@[c]@[v] || self.stack_has(c, v)
    }

    /// The cell one step in direction `d` from cell `c`, if the footprint
    /// placed there stays inside the grid.
    pub open spec fn spec_neighbor(self, c: int, d: int) -> Option<int> {
        let x = c % (self.m_x as int);
        let y = c / (self.m_x as int);
        if d == 0 {
            if x >= 1 && x - 1 + self.n <= self.m_x && y + self.n <= self.m_y {
                Some(c - 1)
            } else {
                None
            }
        } else if d == 1 {
            if x + self.n <= self.m_x && y + 1 + self.n <= self.m_y {
                Some(c + self.m_x)
            } else {
                None
            }
        } else if d == 2 {
            if x + 1 + self.n <= self.m_x && y + self.n <= self.m_y {
                Some(c + 1)
            } else {
                None
            }
        } else {
            if y >= 1 && x + self.n <= self.m_x && y - 1 + self.n <= self.m_y {
                Some(c - self.m_x)
            } else {
                None
            }
        }
    }

    /// How many variants below `k`, still pending in cell `p`, list `v` as a
    /// compatible direction-`d` neighbor.
    pub open spec fn support_count(self, p: int, d: int, v: int, k: int) -> int
        decreases k,
    {
        if k <= 0 {
            0
        } else {
            self.support_count(p, d, v, k - 1) + if self.pending(p, k - 1)
                && self.propagator@[d]@[k - 1]@.contains(v as usize) {
                1int
            } else {
                0int
            }
        }
    }

    /// Support counters mean what they say: for every admissible variant `v`
    /// of a cell `c` whose direction-`d` support source (the neighbor one
    /// step in the opposite direction) lies in the grid, the counter equals
    /// the number of pending variants of that source compatible with `v` in
    /// direction `d`. With an empty stack, pending is just admissible.
    pub open spec fn wf_supports(self) -> bool {
        forall|c: int, v: int, d: int|
            0 <= c < self.num_cells() && 0 <= v < self.t && 0 <= d < 4 && self.wave@[c]@[v] ==> (
            self.spec_neighbor(c, spec_opposite(d)) matches Some(p)
                ==> #[trigger] self.compatible@[c]@[v]@[d] == self.support_count(
                p,
                d,
                v,
                self.t as int,
            ))
    }

    /// Wave-state bookkeeping: the per-cell counters match the domain rows,
    /// the contradiction flag is set exactly when some cell ran dry, and the
    /// stack holds banned (cell, variant) events only, each at most once.
    pub open spec fn wf_state(self) -> bool {
        &&& forall|i: int|
            0 <= i < self.num_cells() ==> #[trigger] self.sums_of_ones@[i] == count_true(
                self.wave@[i]@,
                self.t as int,
            )
        &&& forall|i: int|
            0 <= i < self.num_cells() ==> #[trigger] self.sums_of_weights@[i] == weight_sum(
                self.wave@[i]@,
                self.weights@,
                self.t as int,
            )
        &&& (self.contradiction <==> exists|i: int|
            0 <= i < self.num_cells() && #[trigger] self.sums_of_ones@[i] == 0)
        &&& forall|s: int|
            0 <= s < self.stack@.len() ==> ({
                let e = #[trigger] self.stack@[s];
                e.0 < self.num_cells() && e.1 < self.t && !self.wave@[e.0 as int]@[e.1 as int]
            })
        &&& forall|k1: int, k2: int|
            #![trigger self.stack@[k1], self.stack@[k2]]
            0 <= k1 < k2 < self.stack@.len() ==> self.stack@[k1] != self.stack@[k2]
    }

    /// The model invariant apart from support-counter meaning: shapes,
    /// tables, and the wave bookkeeping.
    pub open spec fn wf_base(self) -> bool {
        &&& self.wf_dims()
        &&& self.wf_action()
        &&& self.wf_propagator()
        &&& self.wf_state()
    }

    /// The whole model invariant.
    pub open spec fn wf(self) -> bool {
        &&& self.wf_base()
        &&& self.wf_supports()
    }

    /// The immutable tables and dimensions of `self` and `other` agree.
    pub open spec fn same_tables(self, other: Self) -> bool {
        &&& self.m_x == other.m_x
        &&& self.m_y == other.m_y
        &&& self.t == other.t
        &&& self.n == other.n
        &&& self.weights == other.weights
        &&& self.sum_of_weights == other.sum_of_weights
        &&& self.propagator == other.propagator
        &&& self.action == other.action
        &&& self.tilenames == other.tilenames
        &&& self.declared_pairs == other.declared_pairs
    }

    /// Support counts stay in 0..=k.
    pub proof fn lemma_support_count_nonneg(self, p: int, d: int, v: int, k: int)
        requires
            0 <= k,
        ensures
            0 <= self.support_count(p, d, v, k) <= k,
        decreases k,
    {
        if k > 0 {
            self.lemma_support_count_nonneg(p, d, v, k - 1);
        }
    }

    /// A neighbor step stays in the grid and inverts: stepping back in the
    /// opposite direction returns to the cell.
    pub proof fn lemma_neighbor_pair(self, c: int, d: int)
        requires
            self.wf_dims(),
            0 <= c < self.num_cells(),
            0 <= d < 4,
        ensures
            self.spec_neighbor(c, d) matches Some(p) ==> 0 <= p < self.num_cells()
                && self.spec_neighbor(p, spec_opposite(d)) == Some(c),
    {
        let m_x = self.m_x as int;
        let m_y = self.m_y as int;
        let x = c % m_x;
        let y = c / m_x;
        lemma_fundamental_div_mod(c, m_x);
        assert(y < m_y) by (nonlinear_arith)
            requires
                0 <= c < m_x * m_y,
                m_x >= 1,
                m_y >= 1,
                y == c / m_x,
        ;
        assert(0 <= y) by (nonlinear_arith)
            requires
                0 <= c,
                m_x >= 1,
                y == c / m_x,
        ;
        match self.spec_neighbor(c, d) {
            None => {},
            Some(p) => if d == 0 {
                lemma_fundamental_div_mod_converse(p, m_x, y, x - 1);
                assert(0 <= p < self.num_cells());
            } else if d == 1 {
                assert(p == (y + 1) * m_x + x) by (nonlinear_arith)
                    requires
                        c == m_x * y + x,
                        p == c + m_x,
                ;
                lemma_fundamental_div_mod_converse(p, m_x, y + 1, x);
                assert(p < m_x * m_y) by (nonlinear_arith)
                    requires
                        p == (y + 1) * m_x + x,
                        0 <= x < m_x,
                        y + 1 <= m_y - 1,
                        m_x >= 1,
                ;
                assert(0 <= p) by (nonlinear_arith)
                    requires
                        p == (y + 1) * m_x + x,
                        0 <= x,
                        0 <= y,
                        m_x >= 1,
                ;
            } else if d == 2 {
                lemma_fundamental_div_mod_converse(p, m_x, y, x + 1);
                assert(p < m_x * m_y) by (nonlinear_arith)
                    requires
                        p == c + 1,
                        c == m_x * y + x,
                        0 <= x,
                        x + 2 <= m_x,
                        y < m_y,
                        m_x >= 1,
                ;
            } else {
                assert(p == (y - 1) * m_x + x) by (nonlinear_arith)
                    requires
                        c == m_x * y + x,
                        p == c - m_x,
                ;
                lemma_fundamental_div_mod_converse(p, m_x, y - 1, x);
                assert(0 <= p) by (nonlinear_arith)
                    requires
                        p == (y - 1) * m_x + x,
                        0 <= x,
                        1 <= y,
                        m_x >= 1,
                ;
                assert(p < c);
            },
        }
    }

    /// Eliminate variant `v` from cell `i`: clear the domain bit, zero the
    /// variant's support counters, push the ban event, and update the cell's
    /// candidate count, weight sum and the contradiction flag. The weight sum
    /// strictly decreases.
    pub fn ban(&mut self, i: usize, v: usize)
        requires
            old(self).wf_base(),
            i < old(self).num_cells(),
            v < old(self).t,
            old(self).wave@[i as int]@[v as int],
        ensures
            final(self).wf_base(),
            old(self).wf_supports() ==> final(self).wf_supports(),
            forall|q: int, u: int|
                0 <= q < old(self).num_cells() && 0 <= u < old(self).t
                    ==> (#[trigger] final(self).pending(q, u) <==> old(self).pending(q, u)),
            final(self).same_tables(*old(self)),
            final(self).observed == old(self).observed,
            final(self).wave@[i as int]@ == old(self).wave@[i as int]@.update(v as int, false),
            forall|j: int|
                0 <= j < old(self).num_cells() && j != i ==> final(self).wave@[j] == old(
                    self,
                ).wave@[j],
            final(self).stack@ == old(self).stack@.push((i, v)),
            final(self).sums_of_ones@ == old(self).sums_of_ones@.update(
                i as int,
                (old(self).sums_of_ones@[i as int] - 1) as usize,
            ),
            final(self).sums_of_weights@ == old(self).sums_of_weights@.update(
                i as int,
                (old(self).sums_of_weights@[i as int] - old(self).weights@[v as int]) as u32,
            ),
            final(self).sums_of_weights@[i as int] < old(self).sums_of_weights@[i as int],
            final(self).contradiction == (old(self).contradiction || old(
                self,
            ).sums_of_ones@[i as int] == 1),
            forall|j: int, u: int|
                0 <= j < old(self).num_cells() && 0 <= u < old(self).t && !(j == i && u == v)
                    ==> #[trigger] final(self).compatible@[j]@[u] == old(self).compatible@[j]@[u],
            forall|d: int| 0 <= d < 4 ==> #[trigger] final(self).compatible@[i as int]@[v as int]@[d] == 0,
    {
        proof {
            lemma_count_pos(self.wave@[i as int]@, self.t as int, v as int);
            lemma_weight_sum_lower(self.wave@[i as int]@, self.weights@, self.t as int, v as int);
            lemma_count_true_update(self.wave@[i as int]@, self.t as int, v as int);
            lemma_weight_sum_update(self.wave@[i as int]@, self.weights@, self.t as int, v as int);
        }
        self.wave[i][v] = false;
        self.compatible[i][v][0] = 0;
        self.compatible[i][v][1] = 0;
        self.compatible[i][v][2] = 0;
        self.compatible[i][v][3] = 0;
        self.stack.push((i, v));
        let ones: usize = self.sums_of_ones[i];
        self.sums_of_ones[i] = ones - 1;
        let w: u32 = self.weights[v];
        let sw: u32 = self.sums_of_weights[i];
        self.sums_of_weights[i] = sw - w;
        if ones - 1 == 0 {
            self.contradiction = true;
        }
        proof {
            let post = *self;
            let pre = *old(self);
            assert forall|j: int|
                0 <= j < pre.num_cells() && j != i implies #[trigger] post.sums_of_ones@[j]
                == count_true(post.wave@[j]@, post.t as int) by {
                assert(post.wave@[j] == pre.wave@[j]);
            }
            assert forall|j: int|
                0 <= j < pre.num_cells() && j != i implies #[trigger] post.sums_of_weights@[j]
                == weight_sum(post.wave@[j]@, post.weights@, post.t as int) by {
                assert(post.wave@[j] == pre.wave@[j]);
            }
            // The contradiction flag still marks exactly the dried-out cells.
            if post.contradiction {
                if pre.contradiction {
                    let j = choose|j: int|
                        0 <= j < pre.num_cells() && #[trigger] pre.sums_of_ones@[j] == 0;
                    assert(post.sums_of_ones@[j] == 0);
                } else {
                    assert(post.sums_of_ones@[i as int] == 0);
                }
            }
            if exists|j: int| 0 <= j < post.num_cells() && #[trigger] post.sums_of_ones@[j] == 0 {
                let j = choose|j: int|
                    0 <= j < post.num_cells() && #[trigger] post.sums_of_ones@[j] == 0;
                if j != i {
                    assert(pre.sums_of_ones@[j] == 0);
                }
                assert(post.contradiction);
            }
            assert forall|s: int|
                0 <= s < post.stack@.len() implies ({
                    let e = #[trigger] post.stack@[s];
                    e.0 < post.num_cells() && e.1 < post.t && !post.wave@[e.0 as int]@[e.1 as int]
                }) by {
                if s < pre.stack@.len() {
                    assert(pre.stack@[s] == post.stack@[s]);
                    assert(!pre.wave@[post.stack@[s].0 as int]@[post.stack@[s].1 as int]);
                }
            }
            // The new event is fresh: every entry already on the stack names a
            // banned variant, while (i, v) was admissible until now.
            assert forall|k1: int, k2: int|
                #![trigger post.stack@[k1], post.stack@[k2]]
                0 <= k1 < k2 < post.stack@.len() implies post.stack@[k1] != post.stack@[k2] by {
                if k2 < pre.stack@.len() {
                    assert(pre.stack@[k1] == post.stack@[k1]);
                    assert(pre.stack@[k2] == post.stack@[k2]);
                } else {
                    assert(post.stack@[k2] == (i, v));
                    assert(pre.stack@[k1] == post.stack@[k1]);
                    if post.stack@[k1] == (i, v) {
                        assert(!pre.wave@[i as int]@[v as int]);
                    }
                }
            }
            // Banning moves (i, v) from admissible to pending-on-stack, so
            // pending is untouched everywhere.
            assert forall|q: int, u: int|
                0 <= q < pre.num_cells() && 0 <= u < pre.t implies (#[trigger] post.pending(q, u)
                <==> pre.pending(q, u)) by {
                if q == i && u == v {
                    assert(post.stack@[post.stack@.len() - 1] == (i, v));
                    assert(post.stack_has(q, u));
                } else {
                    if pre.stack_has(q, u) {
                        let k = choose|k: int|
                            0 <= k < pre.stack@.len() && #[trigger] pre.stack@[k] == (
                                q as usize,
                                u as usize,
                            );
                        assert(post.stack@[k] == (q as usize, u as usize));
                    }
                    if post.stack_has(q, u) {
                        let k = choose|k: int|
                            0 <= k < post.stack@.len() && #[trigger] post.stack@[k] == (
                                q as usize,
                                u as usize,
                            );
                        if k < pre.stack@.len() {
                            assert(pre.stack@[k] == (q as usize, u as usize));
                        }
                    }
                    if q != i {
                        assert(post.wave@[q] == pre.wave@[q]);
                    }
                }
            }
            if pre.wf_supports() {
                assert forall|c: int, vv: int, d: int|
                    0 <= c < post.num_cells() && 0 <= vv < post.t && 0 <= d < 4
                        && post.wave@[c]@[vv] implies (post.spec_neighbor(c, spec_opposite(d))
                matches Some(p) ==> #[trigger] post.compatible@[c]@[vv]@[d] == post.support_count(
                    p,
                    d,
                    vv,
                    post.t as int,
                )) by {
                    match post.spec_neighbor(c, spec_opposite(d)) {
                        None => {},
                        Some(p) => {
                            assert(pre.wave@[c]@[vv]);
                            assert(!(c == i && vv == v));
                            assert(pre.spec_neighbor(c, spec_opposite(d)) == post.spec_neighbor(
                                c,
                                spec_opposite(d),
                            ));
                            pre.lemma_neighbor_pair(c, spec_opposite(d));
                            assert(0 <= p < pre.num_cells());
                            assert(pre.compatible@[c]@[vv]@[d] == pre.support_count(
                                p,
                                d,
                                vv,
                                pre.t as int,
                            ));
                            lemma_support_count_congruent(pre, post, p, d, vv, pre.t as int);
                        },
                    }
                }
            }
        }
    }

    /// Reset the wave to the fully undetermined state: every variant
    /// admissible in every cell, support counters refilled from the
    /// opposite-direction propagator rows, counters and weight sums at their
    /// starting values, nothing observed, no pending bans, no contradiction.
    pub fn clear(&mut self)
        requires
            old(self).wf_base(),
        ensures
            final(self).wf(),
            final(self).same_tables(*old(self)),
            forall|i: int, v: int|
                0 <= i < final(self).num_cells() && 0 <= v < final(self).t
                    ==> #[trigger] final(self).wave@[i]@[v],
            forall|i: int|
                0 <= i < final(self).num_cells() ==> #[trigger] final(self).observed@[i] is None,
            forall|i: int|
                0 <= i < final(self).num_cells() ==> #[trigger] final(self).sums_of_ones@[i]
                    == final(self).t,
            forall|i: int|
                0 <= i < final(self).num_cells() ==> #[trigger] final(self).sums_of_weights@[i]
                    == final(self).sum_of_weights,
            final(self).stack@.len() == 0,
            !final(self).contradiction,
            forall|i: int, v: int, d: int|
                0 <= i < final(self).num_cells() && 0 <= v < final(self).t && 0 <= d < 4
                    ==> #[trigger] final(self).compatible@[i]@[v]@[d] == final(self).propagator@[spec_opposite(d)]@[v]@.len(),
    {
        let cells: usize = self.wave.len();
        let t: usize = self.t;
        let mut i: usize = 0;
        while i < cells
            invariant
                self.wf_dims(),
                self.wf_action(),
                self.wf_propagator(),
                self.same_tables(*old(self)),
                cells == self.num_cells(),
                t == self.t,
                i <= cells,
                self.wave@.len() == cells,
                self.observed@.len() == cells,
                self.compatible@.len() == cells,
                self.sums_of_ones@.len() == cells,
                self.sums_of_weights@.len() == cells,
                self.stack == old(self).stack,
                self.contradiction == old(self).contradiction,
                forall|j: int| 0 <= j < i ==> #[trigger] self.observed@[j] is None,
                forall|j: int, v: int|
                    0 <= j < i && 0 <= v < t ==> #[trigger] self.wave@[j]@[v],
                forall|j: int|
                    0 <= j < i ==> #[trigger] self.sums_of_ones@[j] == t,
                forall|j: int|
                    0 <= j < i ==> #[trigger] self.sums_of_weights@[j] == self.sum_of_weights,
                forall|j: int, v: int, d: int|
                    0 <= j < i && 0 <= v < t && 0 <= d < 4
                        ==> #[trigger] self.compatible@[j]@[v]@[d] == self.propagator@[spec_opposite(d)]@[v]@.len(),
            decreases cells - i,
        {
            let mut v: usize = 0;
            while v < t
                invariant
                    self.wf_dims(),
                    self.wf_action(),
                    self.wf_propagator(),
                    self.same_tables(*old(self)),
                    cells == self.num_cells(),
                    t == self.t,
                    i < cells,
                    v <= t,
                    self.wave@.len() == cells,
                    self.observed@.len() == cells,
                    self.compatible@.len() == cells,
                    self.sums_of_ones@.len() == cells,
                    self.sums_of_weights@.len() == cells,
                    self.stack == old(self).stack,
                    self.contradiction == old(self).contradiction,
                    forall|j: int| 0 <= j < i ==> #[trigger] self.observed@[j] is None,
                    forall|j: int, u: int|
                        0 <= j < i && 0 <= u < t ==> #[trigger] self.wave@[j]@[u],
                    forall|u: int| 0 <= u < v ==> #[trigger] self.wave@[i as int]@[u],
                    forall|j: int|
                        0 <= j < i ==> #[trigger] self.sums_of_ones@[j] == t,
                    forall|j: int|
                        0 <= j < i ==> #[trigger] self.sums_of_weights@[j] == self.sum_of_weights,
                    forall|j: int, u: int, d: int|
                        0 <= j < i && 0 <= u < t && 0 <= d < 4
                            ==> #[trigger] self.compatible@[j]@[u]@[d] == self.propagator@[spec_opposite(d)]@[u]@.len(),
                    forall|u: int, d: int|
                        0 <= u < v && 0 <= d < 4 ==> #[trigger] self.compatible@[i as int]@[u]@[d]
                            == self.propagator@[spec_opposite(d)]@[u]@.len(),
                decreases t - v,
            {
                self.wave[i][v] = true;
                let mut d: usize = 0;
                while d < 4
                    invariant
                        self.wf_dims(),
                        self.wf_action(),
                        self.wf_propagator(),
                        self.same_tables(*old(self)),
                        cells == self.num_cells(),
                        t == self.t,
                        i < cells,
                        v < t,
                        d <= 4,
                        self.wave@.len() == cells,
                        self.observed@.len() == cells,
                        self.compatible@.len() == cells,
                        self.sums_of_ones@.len() == cells,
                        self.sums_of_weights@.len() == cells,
                        self.stack == old(self).stack,
                        self.contradiction == old(self).contradiction,
                        forall|j: int| 0 <= j < i ==> #[trigger] self.observed@[j] is None,
                        self.wave@[i as int]@[v as int],
                        forall|j: int, u: int|
                            0 <= j < i && 0 <= u < t ==> #[trigger] self.wave@[j]@[u],
                        forall|u: int| 0 <= u < v ==> #[trigger] self.wave@[i as int]@[u],
                        forall|j: int|
                            0 <= j < i ==> #[trigger] self.sums_of_ones@[j] == t,
                        forall|j: int|
                            0 <= j < i ==> #[trigger] self.sums_of_weights@[j]
                                == self.sum_of_weights,
                        forall|j: int, u: int, dd: int|
                            0 <= j < i && 0 <= u < t && 0 <= dd < 4
                                ==> #[trigger] self.compatible@[j]@[u]@[dd] == self.propagator@[spec_opposite(dd)]@[u]@.len(),
                        forall|u: int, dd: int|
                            0 <= u < v && 0 <= dd < 4
                                ==> #[trigger] self.compatible@[i as int]@[u]@[dd]
                                == self.propagator@[spec_opposite(dd)]@[u]@.len(),
                        forall|dd: int|
                            0 <= dd < d ==> #[trigger] self.compatible@[i as int]@[v as int]@[dd]
                                == self.propagator@[spec_opposite(dd)]@[v as int]@.len(),
                    decreases 4 - d,
                {
                    let opp: usize = opposite(d);
                    let supports: usize = self.propagator[opp][v].len();
                    self.compatible[i][v][d] = supports;
                    d = d + 1;
                }
                v = v + 1;
            }
            self.sums_of_ones[i] = t;
            self.sums_of_weights[i] = self.sum_of_weights;
            self.observed[i] = None;
            proof {
                lemma_count_all_true(self.wave@[i as int]@, self.weights@, t as int);
            }
            i = i + 1;
        }
        self.stack = Vec::new();
        self.contradiction = false;
        proof {
            let post = *self;
            assert forall|j: int|
                0 <= j < post.num_cells() implies #[trigger] post.sums_of_ones@[j] == count_true(
                post.wave@[j]@,
                post.t as int,
            ) by {
                lemma_count_all_true(post.wave@[j]@, post.weights@, post.t as int);
            }
            assert forall|j: int|
                0 <= j < post.num_cells() implies #[trigger] post.sums_of_weights@[j]
                == weight_sum(post.wave@[j]@, post.weights@, post.t as int) by {
                lemma_count_all_true(post.wave@[j]@, post.weights@, post.t as int);
            }
            // Every variant is admissible again, so each counter must equal
            // the full length of the matching opposite-direction row.
            assert forall|c: int, v: int, d: int|
                0 <= c < post.num_cells() && 0 <= v < post.t && 0 <= d < 4
                    && post.wave@[c]@[v] implies (post.spec_neighbor(c, spec_opposite(d))
            matches Some(p) ==> #[trigger] post.compatible@[c]@[v]@[d] == post.support_count(
                p,
                d,
                v,
                post.t as int,
            )) by {
                match post.spec_neighbor(c, spec_opposite(d)) {
                    None => {},
                    Some(p) => {
                        post.lemma_neighbor_pair(c, spec_opposite(d));
                        assert(forall|u: int|
                            0 <= u < post.t ==> #[trigger] post.pending(p, u));
                        lemma_support_count_full(post, p, d, v, post.t as int);
                        lemma_contains_below_len(
                            post.propagator@[spec_opposite(d)]@[v]@,
                            post.t as int,
                        );
                        assert(post.compatible@[c]@[v]@[d] == post.propagator@[spec_opposite(
                            d,
                        )]@[v]@.len());
                    },
                }
            }
        }
    }
}


/// A distribution built by masking the weights with a domain row sums to the
/// row's weight sum.
pub proof fn lemma_distribution_sum(row: Seq<bool>, weights: Seq<u32>, dist: Seq<u32>, k: int)
    requires
        0 <= k <= row.len(),
        k <= dist.len(),
        k <= weights.len(),
        forall|j: int|
            0 <= j < k ==> #[trigger] dist[j] == if row[j] {
                weights[j]
            } else {
                0u32
            },
    ensures
        prefix_sum(dist, k) == weight_sum(row, weights, k),
    decreases k,
{
    if k > 0 {
        lemma_distribution_sum(row, weights, dist, k - 1);
    }
}

/// Prefix sums agree on sequences that agree up to `k`.
proof fn lemma_prefix_sum_same(s1: Seq<u32>, s2: Seq<u32>, k: int)
    requires
        0 <= k <= s1.len(),
        k <= s2.len(),
        forall|j: int| 0 <= j < k ==> s1[j] == s2[j],
    ensures
        prefix_sum(s1, k) == prefix_sum(s2, k),
    decreases k,
{
    if k > 0 {
        lemma_prefix_sum_same(s1, s2, k - 1);
    }
}

/// Sum of the per-cell candidate counts over the first `k` cells.
pub open spec fn total_ones(s: Seq<usize>, k: int) -> int
    decreases k,
{
    if k <= 0 {
        0
    } else {
        total_ones(s, k - 1) + s[k - 1]
    }
}

pub proof fn lemma_total_ones_nonneg(s: Seq<usize>, k: int)
    requires
        0 <= k,
    ensures
        total_ones(s, k) >= 0,
    decreases k,
{
    if k > 0 {
        lemma_total_ones_nonneg(s, k - 1);
    }
}

pub proof fn lemma_total_ones_update(s: Seq<usize>, k: int, i: int, x: usize)
    requires
        0 <= i < k <= s.len(),
    ensures
        total_ones(s.update(i, x), k) == total_ones(s, k) - s[i] + x,
    decreases k,
{
    if k > 0 {
        lemma_total_ones_update_rec(s, k, i, x);
    }
}

proof fn lemma_total_ones_update_rec(s: Seq<usize>, k: int, i: int, x: usize)
    requires
        0 <= i < k <= s.len(),
    ensures
        total_ones(s.update(i, x), k) == total_ones(s, k) - s[i] + x,
    decreases k,
{
    if i < k - 1 {
        lemma_total_ones_update_rec(s, k - 1, i, x);
    } else {
        lemma_total_ones_same(s.update(i, x), s, k - 1);
    }
}

proof fn lemma_total_ones_same(s1: Seq<usize>, s2: Seq<usize>, k: int)
    requires
        0 <= k <= s1.len(),
        k <= s2.len(),
        forall|j: int| 0 <= j < k ==> s1[j] == s2[j],
    ensures
        total_ones(s1, k) == total_ones(s2, k),
    decreases k,
{
    if k > 0 {
        lemma_total_ones_same(s1, s2, k - 1);
    }
}

/// Pointwise smaller counts give a smaller total; strictly smaller somewhere,
/// strictly smaller in total.
pub proof fn lemma_total_ones_monotone(s1: Seq<usize>, s2: Seq<usize>, k: int)
    requires
        0 <= k <= s1.len(),
        k <= s2.len(),
        forall|j: int| 0 <= j < k ==> #[trigger] s1[j] <= s2[j],
    ensures
        total_ones(s1, k) <= total_ones(s2, k),
    decreases k,
{
    if k > 0 {
        lemma_total_ones_monotone(s1, s2, k - 1);
    }
}

pub proof fn lemma_total_ones_strict(s1: Seq<usize>, s2: Seq<usize>, k: int, i: int)
    requires
        0 <= i < k <= s1.len(),
        k <= s2.len(),
        forall|j: int| 0 <= j < k ==> #[trigger] s1[j] <= s2[j],
        s1[i] < s2[i],
    ensures
        total_ones(s1, k) < total_ones(s2, k),
    decreases k,
{
    if i < k - 1 {
        lemma_total_ones_strict(s1, s2, k - 1, i);
    } else {
        lemma_total_ones_monotone(s1, s2, k - 1);
    }
}

/// A pointwise-smaller domain row has no larger a count.
pub proof fn lemma_count_monotone(row1: Seq<bool>, row2: Seq<bool>, k: int)
    requires
        0 <= k <= row1.len(),
        k <= row2.len(),
        forall|j: int| 0 <= j < k && #[trigger] row1[j] ==> row2[j],
    ensures
        count_true(row1, k) <= count_true(row2, k),
    decreases k,
{
    if k > 0 {
        lemma_count_monotone(row1, row2, k - 1);
    }
}

/// A positive count means some slot is admissible.
pub proof fn lemma_count_pos_exists(row: Seq<bool>, k: int)
    requires
        0 <= k <= row.len(),
        count_true(row, k) > 0,
    ensures
        exists|u: int| 0 <= u < k && row[u],
{
    if forall|u: int| 0 <= u < k ==> !row[u] {
        lemma_count_zero_range(row, k);
    }
}

/// The high 32 bits of a selection key are the weight sum it was built from.
proof fn lemma_key_high_bits(a: u64, b: u64)
    requires
        a < 0x1_0000_0000,
        b < 0x1_0000_0000,
    ensures
        ((a << 32u64) | b) >> 32u64 == a,
{
    assert(a < 0x1_0000_0000 && b < 0x1_0000_0000 ==> ((a << 32u64) | b) >> 32u64 == a)
        by (bit_vector);
}

/// Shifting keeps order: a smaller key cannot carry a larger weight sum.
proof fn lemma_key_order(k1: u64, k2: u64)
    requires
        k1 <= k2,
    ensures
        k1 >> 32u64 <= k2 >> 32u64,
{
    assert(k1 <= k2 ==> k1 >> 32u64 <= k2 >> 32u64) by (bit_vector);
}

impl SimpleTiledModel {
    /// Whether a cell's full footprint lies inside the grid, making it a
    /// candidate for selection.
    pub open spec fn eligible(self, i: int) -> bool {
        (i % self.m_x as int) + self.n <= self.m_x && (i / self.m_x as int) + self.n <= self.m_y
    }

    /// With single-cell footprints, every cell is eligible.
    pub proof fn lemma_all_eligible(self, i: int)
        requires
            self.wf(),
            0 <= i < self.num_cells(),
        ensures
            self.eligible(i),
    {
        assert((i / self.m_x as int) < self.m_y) by (nonlinear_arith)
            requires
                0 <= i < self.m_x * self.m_y,
                self.m_x >= 1,
                self.m_y >= 1,
        ;
    }

    /// Termination measure of propagation: pending events plus twice the
    /// remaining candidates. A pop removes one event; a ban adds one event
    /// and removes one candidate.
    pub open spec fn measure(self) -> int {
        self.stack@.len() + 2 * total_ones(self.sums_of_ones@, self.num_cells())
    }

    /// Pick the cell to collapse next: among the eligible cells with more
    /// than one candidate left, the one with the smallest selection key,
    /// where a key is the cell's remaining weight sum perturbed in its low
    /// bits by seeded noise so that ties break reproducibly. Returns `None`
    /// exactly when no eligible cell has more than one candidate.
    pub fn next_unobserved_node(&self, rng: &mut rand::rngs::StdRng) -> (r: Option<usize>)
        requires
            self.wf(),
        ensures
            match r {
                Option::Some(i) => i < self.num_cells() && self.eligible(i as int)
                    && self.sums_of_ones@[i as int] > 1 && (forall|j: int|
                    0 <= j < self.num_cells() && self.eligible(j) && self.sums_of_ones@[j] > 1
                        ==> self.sums_of_weights@[i as int] <= #[trigger] self.sums_of_weights@[j]),
                Option::None => forall|i: int|
                    0 <= i < self.num_cells() && self.eligible(i)
                        ==> #[trigger] self.sums_of_ones@[i] <= 1,
            },
    {
        let cells: usize = self.wave.len();
        let mut min: u64 = u64::MAX;
        let ghost mut min_ws: int = 0;
        let mut argmin: Option<usize> = None;
        let mut i: usize = 0;
        while i < cells
            invariant
                self.wf(),
                cells == self.num_cells(),
                i <= cells,
                match argmin {
                    Option::Some(j) => j < cells && self.eligible(j as int)
                        && self.sums_of_ones@[j as int] > 1 && self.sums_of_weights@[j as int]
                        == min_ws && (min >> 32u64) as int == min_ws && (forall|jj: int|
                        0 <= jj < i && self.eligible(jj) && self.sums_of_ones@[jj] > 1
                            ==> min_ws <= #[trigger] self.sums_of_weights@[jj]),
                    Option::None => forall|j: int|
                        0 <= j < i && self.eligible(j) ==> #[trigger] self.sums_of_ones@[j] <= 1,
                },
            decreases cells - i,
        {
            let x: usize = i % self.m_x;
            let y: usize = i / self.m_x;
            if x + self.n <= self.m_x && y + self.n <= self.m_y {
                if self.sums_of_ones[i] > 1 {
                    let ws: u32 = self.sums_of_weights[i];
                    let noise: u32 = rng_next_u32(rng);
                    let key: u64 = ((ws as u64) << 32u64) | (noise as u64);
                    proof {
                        lemma_key_high_bits(ws as u64, noise as u64);
                    }
                    if argmin.is_none() || key < min {
                        proof {
                            if argmin is Some {
                                lemma_key_order(key, min);
                            }
                            min_ws = ws as int;
                        }
                        min = key;
                        argmin = Some(i);
                    } else {
                        proof {
                            lemma_key_order(min, key);
                        }
                    }
                }
            }
            i = i + 1;
        }
        argmin
    }

    /// Collapse `node`: build the weight distribution over its admissible
    /// variants, draw the threshold from the seeded stream, pick a variant by
    /// cumulative-weight thresholding, and ban every other admissible
    /// variant. Afterwards exactly one variant, an admissible one, remains.
    pub fn observe(&mut self, node: usize, rng: &mut rand::rngs::StdRng)
        requires
            old(self).wf(),
            node < old(self).num_cells(),
            old(self).sums_of_ones@[node as int] >= 1,
        ensures
            final(self).wf(),
            final(self).same_tables(*old(self)),
            final(self).observed == old(self).observed,
            final(self).contradiction == old(self).contradiction,
            final(self).sums_of_ones@[node as int] == 1,
            exists|c: int|
                0 <= c < final(self).t && old(self).wave@[node as int]@[c] && (forall|u: int|
                    0 <= u < final(self).t ==> (#[trigger] final(self).wave@[node as int]@[u] <==> u
                        == c)),
            forall|j: int|
                0 <= j < old(self).num_cells() && j != node ==> #[trigger] final(self).wave@[j]
                    == old(self).wave@[j],
    {
        let t: usize = self.t;
        let mut distribution: Vec<u32> = Vec::new();
        let mut v: usize = 0;
        while v < t
            invariant
                *self == *old(self),
                self.wf(),
                node < self.num_cells(),
                t == self.t,
                v <= t,
                distribution@.len() == v,
                forall|j: int|
                    0 <= j < v ==> #[trigger] distribution@[j] == if self.wave@[node as int]@[j] {
                        self.weights@[j]
                    } else {
                        0u32
                    },
            decreases t - v,
        {
            let w: u32 = if self.wave[node][v] {
                self.weights[v]
            } else {
                0
            };
            distribution.push(w);
            v = v + 1;
        }
        let draw: u32 = rng_next_u32(rng);
        let total: u32 = self.sums_of_weights[node];
        proof {
            assert((draw as u64) * (total as u64) <= u64::MAX) by (nonlinear_arith)
                requires
                    draw <= u32::MAX,
                    total <= u32::MAX,
            ;
        }
        // Map the 32-bit draw to a cumulative threshold in 1..=total, so a
        // variant's chance is exactly its weight's share of the total.
        let product: u64 = (draw as u64) * (total as u64);
        proof {
            assert(product >> 32u64 < 0xFFFF_FFFF_FFFF_FFFFu64) by (bit_vector);
        }
        let threshold: u64 = (product >> 32u64) + 1;
        proof {
            lemma_distribution_sum(
                self.wave@[node as int]@,
                self.weights@,
                distribution@,
                t as int,
            );
            lemma_weight_sum_le_prefix(self.wave@[node as int]@, self.weights@, t as int);
            lemma_count_pos_exists(self.wave@[node as int]@, t as int);
            let u = choose|u: int| 0 <= u < t && self.wave@[node as int]@[u];
            crate::array_utils::lemma_weighted_random_positive(
                distribution@,
                threshold as int,
                u,
            );
        }
        let chosen: usize = weighted_random(&distribution, threshold);
        proof {
            assert(self.wave@[node as int]@[chosen as int]);
        }
        let mut u: usize = 0;
        while u < t
            invariant
                self.wf(),
                self.same_tables(*old(self)),
                self.observed == old(self).observed,
                self.contradiction == old(self).contradiction,
                node < self.num_cells(),
                t == self.t,
                u <= t,
                chosen < t,
                self.wave@[node as int]@[chosen as int],
                old(self).wave@[node as int]@[chosen as int],
                forall|x: int|
                    0 <= x < u ==> (#[trigger] self.wave@[node as int]@[x] <==> x == chosen),
                forall|x: int|
                    u <= x < t ==> #[trigger] self.wave@[node as int]@[x] == old(
                        self,
                    ).wave@[node as int]@[x],
                forall|j: int|
                    0 <= j < self.num_cells() && j != node ==> #[trigger] self.wave@[j] == old(
                        self,
                    ).wave@[j],
            decreases t - u,
        {
            if u != chosen {
                if self.wave[node][u] {
                    proof {
                        if u < chosen {
                            lemma_count_two(
                                self.wave@[node as int]@,
                                t as int,
                                u as int,
                                chosen as int,
                            );
                        } else {
                            lemma_count_two(
                                self.wave@[node as int]@,
                                t as int,
                                chosen as int,
                                u as int,
                            );
                        }
                    }
                    self.ban(node, u);
                }
            }
            u = u + 1;
        }
        proof {
            lemma_count_single(self.wave@[node as int]@, t as int, chosen as int);
        }
    }

    /// Drain the ban stack: for each banned (cell, variant), lower the
    /// support counters of the compatible variants in the four neighboring
    /// cells, banning any variant whose support reaches zero, until no events
    /// remain. Returns whether the grid is still free of contradiction, that
    /// is, whether every cell kept at least one candidate. On return the
    /// stack is empty, so the support invariant (`wf_supports`, part of
    /// `wf`) says exactly that each admissible variant's counter equals the
    /// number of still-admissible supporters in the matching neighbor: a body
    /// that skipped the decrements could not re-establish it.
    #[verifier::rlimit(100)]
    pub fn propagate(&mut self) -> (r: bool)
        requires
            old(self).wf(),
        ensures
            final(self).wf(),
            final(self).same_tables(*old(self)),
            final(self).observed == old(self).observed,
            final(self).stack@.len() == 0,
            r == !final(self).contradiction,
            forall|i: int, v: int|
                0 <= i < final(self).num_cells() && 0 <= v < final(self).t
                    && #[trigger] final(self).wave@[i]@[v] ==> old(self).wave@[i]@[v],
            old(self).contradiction ==> final(self).contradiction,
            forall|i: int|
                0 <= i < final(self).num_cells() ==> #[trigger] final(self).sums_of_ones@[i]
                    <= old(self).sums_of_ones@[i],
    {
        while self.stack.len() > 0
            invariant
                self.wf(),
                self.same_tables(*old(self)),
                self.observed == old(self).observed,
                forall|i: int, v: int|
                    0 <= i < self.num_cells() && 0 <= v < self.t && #[trigger] self.wave@[i]@[v]
                        ==> old(self).wave@[i]@[v],
                old(self).contradiction ==> self.contradiction,
                forall|i: int|
                    0 <= i < self.num_cells() ==> #[trigger] self.sums_of_ones@[i] <= old(
                        self,
                    ).sums_of_ones@[i],
            decreases self.measure(),
        {
            proof {
                lemma_total_ones_nonneg(self.sums_of_ones@, self.num_cells());
            }
            let ghost m0 = self.measure();
            let ghost s0 = *self;
            let e: (usize, usize) = self.stack.pop().unwrap();
            let position: usize = e.0;
            let tile: usize = e.1;
            let position_x: usize = position % self.m_x;
            let position_y: usize = position / self.m_x;
            proof {
                assert(position_y < self.m_y) by (nonlinear_arith)
                    requires
                        0 <= position < self.m_x * self.m_y,
                        self.m_x >= 1,
                        self.m_y >= 1,
                        position_x == position as int % self.m_x as int,
                        position_y == position as int / self.m_x as int,
                ;
                lemma_fundamental_div_mod(position as int, self.m_x as int);
                assert(self.wf_dims());
                assert(self.wf_action());
                assert(self.wf_propagator());
                assert forall|ss: int|
                    0 <= ss < self.stack@.len() implies ({
                        let ee = #[trigger] self.stack@[ss];
                        ee.0 < self.num_cells() && ee.1 < self.t && !self.wave@[ee.0 as int]@[ee.1 as int]
                    }) by {
                }
                assert(self.wf_state());
                // The popped event leaves exactly one variant's pending status:
                // (position, tile) was on the stack once, with its wave bit off.
                assert(!self.stack_has(position as int, tile as int)) by {
                    if self.stack_has(position as int, tile as int) {
                        let k = choose|k: int|
                            0 <= k < self.stack@.len() && #[trigger] self.stack@[k] == (
                                position,
                                tile,
                            );
                        assert(s0.stack@[k] == (position, tile));
                        assert(s0.stack@[s0.stack@.len() - 1] == (position, tile));
                    }
                }
                assert(!self.pending(position as int, tile as int));
                assert(s0.pending(position as int, tile as int)) by {
                    assert(s0.stack@[s0.stack@.len() - 1] == (position, tile));
                }
                assert forall|q: int, u: int|
                    0 <= q < self.num_cells() && 0 <= u < self.t && !(q == position && u == tile)
                        implies (#[trigger] s0.pending(q, u) <==> self.pending(q, u)) by {
                    if s0.stack_has(q, u) {
                        let k = choose|k: int|
                            0 <= k < s0.stack@.len() && #[trigger] s0.stack@[k] == (
                                q as usize,
                                u as usize,
                            );
                        assert(k < s0.stack@.len() - 1);
                        assert(self.stack@[k] == (q as usize, u as usize));
                    }
                    if self.stack_has(q, u) {
                        let k = choose|k: int|
                            0 <= k < self.stack@.len() && #[trigger] self.stack@[k] == (
                                q as usize,
                                u as usize,
                            );
                        assert(s0.stack@[k] == (q as usize, u as usize));
                    }
                }
                // Every counter that drew support from the popped cell now
                // overcounts by exactly the popped variant's contribution.
                assert forall|c: int, v: int, dd: int|
                    0 <= c < self.num_cells() && 0 <= v < self.t && 0 <= dd < 4
                        && self.wave@[c]@[v] implies (self.spec_neighbor(c, spec_opposite(dd))
                matches Some(pp) ==> #[trigger] self.compatible@[c]@[v]@[dd]
                    == self.support_count(pp, dd, v, self.t as int) + if pp == position
                    && self.propagator@[dd]@[tile as int]@.contains(v as usize) {
                    1int
                } else {
                    0int
                }) by {
                    match self.spec_neighbor(c, spec_opposite(dd)) {
                        None => {},
                        Some(pp) => {
                            s0.lemma_neighbor_pair(c, spec_opposite(dd));
                            assert(s0.compatible@[c]@[v]@[dd] == s0.support_count(
                                pp,
                                dd,
                                v,
                                s0.t as int,
                            ));
                            if pp == position {
                                lemma_support_count_drop(
                                    s0,
                                    *self,
                                    pp,
                                    dd,
                                    v,
                                    self.t as int,
                                    tile as int,
                                );
                            } else {
                                lemma_support_count_congruent(s0, *self, pp, dd, v, self.t as int);
                            }
                        },
                    }
                }
            }
            let mut d: usize = 0;
            while d < 4
                invariant
                    self.wf_base(),
                    self.same_tables(*old(self)),
                    self.observed == old(self).observed,
                    forall|i: int, v: int|
                        0 <= i < self.num_cells() && 0 <= v < self.t && #[trigger] self.wave@[i]@[v]
                            ==> old(self).wave@[i]@[v],
                    old(self).contradiction ==> self.contradiction,
                    forall|i: int|
                        0 <= i < self.num_cells() ==> #[trigger] self.sums_of_ones@[i] <= old(
                            self,
                        ).sums_of_ones@[i],
                    self.measure() <= m0 - 1,
                    tile < self.t,
                    position < self.num_cells(),
                    position_x as int == position as int % self.m_x as int,
                    position_y as int == position as int / self.m_x as int,
                    position_x < self.m_x,
                    position_y < self.m_y,
                    position as int == self.m_x as int * position_y as int + position_x as int,
                    d <= 4,
                    forall|c: int, v: int, dd: int|
                        0 <= c < self.num_cells() && 0 <= v < self.t && 0 <= dd < 4
                            && self.wave@[c]@[v] ==> (self.spec_neighbor(c, spec_opposite(dd))
                        matches Some(pp) ==> #[trigger] self.compatible@[c]@[v]@[dd]
                            == self.support_count(pp, dd, v, self.t as int) + if pp == position
                            && dd >= d && self.propagator@[dd]@[tile as int]@.contains(v as usize) {
                            1int
                        } else {
                            0int
                        }),
                decreases 4 - d,
            {
                let mut has: bool = false;
                let mut nx: usize = 0;
                let mut ny: usize = 0;
                if d == 0 {
                    if position_x >= 1 {
                        nx = position_x - 1;
                        ny = position_y;
                        has = true;
                    }
                } else if d == 1 {
                    if position_y + self.n <= self.m_y - 1 {
                        nx = position_x;
                        ny = position_y + 1;
                        has = true;
                    }
                } else if d == 2 {
                    if position_x + self.n <= self.m_x - 1 {
                        nx = position_x + 1;
                        ny = position_y;
                        has = true;
                    }
                } else {
                    if position_y >= 1 {
                        nx = position_x;
                        ny = position_y - 1;
                        has = true;
                    }
                }
                proof {
                    assert(has <==> self.spec_neighbor(position as int, d as int) is Some);
                    if has {
                        let m = self.m_x as int;
                        let px = position_x as int;
                        let py = position_y as int;
                        if d == 0 {
                            assert(nx as int + ny as int * m == position - 1) by (nonlinear_arith)
                                requires
                                    position as int == m * py + px,
                                    nx as int == px - 1,
                                    ny as int == py,
                            ;
                        } else if d == 1 {
                            assert(nx as int + ny as int * m == position + m) by (nonlinear_arith)
                                requires
                                    position as int == m * py + px,
                                    nx as int == px,
                                    ny as int == py + 1,
                            ;
                        } else if d == 2 {
                            assert(nx as int + ny as int * m == position + 1) by (nonlinear_arith)
                                requires
                                    position as int == m * py + px,
                                    nx as int == px + 1,
                                    ny as int == py,
                            ;
                        } else {
                            assert(nx as int + ny as int * m == position - m) by (nonlinear_arith)
                                requires
                                    position as int == m * py + px,
                                    nx as int == px,
                                    ny as int == py - 1,
                            ;
                        }
                        assert(self.spec_neighbor(position as int, d as int) == Some(
                            nx as int + ny as int * self.m_x as int,
                        ));
                    }
                }
                if has {
                    proof {
                        assert(nx + ny * self.m_x < self.m_x * self.m_y) by (nonlinear_arith)
                            requires
                                0 <= nx < self.m_x,
                                0 <= ny < self.m_y,
                        ;
                    }
                    let position_move: usize = nx + ny * self.m_x;
                    proof {
                        self.lemma_neighbor_pair(position as int, d as int);
                        assert(self.spec_neighbor(position_move as int, spec_opposite(d as int))
                            == Some(position as int));
                    }
                    let len: usize = self.propagator[d][tile].len();
                    let mut idx: usize = 0;
                    while idx < len
                        invariant
                            self.wf_base(),
                            self.same_tables(*old(self)),
                            self.observed == old(self).observed,
                            forall|i: int, v: int|
                                0 <= i < self.num_cells() && 0 <= v < self.t
                                    && #[trigger] self.wave@[i]@[v] ==> old(self).wave@[i]@[v],
                            old(self).contradiction ==> self.contradiction,
                            forall|i: int|
                                0 <= i < self.num_cells() ==> #[trigger] self.sums_of_ones@[i]
                                    <= old(self).sums_of_ones@[i],
                            self.measure() <= m0 - 1,
                            tile < self.t,
                            d < 4,
                            position < self.num_cells(),
                            position_move < self.num_cells(),
                            self.spec_neighbor(position as int, d as int) == Some(
                                position_move as int,
                            ),
                            self.spec_neighbor(position_move as int, spec_opposite(d as int))
                                == Some(position as int),
                            len == self.propagator@[d as int]@[tile as int]@.len(),
                            idx <= len,
                            forall|c: int, v: int, dd: int|
                                0 <= c < self.num_cells() && 0 <= v < self.t && 0 <= dd < 4
                                    && self.wave@[c]@[v] ==> (self.spec_neighbor(
                                    c,
                                    spec_opposite(dd),
                                ) matches Some(pp) ==> #[trigger] self.compatible@[c]@[v]@[dd]
                                    == self.support_count(pp, dd, v, self.t as int) + if pp
                                    == position && dd > d && self.propagator@[dd]@[
                                    tile as int
                                ]@.contains(v as usize) {
                                    1int
                                } else if pp == position && dd == d && (exists|j: int|
                                    idx <= j < len && #[trigger] self.propagator@[d as int]@[
                                    tile as int
                                ]@[j] == v as usize) {
                                    1int
                                } else {
                                    0int
                                }),
                        decreases len - idx,
                    {
                        let neighbor_tile: usize = self.propagator[d][tile][idx];
                        let ghost s_before = *self;
                        if self.wave[position_move][neighbor_tile] {
                            proof {
                                self.lemma_support_count_nonneg(
                                    position as int,
                                    d as int,
                                    neighbor_tile as int,
                                    self.t as int,
                                );
                                assert(exists|j: int|
                                    idx <= j < len && #[trigger] self.propagator@[d as int]@[
                                    tile as int
                                ]@[j] == neighbor_tile);
                            }
                            let c: usize = self.compatible[position_move][neighbor_tile][d];
                            if c > 0 {
                                self.compatible[position_move][neighbor_tile][d] = c - 1;
                                proof {
                                    assert forall|i2: int, v2: int|
                                        0 <= i2 < self.num_cells() && 0 <= v2 < self.t implies (
                                    #[trigger] self.compatible@[i2]@[v2]@).len() == 4 by {
                                        if !(i2 == position_move && v2 == neighbor_tile) {
                                            assert(self.compatible@[i2]@[v2]
                                                == s_before.compatible@[i2]@[v2]);
                                        }
                                    }
                                    assert(self.wf_dims());
                                    assert(self.wf_action());
                                    assert(self.wf_propagator());
                                    assert(self.wf_state());
                                }
                                let ghost s_mid = *self;
                                if c == 1 {
                                    let ghost sums_before = self.sums_of_ones@;
                                    proof {
                                        lemma_count_pos(
                                            self.wave@[position_move as int]@,
                                            self.t as int,
                                            neighbor_tile as int,
                                        );
                                    }
                                    self.ban(position_move, neighbor_tile);
                                    proof {
                                        lemma_total_ones_update(
                                            sums_before,
                                            self.num_cells(),
                                            position_move as int,
                                            (sums_before[position_move as int] - 1) as usize,
                                        );
                                    }
                                }
                                proof {
                                    assert forall|q: int, u: int|
                                        0 <= q < self.num_cells() && 0 <= u < self.t implies (
                                    #[trigger] s_before.pending(q, u) <==> self.pending(q, u)) by {
                                        lemma_pending_same_fields(s_before, s_mid, q, u);
                                    }
                                }
                            }
                            proof {
                                assert forall|c2: int, v2: int, dd2: int|
                                    0 <= c2 < self.num_cells() && 0 <= v2 < self.t && 0 <= dd2 < 4
                                        && self.wave@[c2]@[v2] implies (self.spec_neighbor(
                                        c2,
                                        spec_opposite(dd2),
                                    ) matches Some(pp) ==> #[trigger] self.compatible@[c2]@[v2]@[
                                    dd2
                                ] == self.support_count(pp, dd2, v2, self.t as int) + if pp
                                        == position && dd2 > d && self.propagator@[dd2]@[
                                        tile as int
                                    ]@.contains(v2 as usize) {
                                        1int
                                    } else if pp == position && dd2 == d && (exists|j: int|
                                        idx + 1 <= j < len && #[trigger] self.propagator@[
                                        d as int
                                    ]@[tile as int]@[j] == v2 as usize) {
                                        1int
                                    } else {
                                        0int
                                    }) by {
                                    match self.spec_neighbor(c2, spec_opposite(dd2)) {
                                        None => {},
                                        Some(pp) => {
                                            s_before.lemma_neighbor_pair(c2, spec_opposite(dd2));
                                            assert(s_before.wave@[c2]@[v2]);
                                            assert(0 <= pp < self.num_cells());
                                            lemma_support_count_congruent(
                                                s_before,
                                                *self,
                                                pp,
                                                dd2,
                                                v2,
                                                self.t as int,
                                            );
                                            if pp == position && dd2 == d {
                                                assert(c2 == position_move);
                                                if v2 == neighbor_tile {
                                                    assert(!(exists|j: int|
                                                        idx + 1 <= j < len
                                                            && #[trigger] self.propagator@[
                                                            d as int
                                                        ]@[tile as int]@[j] == v2 as usize)) by {
                                                        if exists|j: int|
                                                            idx + 1 <= j < len
                                                                && #[trigger] self.propagator@[
                                                                d as int
                                                            ]@[tile as int]@[j] == v2 as usize {
                                                            let j = choose|j: int|
                                                                idx + 1 <= j < len
                                                                    && #[trigger] self.propagator@[
                                                                    d as int
                                                                ]@[tile as int]@[j]
                                                                    == v2 as usize;
                                                            assert(self.propagator@[d as int]@[
                                                                tile as int
                                                            ]@[idx as int] < self.propagator@[
                                                                d as int
                                                            ]@[tile as int]@[j]);
                                                        }
                                                    }
                                                } else {
                                                    assert((exists|j: int|
                                                        idx <= j < len && #[trigger] self.propagator@[
                                                        d as int
                                                    ]@[tile as int]@[j] == v2 as usize) <==> (
                                                    exists|j: int|
                                                        idx + 1 <= j < len
                                                            && #[trigger] self.propagator@[
                                                            d as int
                                                        ]@[tile as int]@[j] == v2 as usize)) by {
                                                        if exists|j: int|
                                                            idx <= j < len
                                                                && #[trigger] self.propagator@[
                                                                d as int
                                                            ]@[tile as int]@[j] == v2 as usize {
                                                            let j = choose|j: int|
                                                                idx <= j < len
                                                                    && #[trigger] self.propagator@[
                                                                    d as int
                                                                ]@[tile as int]@[j]
                                                                    == v2 as usize;
                                                            assert(j != idx);
                                                        }
                                                    }
                                                }
                                            }
                                        },
                                    }
                                }
                            }
                        } else {
                            proof {
                                assert forall|c2: int, v2: int, dd2: int|
                                    0 <= c2 < self.num_cells() && 0 <= v2 < self.t && 0 <= dd2 < 4
                                        && self.wave@[c2]@[v2] implies (self.spec_neighbor(
                                        c2,
                                        spec_opposite(dd2),
                                    ) matches Some(pp) ==> #[trigger] self.compatible@[c2]@[v2]@[
                                    dd2
                                ] == self.support_count(pp, dd2, v2, self.t as int) + if pp
                                        == position && dd2 > d && self.propagator@[dd2]@[
                                        tile as int
                                    ]@.contains(v2 as usize) {
                                        1int
                                    } else if pp == position && dd2 == d && (exists|j: int|
                                        idx + 1 <= j < len && #[trigger] self.propagator@[
                                        d as int
                                    ]@[tile as int]@[j] == v2 as usize) {
                                        1int
                                    } else {
                                        0int
                                    }) by {
                                    match self.spec_neighbor(c2, spec_opposite(dd2)) {
                                        None => {},
                                        Some(pp) => {
                                            self.lemma_neighbor_pair(c2, spec_opposite(dd2));
                                            if pp == position && dd2 == d {
                                                assert(c2 == position_move);
                                                assert(v2 != neighbor_tile);
                                                assert((exists|j: int|
                                                    idx <= j < len && #[trigger] self.propagator@[
                                                    d as int
                                                ]@[tile as int]@[j] == v2 as usize) <==> (exists|
                                                    j: int,
                                                |
                                                    idx + 1 <= j < len
                                                        && #[trigger] self.propagator@[d as int]@[
                                                        tile as int
                                                    ]@[j] == v2 as usize)) by {
                                                    if exists|j: int|
                                                        idx <= j < len && #[trigger] self.propagator@[
                                                        d as int
                                                    ]@[tile as int]@[j] == v2 as usize {
                                                        let j = choose|j: int|
                                                            idx <= j < len
                                                                && #[trigger] self.propagator@[
                                                                d as int
                                                            ]@[tile as int]@[j] == v2 as usize;
                                                        assert(j != idx);
                                                    }
                                                }
                                            }
                                        },
                                    }
                                }
                            }
                        }
                        idx = idx + 1;
                    }
                    proof {
                        assert forall|c2: int, v2: int, dd2: int|
                            0 <= c2 < self.num_cells() && 0 <= v2 < self.t && 0 <= dd2 < 4
                                && self.wave@[c2]@[v2] implies (self.spec_neighbor(
                                c2,
                                spec_opposite(dd2),
                            ) matches Some(pp) ==> #[trigger] self.compatible@[c2]@[v2]@[dd2]
                                == self.support_count(pp, dd2, v2, self.t as int) + if pp
                                == position && dd2 >= d + 1 && self.propagator@[dd2]@[
                                tile as int
                            ]@.contains(v2 as usize) {
                                1int
                            } else {
                                0int
                            }) by {
                        }
                    }
                } else {
                    proof {
                        // No in-grid cell draws direction-d support from the
                        // popped cell, so nothing needed fixing here.
                        assert forall|c2: int, v2: int, dd2: int|
                            0 <= c2 < self.num_cells() && 0 <= v2 < self.t && 0 <= dd2 < 4
                                && self.wave@[c2]@[v2] implies (self.spec_neighbor(
                                c2,
                                spec_opposite(dd2),
                            ) matches Some(pp) ==> #[trigger] self.compatible@[c2]@[v2]@[dd2]
                                == self.support_count(pp, dd2, v2, self.t as int) + if pp
                                == position && dd2 >= d + 1 && self.propagator@[dd2]@[
                                tile as int
                            ]@.contains(v2 as usize) {
                                1int
                            } else {
                                0int
                            }) by {
                            match self.spec_neighbor(c2, spec_opposite(dd2)) {
                                None => {},
                                Some(pp) => {
                                    if pp == position && dd2 == d {
                                        self.lemma_neighbor_pair(c2, spec_opposite(dd2));
                                        assert(self.spec_neighbor(position as int, d as int)
                                            == Some(c2));
                                        assert(false);
                                    }
                                },
                            }
                        }
                    }
                }
                d = d + 1;
            }
            proof {
                lemma_total_ones_nonneg(self.sums_of_ones@, self.num_cells());
                assert(self.wf_supports());
            }
        }
        !self.contradiction
    }

    /// One full solve: reset the wave, then alternate selection, observation
    /// and propagation until the grid fully resolves (success: the observed
    /// array is filled and every cell holds exactly one variant), a cell runs
    /// out of candidates (failure), or the iteration limit is reached
    /// (success with nothing observed). A negative limit means no limit. The
    /// whole run draws randomness only from the stream seeded by `seed`.
    pub fn run(&mut self, limit: isize, seed: [u8; 32]) -> (r: bool)
        requires
            old(self).wf(),
        ensures
            final(self).wf(),
            final(self).same_tables(*old(self)),
            r == !final(self).contradiction,
            r ==> forall|i: int|
                0 <= i < final(self).num_cells() ==> #[trigger] final(self).sums_of_ones@[i] >= 1,
            forall|i: int|
                0 <= i < final(self).num_cells() ==> (#[trigger] final(self).observed@[i] matches Some(v) ==> v < final(self).t && final(self).wave@[i]@[v as int] && final(self).sums_of_ones@[i] == 1),
            old(self).t == 1 && limit != 0 ==> r && forall|i: int|
                0 <= i < final(self).num_cells() ==> #[trigger] final(self).observed@[i] == Some(
                    0usize,
                ),
            !r ==> exists|i: int|
                0 <= i < final(self).num_cells() && #[trigger] final(self).sums_of_ones@[i] == 0,
            r && limit < 0 ==> forall|i: int|
                0 <= i < final(self).num_cells() ==> #[trigger] final(self).observed@[i] is Some,
            limit == 0 ==> r && (forall|i: int|
                0 <= i < final(self).num_cells() ==> #[trigger] final(self).observed@[i] is None)
                && (forall|i: int, v: int|
                0 <= i < final(self).num_cells() && 0 <= v < final(self).t
                    ==> #[trigger] final(self).wave@[i]@[v]) && (forall|i: int|
                0 <= i < final(self).num_cells() ==> #[trigger] final(self).sums_of_ones@[i]
                    == final(self).t),
    {
        self.clear();
        let mut rng = rng_from_seed(seed);
        let mut l: isize = 0;
        loop
            invariant
                self.wf(),
                self.same_tables(*old(self)),
                !self.contradiction,
                self.stack@.len() == 0,
                forall|i: int|
                    0 <= i < self.num_cells() ==> #[trigger] self.observed@[i] is None,
                self.t == 1 ==> l == 0 && forall|i: int, v: int|
                    0 <= i < self.num_cells() && 0 <= v < self.t ==> #[trigger] self.wave@[i]@[v],
                limit >= 0 ==> l <= limit,
                0 <= l,
                limit == 0 ==> forall|i: int, v: int|
                    0 <= i < self.num_cells() && 0 <= v < self.t ==> #[trigger] self.wave@[i]@[v],
                limit == 0 ==> forall|i: int|
                    0 <= i < self.num_cells() ==> #[trigger] self.sums_of_ones@[i] == self.t,
            decreases total_ones(self.sums_of_ones@, self.num_cells()),
        {
            proof {
                lemma_total_ones_nonneg(self.sums_of_ones@, self.num_cells());
            }
            if limit >= 0 && l >= limit {
                return true;
            }
            let node_opt: Option<usize> = self.next_unobserved_node(&mut rng);
            match node_opt {
                Some(node) => {
                    proof {
                        if self.t == 1 {
                            lemma_count_true_bounds(self.wave@[node as int]@, self.t as int);
                        }
                    }
                    let ghost s0 = *self;
                    self.observe(node, &mut rng);
                    proof {
                        assert forall|j: int|
                            0 <= j < self.num_cells() implies #[trigger] self.sums_of_ones@[j]
                            <= s0.sums_of_ones@[j] by {
                            if j != node {
                                assert(self.wave@[j] == s0.wave@[j]);
                            }
                        }
                        lemma_total_ones_strict(
                            self.sums_of_ones@,
                            s0.sums_of_ones@,
                            self.num_cells(),
                            node as int,
                        );
                    }
                    let ghost s1 = *self;
                    let success: bool = self.propagate();
                    proof {
                        lemma_total_ones_monotone(
                            self.sums_of_ones@,
                            s1.sums_of_ones@,
                            self.num_cells(),
                        );
                    }
                    if !success {
                        return false;
                    }
                },
                None => {
                    let cells: usize = self.wave.len();
                    let ghost pre = *self;
                    let mut i: usize = 0;
                    while i < cells
                        invariant
                            self.wf(),
                            self.same_tables(*old(self)),
                            !self.contradiction,
                            self.stack@.len() == 0,
                            cells == self.num_cells(),
                            i <= cells,
                            self.wave == pre.wave,
                            self.sums_of_ones == pre.sums_of_ones,
                            self.sums_of_weights == pre.sums_of_weights,
                            pre.wf(),
                            pre.t == self.t,
                            pre.num_cells() == self.num_cells(),
                            forall|j: int|
                                0 <= j < pre.num_cells() && pre.eligible(j)
                                    ==> #[trigger] pre.sums_of_ones@[j] <= 1,
                            forall|j: int|
                                0 <= j < i ==> (#[trigger] self.observed@[j] matches Some(v) && v < self.t && self.wave@[j]@[v as int]),
                            forall|j: int|
                                i <= j < cells ==> #[trigger] self.observed@[j] is None,
                            self.t == 1 ==> forall|j: int, v: int|
                                0 <= j < self.num_cells() && 0 <= v < self.t
                                    ==> #[trigger] self.wave@[j]@[v],
                            self.t == 1 ==> forall|j: int|
                                0 <= j < i ==> #[trigger] self.observed@[j] == Some(0usize),
                        decreases cells - i,
                    {
                        let t: usize = self.t;
                        let mut v: usize = 0;
                        while v < t
                            invariant
                                self.wf(),
                                self.same_tables(*old(self)),
                                !self.contradiction,
                                self.stack@.len() == 0,
                                cells == self.num_cells(),
                                i < cells,
                                t == self.t,
                                v <= t,
                                self.wave == pre.wave,
                                self.sums_of_ones == pre.sums_of_ones,
                                self.sums_of_weights == pre.sums_of_weights,
                                pre.wf(),
                                pre.t == self.t,
                                pre.num_cells() == self.num_cells(),
                                forall|j: int|
                                    0 <= j < pre.num_cells() && pre.eligible(j)
                                        ==> #[trigger] pre.sums_of_ones@[j] <= 1,
                                forall|j: int|
                                    0 <= j < i ==> (#[trigger] self.observed@[j] matches Some(u) && u < self.t && self.wave@[j]@[u as int]),
                                forall|j: int|
                                    i < j < cells ==> #[trigger] self.observed@[j] is None,
                                (exists|u: int| 0 <= u < v && self.wave@[i as int]@[u])
                                    <==> self.observed@[i as int] is Some,
                                (self.observed@[i as int] matches Some(u) ==> u < v && self.wave@[i as int]@[u as int]),
                                self.t == 1 ==> forall|j: int, u: int|
                                    0 <= j < self.num_cells() && 0 <= u < self.t
                                        ==> #[trigger] self.wave@[j]@[u],
                                self.t == 1 ==> forall|j: int|
                                    0 <= j < i ==> #[trigger] self.observed@[j] == Some(0usize),
                            decreases t - v,
                        {
                            if self.wave[i][v] {
                                let ghost before_mark = *self;
                                self.observed[i] = Some(v);
                                proof {
                                    lemma_supports_same_fields(before_mark, *self);
                                }
                            }
                            proof {
                                if self.observed@[i as int] is Some {
                                    if self.wave@[i as int]@[v as int] {
                                        assert(0 <= v < v + 1 && self.wave@[i as int]@[v as int]);
                                    } else {
                                        let u = choose|u: int|
                                            0 <= u < v && self.wave@[i as int]@[u];
                                        assert(0 <= u < v + 1 && self.wave@[i as int]@[u]);
                                    }
                                }
                            }
                            v = v + 1;
                        }
                        proof {
                            // The cell kept at least one candidate, so the
                            // scan found one and the cell is now observed.
                            assert(self.sums_of_ones@[i as int] != 0);
                            lemma_count_pos_exists(self.wave@[i as int]@, t as int);
                        }
                        i = i + 1;
                    }
                    proof {
                        assert forall|j: int|
                            0 <= j < self.num_cells() implies (#[trigger] self.observed@[j] matches Some(v) ==> v < self.t && self.wave@[j]@[v as int] && self.sums_of_ones@[j] == 1) by {
                            match self.observed@[j] {
                                Some(v) => {
                                    pre.lemma_all_eligible(j);
                                    lemma_count_pos(self.wave@[j]@, self.t as int, v as int);
                                },
                                None => {},
                            }
                        }
                    }
                    return true;
                },
            }
            if limit >= 0 {
                l = l + 1;
            }
            proof {
                lemma_total_ones_nonneg(self.sums_of_ones@, self.num_cells());
            }
        }
    }
}

/// Pending status reads only the wave and the stack.
pub proof fn lemma_pending_same_fields(s1: SimpleTiledModel, s2: SimpleTiledModel, c: int, v: int)
    requires
        s1.wave == s2.wave,
        s1.stack == s2.stack,
    ensures
        s1.pending(c, v) == s2.pending(c, v),
{
    if s1.stack_has(c, v) {
        let k = choose|k: int|
            0 <= k < s1.stack@.len() && #[trigger] s1.stack@[k] == (c as usize, v as usize);
        assert(s2.stack@[k] == (c as usize, v as usize));
    }
    if s2.stack_has(c, v) {
        let k = choose|k: int|
            0 <= k < s2.stack@.len() && #[trigger] s2.stack@[k] == (c as usize, v as usize);
        assert(s1.stack@[k] == (c as usize, v as usize));
    }
}

/// The support invariant reads only the wave, stack, counters, propagator
/// and dimensions: changing other fields cannot break it.
pub proof fn lemma_supports_same_fields(s1: SimpleTiledModel, s2: SimpleTiledModel)
    requires
        s1.wf_supports(),
        s1.wave == s2.wave,
        s1.stack == s2.stack,
        s1.compatible == s2.compatible,
        s1.propagator == s2.propagator,
        s1.m_x == s2.m_x,
        s1.m_y == s2.m_y,
        s1.n == s2.n,
        s1.t == s2.t,
    ensures
        s2.wf_supports(),
{
    assert forall|c: int, v: int, d: int|
        0 <= c < s2.num_cells() && 0 <= v < s2.t && 0 <= d < 4 && s2.wave@[c]@[v] implies (
    s2.spec_neighbor(c, spec_opposite(d)) matches Some(p) ==> #[trigger] s2.compatible@[c]@[v]@[d]
        == s2.support_count(p, d, v, s2.t as int)) by {
        match s2.spec_neighbor(c, spec_opposite(d)) {
            None => {},
            Some(p) => {
                assert(s1.spec_neighbor(c, spec_opposite(d)) == s2.spec_neighbor(
                    c,
                    spec_opposite(d),
                ));
                assert forall|u: int|
                    0 <= u < s1.t implies (#[trigger] s1.pending(p, u) <==> s2.pending(p, u)) by {
                    lemma_pending_same_fields(s1, s2, p, u);
                }
                lemma_support_count_congruent(s1, s2, p, d, v, s1.t as int);
            },
        }
    }
}

/// Two states with one propagator and the same pending variants in a cell
/// count the same support there.
pub proof fn lemma_support_count_congruent(
    s1: SimpleTiledModel,
    s2: SimpleTiledModel,
    p: int,
    d: int,
    v: int,
    k: int,
)
    requires
        s1.propagator == s2.propagator,
        forall|u: int| 0 <= u < k ==> (#[trigger] s1.pending(p, u) <==> s2.pending(p, u)),
    ensures
        s1.support_count(p, d, v, k) == s2.support_count(p, d, v, k),
    decreases k,
{
    if k > 0 {
        lemma_support_count_congruent(s1, s2, p, d, v, k - 1);
    }
}

/// Dropping one pending variant `u` of cell `p` lowers the support counts of
/// exactly the variants that u's direction-`d` row lists.
pub proof fn lemma_support_count_drop(
    s1: SimpleTiledModel,
    s2: SimpleTiledModel,
    p: int,
    d: int,
    v: int,
    k: int,
    u: int,
)
    requires
        s1.propagator == s2.propagator,
        0 <= u,
        forall|w: int| 0 <= w < k && w != u ==> (#[trigger] s1.pending(p, w) <==> s2.pending(p, w)),
        s1.pending(p, u),
        !s2.pending(p, u),
    ensures
        s1.support_count(p, d, v, k) == s2.support_count(p, d, v, k) + if u < k
            && s1.propagator@[d]@[u]@.contains(v as usize) {
            1int
        } else {
            0int
        },
    decreases k,
{
    if k > 0 {
        lemma_support_count_drop(s1, s2, p, d, v, k - 1, u);
    }
}

/// When every variant of a cell is pending, the direction-`d` support of `v`
/// is the length of v's opposite-direction propagator row: the rows are
/// mutual transposes.
pub proof fn lemma_support_count_full(s: SimpleTiledModel, p: int, d: int, v: int, k: int)
    requires
        s.wf_dims(),
        s.wf_propagator(),
        0 <= d < 4,
        0 <= v < s.t,
        0 <= k <= s.t,
        forall|u: int| 0 <= u < k ==> #[trigger] s.pending(p, u),
    ensures
        s.support_count(p, d, v, k) == contains_below(s.propagator@[spec_opposite(d)]@[v]@, k),
    decreases k,
{
    if k > 0 {
        lemma_support_count_full(s, p, d, v, k - 1);
        assert(s.propagator@[d]@[k - 1]@.contains(v as usize) <==> s.propagator@[spec_opposite(
            d,
        )]@[v]@.contains((k - 1) as usize)) by {
            assert(s.propagator@[d]@[k - 1]@.contains(v as usize) <==> spec_compat(
                s.declared_pairs@,
                s.action@,
                d,
                k - 1,
                v,
            ));
            assert(s.propagator@[spec_opposite(d)]@[v]@.contains((k - 1) as usize) <==> spec_compat(
                s.declared_pairs@,
                s.action@,
                spec_opposite(d),
                v,
                k - 1,
            ));
        }
    }
}

/// Flat index into the two dense west/south relations.
fn dense_index(t: usize, d: usize, x: usize, y: usize) -> (i: usize)
    requires
        d < 2,
        x < t,
        y < t,
        2 * t * t <= usize::MAX,
    ensures
        i == (d * t + x) * t + y,
        i < 2 * t * t,
{
    proof {
        assert(d * t <= 2 * t * t && d * t + x <= 2 * t * t && (d * t + x) * t <= 2 * t * t && (d
            * t + x) * t + y < 2 * t * t) by (nonlinear_arith)
            requires
                d < 2,
                x < t,
                y < t,
        ;
    }
    (d * t + x) * t + y
}

/// Two dense indices coincide only for the same (direction, x, y) triple.
proof fn lemma_dense_index_injective(t: int, d1: int, x1: int, y1: int, d2: int, x2: int, y2: int)
    requires
        0 <= d1 < 2,
        0 <= x1 < t,
        0 <= y1 < t,
        0 <= d2 < 2,
        0 <= x2 < t,
        0 <= y2 < t,
    ensures
        ((d1 * t + x1) * t + y1 == (d2 * t + x2) * t + y2) <==> (d1 == d2 && x1 == x2 && y1 == y2),
{
    assert(((d1 * t + x1) * t + y1 == (d2 * t + x2) * t + y2) <==> (d1 == d2 && x1 == x2 && y1
        == y2)) by (nonlinear_arith)
        requires
            0 <= d1 < 2,
            0 <= x1 < t,
            0 <= y1 < t,
            0 <= d2 < 2,
            0 <= x2 < t,
            0 <= y2 < t,
    ;
}

/// Extending the pair list by one extends the marked relation by that pair's
/// marks.
proof fn lemma_marks_extend(pairs: Seq<(usize, usize)>, action: Seq<Vec<usize>>, k: int, x: int, y: int)
    requires
        0 <= k < pairs.len(),
    ensures
        marks_west(pairs.take(k + 1), action, x, y) <==> (marks_west(pairs.take(k), action, x, y)
            || mark_west(pairs[k], action, x, y)),
        marks_south(pairs.take(k + 1), action, x, y) <==> (marks_south(pairs.take(k), action, x, y)
            || mark_south(pairs[k], action, x, y)),
{
    assert(pairs.take(k + 1)[k] == pairs[k]);
    if marks_west(pairs.take(k + 1), action, x, y) {
        let j = choose|j: int|
            0 <= j < k + 1 && #[trigger] mark_west(pairs.take(k + 1)[j], action, x, y);
        if j < k {
            assert(pairs.take(k)[j] == pairs.take(k + 1)[j]);
            assert(mark_west(pairs.take(k)[j], action, x, y));
        }
    }
    if marks_west(pairs.take(k), action, x, y) {
        let j = choose|j: int| 0 <= j < k && #[trigger] mark_west(pairs.take(k)[j], action, x, y);
        assert(pairs.take(k + 1)[j] == pairs.take(k)[j]);
        assert(mark_west(pairs.take(k + 1)[j], action, x, y));
    }
    if mark_west(pairs[k], action, x, y) {
        assert(mark_west(pairs.take(k + 1)[k], action, x, y));
    }
    if marks_south(pairs.take(k + 1), action, x, y) {
        let j = choose|j: int|
            0 <= j < k + 1 && #[trigger] mark_south(pairs.take(k + 1)[j], action, x, y);
        if j < k {
            assert(pairs.take(k)[j] == pairs.take(k + 1)[j]);
            assert(mark_south(pairs.take(k)[j], action, x, y));
        }
    }
    if marks_south(pairs.take(k), action, x, y) {
        let j = choose|j: int| 0 <= j < k && #[trigger] mark_south(pairs.take(k)[j], action, x, y);
        assert(pairs.take(k + 1)[j] == pairs.take(k)[j]);
        assert(mark_south(pairs.take(k + 1)[j], action, x, y));
    }
    if mark_south(pairs[k], action, x, y) {
        assert(mark_south(pairs.take(k + 1)[k], action, x, y));
    }
}

/// Build the propagator: fill the dense west and south relations with every
/// declared pair's literal and symmetry-derived placements, read east and
/// north off as their transposes, and compact each (direction, variant) row
/// into a strictly increasing sparse list.
pub(crate) fn build_propagator(
    pairs: &Vec<(usize, usize)>,
    action: &Vec<Vec<usize>>,
    t: usize,
) -> (r: Vec<Vec<Vec<usize>>>)
    requires
        1 <= t,
        2 * t * t <= usize::MAX,
        action@.len() == t,
        forall|v: int| 0 <= v < t ==> #[trigger] action@[v]@.len() == 8,
        forall|v: int, k: int| 0 <= v < t && 0 <= k < 8 ==> #[trigger] action@[v]@[k] < t,
        forall|k: int|
            0 <= k < pairs@.len() ==> (#[trigger] pairs@[k]).0 < t && pairs@[k].1 < t,
    ensures
        r@.len() == 4,
        forall|d: int| 0 <= d < 4 ==> #[trigger] r@[d]@.len() == t,
        forall|d: int, x: int| 0 <= d < 4 && 0 <= x < t ==> sorted_strict(#[trigger] r@[d]@[x]@),
        forall|d: int, x: int, j: int|
            0 <= d < 4 && 0 <= x < t && 0 <= j < r@[d]@[x]@.len() ==> #[trigger] r@[d]@[x]@[j] < t,
        forall|d: int, x: int, y: int|
            0 <= d < 4 && 0 <= x < t && 0 <= y < t ==> (#[trigger] r@[d]@[x]@.contains(y as usize)
                <==> spec_compat(pairs@, action@, d, x, y)),
{
    proof {
        assert(2 * t <= 2 * t * t) by (nonlinear_arith)
            requires
                1 <= t,
        ;
    }
    let tt2: usize = 2 * t * t;
    let mut dense: Vec<bool> = Vec::new();
    while dense.len() < tt2
        invariant
            tt2 == 2 * t * t,
            dense@.len() <= tt2,
            forall|j: int| 0 <= j < dense@.len() ==> !(#[trigger] dense@[j]),
        decreases tt2 - dense@.len(),
    {
        dense.push(false);
    }
    proof {
        assert(pairs@.take(0) =~= Seq::<(usize, usize)>::empty());
        assert forall|x: int, y: int|
            0 <= x < t && 0 <= y < t implies !marks_west(pairs@.take(0), action@, x, y)
            && !marks_south(pairs@.take(0), action@, x, y) by {
        }
        assert forall|x: int, y: int|
            0 <= x < t && 0 <= y < t implies !(#[trigger] dense@[(0 * t + x) * t + y]) by {
            assert((0 * t + x) * t + y < 2 * t * t) by (nonlinear_arith)
                requires
                    0 <= x < t,
                    0 <= y < t,
            ;
        }
        assert forall|x: int, y: int|
            0 <= x < t && 0 <= y < t implies !(#[trigger] dense@[(1 * t + x) * t + y]) by {
            assert((1 * t + x) * t + y < 2 * t * t) by (nonlinear_arith)
                requires
                    0 <= x < t,
                    0 <= y < t,
            ;
        }
    }
    let n_pairs: usize = pairs.len();
    let mut k: usize = 0;
    while k < n_pairs
        invariant
            tt2 == 2 * t * t,
            1 <= t,
            n_pairs == pairs@.len(),
            k <= n_pairs,
            dense@.len() == tt2,
            action@.len() == t,
            forall|v: int| 0 <= v < t ==> #[trigger] action@[v]@.len() == 8,
            forall|v: int, kk: int| 0 <= v < t && 0 <= kk < 8 ==> #[trigger] action@[v]@[kk] < t,
            forall|kk: int|
                0 <= kk < pairs@.len() ==> (#[trigger] pairs@[kk]).0 < t && pairs@[kk].1 < t,
            forall|x: int, y: int|
                0 <= x < t && 0 <= y < t ==> (#[trigger] dense@[(0 * t + x) * t + y]
                    <==> marks_west(pairs@.take(k as int), action@, x, y)),
            forall|x: int, y: int|
                0 <= x < t && 0 <= y < t ==> (#[trigger] dense@[(1 * t + x) * t + y]
                    <==> marks_south(pairs@.take(k as int), action@, x, y)),
        decreases n_pairs - k,
    {
        let ghost dense0 = dense@;
        let p: (usize, usize) = pairs[k];
        let l: usize = p.0;
        let r_: usize = p.1;
        let l2: usize = action[l][2];
        let l4: usize = action[l][4];
        let l6: usize = action[l][6];
        let r2: usize = action[r_][2];
        let r4: usize = action[r_][4];
        let r6: usize = action[r_][6];
        let dd: usize = action[l][1];
        let uu: usize = action[r_][1];
        let d2: usize = action[dd][2];
        let d4: usize = action[dd][4];
        let d6: usize = action[dd][6];
        let u2: usize = action[uu][2];
        let u4: usize = action[uu][4];
        let u6: usize = action[uu][6];
        let i0: usize = dense_index(t, 0, r_, l);
        dense[i0] = true;
        let i1: usize = dense_index(t, 0, r6, l6);
        dense[i1] = true;
        let i2: usize = dense_index(t, 0, l4, r4);
        dense[i2] = true;
        let i3: usize = dense_index(t, 0, l2, r2);
        dense[i3] = true;
        let i4: usize = dense_index(t, 1, uu, dd);
        dense[i4] = true;
        let i5: usize = dense_index(t, 1, d6, u6);
        dense[i5] = true;
        let i6: usize = dense_index(t, 1, u4, d4);
        dense[i6] = true;
        let i7: usize = dense_index(t, 1, d2, u2);
        dense[i7] = true;
        proof {
            assert forall|x: int, y: int|
                0 <= x < t && 0 <= y < t implies (#[trigger] dense@[(0 * t + x) * t + y]
                <==> marks_west(pairs@.take(k + 1), action@, x, y)) by {
                lemma_marks_extend(pairs@, action@, k as int, x, y);
                lemma_dense_index_injective(t as int, 0, x, y, 0, r_ as int, l as int);
                lemma_dense_index_injective(t as int, 0, x, y, 0, r6 as int, l6 as int);
                lemma_dense_index_injective(t as int, 0, x, y, 0, l4 as int, r4 as int);
                lemma_dense_index_injective(t as int, 0, x, y, 0, l2 as int, r2 as int);
                lemma_dense_index_injective(t as int, 0, x, y, 1, uu as int, dd as int);
                lemma_dense_index_injective(t as int, 0, x, y, 1, d6 as int, u6 as int);
                lemma_dense_index_injective(t as int, 0, x, y, 1, u4 as int, d4 as int);
                lemma_dense_index_injective(t as int, 0, x, y, 1, d2 as int, u2 as int);
                assert((0 * t + x) * t + y < 2 * t * t) by (nonlinear_arith)
                    requires
                        0 <= x < t,
                        0 <= y < t,
                ;
            }
            assert forall|x: int, y: int|
                0 <= x < t && 0 <= y < t implies (#[trigger] dense@[(1 * t + x) * t + y]
                <==> marks_south(pairs@.take(k + 1), action@, x, y)) by {
                lemma_marks_extend(pairs@, action@, k as int, x, y);
                lemma_dense_index_injective(t as int, 1, x, y, 0, r_ as int, l as int);
                lemma_dense_index_injective(t as int, 1, x, y, 0, r6 as int, l6 as int);
                lemma_dense_index_injective(t as int, 1, x, y, 0, l4 as int, r4 as int);
                lemma_dense_index_injective(t as int, 1, x, y, 0, l2 as int, r2 as int);
                lemma_dense_index_injective(t as int, 1, x, y, 1, uu as int, dd as int);
                lemma_dense_index_injective(t as int, 1, x, y, 1, d6 as int, u6 as int);
                lemma_dense_index_injective(t as int, 1, x, y, 1, u4 as int, d4 as int);
                lemma_dense_index_injective(t as int, 1, x, y, 1, d2 as int, u2 as int);
                assert((1 * t + x) * t + y < 2 * t * t) by (nonlinear_arith)
                    requires
                        0 <= x < t,
                        0 <= y < t,
                ;
            }
        }
        k = k + 1;
    }
    proof {
        assert(pairs@.take(n_pairs as int) =~= pairs@);
    }
    let mut result: Vec<Vec<Vec<usize>>> = Vec::new();
    let mut d: usize = 0;
    while d < 4
        invariant
            tt2 == 2 * t * t,
            1 <= t,
            dense@.len() == tt2,
            d <= 4,
            result@.len() == d,
            forall|x: int, y: int|
                0 <= x < t && 0 <= y < t ==> (#[trigger] dense@[(0 * t + x) * t + y]
                    <==> marks_west(pairs@, action@, x, y)),
            forall|x: int, y: int|
                0 <= x < t && 0 <= y < t ==> (#[trigger] dense@[(1 * t + x) * t + y]
                    <==> marks_south(pairs@, action@, x, y)),
            forall|dd: int| 0 <= dd < d ==> #[trigger] result@[dd]@.len() == t,
            forall|dd: int, x: int|
                0 <= dd < d && 0 <= x < t ==> sorted_strict(#[trigger] result@[dd]@[x]@),
            forall|dd: int, x: int, j: int|
                0 <= dd < d && 0 <= x < t && 0 <= j < result@[dd]@[x]@.len()
                    ==> #[trigger] result@[dd]@[x]@[j] < t,
            forall|dd: int, x: int, y: int|
                0 <= dd < d && 0 <= x < t && 0 <= y < t
                    ==> (#[trigger] result@[dd]@[x]@.contains(y as usize) <==> spec_compat(
                    pairs@,
                    action@,
                    dd,
                    x,
                    y,
                )),
        decreases 4 - d,
    {
        let mut dir_rows: Vec<Vec<usize>> = Vec::new();
        let mut x: usize = 0;
        while x < t
            invariant
                tt2 == 2 * t * t,
                1 <= t,
                dense@.len() == tt2,
                d < 4,
                x <= t,
                dir_rows@.len() == x,
                forall|xx: int, y: int|
                    0 <= xx < t && 0 <= y < t ==> (#[trigger] dense@[(0 * t + xx) * t + y]
                        <==> marks_west(pairs@, action@, xx, y)),
                forall|xx: int, y: int|
                    0 <= xx < t && 0 <= y < t ==> (#[trigger] dense@[(1 * t + xx) * t + y]
                        <==> marks_south(pairs@, action@, xx, y)),
                forall|xx: int|
                    0 <= xx < x ==> sorted_strict(#[trigger] dir_rows@[xx]@),
                forall|xx: int, j: int|
                    0 <= xx < x && 0 <= j < dir_rows@[xx]@.len()
                        ==> #[trigger] dir_rows@[xx]@[j] < t,
                forall|xx: int, y: int|
                    0 <= xx < x && 0 <= y < t ==> (#[trigger] dir_rows@[xx]@.contains(y as usize)
                        <==> spec_compat(pairs@, action@, d as int, xx, y)),
            decreases t - x,
        {
            let mut row: Vec<usize> = Vec::new();
            let mut y: usize = 0;
            while y < t
                invariant
                    tt2 == 2 * t * t,
                    1 <= t,
                    dense@.len() == tt2,
                    d < 4,
                    x < t,
                    y <= t,
                    forall|xx: int, yy: int|
                        0 <= xx < t && 0 <= yy < t ==> (#[trigger] dense@[(0 * t + xx) * t + yy]
                            <==> marks_west(pairs@, action@, xx, yy)),
                    forall|xx: int, yy: int|
                        0 <= xx < t && 0 <= yy < t ==> (#[trigger] dense@[(1 * t + xx) * t + yy]
                            <==> marks_south(pairs@, action@, xx, yy)),
                    sorted_strict(row@),
                    forall|j: int| 0 <= j < row@.len() ==> #[trigger] row@[j] < y,
                    forall|z: int|
                        0 <= z < y ==> (#[trigger] row@.contains(z as usize) <==> spec_compat(
                            pairs@,
                            action@,
                            d as int,
                            x as int,
                            z,
                        )),
                decreases t - y,
            {
                let compatible_here: bool = if d == 0 {
                    dense[dense_index(t, 0, x, y)]
                } else if d == 1 {
                    dense[dense_index(t, 1, x, y)]
                } else if d == 2 {
                    dense[dense_index(t, 0, y, x)]
                } else {
                    dense[dense_index(t, 1, y, x)]
                };
                let ghost row0 = row@;
                if compatible_here {
                    row.push(y);
                }
                proof {
                    assert forall|z: int|
                        0 <= z < y + 1 implies (#[trigger] row@.contains(z as usize)
                        <==> spec_compat(pairs@, action@, d as int, x as int, z)) by {
                        if compatible_here {
                            assert(row@ == row0.push(y));
                            if z < y {
                                assert(row@.contains(z as usize) <==> row0.contains(z as usize))
                                    by {
                                    if row0.contains(z as usize) {
                                        let j = choose|j: int|
                                            0 <= j < row0.len() && row0[j] == z as usize;
                                        assert(row@[j] == z as usize);
                                    }
                                    if row@.contains(z as usize) {
                                        let j = choose|j: int|
                                            0 <= j < row@.len() && row@[j] == z as usize;
                                        assert(j < row0.len());
                                        assert(row0[j] == z as usize);
                                    }
                                }
                            } else {
                                assert(row@[row@.len() - 1] == y as usize);
                                assert(row@.contains(y as usize));
                            }
                        } else {
                            if z == y {
                                if row@.contains(y as usize) {
                                    let j = choose|j: int|
                                        0 <= j < row@.len() && row@[j] == y as usize;
                                }
                                assert(!row@.contains(y as usize));
                            }
                        }
                    }
                }
                y = y + 1;
            }
            dir_rows.push(row);
            x = x + 1;
        }
        result.push(dir_rows);
        d = d + 1;
    }
    result
}

/// Base variant index of tile `j`: the variants of earlier tiles come first.
pub open spec fn spec_base(tiles: Seq<TileRecord>, j: int) -> int
    decreases j,
{
    if j <= 0 {
        0
    } else {
        spec_base(tiles, j - 1) + spec_cardinality(tiles[j - 1].symmetry)
    }
}

/// Total number of variants a tile list expands to.
pub open spec fn spec_total_variants(tiles: Seq<TileRecord>) -> int {
    spec_base(tiles, tiles.len() as int)
}

/// Total weight over all variants of the first `j` tiles: each tile
/// contributes its weight once per orientation.
pub open spec fn spec_total_weight(tiles: Seq<TileRecord>, j: int) -> int
    decreases j,
{
    if j <= 0 {
        0
    } else {
        spec_total_weight(tiles, j - 1) + spec_cardinality(tiles[j - 1].symmetry) * tiles[j
            - 1].weight
    }
}

pub proof fn lemma_card_bounds(s: Symmetry)
    ensures
        1 <= spec_cardinality(s) <= 8,
{
}

pub proof fn lemma_base_bounds(tiles: Seq<TileRecord>, j: int)
    requires
        0 <= j <= tiles.len(),
    ensures
        j <= spec_base(tiles, j) <= 8 * j,
    decreases j,
{
    if j > 0 {
        lemma_base_bounds(tiles, j - 1);
        lemma_card_bounds(tiles[j - 1].symmetry);
    }
}

/// Each tile's variant block lies below the blocks of the tiles after it.
pub proof fn lemma_base_monotone(tiles: Seq<TileRecord>, j1: int, j2: int)
    requires
        0 <= j1 <= j2 <= tiles.len(),
    ensures
        spec_base(tiles, j1) <= spec_base(tiles, j2),
        j1 < j2 ==> spec_base(tiles, j1) + spec_cardinality(tiles[j1].symmetry) <= spec_base(
            tiles,
            j2,
        ),
    decreases j2,
{
    if j1 < j2 {
        lemma_base_monotone(tiles, j1, j2 - 1);
        lemma_card_bounds(tiles[j2 - 1].symmetry);
    }
}

/// First tile whose name equals `name`, or the list length if none does.
pub open spec fn spec_first_idx(tiles: Seq<TileRecord>, name: Seq<char>, j: int) -> int
    decreases tiles.len() - j,
{
    if j < 0 || j >= tiles.len() {
        tiles.len() as int
    } else if tiles[j].name@ == name {
        j
    } else {
        spec_first_idx(tiles, name, j + 1)
    }
}

pub proof fn lemma_first_idx_bounds(tiles: Seq<TileRecord>, name: Seq<char>, j: int)
    requires
        0 <= j <= tiles.len(),
    ensures
        j <= spec_first_idx(tiles, name, j) <= tiles.len(),
        spec_first_idx(tiles, name, j) < tiles.len() ==> tiles[spec_first_idx(
            tiles,
            name,
            j,
        )].name@ == name,
    decreases tiles.len() - j,
{
    if j < tiles.len() && !(tiles[j].name@ == name) {
        lemma_first_idx_bounds(tiles, name, j + 1);
    }
}

/// What is wrong with one neighbor rule, if anything: an unknown tile name or
/// an orientation at or above the named tile's variant count, checked left
/// name, left orientation, right name, right orientation, in that order.
pub open spec fn rule_fault(tiles: Seq<TileRecord>, rule: NeighborRule) -> Option<ConfigError> {
    let jl = spec_first_idx(tiles, rule.left@, 0);
    if jl == tiles.len() {
        Some(ConfigError::UnknownTile)
    } else if rule.left_orientation >= spec_cardinality(tiles[jl].symmetry) {
        Some(ConfigError::BadOrientation)
    } else {
        let jr = spec_first_idx(tiles, rule.right@, 0);
        if jr == tiles.len() {
            Some(ConfigError::UnknownTile)
        } else if rule.right_orientation >= spec_cardinality(tiles[jr].symmetry) {
            Some(ConfigError::BadOrientation)
        } else {
            None
        }
    }
}

/// The fault of the first faulty rule at or after position `k`.
pub open spec fn spec_first_rule_fault(
    tiles: Seq<TileRecord>,
    rules: Seq<NeighborRule>,
    k: int,
) -> Option<ConfigError>
    decreases rules.len() - k,
{
    if k < 0 || k >= rules.len() {
        None
    } else if rule_fault(tiles, rules[k]) is Some {
        rule_fault(tiles, rules[k])
    } else {
        spec_first_rule_fault(tiles, rules, k + 1)
    }
}

proof fn lemma_first_rule_fault_skip(tiles: Seq<TileRecord>, rules: Seq<NeighborRule>, a: int, k: int)
    requires
        0 <= a <= k <= rules.len(),
        forall|kk: int| a <= kk < k ==> #[trigger] rule_fault(tiles, rules[kk]) is None,
    ensures
        spec_first_rule_fault(tiles, rules, a) == spec_first_rule_fault(tiles, rules, k),
    decreases k - a,
{
    if a < k {
        lemma_first_rule_fault_skip(tiles, rules, a + 1, k);
    }
}

/// The first reason model construction rejects a tileset, if any: an empty
/// tile list, then a zero weight, then a total weight too large for the
/// accumulator, then the first faulty neighbor rule.
pub open spec fn spec_first_error(tiles: Seq<TileRecord>, rules: Seq<NeighborRule>) -> Option<
    ConfigError,
> {
    if tiles.len() == 0 {
        Some(ConfigError::EmptyTileset)
    } else if exists|j: int| 0 <= j < tiles.len() && (#[trigger] tiles[j].weight) == 0 {
        Some(ConfigError::ZeroWeight)
    } else if spec_total_weight(tiles, tiles.len() as int) > u32::MAX {
        Some(ConfigError::WeightOverflow)
    } else {
        spec_first_rule_fault(tiles, rules, 0)
    }
}

/// The variant ids a faultless rule resolves to: the named tiles' base
/// variants transformed by the given orientations, via the action table.
pub open spec fn spec_resolve(
    tiles: Seq<TileRecord>,
    action: Seq<Vec<usize>>,
    rule: NeighborRule,
) -> (usize, usize) {
    let jl = spec_first_idx(tiles, rule.left@, 0);
    let jr = spec_first_idx(tiles, rule.right@, 0);
    (
        action[spec_base(tiles, jl)]@[rule.left_orientation as int],
        action[spec_base(tiles, jr)]@[rule.right_orientation as int],
    )
}

/// The decimal digit naming orientation `i`.
pub open spec fn spec_digit_char(i: int) -> char {
    if i == 0 {
        '0'
    } else if i == 1 {
        '1'
    } else if i == 2 {
        '2'
    } else if i == 3 {
        '3'
    } else if i == 4 {
        '4'
    } else if i == 5 {
        '5'
    } else if i == 6 {
        '6'
    } else {
        '7'
    }
}

fn digit_label(i: u8) -> (r: &'static str)
    requires
        i < 8,
    ensures
        r@ == seq![spec_digit_char(i as int)],
{
    if i == 0 {
        proof {
            reveal_strlit("0");
            assert("0"@ =~= seq![spec_digit_char(0)]);
        }
        "0"
    } else if i == 1 {
        proof {
            reveal_strlit("1");
            assert("1"@ =~= seq![spec_digit_char(1)]);
        }
        "1"
    } else if i == 2 {
        proof {
            reveal_strlit("2");
            assert("2"@ =~= seq![spec_digit_char(2)]);
        }
        "2"
    } else if i == 3 {
        proof {
            reveal_strlit("3");
            assert("3"@ =~= seq![spec_digit_char(3)]);
        }
        "3"
    } else if i == 4 {
        proof {
            reveal_strlit("4");
            assert("4"@ =~= seq![spec_digit_char(4)]);
        }
        "4"
    } else if i == 5 {
        proof {
            reveal_strlit("5");
            assert("5"@ =~= seq![spec_digit_char(5)]);
        }
        "5"
    } else if i == 6 {
        proof {
            reveal_strlit("6");
            assert("6"@ =~= seq![spec_digit_char(6)]);
        }
        "6"
    } else {
        proof {
            reveal_strlit("7");
            assert("7"@ =~= seq![spec_digit_char(7)]);
        }
        "7"
    }
}

/// Index of the first tile with the given name, or the tile count if none.
fn find_first_tile(tiles: &Vec<TileRecord>, name: &String) -> (r: usize)
    ensures
        r as int == spec_first_idx(tiles@, name@, 0),
{
    let n: usize = tiles.len();
    let mut j: usize = 0;
    while j < n
        invariant
            n == tiles@.len(),
            j <= n,
            spec_first_idx(tiles@, name@, 0) == spec_first_idx(tiles@, name@, j as int),
        decreases n - j,
    {
        if tiles[j].name == *name {
            return j;
        }
        j = j + 1;
    }
    n
}

/// Per-tile slices of the built tables: within tile `j`'s variant block, each
/// variant carries the tile's weight, its action row built from the tile's
/// permutations, and its display name.
pub open spec fn weight_ok(weights: Seq<u32>, tiles: Seq<TileRecord>, j: int) -> bool {
    forall|v: int|
        spec_base(tiles, j) <= v < spec_base(tiles, j) + spec_cardinality(tiles[j].symmetry)
            ==> #[trigger] weights[v] == tiles[j].weight
}

pub open spec fn action_ok(action: Seq<Vec<usize>>, tiles: Seq<TileRecord>, j: int) -> bool {
    forall|v: int, k: int|
        spec_base(tiles, j) <= v < spec_base(tiles, j) + spec_cardinality(tiles[j].symmetry) && 0
            <= k < 8 ==> #[trigger] action[v]@[k] as int == spec_base(tiles, j) + spec_transform(
            tiles[j].symmetry,
            v - spec_base(tiles, j),
            k,
        )
}

pub open spec fn names_ok(names: Seq<String>, tiles: Seq<TileRecord>, j: int) -> bool {
    forall|v: int|
        spec_base(tiles, j) <= v < spec_base(tiles, j) + spec_cardinality(tiles[j].symmetry)
            ==> #[trigger] names[v]@ == tiles[j].name@ + seq![' '] + seq![
            spec_digit_char(v - spec_base(tiles, j)),
        ]
}

impl SimpleTiledModel {
    /// Build a model from tile records, neighbor rules and a square grid
    /// size. Construction fails, with `spec_first_error` saying exactly when
    /// and with which error, on an empty tile list, a zero weight, a total
    /// weight beyond the accumulator, or a rule naming an unknown tile or an
    /// orientation outside its tile's variant count. On success the model is
    /// well-formed, in the fully reset state, and its tables are pinned down:
    /// per-tile weight, action and name blocks, and a propagator derived from
    /// exactly the resolved rule pairs.
    pub fn new(tiles: &Vec<TileRecord>, rules: &Vec<NeighborRule>, grid_size: usize) -> (r: Result<
        SimpleTiledModel,
        ConfigError,
    >)
        requires
            1 <= grid_size,
            grid_size * grid_size <= usize::MAX,
            tiles@.len() <= 0x0010_0000,
            8 * tiles@.len() + 8 <= usize::MAX,
            128 * tiles@.len() * tiles@.len() <= usize::MAX,
        ensures
            r is Ok <==> spec_first_error(tiles@, rules@) is None,
            (r matches Err(e) ==> Some(e) == spec_first_error(tiles@, rules@)),
            (r matches Ok(m) ==> ({
                &&& m.wf()
                &&& m.m_x == grid_size
                &&& m.m_y == grid_size
                &&& m.n == 1
                &&& m.t == spec_total_variants(tiles@)
                &&& m.sum_of_weights == spec_total_weight(tiles@, tiles@.len() as int)
                &&& forall|j: int| 0 <= j < tiles@.len() ==> weight_ok(m.weights@, tiles@, j)
                &&& forall|j: int| 0 <= j < tiles@.len() ==> action_ok(m.action@, tiles@, j)
                &&& forall|j: int| 0 <= j < tiles@.len() ==> names_ok(m.tilenames@, tiles@, j)
                &&& m.declared_pairs@.len() == rules@.len()
                &&& forall|k: int|
                    0 <= k < rules@.len() ==> #[trigger] m.declared_pairs@[k] == spec_resolve(
                        tiles@,
                        m.action@,
                        rules@[k],
                    )
                &&& forall|i: int, v: int|
                    0 <= i < m.num_cells() && 0 <= v < m.t ==> #[trigger] m.wave@[i]@[v]
                &&& forall|i: int| 0 <= i < m.num_cells() ==> #[trigger] m.observed@[i] is None
                &&& m.stack@.len() == 0
                &&& !m.contradiction
            })),
    {
        let n_tiles: usize = tiles.len();
        if n_tiles == 0 {
            return Err(ConfigError::EmptyTileset);
        }
        let mut j: usize = 0;
        while j < n_tiles
            invariant
                n_tiles == tiles@.len(),
                j <= n_tiles,
                forall|jj: int| 0 <= jj < j ==> (#[trigger] tiles@[jj].weight) != 0,
            decreases n_tiles - j,
        {
            if tiles[j].weight == 0 {
                return Err(ConfigError::ZeroWeight);
            }
            j = j + 1;
        }
        let mut acc: u64 = 0;
        j = 0;
        while j < n_tiles
            invariant
                n_tiles == tiles@.len(),
                n_tiles <= 0x0010_0000,
                j <= n_tiles,
                acc as int == spec_total_weight(tiles@, j as int),
                // One tile adds at most 8 orientations of a u32 weight.
                acc as int <= (j as int) * 0x7_FFFF_FFF8,
            decreases n_tiles - j,
        {
            let card: u8 = cardinality(tiles[j].symmetry);
            let w: u32 = tiles[j].weight;
            proof {
                lemma_card_bounds(tiles@[j as int].symmetry);
                assert((card as int) * (w as int) <= 0x7_FFFF_FFF8 && (j as int) * 0x7_FFFF_FFF8
                    + 0x7_FFFF_FFF8 == ((j + 1) as int) * 0x7_FFFF_FFF8 && ((j + 1) as int)
                    * 0x7_FFFF_FFF8 <= 0x0010_0001 * 0x7_FFFF_FFF8) by (nonlinear_arith)
                    requires
                        1 <= card <= 8,
                        w <= u32::MAX,
                        0 <= j < 0x0010_0000,
                ;
            }
            acc = acc + (card as u64) * (w as u64);
            j = j + 1;
        }
        if acc > 0xFFFF_FFFFu64 {
            return Err(ConfigError::WeightOverflow);
        }
        let total_weight: u32 = acc as u32;
        let mut action_table: Vec<Vec<usize>> = Vec::new();
        let mut weights_v: Vec<u32> = Vec::new();
        let mut tilenames: Vec<String> = Vec::new();
        let mut base_of: Vec<usize> = Vec::new();
        j = 0;
        while j < n_tiles
            invariant
                n_tiles == tiles@.len(),
                n_tiles <= 0x0010_0000,
                8 * tiles@.len() + 8 <= usize::MAX,
                j <= n_tiles,
                forall|jj: int| 0 <= jj < n_tiles ==> (#[trigger] tiles@[jj].weight) != 0,
                action_table@.len() == spec_base(tiles@, j as int),
                weights_v@.len() == action_table@.len(),
                tilenames@.len() == action_table@.len(),
                base_of@.len() == j,
                forall|jj: int| 0 <= jj < j ==> #[trigger] base_of@[jj] as int == spec_base(tiles@, jj),
                forall|jj: int| 0 <= jj < j ==> weight_ok(weights_v@, tiles@, jj),
                forall|jj: int| 0 <= jj < j ==> action_ok(action_table@, tiles@, jj),
                forall|jj: int| 0 <= jj < j ==> names_ok(tilenames@, tiles@, jj),
                forall|v: int|
                    0 <= v < action_table@.len() ==> (#[trigger] action_table@[v]@).len() == 8,
                forall|v: int|
                    0 <= v < action_table@.len() ==> (#[trigger] action_table@[v]@)[0] == v,
                forall|v: int, k: int|
                    0 <= v < action_table@.len() && 0 <= k < 8
                        ==> (#[trigger] action_table@[v]@[k]) < spec_total_variants(tiles@),
                forall|v: int| 0 <= v < weights_v@.len() ==> (#[trigger] weights_v@[v]) >= 1,
                prefix_sum(weights_v@, weights_v@.len() as int) == spec_total_weight(
                    tiles@,
                    j as int,
                ),
            decreases n_tiles - j,
        {
            let base: usize = action_table.len();
            proof {
                lemma_base_bounds(tiles@, j as int);
                lemma_base_monotone(tiles@, j as int, tiles@.len() as int);
                lemma_card_bounds(tiles@[j as int].symmetry);
            }
            base_of.push(base);
            let sym: Symmetry = tiles[j].symmetry;
            let w: u32 = tiles[j].weight;
            let card: u8 = cardinality(sym);
            let mut i: u8 = 0;
            while i < card
                invariant
                    n_tiles == tiles@.len(),
                    n_tiles <= 0x0010_0000,
                    8 * tiles@.len() + 8 <= usize::MAX,
                    j < n_tiles,
                    forall|jj: int| 0 <= jj < n_tiles ==> (#[trigger] tiles@[jj].weight) != 0,
                    sym == tiles@[j as int].symmetry,
                    w == tiles@[j as int].weight,
                    w >= 1,
                    card as int == spec_cardinality(sym),
                    i <= card,
                    base as int == spec_base(tiles@, j as int),
                    base as int + spec_cardinality(sym) <= spec_total_variants(tiles@),
                    action_table@.len() == base + i,
                    weights_v@.len() == action_table@.len(),
                    tilenames@.len() == action_table@.len(),
                    forall|jj: int| 0 <= jj < j ==> weight_ok(weights_v@, tiles@, jj),
                    forall|jj: int| 0 <= jj < j ==> action_ok(action_table@, tiles@, jj),
                    forall|jj: int| 0 <= jj < j ==> names_ok(tilenames@, tiles@, jj),
                    forall|v: int|
                        base <= v < base + i ==> (#[trigger] weights_v@[v]) == w,
                    forall|v: int, k: int|
                        base <= v < base + i && 0 <= k < 8 ==> (#[trigger] action_table@[v]@[k])
                            as int == base + spec_transform(sym, v - base, k),
                    forall|v: int|
                        base <= v < base + i ==> (#[trigger] tilenames@[v]@) == tiles@[j as int].name@ + seq![' '] + seq![spec_digit_char(v - base)],
                    forall|v: int|
                        0 <= v < action_table@.len() ==> (#[trigger] action_table@[v]@).len() == 8,
                    forall|v: int|
                        0 <= v < action_table@.len() ==> (#[trigger] action_table@[v]@)[0] == v,
                    forall|v: int, k: int|
                        0 <= v < action_table@.len() && 0 <= k < 8
                            ==> (#[trigger] action_table@[v]@[k]) < spec_total_variants(tiles@),
                    forall|v: int| 0 <= v < weights_v@.len() ==> (#[trigger] weights_v@[v]) >= 1,
                    prefix_sum(weights_v@, weights_v@.len() as int) == spec_total_weight(
                        tiles@,
                        j as int,
                    ) + i * w,
                decreases card - i,
            {
                proof {
                    lemma_base_bounds(tiles@, tiles@.len() as int);
                }
                let row: Vec<usize> = get_map_row(i as usize, base, sym);
                let ghost weights_before = weights_v@;
                let ghost action_before = action_table@;
                let ghost names_before = tilenames@;
                action_table.push(row);
                weights_v.push(w);
                proof {
                    lemma_prefix_sum_same(weights_v@, weights_before, weights_before.len() as int);
                }
                let mut nm: String = tiles[j].name.clone();
                nm.append(" ");
                nm.append(digit_label(i));
                proof {
                    reveal_strlit(" ");
                    assert(" "@ =~= seq![' ']);
                    assert(nm@ == tiles@[j as int].name@ + seq![' '] + seq![
                        spec_digit_char(i as int),
                    ]);
                    assert((i + 1) * w == i * w + w) by (nonlinear_arith);
                }
                tilenames.push(nm);
                proof {
                    assert forall|jj: int| 0 <= jj < j implies weight_ok(weights_v@, tiles@, jj) by {
                        assert(weight_ok(weights_before, tiles@, jj));
                        lemma_base_bounds(tiles@, jj);
                        lemma_base_monotone(tiles@, jj + 1, j as int);
                        assert(spec_base(tiles@, jj + 1) == spec_base(tiles@, jj)
                            + spec_cardinality(tiles@[jj].symmetry));
                        assert forall|v: int|
                            spec_base(tiles@, jj) <= v < spec_base(tiles@, jj) + spec_cardinality(
                                tiles@[jj].symmetry,
                            ) implies #[trigger] weights_v@[v] == tiles@[jj].weight by {
                            assert(v < weights_before.len());
                            vstd::seq::axiom_seq_push_index_different(weights_before, w, v);
                            assert(weights_v@[v] == weights_before[v]);
                            assert(weights_before[v] == tiles@[jj].weight);
                        }
                    }
                    assert forall|jj: int| 0 <= jj < j implies action_ok(action_table@, tiles@, jj) by {
                        assert(action_ok(action_before, tiles@, jj));
                        lemma_base_bounds(tiles@, jj);
                        lemma_base_monotone(tiles@, jj + 1, j as int);
                        assert(spec_base(tiles@, jj + 1) == spec_base(tiles@, jj)
                            + spec_cardinality(tiles@[jj].symmetry));
                        assert forall|v: int, k: int|
                            spec_base(tiles@, jj) <= v < spec_base(tiles@, jj) + spec_cardinality(
                                tiles@[jj].symmetry,
                            ) && 0 <= k < 8 implies #[trigger] action_table@[v]@[k] as int
                            == spec_base(tiles@, jj) + spec_transform(
                            tiles@[jj].symmetry,
                            v - spec_base(tiles@, jj),
                            k,
                        ) by {
                            assert(v < action_before.len());
                            vstd::seq::axiom_seq_push_index_different(action_before, row, v);
                            assert(action_table@[v] == action_before[v]);
                        }
                    }
                    assert forall|jj: int| 0 <= jj < j implies names_ok(tilenames@, tiles@, jj) by {
                        assert(names_ok(names_before, tiles@, jj));
                        lemma_base_bounds(tiles@, jj);
                        lemma_base_monotone(tiles@, jj + 1, j as int);
                        assert(spec_base(tiles@, jj + 1) == spec_base(tiles@, jj)
                            + spec_cardinality(tiles@[jj].symmetry));
                        assert forall|v: int|
                            spec_base(tiles@, jj) <= v < spec_base(tiles@, jj) + spec_cardinality(
                                tiles@[jj].symmetry,
                            ) implies #[trigger] tilenames@[v]@ == tiles@[jj].name@ + seq![' ']
                            + seq![spec_digit_char(v - spec_base(tiles@, jj))] by {
                            assert(v < names_before.len());
                            vstd::seq::axiom_seq_push_index_different(names_before, nm, v);
                        }
                    }
                }
                i = i + 1;
            }
            proof {
                assert(spec_base(tiles@, j + 1) == spec_base(tiles@, j as int)
                    + spec_cardinality(tiles@[j as int].symmetry));
                assert(spec_total_weight(tiles@, j + 1) == spec_total_weight(tiles@, j as int)
                    + spec_cardinality(tiles@[j as int].symmetry) * tiles@[j as int].weight);
                assert(weight_ok(weights_v@, tiles@, j as int));
                assert(action_ok(action_table@, tiles@, j as int));
                assert(names_ok(tilenames@, tiles@, j as int));
            }
            j = j + 1;
        }
        let t: usize = action_table.len();
        proof {
            lemma_base_bounds(tiles@, tiles@.len() as int);
        }
        let n_rules: usize = rules.len();
        let mut pairs: Vec<(usize, usize)> = Vec::new();
        let mut k: usize = 0;
        while k < n_rules
            invariant
                n_tiles == tiles@.len(),
                n_rules == rules@.len(),
                k <= n_rules,
                forall|jj: int| 0 <= jj < n_tiles ==> (#[trigger] tiles@[jj].weight) != 0,
                n_tiles >= 1,
                spec_total_weight(tiles@, tiles@.len() as int) <= u32::MAX,
                t as int == spec_total_variants(tiles@),
                t >= 1,
                base_of@.len() == n_tiles,
                forall|jj: int|
                    0 <= jj < n_tiles ==> #[trigger] base_of@[jj] as int == spec_base(tiles@, jj),
                action_table@.len() == t,
                forall|v: int|
                    0 <= v < action_table@.len() ==> (#[trigger] action_table@[v]@).len() == 8,
                forall|v: int, kk: int|
                    0 <= v < action_table@.len() && 0 <= kk < 8
                        ==> (#[trigger] action_table@[v]@[kk]) < t,
                pairs@.len() == k,
                forall|kk: int|
                    0 <= kk < k ==> #[trigger] rule_fault(tiles@, rules@[kk]) is None,
                forall|kk: int|
                    0 <= kk < k ==> #[trigger] pairs@[kk] == spec_resolve(
                        tiles@,
                        action_table@,
                        rules@[kk],
                    ),
                forall|kk: int|
                    0 <= kk < k ==> (#[trigger] pairs@[kk]).0 < t && pairs@[kk].1 < t,
            decreases n_rules - k,
        {
            let jl: usize = find_first_tile(tiles, &rules[k].left);
            proof {
                lemma_first_idx_bounds(tiles@, rules@[k as int].left@, 0);
                lemma_first_rule_fault_skip(tiles@, rules@, 0, k as int);
            }
            if jl == n_tiles {
                return Err(ConfigError::UnknownTile);
            }
            let card_l: u8 = cardinality(tiles[jl].symmetry);
            if rules[k].left_orientation >= card_l as usize {
                return Err(ConfigError::BadOrientation);
            }
            let jr: usize = find_first_tile(tiles, &rules[k].right);
            proof {
                lemma_first_idx_bounds(tiles@, rules@[k as int].right@, 0);
            }
            if jr == n_tiles {
                return Err(ConfigError::UnknownTile);
            }
            let card_r: u8 = cardinality(tiles[jr].symmetry);
            if rules[k].right_orientation >= card_r as usize {
                return Err(ConfigError::BadOrientation);
            }
            proof {
                lemma_base_monotone(tiles@, jl as int, tiles@.len() as int);
                lemma_base_monotone(tiles@, jr as int, tiles@.len() as int);
                lemma_base_bounds(tiles@, jl as int);
                lemma_base_bounds(tiles@, jr as int);
                lemma_card_bounds(tiles@[jl as int].symmetry);
                lemma_card_bounds(tiles@[jr as int].symmetry);
            }
            let bl: usize = base_of[jl];
            let br: usize = base_of[jr];
            let l: usize = action_table[bl][rules[k].left_orientation];
            let r_: usize = action_table[br][rules[k].right_orientation];
            pairs.push((l, r_));
            k = k + 1;
        }
        proof {
            lemma_first_rule_fault_skip(tiles@, rules@, 0, n_rules as int);
            assert(2 * t * t <= usize::MAX) by (nonlinear_arith)
                requires
                    0 <= t,
                    t <= 8 * tiles@.len(),
                    128 * tiles@.len() * tiles@.len() <= usize::MAX,
            ;
        }
        let propagator: Vec<Vec<Vec<usize>>> = build_propagator(&pairs, &action_table, t);
        let cells: usize = grid_size * grid_size;
        let mut wave: Vec<Vec<bool>> = Vec::new();
        let mut observed: Vec<Option<usize>> = Vec::new();
        let mut compatible: Vec<Vec<Vec<usize>>> = Vec::new();
        let mut sums_of_ones: Vec<usize> = Vec::new();
        let mut sums_of_weights: Vec<u32> = Vec::new();
        let mut c: usize = 0;
        while c < cells
            invariant
                c <= cells,
                t >= 1,
                wave@.len() == c,
                observed@.len() == c,
                compatible@.len() == c,
                sums_of_ones@.len() == c,
                sums_of_weights@.len() == c,
                forall|i: int| 0 <= i < c ==> (#[trigger] wave@[i]@).len() == t,
                forall|i: int, v: int|
                    0 <= i < c && 0 <= v < t ==> #[trigger] wave@[i]@[v],
                forall|i: int| 0 <= i < c ==> #[trigger] observed@[i] is None,
                forall|i: int| 0 <= i < c ==> (#[trigger] compatible@[i]@).len() == t,
                forall|i: int, v: int|
                    0 <= i < c && 0 <= v < t ==> (#[trigger] compatible@[i]@[v]@).len() == 4,
                forall|i: int| 0 <= i < c ==> (#[trigger] sums_of_ones@[i]) == t,
                forall|i: int| 0 <= i < c ==> (#[trigger] sums_of_weights@[i]) == total_weight,
            decreases cells - c,
        {
            let mut row: Vec<bool> = Vec::new();
            let mut comp_row: Vec<Vec<usize>> = Vec::new();
            let mut v: usize = 0;
            while v < t
                invariant
                    v <= t,
                    row@.len() == v,
                    comp_row@.len() == v,
                    forall|u: int| 0 <= u < v ==> #[trigger] row@[u],
                    forall|u: int| 0 <= u < v ==> (#[trigger] comp_row@[u]@).len() == 4,
                decreases t - v,
            {
                row.push(true);
                let mut counters: Vec<usize> = Vec::new();
                counters.push(0);
                counters.push(0);
                counters.push(0);
                counters.push(0);
                comp_row.push(counters);
                v = v + 1;
            }
            wave.push(row);
            observed.push(None);
            compatible.push(comp_row);
            sums_of_ones.push(t);
            sums_of_weights.push(total_weight);
            c = c + 1;
        }
        proof {
            assert(weights_v@.len() == t);
            assert(prefix_sum(weights_v@, t as int) == spec_total_weight(
                tiles@,
                n_tiles as int,
            ));
            assert(acc as int == spec_total_weight(tiles@, n_tiles as int));
            assert(total_weight as int == prefix_sum(weights_v@, t as int));
        }
        let mut m = SimpleTiledModel {
            wave,
            observed,
            propagator,
            compatible,
            stack: Vec::new(),
            m_x: grid_size,
            m_y: grid_size,
            t,
            n: 1,
            weights: weights_v,
            sum_of_weights: total_weight,
            sums_of_ones,
            sums_of_weights,
            contradiction: false,
            tilenames,
            action: action_table,
            declared_pairs: Ghost(pairs@),
        };
        proof {
            assert forall|i: int|
                0 <= i < m.num_cells() implies #[trigger] m.sums_of_ones@[i] == count_true(
                m.wave@[i]@,
                m.t as int,
            ) by {
                lemma_count_all_true(m.wave@[i]@, m.weights@, m.t as int);
            }
            assert forall|i: int|
                0 <= i < m.num_cells() implies #[trigger] m.sums_of_weights@[i] == weight_sum(
                m.wave@[i]@,
                m.weights@,
                m.t as int,
            ) by {
                lemma_count_all_true(m.wave@[i]@, m.weights@, m.t as int);
            }
            assert(m.wf_dims());
            assert(m.wf_action());
            assert(m.wf_propagator());
            assert(!(exists|i: int|
                0 <= i < m.num_cells() && #[trigger] m.sums_of_ones@[i] == 0));
            assert(m.wf_state());
        }
        let mut ret: SimpleTiledModel = m;
        ret.clear();
        Ok(ret)
    }
}

/// Direction symmetry of the propagator: `y` may sit to the west of `x`
/// exactly when `x` may sit to the east of `y`, and `y` to the south of `x`
/// exactly when `x` to the north of `y`. The east and north relations are
/// built as transposes, and this law holds of every well-formed model.
pub proof fn lemma_propagator_direction_symmetric(m: &SimpleTiledModel, x: int, y: int)
    requires
        m.wf(),
        0 <= x < m.t,
        0 <= y < m.t,
    ensures
        m.propagator@[0]@[x]@.contains(y as usize) <==> m.propagator@[2]@[y]@.contains(x as usize),
        m.propagator@[1]@[x]@.contains(y as usize) <==> m.propagator@[3]@[y]@.contains(x as usize),
{
}

/// Transform index 0 is the identity: the action-table lookup for it returns
/// the variant unchanged, for every variant of a well-formed model.
pub proof fn lemma_action_identity(m: &SimpleTiledModel, v: int)
    requires
        m.wf(),
        0 <= v < m.t,
    ensures
        m.action@[v]@[0] == v,
{
}

/// A cell's selection key, its remaining weight sum, reaches zero exactly
/// when the cell has no candidates left; together with the strict decrease of
/// the key on every ban (an `ensures` of `ban`), the key behaves like the
/// entropy it stands in for: it only falls, and it bottoms out exactly at
/// contradiction.
pub proof fn lemma_weight_key_zero_iff_empty(m: &SimpleTiledModel, i: int)
    requires
        m.wf(),
        0 <= i < m.num_cells(),
    ensures
        m.sums_of_weights@[i] == 0 <==> m.sums_of_ones@[i] == 0,
{
    lemma_weight_sum_zero_iff(m.wave@[i]@, m.weights@, m.t as int);
}

/// The text of one grid cell: the variant's display name, or `unobserved`,
/// followed by a comma and a space.
pub open spec fn spec_cell_text(
    observed: Seq<Option<usize>>,
    names: Seq<String>,
    i: int,
) -> Seq<char> {
    match observed[i] {
        Some(t) => if t < names.len() {
            names[t as int]@ + seq![',', ' ']
        } else {
            seq![',', ' ']
        },
        None => seq!['u', 'n', 'o', 'b', 's', 'e', 'r', 'v', 'e', 'd', ',', ' '],
    }
}

/// One rendered grid row: the cell texts of row `y`, first `cols` columns.
pub open spec fn spec_row_text(
    observed: Seq<Option<usize>>,
    names: Seq<String>,
    m_x: int,
    y: int,
    cols: int,
) -> Seq<char>
    decreases cols,
{
    if cols <= 0 {
        Seq::empty()
    } else {
        spec_row_text(observed, names, m_x, y, cols - 1) + spec_cell_text(
            observed,
            names,
            y * m_x + (cols - 1),
        )
    }
}

/// The first `rows` rendered grid rows, each ended by a newline.
pub open spec fn spec_grid_text(
    observed: Seq<Option<usize>>,
    names: Seq<String>,
    m_x: int,
    rows: int,
) -> Seq<char>
    decreases rows,
{
    if rows <= 0 {
        Seq::empty()
    } else {
        spec_grid_text(observed, names, m_x, rows - 1) + spec_row_text(
            observed,
            names,
            m_x,
            rows - 1,
            m_x,
        ) + seq!['\n']
    }
}

impl SimpleTiledModel {
    /// Render the observed grid as text, for diagnostics: one line per grid
    /// row, each cell as its variant's display name, or `unobserved`,
    /// followed by a comma and a space.
    pub fn text_output(&self) -> (r: String)
        requires
            self.wf(),
            forall|i: int|
                0 <= i < self.num_cells() ==> (#[trigger] self.observed@[i] matches Some(v) ==> v < self.t),
        ensures
            r@ == spec_grid_text(self.observed@, self.tilenames@, self.m_x as int, self.m_y as int),
    {
        let mut result: String = String::new();
        let mut y: usize = 0;
        while y < self.m_y
            invariant
                self.wf(),
                forall|i: int|
                    0 <= i < self.num_cells() ==> (#[trigger] self.observed@[i] matches Some(v) ==> v < self.t),
                y <= self.m_y,
                result@ == spec_grid_text(
                    self.observed@,
                    self.tilenames@,
                    self.m_x as int,
                    y as int,
                ),
            decreases self.m_y - y,
        {
            let mut x: usize = 0;
            while x < self.m_x
                invariant
                    self.wf(),
                    forall|i: int|
                        0 <= i < self.num_cells() ==> (#[trigger] self.observed@[i] matches Some(v) ==> v < self.t),
                    y < self.m_y,
                    x <= self.m_x,
                    result@ == spec_grid_text(
                        self.observed@,
                        self.tilenames@,
                        self.m_x as int,
                        y as int,
                    ) + spec_row_text(
                        self.observed@,
                        self.tilenames@,
                        self.m_x as int,
                        y as int,
                        x as int,
                    ),
                decreases self.m_x - x,
            {
                proof {
                    assert(x + y * self.m_x < self.m_x * self.m_y) by (nonlinear_arith)
                        requires
                            0 <= x < self.m_x,
                            0 <= y < self.m_y,
                    ;
                    assert(y * self.m_x + x == x + y * self.m_x);
                }
                let index: usize = x + y * self.m_x;
                match self.observed[index] {
                    Some(tile_idx) => {
                        result.append(self.tilenames[tile_idx].as_str());
                        result.append(", ");
                    },
                    None => {
                        result.append("unobserved, ");
                    },
                }
                proof {
                    reveal_strlit(", ");
                    reveal_strlit("unobserved, ");
                    assert(", "@ =~= seq![',', ' ']);
                    assert("unobserved, "@ =~= seq![
                        'u', 'n', 'o', 'b', 's', 'e', 'r', 'v', 'e', 'd', ',', ' ',
                    ]);
                    assert(result@ =~= spec_grid_text(
                        self.observed@,
                        self.tilenames@,
                        self.m_x as int,
                        y as int,
                    ) + spec_row_text(
                        self.observed@,
                        self.tilenames@,
                        self.m_x as int,
                        y as int,
                        x + 1,
                    ));
                }
                x = x + 1;
            }
            result.append("\n");
            proof {
                reveal_strlit("\n");
                assert("\n"@ =~= seq!['\n']);
                assert(result@ =~= spec_grid_text(
                    self.observed@,
                    self.tilenames@,
                    self.m_x as int,
                    y + 1,
                ));
            }
            y = y + 1;
        }
        result
    }
}

} // verus!
