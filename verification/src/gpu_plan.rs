//! The sizes of a tree's layers on the device, and the checks before the GPU path takes a tree.

use crate::util::{checked_log2, is_two_power, log2, two_power};
use vstd::arithmetic::power2::*;
use vstd::prelude::*;

verus! {

/// The largest number that the kernels take for a leaf count or a leaf width.
pub const MAX_KERNEL_COUNT: usize = 0x7FFF_FFFF;

// ---------------------------------------------------------------------------------------------
// Layer sizes
// ---------------------------------------------------------------------------------------------

/// The number of nodes in layer `layer` over `input_size` leaves.
pub open spec fn layer_size(input_size: nat, layer: nat) -> nat
    decreases layer,
{
    if layer == 0 {
        input_size
    } else if layer == 1 {
        input_size / 2
    } else {
        (layer_size(input_size, (layer - 1) as nat) + 1) / 2
    }
}

/// The number of nodes in the layers from the first one up to and without `layer`.
pub open spec fn layer_offset(input_size: nat, layer: nat) -> nat
    decreases layer,
{
    if layer <= 1 {
        0
    } else {
        layer_offset(input_size, (layer - 1) as nat) + layer_size(input_size, (layer - 1) as nat)
    }
}

/// Later layers start no earlier.
pub proof fn lemma_offset_grows(input_size: nat, one: nat, two: nat)
    requires
        one <= two,
    ensures
        layer_offset(input_size, one) <= layer_offset(input_size, two),
    decreases two,
{
    if one < two {
        lemma_offset_grows(input_size, one, (two - 1) as nat);
    }
}

/// Over a power of two of leaves, each layer is half the one below.
pub proof fn lemma_layer_size(depth: nat, layer: nat)
    requires
        layer <= depth,
    ensures
        layer_size(pow2(depth), layer) == pow2((depth - layer) as nat),
    decreases layer,
{
    if layer > 0 {
        lemma_layer_size(depth, (layer - 1) as nat);
        lemma_pow2_unfold((depth - layer + 1) as nat);
    }
}

/// Over a power of two of leaves, the layers below `layer` hold all nodes but those from there
/// on.
pub proof fn lemma_layer_offset(depth: nat, layer: nat)
    requires
        1 <= layer <= depth + 1,
    ensures
        layer_offset(pow2(depth), layer) == pow2(depth) - pow2((depth - layer + 1) as nat),
    decreases layer,
{
    if layer > 1 {
        lemma_layer_offset(depth, (layer - 1) as nat);
        lemma_layer_size(depth, (layer - 1) as nat);
        lemma_pow2_unfold((depth - layer + 2) as nat);
    }
}

/// Above the leaves, `2 ** (layer - 1)` pairs of leaves go to a node: a layer has as many nodes as
/// it takes for the pairs, and no more.
pub proof fn law_layer_sizes_are_ceilings(input_size: nat, layer: nat)
    ensures
        layer == 0 ==> layer_size(input_size, layer) == input_size,
        layer >= 1 ==> pow2((layer - 1) as nat) * (layer_size(input_size, layer) - 1) < input_size
            / 2 <= pow2((layer - 1) as nat) * layer_size(input_size, layer),
    decreases layer,
{
    lemma2_to64();
    if layer == 1 {
        assert(pow2(0) * (layer_size(input_size, 1) - 1) == layer_size(input_size, 1) - 1 && pow2(0)
            * layer_size(input_size, 1) == layer_size(input_size, 1)) by (nonlinear_arith)
            requires
                pow2(0) == 1,
        ;
    } else if layer > 1 {
        let below = (layer - 1) as nat;
        law_layer_sizes_are_ceilings(input_size, below);
        lemma_pow2_unfold(below);
        let unit = pow2((layer - 2) as nat) as int;
        let s = layer_size(input_size, below) as int;
        let t = layer_size(input_size, layer) as int;
        assert(unit * s <= (2 * unit) * t && (2 * unit) * (t - 1) <= unit * (s - 1))
            by (nonlinear_arith)
            requires
                0 <= unit,
                s <= 2 * t,
                2 * t <= s + 1,
        ;
    }
}

/// The layers between the leaves and the cap lie one behind the other, the first one at the start.
pub proof fn law_layer_offsets_add_up(input_size: nat, layer: nat)
    ensures
        layer_offset(input_size, 0) == 0,
        layer_offset(input_size, 1) == 0,
        layer >= 1 ==> layer_offset(input_size, layer + 1) == layer_offset(input_size, layer)
            + layer_size(input_size, layer),
{
}

/// The number of nodes in layer `layer` over `input_size` leaves.
pub fn host_layer_size(input_size: usize, layer: usize) -> (r: usize)
    ensures
        r == layer_size(input_size as nat, layer as nat),
        layer == 0 ==> r == input_size,
        layer >= 1 ==> pow2((layer - 1) as nat) * (r - 1) < input_size / 2 <= pow2(
            (layer - 1) as nat,
        ) * r,
{
    proof {
        law_layer_sizes_are_ceilings(input_size as nat, layer as nat);
    }
    if layer == 0 {
        return input_size;
    }
    let mut size: usize = input_size / 2;
    let mut l: usize = 1;
    while l < layer
        invariant
            1 <= l <= layer,
            size == layer_size(input_size as nat, l as nat),
            size <= usize::MAX / 2,
        decreases layer - l,
    {
        size = (size + 1) / 2;
        l = l + 1;
    }
    size
}

/// Where layer `layer` starts in the node buffer over `input_size` leaves.
pub fn host_layer_offset(input_size: usize, layer: usize) -> (r: usize)
    requires
        layer_offset(input_size as nat, layer as nat) <= usize::MAX,
    ensures
        r == layer_offset(input_size as nat, layer as nat),
{
    let mut offset: usize = 0;
    let mut size: usize = input_size / 2;
    let mut l: usize = 1;
    while l < layer
        invariant
            1 <= l,
            l == 1 || l <= layer,
            size == layer_size(input_size as nat, l as nat),
            size <= usize::MAX / 2,
            offset == layer_offset(input_size as nat, l as nat),
            layer_offset(input_size as nat, layer as nat) <= usize::MAX,
        decreases layer - l,
    {
        proof {
            lemma_offset_grows(input_size as nat, l as nat + 1, layer as nat);
        }
        offset = offset + size;
        size = (size + 1) / 2;
        l = l + 1;
    }
    offset
}

// ---------------------------------------------------------------------------------------------
// Checks
// ---------------------------------------------------------------------------------------------

/// Why the GPU path does not take a tree.
#[derive(Clone, Copy, Debug, PartialEq, Eq, Structural)]
pub enum PlanError {
    /// Merkle tree requires at least one leaf.
    NoLeaves,
    /// The leaf count has to fit in `i32`.
    TooManyLeaves { num_leaves: usize },
    /// The leaves have to be of uniform length.
    MixedLeafLengths,
    /// The leaf count has to be a power of two.
    LeafCountNotPowerOfTwo,
    /// The cap height exceeds the depth of the tree.
    CapTooHigh { cap_height: usize, depth: usize },
    /// No layer lies strictly between the leaves and the cap.
    NoInternalNodes { num_leaves: usize, cap_height: usize },
    /// The leaves are empty.
    EmptyLeaves,
    /// The leaf width has to fit in `i32`.
    LeavesTooWide { elements_per_leaf: usize },
}

/// The numbers that describe a tree to the GPU path.
#[derive(Clone, Copy, Debug, PartialEq, Eq, Structural)]
pub struct MerklePlan {
    pub num_leaves: usize,
    pub elements_per_leaf: usize,
    pub cap_height: usize,
    /// The number of layers from the leaves up to and without the cap.
    pub num_layers_to_cap: usize,
    pub cap_len: usize,
    /// The number of nodes strictly between the leaves and the cap.
    pub total_nodes: usize,
}

impl MerklePlan {
    /// The numbers belong to one tree.
    pub open spec fn shaped(self) -> bool {
        &&& self.num_leaves == pow2((self.cap_height + self.num_layers_to_cap) as nat)
        &&& self.cap_len == pow2(self.cap_height as nat)
        &&& self.total_nodes == layer_offset(
            self.num_leaves as nat,
            self.num_layers_to_cap as nat,
        )
    }

    /// The numbers belong to one tree, and the kernels take them.
    pub open spec fn wf(self) -> bool {
        &&& self.shaped()
        &&& self.num_layers_to_cap >= 2
        &&& self.num_leaves <= MAX_KERNEL_COUNT
        &&& 0 < self.elements_per_leaf <= MAX_KERNEL_COUNT
    }
}

/// The first objection to a tree, if there is one.
pub open spec fn objection(
    num_leaves: usize,
    elements_per_leaf: usize,
    uniform: bool,
    cap_height: usize,
) -> Option<PlanError> {
    let depth = log2(num_leaves as nat);
    if num_leaves == 0 {
        Some(PlanError::NoLeaves)
    } else if num_leaves > MAX_KERNEL_COUNT {
        Some(PlanError::TooManyLeaves { num_leaves })
    } else if !uniform {
        Some(PlanError::MixedLeafLengths)
    } else if !is_two_power(num_leaves as nat) {
        Some(PlanError::LeafCountNotPowerOfTwo)
    } else if cap_height > depth {
        Some(PlanError::CapTooHigh { cap_height, depth: depth as usize })
    } else if depth - cap_height <= 1 {
        Some(PlanError::NoInternalNodes { num_leaves, cap_height })
    } else if elements_per_leaf == 0 {
        Some(PlanError::EmptyLeaves)
    } else if elements_per_leaf > MAX_KERNEL_COUNT {
        Some(PlanError::LeavesTooWide { elements_per_leaf })
    } else {
        None
    }
}

/// What the numbers of a tree are: the leaves are `2 ** num_layers_to_cap` for each entry of the
/// cap, which has `2 ** cap_height` entries, and between leaves and cap there are as many nodes as
/// leaves, less two for each entry of the cap. The kernels take at most `2^31 - 1` leaves of at
/// most `2^31 - 1` elements.
pub proof fn law_plans_in_numbers(plan: MerklePlan)
    requires
        plan.wf(),
    ensures
        plan.cap_len == pow2(plan.cap_height as nat),
        plan.num_leaves == plan.cap_len * pow2(plan.num_layers_to_cap as nat),
        plan.num_layers_to_cap >= 2,
        plan.total_nodes == plan.num_leaves - 2 * plan.cap_len,
        plan.total_nodes > 0,
        4 <= plan.num_leaves <= 0x7FFF_FFFF,
        1 <= plan.elements_per_leaf <= 0x7FFF_FFFF,
{
    let layers = plan.num_layers_to_cap as nat;
    let depth = (plan.cap_height + plan.num_layers_to_cap) as nat;
    lemma2_to64();
    lemma_layer_offset(depth, layers);
    lemma_pow2_adds(plan.cap_height as nat, layers);
    lemma_pow2_unfold((plan.cap_height + 1) as nat);
    lemma_pow2_pos(plan.cap_height as nat);
    crate::util::lemma_pow2_monotone(2, depth);
    lemma_pow2_strictly_increases((plan.cap_height + 1) as nat, depth);
}

/// When each objection is raised, in numbers: a tree is planned just if none is.
pub proof fn law_objections_in_numbers(
    num_leaves: usize,
    elements_per_leaf: usize,
    uniform: bool,
    cap_height: usize,
)
    ensures
        ({
            let found = objection(num_leaves, elements_per_leaf, uniform, cap_height);
            let taken = 0 < num_leaves <= 0x7FFF_FFFF && uniform;
            let cap_len = pow2(cap_height as nat);
            let power = exists|depth: nat| num_leaves == #[trigger] pow2(depth);
            &&& found == Some(PlanError::NoLeaves) <==> num_leaves == 0
            &&& found == Some(PlanError::TooManyLeaves { num_leaves }) <==> num_leaves
                > 0x7FFF_FFFF
            &&& found == Some(PlanError::MixedLeafLengths) <==> 0 < num_leaves <= 0x7FFF_FFFF
                && !uniform
            &&& found == Some(PlanError::LeafCountNotPowerOfTwo) <==> taken && !power
            &&& (found is Some && found->0 is CapTooHigh) <==> taken && power && num_leaves
                < cap_len
            &&& (found matches Some(PlanError::CapTooHigh { cap_height: height, depth }) ==> height
                == cap_height && num_leaves == pow2(depth as nat))
            &&& found == Some(PlanError::NoInternalNodes { num_leaves, cap_height }) <==> taken
                && power && (num_leaves == cap_len || num_leaves == 2 * cap_len)
            &&& found == Some(PlanError::EmptyLeaves) <==> taken && power && num_leaves >= 4
                * cap_len && elements_per_leaf == 0
            &&& found == Some(PlanError::LeavesTooWide { elements_per_leaf }) <==> taken && power
                && num_leaves >= 4 * cap_len && elements_per_leaf > 0x7FFF_FFFF
            &&& found is None <==> taken && power && num_leaves >= 4 * cap_len && 1
                <= elements_per_leaf <= 0x7FFF_FFFF
        }),
{
    let n = num_leaves as nat;
    let c = cap_height as nat;
    lemma_pow2_pos(c);
    lemma_pow2_unfold(c + 1);
    lemma_pow2_unfold(c + 2);
    if is_two_power(n) && num_leaves <= 0x7FFF_FFFF {
        let depth = log2(n);
        crate::util::lemma_log2(depth);
        crate::util::lemma_exponent_fits(depth);
        lemma_pow2_pos(depth);
        if c > depth {
            lemma_pow2_strictly_increases(depth, c);
        } else if depth == c {
        } else if depth == c + 1 {
        } else {
            crate::util::lemma_pow2_monotone(c + 2, depth);
        }
    }
}

/// The leaves are uniform just if no two of them differ in length.
pub proof fn law_uniform_leaves_by_pairs<F>(leaves: Seq<Vec<F>>)
    ensures
        uniform_leaves(leaves) <==> forall|i: int, j: int|
            0 <= i < leaves.len() && 0 <= j < leaves.len() ==> (#[trigger] leaves[i])@.len() == (
            #[trigger] leaves[j])@.len(),
{
    if leaves.len() > 0 && !uniform_leaves(leaves) {
        let i = choose|i: int|
            0 <= i < leaves.len() && (#[trigger] leaves[i])@.len() != leaves[0]@.len();
        assert(leaves[i]@.len() != leaves[0]@.len());
    }
}

/// The leaves all have the length of the first one.
pub open spec fn uniform_leaves<F>(leaves: Seq<Vec<F>>) -> bool {
    forall|i: int| 0 <= i < leaves.len() ==> (#[trigger] leaves[i])@.len() == leaves[0]@.len()
}

/// The leaf count and the length of the first leaf.
pub fn leaf_info<F>(leaves: &[Vec<F>]) -> (r: (usize, usize))
    requires
        leaves@.len() > 0,
    ensures
        r.0 == leaves@.len(),
        r.1 == leaves@[0]@.len(),
{
    let num_leaves: usize = leaves.len();
    let elements_per_leaf: usize = leaves[0].len();
    (num_leaves, elements_per_leaf)
}

/// Whether every leaf has `elements_per_leaf` elements.
fn all_of_length<F>(leaves: &[Vec<F>], elements_per_leaf: usize) -> (r: bool)
    ensures
        r == (forall|i: int|
            0 <= i < leaves@.len() ==> (#[trigger] leaves@[i])@.len() == elements_per_leaf),
{
    let mut i: usize = 0;
    while i < leaves.len()
        invariant
            i <= leaves@.len(),
            forall|j: int|
                0 <= j < i ==> (#[trigger] leaves@[j])@.len() == elements_per_leaf,
        decreases leaves@.len() - i,
    {
        if leaves[i].len() != elements_per_leaf {
            return false;
        }
        i = i + 1;
    }
    true
}

/// The plan for a tree of the given measurements, or the first objection to it.
pub fn plan_shape(
    num_leaves: usize,
    elements_per_leaf: usize,
    uniform: bool,
    cap_height: usize,
) -> (r: Result<MerklePlan, PlanError>)
    ensures
        match r {
            Ok(plan) => {
                &&& objection(num_leaves, elements_per_leaf, uniform, cap_height) is None
                &&& plan.wf()
                &&& plan.num_leaves == num_leaves
                &&& plan.elements_per_leaf == elements_per_leaf
                &&& plan.cap_height == cap_height
            },
            Err(e) => objection(num_leaves, elements_per_leaf, uniform, cap_height) == Some(e),
        },
{
    if num_leaves == 0 {
        return Err(PlanError::NoLeaves);
    }
    if num_leaves > MAX_KERNEL_COUNT {
        return Err(PlanError::TooManyLeaves { num_leaves });
    }
    if !uniform {
        return Err(PlanError::MixedLeafLengths);
    }
    let depth: usize = match checked_log2(num_leaves) {
        Some(depth) => depth,
        None => {
            return Err(PlanError::LeafCountNotPowerOfTwo);
        },
    };
    if cap_height > depth {
        return Err(PlanError::CapTooHigh { cap_height, depth });
    }
    let num_layers_to_cap: usize = depth - cap_height;
    proof {
        crate::util::lemma_pow2_monotone(cap_height as nat, depth as nat);
    }
    let cap_len: usize = two_power(cap_height);
    let mut total_nodes: usize = 0;
    let mut layer: usize = 1;
    while layer < num_layers_to_cap
        invariant
            1 <= layer,
            layer == 1 || layer <= num_layers_to_cap,
            num_layers_to_cap <= depth,
            num_leaves == pow2(depth as nat),
            total_nodes == layer_offset(num_leaves as nat, layer as nat),
        decreases num_layers_to_cap - layer,
    {
        proof {
            lemma_layer_offset(depth as nat, layer as nat + 1);
        }
        total_nodes = total_nodes + host_layer_size(num_leaves, layer);
        layer = layer + 1;
    }
    if total_nodes == 0 {
        proof {
            if num_layers_to_cap > 1 {
                lemma_layer_offset(depth as nat, num_layers_to_cap as nat);
                lemma_pow2_strictly_increases(
                    (depth - num_layers_to_cap + 1) as nat,
                    depth as nat,
                );
            }
        }
        return Err(PlanError::NoInternalNodes { num_leaves, cap_height });
    }
    if elements_per_leaf == 0 {
        return Err(PlanError::EmptyLeaves);
    }
    if elements_per_leaf > MAX_KERNEL_COUNT {
        return Err(PlanError::LeavesTooWide { elements_per_leaf });
    }
    Ok(
        MerklePlan {
            num_leaves,
            elements_per_leaf,
            cap_height,
            num_layers_to_cap,
            cap_len,
            total_nodes,
        },
    )
}

/// The plan for the tree over `leaves` with a cap of height `cap_height`, or the first objection
/// to it.
pub fn plan_merkle_tree<F>(leaves: &[Vec<F>], cap_height: usize) -> (r: Result<
    MerklePlan,
    PlanError,
>)
    requires
        leaves@.len() > 0,
    ensures
        match r {
            Ok(plan) => {
                &&& objection(
                    leaves@.len() as usize,
                    leaves@[0]@.len() as usize,
                    uniform_leaves(leaves@),
                    cap_height,
                ) is None
                &&& plan.wf()
                &&& plan.num_leaves == leaves@.len()
                &&& plan.elements_per_leaf == leaves@[0]@.len()
                &&& plan.cap_height == cap_height
            },
            Err(e) => objection(
                leaves@.len() as usize,
                leaves@[0]@.len() as usize,
                uniform_leaves(leaves@),
                cap_height,
            ) == Some(e),
        },
{
    let (num_leaves, elements_per_leaf) = leaf_info(leaves);
    let uniform: bool = all_of_length(leaves, elements_per_leaf);
    plan_shape(num_leaves, elements_per_leaf, uniform, cap_height)
}

} // verus!
