use vstd::prelude::*;

use crate::arena::{
    Arena, ArenaHandle, byte_of, bit_of, valid_handle, valid_slot, lemma_handle_byte,
    lemma_byte_handle, lemma_byte_ones_full, lemma_byte_all_set, lemma_zero_bytes_pos, ARENA_SIZE,
    FREE_SIZE,
};
use crate::utils::bit_at;

verus! {

use vstd::std_specs::cmp::PartialEqSpec;
use vstd::arithmetic::power2::{pow2, lemma_pow2_pos, lemma_pow2_unfold, lemma_pow2_strictly_increases, lemma2_to64};
use vstd::bits::lemma_u32_shl_is_mul;

/// A sparse voxel octree node. Children live in one 8-aligned arena group
/// whose first slot index is `children` (zero for a leaf); `parent` is the
/// slot index of the parent node, zero only for the root. A leaf's `data`
/// is the value of every cell the leaf spans.
#[derive(Clone, Copy)]
pub struct OctreeNode<T> {
    pub children: u32,
    pub parent: u32,
    pub data: T,
}

/// A sparse voxel octree over a cubic domain of side `2^(max_depth - 1)`
/// centred on the origin, storing one value of `T` per unit cell and
/// compressing uniform regions into single leaves.
pub struct Octree<T> {
    arena: Arena<OctreeNode<T>>,
    root: ArenaHandle<OctreeNode<T>>,
    max_depth: u32,
}

/// The node stored in slot `h`.
pub(crate) open spec fn node_at<T>(s: Seq<OctreeNode<T>>, h: int) -> OctreeNode<T> {
    s[h - 1]
}

/// A node is a leaf iff its children handle is null.
pub(crate) open spec fn is_leaf<T>(n: OctreeNode<T>) -> bool {
    n.children == 0
}

/// The region side `T`'s executable equality must agree with logical
/// equality for compression to be meaningful; every plain scalar satisfies
/// this.
pub open spec fn eq_reflects<T: PartialEq>() -> bool {
    &&& T::obeys_eq_spec()
    &&& forall|a: T, b: T| #[trigger] a.eq_spec(&b) <==> a == b
}

/// Octant index selected by the signs of the three coordinates.
pub open spec fn octant(x: int, y: int, z: int) -> int {
    (if x >= 0 {
        4int
    } else {
        0int
    }) + (if y >= 0 {
        2int
    } else {
        0int
    }) + (if z >= 0 {
        1int
    } else {
        0int
    })
}

/// A coordinate recentred on the chosen octant's origin.
pub(crate) open spec fn step(c: int, q: int) -> int {
    if c >= 0 {
        c - q
    } else {
        c + q
    }
}

/// Whether a coordinate falls inside a region of the given side centred on
/// the origin; a unit region covers everything, since descent stops there.
pub open spec fn in_dom(c: int, size: int) -> bool {
    size <= 1 || (-(size / 2) <= c < size / 2)
}

pub open spec fn in_dom3(x: int, y: int, z: int, size: int) -> bool {
    in_dom(x, size) && in_dom(y, size) && in_dom(z, size)
}

/// The value the tree holds for cell `(x, y, z)`: descend by octant until
/// a leaf or a unit region is reached, then read that node's data.
pub(crate) open spec fn lookup<T>(
    s: Seq<OctreeNode<T>>,
    h: int,
    size: int,
    x: int,
    y: int,
    z: int,
) -> T
    decreases size,
{
    let n = node_at(s, h);
    if size <= 1 || is_leaf(n) {
        n.data
    } else {
        let ns = size / 2;
        let q = ns / 2;
        lookup(s, n.children as int + octant(x, y, z), ns, step(x, q), step(y, q), step(z, q))
    }
}

/// Whether slot `j` belongs to the subtree rooted at slot `h` when the
/// region side of `h` is `size`.
pub(crate) open spec fn in_sub<T>(s: Seq<OctreeNode<T>>, h: int, size: int, j: int) -> bool
    decreases size,
{
    j == h || (size > 1 && !is_leaf(node_at(s, h)) && {
        let c = node_at(s, h).children as int;
        ||| in_sub(s, c + 0, size / 2, j)
        ||| in_sub(s, c + 1, size / 2, j)
        ||| in_sub(s, c + 2, size / 2, j)
        ||| in_sub(s, c + 3, size / 2, j)
        ||| in_sub(s, c + 4, size / 2, j)
        ||| in_sub(s, c + 5, size / 2, j)
        ||| in_sub(s, c + 6, size / 2, j)
        ||| in_sub(s, c + 7, size / 2, j)
    })
}

/// An 8-aligned children group entirely inside the tracked slot range.
pub(crate) open spec fn group_ok(c: int) -> bool {
    c >= 2 && (c - 2) % 8 == 0 && c + 7 < 2 + 8 * (FREE_SIZE as int)
}

/// Whether `k` is one of the eight slots of the children group starting at
/// `c`; also the instantiation marker for the per-child quantifiers below.
pub(crate) open spec fn child_slot(c: int, k: int) -> bool {
    c <= k < c + 8
}

/// How many of the eight child subtrees under the group at `c` contain
/// slot `j`.
pub(crate) open spec fn sub_count<T>(s: Seq<OctreeNode<T>>, c: int, size: int, j: int) -> int {
    (if in_sub(s, c + 0, size, j) {
        1int
    } else {
        0int
    }) + (if in_sub(s, c + 1, size, j) {
        1int
    } else {
        0int
    }) + (if in_sub(s, c + 2, size, j) {
        1int
    } else {
        0int
    }) + (if in_sub(s, c + 3, size, j) {
        1int
    } else {
        0int
    }) + (if in_sub(s, c + 4, size, j) {
        1int
    } else {
        0int
    }) + (if in_sub(s, c + 5, size, j) {
        1int
    } else {
        0int
    }) + (if in_sub(s, c + 6, size, j) {
        1int
    } else {
        0int
    }) + (if in_sub(s, c + 7, size, j) {
        1int
    } else {
        0int
    })
}

/// Structural well-formedness of the subtree rooted at `h`: every node
/// sits in an allocated slot, an internal node owns a fully allocated
/// 8-aligned children group whose members point back to it, no slot lies
/// in two sibling subtrees, and no subtree reaches back up to its root.
pub(crate) open spec fn subtree_ok<T>(
    s: Seq<OctreeNode<T>>,
    bm: Seq<u8>,
    h: int,
    size: int,
) -> bool
    decreases size,
{
    &&& valid_slot(h)
    &&& (h >= 2 ==> valid_handle(h) && bit_at(bm[byte_of(h)], bit_of(h)))
    &&& size >= 1
    &&& (!is_leaf(node_at(s, h)) ==> {
        let c = node_at(s, h).children as int;
        &&& size > 1
        &&& group_ok(c)
        &&& bm[byte_of(c)] == 255u8
        &&& (forall|k: int|
            #[trigger] child_slot(c, k) ==> node_at(s, k).parent as int == h && subtree_ok(
                s,
                bm,
                k,
                size / 2,
            ) && !in_sub(s, k, size / 2, h))
        &&& (forall|j: int| #[trigger] sub_count(s, c, size / 2, j) <= 1)
    })
}

/// Eight children that are all leaves holding the first child's value.
pub(crate) open spec fn uniform_kids<T>(s: Seq<OctreeNode<T>>, c: int) -> bool {
    forall|k: int|
        c <= k < c + 8 ==> is_leaf(#[trigger] node_at(s, k)) && node_at(s, k).data == node_at(
            s,
            c,
        ).data
}

/// Maximal compression: no internal node of the subtree keeps eight leaf
/// children with pairwise-equal data.
pub(crate) open spec fn compressed<T>(s: Seq<OctreeNode<T>>, h: int, size: int) -> bool
    decreases size,
{
    (!is_leaf(node_at(s, h)) && size > 1) ==> {
        let c = node_at(s, h).children as int;
        &&& !uniform_kids(s, c)
        &&& (forall|k: int| #[trigger] child_slot(c, k) ==> compressed(s, k, size / 2))
    }
}

/// Number of allocated (bitmap-tracked) slots the subtree accounts for:
/// eight per internal node, none for the untracked root itself.
pub(crate) open spec fn tree_alloc<T>(s: Seq<OctreeNode<T>>, h: int, size: int) -> int
    decreases size,
{
    if is_leaf(node_at(s, h)) || size <= 1 {
        0
    } else {
        let c = node_at(s, h).children as int;
        8 + tree_alloc(s, c + 0, size / 2) + tree_alloc(s, c + 1, size / 2) + tree_alloc(
            s,
            c + 2,
            size / 2,
        ) + tree_alloc(s, c + 3, size / 2) + tree_alloc(s, c + 4, size / 2) + tree_alloc(
            s,
            c + 5,
            size / 2,
        ) + tree_alloc(s, c + 6, size / 2) + tree_alloc(s, c + 7, size / 2)
    }
}

/// Extracts the per-child facts of a well-formed internal node.
pub(crate) proof fn lemma_subtree_ok_child<T>(
    s: Seq<OctreeNode<T>>,
    bm: Seq<u8>,
    h: int,
    size: int,
    k: int,
)
    requires
        subtree_ok(s, bm, h, size),
        !is_leaf(node_at(s, h)),
        node_at(s, h).children as int <= k < node_at(s, h).children as int + 8,
    ensures
        subtree_ok(s, bm, k, size / 2),
        node_at(s, k).parent as int == h,
        !in_sub(s, k, size / 2, h),
{
    let c = node_at(s, h).children as int;
    assert(child_slot(c, k));
}

/// Extracts the per-child facts of a compressed internal node.
pub(crate) proof fn lemma_compressed_child<T>(
    s: Seq<OctreeNode<T>>,
    h: int,
    size: int,
    k: int,
)
    requires
        compressed(s, h, size),
        !is_leaf(node_at(s, h)),
        size > 1,
        node_at(s, h).children as int <= k < node_at(s, h).children as int + 8,
    ensures
        compressed(s, k, size / 2),
{
    let c = node_at(s, h).children as int;
    assert(child_slot(c, k));
}

/// No slot lies in the subtrees of two different children.
pub(crate) proof fn lemma_subtree_disjoint<T>(
    s: Seq<OctreeNode<T>>,
    bm: Seq<u8>,
    h: int,
    size: int,
    k1: int,
    k2: int,
    j: int,
)
    requires
        subtree_ok(s, bm, h, size),
        !is_leaf(node_at(s, h)),
        node_at(s, h).children as int <= k1 < node_at(s, h).children as int + 8,
        node_at(s, h).children as int <= k2 < node_at(s, h).children as int + 8,
        k1 != k2,
        in_sub(s, k1, size / 2, j),
    ensures
        !in_sub(s, k2, size / 2, j),
{
    let c = node_at(s, h).children as int;
    assert(sub_count(s, c, size / 2, j) <= 1);
}

/// A slot of a child's subtree is a slot of the parent's subtree.
pub(crate) proof fn lemma_in_sub_child<T>(
    s: Seq<OctreeNode<T>>,
    h: int,
    size: int,
    o: int,
    j: int,
)
    requires
        !is_leaf(node_at(s, h)),
        size > 1,
        0 <= o < 8,
        in_sub(s, node_at(s, h).children as int + o, size / 2, j),
    ensures
        in_sub(s, h, size, j),
{
    let c = node_at(s, h).children as int;
    assert(o == 0 || o == 1 || o == 2 || o == 3 || o == 4 || o == 5 || o == 6 || o == 7);
}

/// Every slot of a well-formed subtree is a valid, allocated slot (the
/// untracked root aside).
pub(crate) proof fn lemma_in_sub_slots<T>(
    s: Seq<OctreeNode<T>>,
    bm: Seq<u8>,
    h: int,
    size: int,
    j: int,
)
    requires
        subtree_ok(s, bm, h, size),
        in_sub(s, h, size, j),
    ensures
        valid_slot(j),
        j >= 2 ==> valid_handle(j) && bit_at(bm[byte_of(j)], bit_of(j)),
    decreases size,
{
    if j != h {
        let c = node_at(s, h).children as int;
        lemma_subtree_ok_child(s, bm, h, size, c + 0);
        lemma_subtree_ok_child(s, bm, h, size, c + 1);
        lemma_subtree_ok_child(s, bm, h, size, c + 2);
        lemma_subtree_ok_child(s, bm, h, size, c + 3);
        lemma_subtree_ok_child(s, bm, h, size, c + 4);
        lemma_subtree_ok_child(s, bm, h, size, c + 5);
        lemma_subtree_ok_child(s, bm, h, size, c + 6);
        lemma_subtree_ok_child(s, bm, h, size, c + 7);
        if in_sub(s, c + 0, size / 2, j) {
            lemma_in_sub_slots(s, bm, c + 0, size / 2, j);
        } else if in_sub(s, c + 1, size / 2, j) {
            lemma_in_sub_slots(s, bm, c + 1, size / 2, j);
        } else if in_sub(s, c + 2, size / 2, j) {
            lemma_in_sub_slots(s, bm, c + 2, size / 2, j);
        } else if in_sub(s, c + 3, size / 2, j) {
            lemma_in_sub_slots(s, bm, c + 3, size / 2, j);
        } else if in_sub(s, c + 4, size / 2, j) {
            lemma_in_sub_slots(s, bm, c + 4, size / 2, j);
        } else if in_sub(s, c + 5, size / 2, j) {
            lemma_in_sub_slots(s, bm, c + 5, size / 2, j);
        } else if in_sub(s, c + 6, size / 2, j) {
            lemma_in_sub_slots(s, bm, c + 6, size / 2, j);
        } else {
            lemma_in_sub_slots(s, bm, c + 7, size / 2, j);
        }
    }
}

/// The agreement hypothesis of the frame argument: the two states hold the
/// same node in every slot of the subtree of `h` in the first state, and
/// give those slots the same occupancy bits.
pub(crate) open spec fn agree_on_sub<T>(
    s1: Seq<OctreeNode<T>>,
    bm1: Seq<u8>,
    s2: Seq<OctreeNode<T>>,
    bm2: Seq<u8>,
    h: int,
    size: int,
) -> bool {
    forall|j: int|
        #[trigger] in_sub(s1, h, size, j) ==> node_at(s2, j) == node_at(s1, j) && (j >= 2
            ==> bit_at(bm2[byte_of(j)], bit_of(j)) == bit_at(bm1[byte_of(j)], bit_of(j)))
}

/// Two states that agree on every slot of a well-formed subtree (values
/// and occupancy bits alike) agree on everything the subtree determines:
/// membership, lookups, well-formedness, compression and accounting.
pub(crate) proof fn lemma_frame<T>(
    s1: Seq<OctreeNode<T>>,
    bm1: Seq<u8>,
    s2: Seq<OctreeNode<T>>,
    bm2: Seq<u8>,
    h: int,
    size: int,
)
    requires
        subtree_ok(s1, bm1, h, size),
        s1.len() == s2.len(),
        bm1.len() == bm2.len(),
        bm1.len() == FREE_SIZE as int,
        agree_on_sub(s1, bm1, s2, bm2, h, size),
    ensures
        subtree_ok(s2, bm2, h, size),
        forall|j: int| #[trigger] in_sub(s2, h, size, j) == in_sub(s1, h, size, j),
        forall|x: int, y: int, z: int| #[trigger]
            lookup(s2, h, size, x, y, z) == lookup(s1, h, size, x, y, z),
        compressed(s2, h, size) == compressed(s1, h, size),
        tree_alloc(s2, h, size) == tree_alloc(s1, h, size),
    decreases size, 1int,
{
    assert(in_sub(s1, h, size, h));
    assert(node_at(s2, h) == node_at(s1, h));
    if !is_leaf(node_at(s1, h)) {
        let c = node_at(s1, h).children as int;
        lemma_frame_child(s1, bm1, s2, bm2, h, size, c + 0);
        lemma_frame_child(s1, bm1, s2, bm2, h, size, c + 1);
        lemma_frame_child(s1, bm1, s2, bm2, h, size, c + 2);
        lemma_frame_child(s1, bm1, s2, bm2, h, size, c + 3);
        lemma_frame_child(s1, bm1, s2, bm2, h, size, c + 4);
        lemma_frame_child(s1, bm1, s2, bm2, h, size, c + 5);
        lemma_frame_child(s1, bm1, s2, bm2, h, size, c + 6);
        lemma_frame_child(s1, bm1, s2, bm2, h, size, c + 7);
        // every child is a subtree slot, so its node carries over
        assert forall|k: int| c <= k < c + 8 implies #[trigger] node_at(s2, k) == node_at(
            s1,
            k,
        ) && in_sub(s1, h, size, k) by {
            assert(in_sub(s1, c + (k - c), size / 2, k));
            lemma_in_sub_child(s1, h, size, k - c, k);
        }
        // the whole children byte is unchanged, bit by bit
        assert(bm2[byte_of(c)] == 255u8) by {
            assert forall|i: u8| i < 8 implies #[trigger] bit_at(bm2[byte_of(c)], i) by {
                lemma_byte_handle(byte_of(c), i as int);
                lemma_handle_byte(c);
                assert(8 * byte_of(c) + i + 2 == c + i);
                assert(in_sub(s1, h, size, c + i as int));
                lemma_in_sub_slots(s1, bm1, h, size, c + i as int);
                assert(bit_at(bm1[byte_of(c + i as int)], bit_of(c + i as int)));
            }
            lemma_byte_all_set(bm2[byte_of(c)]);
        }
        // membership over the whole subtree is unchanged
        assert forall|j: int| #[trigger] in_sub(s2, h, size, j) == in_sub(s1, h, size, j) by {
            assert(in_sub(s2, c + 0, size / 2, j) == in_sub(s1, c + 0, size / 2, j));
            assert(in_sub(s2, c + 1, size / 2, j) == in_sub(s1, c + 1, size / 2, j));
            assert(in_sub(s2, c + 2, size / 2, j) == in_sub(s1, c + 2, size / 2, j));
            assert(in_sub(s2, c + 3, size / 2, j) == in_sub(s1, c + 3, size / 2, j));
            assert(in_sub(s2, c + 4, size / 2, j) == in_sub(s1, c + 4, size / 2, j));
            assert(in_sub(s2, c + 5, size / 2, j) == in_sub(s1, c + 5, size / 2, j));
            assert(in_sub(s2, c + 6, size / 2, j) == in_sub(s1, c + 6, size / 2, j));
            assert(in_sub(s2, c + 7, size / 2, j) == in_sub(s1, c + 7, size / 2, j));
        }
        // the per-child clause of well-formedness carries over
        assert forall|k: int| #[trigger]
            child_slot(c, k) implies node_at(s2, k).parent as int == h && subtree_ok(
            s2,
            bm2,
            k,
            size / 2,
        ) && !in_sub(s2, k, size / 2, h) by {
            assert(child_slot(c, k));
            assert(node_at(s2, k) == node_at(s1, k));
            assert(k == c + 0 || k == c + 1 || k == c + 2 || k == c + 3 || k == c + 4 || k == c + 5
                || k == c + 6 || k == c + 7);
            assert(in_sub(s2, k, size / 2, h) == in_sub(s1, k, size / 2, h)) by {
                assert(in_sub(s2, c + 0, size / 2, h) == in_sub(s1, c + 0, size / 2, h));
                assert(in_sub(s2, c + 1, size / 2, h) == in_sub(s1, c + 1, size / 2, h));
                assert(in_sub(s2, c + 2, size / 2, h) == in_sub(s1, c + 2, size / 2, h));
                assert(in_sub(s2, c + 3, size / 2, h) == in_sub(s1, c + 3, size / 2, h));
                assert(in_sub(s2, c + 4, size / 2, h) == in_sub(s1, c + 4, size / 2, h));
                assert(in_sub(s2, c + 5, size / 2, h) == in_sub(s1, c + 5, size / 2, h));
                assert(in_sub(s2, c + 6, size / 2, h) == in_sub(s1, c + 6, size / 2, h));
                assert(in_sub(s2, c + 7, size / 2, h) == in_sub(s1, c + 7, size / 2, h));
            }
        }
        // no slot lies in two sibling subtrees, in either state
        assert forall|j: int| #[trigger] sub_count(s2, c, size / 2, j) <= 1 by {
            assert(sub_count(s1, c, size / 2, j) <= 1);
            assert(in_sub(s2, c + 0, size / 2, j) == in_sub(s1, c + 0, size / 2, j));
            assert(in_sub(s2, c + 1, size / 2, j) == in_sub(s1, c + 1, size / 2, j));
            assert(in_sub(s2, c + 2, size / 2, j) == in_sub(s1, c + 2, size / 2, j));
            assert(in_sub(s2, c + 3, size / 2, j) == in_sub(s1, c + 3, size / 2, j));
            assert(in_sub(s2, c + 4, size / 2, j) == in_sub(s1, c + 4, size / 2, j));
            assert(in_sub(s2, c + 5, size / 2, j) == in_sub(s1, c + 5, size / 2, j));
            assert(in_sub(s2, c + 6, size / 2, j) == in_sub(s1, c + 6, size / 2, j));
            assert(in_sub(s2, c + 7, size / 2, j) == in_sub(s1, c + 7, size / 2, j));
        }
        assert(subtree_ok(s2, bm2, h, size));
        // lookups agree: the descent enters the same child with the same
        // recentred coordinates
        assert forall|x: int, y: int, z: int| #[trigger]
            lookup(s2, h, size, x, y, z) == lookup(s1, h, size, x, y, z) by {
            let o = octant(x, y, z);
            assert(o == 0 || o == 1 || o == 2 || o == 3 || o == 4 || o == 5 || o == 6 || o == 7);
            let ns = size / 2;
            let q = ns / 2;
            assert(lookup(s2, c + 0, ns, step(x, q), step(y, q), step(z, q)) == lookup(
                s1, c + 0, ns, step(x, q), step(y, q), step(z, q)));
            assert(lookup(s2, c + 1, ns, step(x, q), step(y, q), step(z, q)) == lookup(
                s1, c + 1, ns, step(x, q), step(y, q), step(z, q)));
            assert(lookup(s2, c + 2, ns, step(x, q), step(y, q), step(z, q)) == lookup(
                s1, c + 2, ns, step(x, q), step(y, q), step(z, q)));
            assert(lookup(s2, c + 3, ns, step(x, q), step(y, q), step(z, q)) == lookup(
                s1, c + 3, ns, step(x, q), step(y, q), step(z, q)));
            assert(lookup(s2, c + 4, ns, step(x, q), step(y, q), step(z, q)) == lookup(
                s1, c + 4, ns, step(x, q), step(y, q), step(z, q)));
            assert(lookup(s2, c + 5, ns, step(x, q), step(y, q), step(z, q)) == lookup(
                s1, c + 5, ns, step(x, q), step(y, q), step(z, q)));
            assert(lookup(s2, c + 6, ns, step(x, q), step(y, q), step(z, q)) == lookup(
                s1, c + 6, ns, step(x, q), step(y, q), step(z, q)));
            assert(lookup(s2, c + 7, ns, step(x, q), step(y, q), step(z, q)) == lookup(
                s1, c + 7, ns, step(x, q), step(y, q), step(z, q)));
        }
        // compression agreement, child by child and over the uniformity test
        assert(uniform_kids(s2, c) == uniform_kids(s1, c)) by {
            if uniform_kids(s1, c) {
                assert forall|k: int| c <= k < c + 8 implies is_leaf(#[trigger] node_at(s2, k))
                    && node_at(s2, k).data == node_at(s2, c).data by {
                    assert(node_at(s2, k) == node_at(s1, k));
                    assert(node_at(s2, c) == node_at(s1, c));
                }
            }
            if uniform_kids(s2, c) {
                assert forall|k: int| c <= k < c + 8 implies is_leaf(#[trigger] node_at(s1, k))
                    && node_at(s1, k).data == node_at(s1, c).data by {
                    assert(node_at(s2, k) == node_at(s1, k));
                    assert(node_at(s2, c) == node_at(s1, c));
                }
            }
        }
        assert(compressed(s2, h, size) == compressed(s1, h, size)) by {
            if compressed(s1, h, size) {
                assert forall|k: int| #[trigger] child_slot(c, k) implies compressed(
                    s2,
                    k,
                    size / 2,
                ) by {
                    assert(k == c + 0 || k == c + 1 || k == c + 2 || k == c + 3 || k == c + 4 || k
                        == c + 5 || k == c + 6 || k == c + 7);
                    lemma_compressed_child(s1, h, size, k);
                }
            }
            if compressed(s2, h, size) {
                assert forall|k: int| #[trigger] child_slot(c, k) implies compressed(
                    s1,
                    k,
                    size / 2,
                ) by {
                    assert(k == c + 0 || k == c + 1 || k == c + 2 || k == c + 3 || k == c + 4 || k
                        == c + 5 || k == c + 6 || k == c + 7);
                    assert(node_at(s2, h) == node_at(s1, h));
                    assert(compressed(s2, k, size / 2)) by {
                        assert(child_slot(node_at(s2, h).children as int, k));
                    }
                }
            }
        }
        assert(tree_alloc(s2, h, size) == tree_alloc(s1, h, size));
    } else {
        assert forall|j: int| #[trigger] in_sub(s2, h, size, j) == in_sub(s1, h, size, j) by {}
    }
}

/// The frame argument for one child of a well-formed internal node.
pub(crate) proof fn lemma_frame_child<T>(
    s1: Seq<OctreeNode<T>>,
    bm1: Seq<u8>,
    s2: Seq<OctreeNode<T>>,
    bm2: Seq<u8>,
    h: int,
    size: int,
    k: int,
)
    requires
        subtree_ok(s1, bm1, h, size),
        !is_leaf(node_at(s1, h)),
        node_at(s1, h).children as int <= k < node_at(s1, h).children as int + 8,
        s1.len() == s2.len(),
        bm1.len() == bm2.len(),
        bm1.len() == FREE_SIZE as int,
        agree_on_sub(s1, bm1, s2, bm2, h, size),
    ensures
        subtree_ok(s2, bm2, k, size / 2),
        forall|j: int| #[trigger] in_sub(s2, k, size / 2, j) == in_sub(s1, k, size / 2, j),
        forall|x: int, y: int, z: int| #[trigger]
            lookup(s2, k, size / 2, x, y, z) == lookup(s1, k, size / 2, x, y, z),
        compressed(s2, k, size / 2) == compressed(s1, k, size / 2),
        tree_alloc(s2, k, size / 2) == tree_alloc(s1, k, size / 2),
    decreases size, 0int,
{
    let c = node_at(s1, h).children as int;
    lemma_subtree_ok_child(s1, bm1, h, size, k);
    assert forall|j: int| #[trigger] in_sub(s1, k, size / 2, j) implies node_at(s2, j) == node_at(
        s1,
        j,
    ) && (j >= 2 ==> bit_at(bm2[byte_of(j)], bit_of(j)) == bit_at(bm1[byte_of(j)], bit_of(j))) by {
        lemma_in_sub_child(s1, h, size, k - c, j);
        assert(in_sub(s1, h, size, j));
    }
    lemma_frame(s1, bm1, s2, bm2, k, size / 2);
}



/// Stepping a coordinate into the chosen octant keeps it inside the
/// half-sized child region, for power-of-two region sides.
pub(crate) proof fn lemma_dom_step(c: int, size: int, lv: nat)
    requires
        size == pow2(lv),
        lv >= 1,
        in_dom(c, size),
    ensures
        size / 2 == pow2((lv - 1) as nat),
        in_dom(step(c, (size / 2) / 2), size / 2),
{
    lemma_pow2_unfold(lv);
    lemma_pow2_pos((lv - 1) as nat);
    let p = pow2((lv - 1) as nat) as int;
    assert(size == 2 * p);
    assert((2 * p) / 2 == p) by (nonlinear_arith);
    assert(size / 2 == p);
    if lv >= 2 {
        lemma_pow2_unfold((lv - 1) as nat);
        lemma_pow2_pos((lv - 2) as nat);
        let r = pow2((lv - 2) as nat) as int;
        assert(p == 2 * r);
        assert((2 * r) / 2 == r) by (nonlinear_arith);
        assert(p / 2 == r);
        assert(in_dom(step(c, r), p));
    } else {
        assert(p == 1) by {
            vstd::arithmetic::power2::lemma2_to64();
        }
    }
}


/// Equal octant indices mean equal signs on every axis.
pub(crate) proof fn lemma_octant_signs(a: int, b: int, c: int, x: int, y: int, z: int)
    requires
        octant(a, b, c) == octant(x, y, z),
    ensures
        (a >= 0) == (x >= 0),
        (b >= 0) == (y >= 0),
        (c >= 0) == (z >= 0),
{
}

/// One descent step of `lookup`, spelled out.
pub(crate) proof fn lemma_lookup_step<T>(
    s: Seq<OctreeNode<T>>,
    h: int,
    size: int,
    a: int,
    b: int,
    c: int,
)
    requires
        size > 1,
        !is_leaf(node_at(s, h)),
    ensures
        lookup(s, h, size, a, b, c) == lookup(
            s,
            node_at(s, h).children as int + octant(a, b, c),
            size / 2,
            step(a, (size / 2) / 2),
            step(b, (size / 2) / 2),
            step(c, (size / 2) / 2),
        ),
{
}

/// Under an internal node with eight uniform leaf children, every cell
/// reads the common value.
pub(crate) proof fn lemma_lookup_all_uniform<T>(s: Seq<OctreeNode<T>>, h: int, size: int, v: T)
    requires
        size > 1,
        !is_leaf(node_at(s, h)),
        uniform_kids(s, node_at(s, h).children as int),
        node_at(s, node_at(s, h).children as int).data == v,
    ensures
        forall|a: int, b: int, c: int| #[trigger] lookup(s, h, size, a, b, c) == v,
{
    let cb = node_at(s, h).children as int;
    assert forall|a: int, b: int, c: int| #[trigger] lookup(s, h, size, a, b, c) == v by {
        let oo = octant(a, b, c);
        assert(0 <= oo < 8);
        assert(cb <= cb + oo < cb + 8);
        assert(is_leaf(node_at(s, cb + oo)) && node_at(s, cb + oo).data == node_at(s, cb).data);
        lemma_lookup_step(s, h, size, a, b, c);
    }
}

/// The allocation accounting of an internal node, spelled out over its
/// eight children.
pub(crate) proof fn lemma_tree_alloc_children<T>(s: Seq<OctreeNode<T>>, h: int, size: int)
    requires
        size > 1,
        !is_leaf(node_at(s, h)),
    ensures
        tree_alloc(s, h, size) == 8 + tree_alloc(s, node_at(s, h).children as int + 0, size / 2)
            + tree_alloc(s, node_at(s, h).children as int + 1, size / 2) + tree_alloc(
            s,
            node_at(s, h).children as int + 2,
            size / 2,
        ) + tree_alloc(s, node_at(s, h).children as int + 3, size / 2) + tree_alloc(
            s,
            node_at(s, h).children as int + 4,
            size / 2,
        ) + tree_alloc(s, node_at(s, h).children as int + 5, size / 2) + tree_alloc(
            s,
            node_at(s, h).children as int + 6,
            size / 2,
        ) + tree_alloc(s, node_at(s, h).children as int + 7, size / 2),
{
}


/// A compressed, well-formed subtree whose every in-domain cell reads the
/// same value is a single leaf holding it: were it split, its children
/// would all be equal leaves, which compression forbids.
pub(crate) proof fn lemma_uniform_subtree_is_leaf<T>(
    s: Seq<OctreeNode<T>>,
    bm: Seq<u8>,
    h: int,
    size: int,
    lv: nat,
    v: T,
)
    requires
        subtree_ok(s, bm, h, size),
        compressed(s, h, size),
        size == pow2(lv),
        forall|x: int, y: int, z: int|
            in_dom3(x, y, z, size) ==> #[trigger] lookup(s, h, size, x, y, z) == v,
    ensures
        is_leaf(node_at(s, h)),
        node_at(s, h).data == v,
    decreases size,
{
    assert(in_dom3(0, 0, 0, size));
    if is_leaf(node_at(s, h)) {
        assert(lookup(s, h, size, 0, 0, 0) == node_at(s, h).data);
    } else {
        let c = node_at(s, h).children as int;
        let ns = size / 2;
        let q = ns / 2;
        if lv == 0 {
            lemma2_to64();
            assert(false);
        }
        lemma_dom_step(0, size, lv);
        assert(ns == pow2((lv - 1) as nat));
        assert forall|k: int| c <= k < c + 8 implies is_leaf(#[trigger] node_at(s, k)) && node_at(
            s,
            k,
        ).data == v by {
            lemma_subtree_ok_child(s, bm, h, size, k);
            lemma_compressed_child(s, h, size, k);
            let oo = k - c;
            let bx: int = if oo >= 4 {
                1
            } else {
                0
            };
            let by: int = if oo - 4 * bx >= 2 {
                1
            } else {
                0
            };
            let bz: int = oo - 4 * bx - 2 * by;
            assert(bz == 0 || bz == 1);
            if ns <= 1 {
                // the children are unit cells: pick one coordinate triple
                // per octant
                let xa: int = if bx == 1 {
                    0
                } else {
                    -1
                };
                let yb: int = if by == 1 {
                    0
                } else {
                    -1
                };
                let zc: int = if bz == 1 {
                    0
                } else {
                    -1
                };
                assert(octant(xa, yb, zc) == oo);
                assert(in_dom3(xa, yb, zc, size));
                lemma_lookup_step(s, h, size, xa, yb, zc);
                assert(lookup(s, h, size, xa, yb, zc) == v);
                assert(is_leaf(node_at(s, k)));
                assert(lookup(s, k, ns, step(xa, q), step(yb, q), step(zc, q)) == node_at(
                    s,
                    k,
                ).data);
            } else {
                // every cell of the child region is the image of a cell of
                // this region, so the child is uniform too
                assert forall|x2: int, y2: int, z2: int|
                    in_dom3(x2, y2, z2, ns) implies #[trigger] lookup(s, k, ns, x2, y2, z2)
                    == v by {
                    let xa: int = if bx == 1 {
                        x2 + q
                    } else {
                        x2 - q
                    };
                    let yb: int = if by == 1 {
                        y2 + q
                    } else {
                        y2 - q
                    };
                    let zc: int = if bz == 1 {
                        z2 + q
                    } else {
                        z2 - q
                    };
                    assert(ns == 2 * q) by {
                        if lv - 1 == 0 {
                            lemma2_to64();
                            assert(false);
                        }
                        lemma_pow2_unfold((lv - 1) as nat);
                        lemma_pow2_pos((lv - 2) as nat);
                        let r = pow2((lv - 2) as nat) as int;
                        assert(ns == 2 * r);
                        assert((2 * r) / 2 == r) by (nonlinear_arith);
                    }
                    assert(octant(xa, yb, zc) == oo);
                    assert(step(xa, q) == x2 && step(yb, q) == y2 && step(zc, q) == z2);
                    assert(in_dom3(xa, yb, zc, size));
                    lemma_lookup_step(s, h, size, xa, yb, zc);
                    assert(lookup(s, h, size, xa, yb, zc) == v);
                }
                lemma_uniform_subtree_is_leaf(s, bm, k, ns, (lv - 1) as nat, v);
            }
        }
        assert(uniform_kids(s, c)) by {
            assert(node_at(s, c).data == v);
        }
        assert(!uniform_kids(s, c));
        assert(false);
    }
}


/// Every cell of one child region is the image of a cell of the parent
/// region that selects that child, so a value read throughout one octant
/// is read throughout the child.
pub(crate) proof fn lemma_child_covered<T>(
    s: Seq<OctreeNode<T>>,
    h: int,
    size: int,
    lv: nat,
    o: int,
    w: T,
)
    requires
        !is_leaf(node_at(s, h)),
        size == pow2(lv),
        lv >= 1,
        size > 1,
        0 <= o < 8,
        forall|x: int, y: int, z: int|
            in_dom3(x, y, z, size) && octant(x, y, z) == o ==> #[trigger] lookup(
                s,
                h,
                size,
                x,
                y,
                z,
            ) == w,
    ensures
        forall|x2: int, y2: int, z2: int|
            in_dom3(x2, y2, z2, size / 2) ==> #[trigger] lookup(
                s,
                node_at(s, h).children as int + o,
                size / 2,
                x2,
                y2,
                z2,
            ) == w,
{
    let c = node_at(s, h).children as int;
    let ns = size / 2;
    let q = ns / 2;
    lemma_dom_step(0, size, lv);
    let bx: int = if o >= 4 {
        1
    } else {
        0
    };
    let by: int = if o - 4 * bx >= 2 {
        1
    } else {
        0
    };
    let bz: int = o - 4 * bx - 2 * by;
    assert(bz == 0 || bz == 1);
    if ns <= 1 {
        // the child is a unit region: every lookup in it reads its data,
        // pinned through one representative parent cell
        let xa: int = if bx == 1 {
            0
        } else {
            -1
        };
        let yb: int = if by == 1 {
            0
        } else {
            -1
        };
        let zc: int = if bz == 1 {
            0
        } else {
            -1
        };
        assert(octant(xa, yb, zc) == o);
        assert(in_dom3(xa, yb, zc, size));
        lemma_lookup_step(s, h, size, xa, yb, zc);
        assert(lookup(s, c + o, ns, step(xa, q), step(yb, q), step(zc, q)) == w);
        assert(lookup(s, c + o, ns, step(xa, q), step(yb, q), step(zc, q)) == node_at(
            s,
            c + o,
        ).data);
        assert forall|x2: int, y2: int, z2: int|
            in_dom3(x2, y2, z2, ns) implies #[trigger] lookup(s, c + o, ns, x2, y2, z2) == w by {
            assert(lookup(s, c + o, ns, x2, y2, z2) == node_at(s, c + o).data);
        }
    } else {
        assert(ns == 2 * q) by {
            if lv - 1 == 0 {
                lemma2_to64();
                assert(false);
            }
            lemma_pow2_unfold((lv - 1) as nat);
            lemma_pow2_pos((lv - 2) as nat);
            let r = pow2((lv - 2) as nat) as int;
            assert(ns == 2 * r);
            assert((2 * r) / 2 == r) by (nonlinear_arith);
        }
        assert forall|x2: int, y2: int, z2: int|
            in_dom3(x2, y2, z2, ns) implies #[trigger] lookup(s, c + o, ns, x2, y2, z2) == w by {
            let xa: int = if bx == 1 {
                x2 + q
            } else {
                x2 - q
            };
            let yb: int = if by == 1 {
                y2 + q
            } else {
                y2 - q
            };
            let zc: int = if bz == 1 {
                z2 + q
            } else {
                z2 - q
            };
            assert(octant(xa, yb, zc) == o);
            assert(step(xa, q) == x2 && step(yb, q) == y2 && step(zc, q) == z2);
            assert(in_dom3(xa, yb, zc, size));
            lemma_lookup_step(s, h, size, xa, yb, zc);
            assert(lookup(s, h, size, xa, yb, zc) == w);
        }
    }
}


/// One in-domain coordinate of a side-two-or-larger region per octant and
/// axis: zero on a high axis, minus one on a low one.
pub(crate) open spec fn rep(o: int, axis: int) -> int {
    let bit = if axis == 0 {
        o >= 4
    } else if axis == 1 {
        (if o >= 4 {
            o - 4
        } else {
            o
        }) >= 2
    } else {
        o % 2 == 1
    };
    if bit {
        0
    } else {
        -1
    }
}

/// In a compressed tree that reads `v` at exactly one cell and `d`
/// everywhere else, the written cell's path is fully split and everything
/// beside it is a leaf: exactly one 8-slot group is allocated per level.
pub(crate) proof fn lemma_single_cell_alloc<T>(
    s: Seq<OctreeNode<T>>,
    bm: Seq<u8>,
    h: int,
    size: int,
    lv: nat,
    px: int,
    py: int,
    pz: int,
    v: T,
    d: T,
)
    requires
        subtree_ok(s, bm, h, size),
        compressed(s, h, size),
        size == pow2(lv),
        in_dom3(px, py, pz, size),
        v != d,
        lookup(s, h, size, px, py, pz) == v,
        forall|x: int, y: int, z: int|
            in_dom3(x, y, z, size) && !(x == px && y == py && z == pz) ==> #[trigger] lookup(
                s,
                h,
                size,
                x,
                y,
                z,
            ) == d,
    ensures
        tree_alloc(s, h, size) == 8 * lv,
    decreases size,
{
    if size <= 1 {
        // a unit region reads one value at every coordinate, so two cells
        // cannot read differently
        assert(in_dom3(px + 1, py, pz, size));
        assert(lookup(s, h, size, px + 1, py, pz) == d);
        assert(lookup(s, h, size, px + 1, py, pz) == node_at(s, h).data);
        assert(lookup(s, h, size, px, py, pz) == node_at(s, h).data);
        assert(false);
    } else {
        if lv == 0 {
            lemma2_to64();
            assert(false);
        }
        lemma_dom_step(0, size, lv);
        let ns = size / 2;
        let q = ns / 2;
        if is_leaf(node_at(s, h)) {
            // a leaf also reads one value everywhere
            let qx: int = if px > -(size / 2) {
                px - 1
            } else {
                px + 1
            };
            assert(in_dom3(qx, py, pz, size));
            assert(qx != px);
            assert(lookup(s, h, size, qx, py, pz) == node_at(s, h).data);
            assert(lookup(s, h, size, px, py, pz) == node_at(s, h).data);
            assert(false);
        }
        let c = node_at(s, h).children as int;
        let op = octant(px, py, pz);
        assert(0 <= op < 8);
        let kp = c + op;
        // every octant away from the written cell reads `d` throughout,
        // so its child collapsed to a leaf
        assert forall|k: int|
            c <= k < c + 8 && k != kp implies is_leaf(#[trigger] node_at(s, k)) && tree_alloc(
            s,
            k,
            size / 2,
        ) == 0 by {
            let o = k - c;
            assert forall|x: int, y: int, z: int|
                in_dom3(x, y, z, size) && octant(x, y, z) == o implies #[trigger] lookup(
                s,
                h,
                size,
                x,
                y,
                z,
            ) == d by {
                if x == px && y == py && z == pz {
                    assert(octant(x, y, z) == op);
                    assert(false);
                }
            }
            lemma_child_covered(s, h, size, lv, o, d);
            lemma_subtree_ok_child(s, bm, h, size, k);
            lemma_compressed_child(s, h, size, k);
            assert forall|x: int, y: int, z: int|
                in_dom3(x, y, z, size / 2) implies #[trigger] lookup(s, k, size / 2, x, y, z)
                == d by {
                assert(lookup(s, c + o, size / 2, x, y, z) == d);
            }
            lemma_uniform_subtree_is_leaf(s, bm, k, size / 2, (lv - 1) as nat, d);
        }
        lemma_subtree_ok_child(s, bm, h, size, kp);
        lemma_compressed_child(s, h, size, kp);
        lemma_lookup_step(s, h, size, px, py, pz);
        if ns <= 1 {
            // the written cell sits in a unit child; nothing below it
            assert(pow2((lv - 1) as nat) == 1);
            if lv != 1 {
                lemma_pow2_strictly_increases(0, (lv - 1) as nat);
                lemma2_to64();
                assert(false);
            }
            assert(tree_alloc(s, kp, size / 2) == 0);
        } else {
            // the child holding the written cell repeats the shape one
            // level down
            let p2x = step(px, q);
            let p2y = step(py, q);
            let p2z = step(pz, q);
            lemma_dom_step(px, size, lv);
            lemma_dom_step(py, size, lv);
            lemma_dom_step(pz, size, lv);
            assert(lookup(s, kp, ns, p2x, p2y, p2z) == v);
            assert(ns == 2 * q) by {
                if lv - 1 == 0 {
                    lemma2_to64();
                    assert(false);
                }
                lemma_pow2_unfold((lv - 1) as nat);
                lemma_pow2_pos((lv - 2) as nat);
                let r = pow2((lv - 2) as nat) as int;
                assert(ns == 2 * r);
                assert((2 * r) / 2 == r) by (nonlinear_arith);
            }
            let bx: int = if op >= 4 {
                1
            } else {
                0
            };
            let by: int = if op - 4 * bx >= 2 {
                1
            } else {
                0
            };
            let bz: int = op - 4 * bx - 2 * by;
            assert(bz == 0 || bz == 1);
            assert forall|x2: int, y2: int, z2: int|
                in_dom3(x2, y2, z2, ns) && !(x2 == p2x && y2 == p2y && z2
                    == p2z) implies #[trigger] lookup(s, kp, ns, x2, y2, z2) == d by {
                let xa: int = if bx == 1 {
                    x2 + q
                } else {
                    x2 - q
                };
                let yb: int = if by == 1 {
                    y2 + q
                } else {
                    y2 - q
                };
                let zc: int = if bz == 1 {
                    z2 + q
                } else {
                    z2 - q
                };
                assert(octant(xa, yb, zc) == op);
                assert(step(xa, q) == x2 && step(yb, q) == y2 && step(zc, q) == z2);
                assert(in_dom3(xa, yb, zc, size));
                lemma_octant_signs(xa, yb, zc, px, py, pz);
                assert(!(xa == px && yb == py && zc == pz));
                assert(lookup(s, h, size, xa, yb, zc) == d);
                lemma_lookup_step(s, h, size, xa, yb, zc);
            }
            lemma_single_cell_alloc(s, bm, kp, ns, (lv - 1) as nat, p2x, p2y, p2z, v, d);
            assert(tree_alloc(s, kp, size / 2) == 8 * ((lv - 1) as int));
        }
        lemma_tree_alloc_children(s, h, size);
        assert(tree_alloc(s, c + 0, size / 2) == (if c + 0 == kp {
            tree_alloc(s, kp, size / 2)
        } else {
            0
        }));
        assert(tree_alloc(s, c + 1, size / 2) == (if c + 1 == kp {
            tree_alloc(s, kp, size / 2)
        } else {
            0
        }));
        assert(tree_alloc(s, c + 2, size / 2) == (if c + 2 == kp {
            tree_alloc(s, kp, size / 2)
        } else {
            0
        }));
        assert(tree_alloc(s, c + 3, size / 2) == (if c + 3 == kp {
            tree_alloc(s, kp, size / 2)
        } else {
            0
        }));
        assert(tree_alloc(s, c + 4, size / 2) == (if c + 4 == kp {
            tree_alloc(s, kp, size / 2)
        } else {
            0
        }));
        assert(tree_alloc(s, c + 5, size / 2) == (if c + 5 == kp {
            tree_alloc(s, kp, size / 2)
        } else {
            0
        }));
        assert(tree_alloc(s, c + 6, size / 2) == (if c + 6 == kp {
            tree_alloc(s, kp, size / 2)
        } else {
            0
        }));
        assert(tree_alloc(s, c + 7, size / 2) == (if c + 7 == kp {
            tree_alloc(s, kp, size / 2)
        } else {
            0
        }));
    }
}

impl<T: Default + Copy + PartialEq> Octree<T> {
    /// The node arena's backing store.
    pub closed spec fn nodes(&self) -> Seq<OctreeNode<T>> {
        self.arena.slots()
    }

    /// The node arena's free-list bitmap.
    pub(crate) closed spec fn bm(&self) -> Seq<u8> {
        self.arena.bitmap()
    }

    /// The region side of the whole domain.
    pub closed spec fn side(&self) -> int {
        pow2((self.max_depth - 1) as nat) as int
    }

    /// The depth bound the tree was built with.
    pub closed spec fn depth(&self) -> u32 {
        self.max_depth
    }

    /// Number of allocated arena slots; the untracked root slot is not
    /// counted.
    pub closed spec fn live_nodes(&self) -> int {
        self.arena.alloc_count()
    }

    /// Number of fully free 8-slot groups still available for subdivision.
    pub closed spec fn groups_free(&self) -> int {
        self.arena.free_groups()
    }

    /// The value the tree holds for cell `(x, y, z)`.
    pub closed spec fn query(&self, x: int, y: int, z: int) -> T {
        lookup(self.nodes(), 1, self.side(), x, y, z)
    }

    /// Whether a coordinate triple lies in the addressable cube.
    pub open spec fn in_domain(&self, x: int, y: int, z: int) -> bool {
        in_dom3(x, y, z, self.side())
    }

    /// Well-formedness: the arena invariant, a root leaf or tree at slot
    /// one, structural soundness, maximal compression, and exact
    /// allocation accounting.
    pub closed spec fn wf(&self) -> bool {
        &&& self.arena.wf()
        &&& self.root.idx() == 1
        &&& 1 <= self.max_depth <= 31
        &&& eq_reflects::<T>()
        &&& subtree_ok(self.nodes(), self.bm(), 1, self.side())
        &&& compressed(self.nodes(), 1, self.side())
        &&& self.arena.alloc_count() == tree_alloc(self.nodes(), 1, self.side())
    }


    /// The compression invariant: no internal node of the tree keeps eight
    /// leaf children holding pairwise-equal data.
    pub closed spec fn compression_invariant(&self) -> bool {
        compressed(self.nodes(), 1, self.side())
    }

    /// Law: the compression invariant holds of every well-formed tree, so
    /// it holds after construction and after every write.
    pub proof fn lemma_wf_compressed(&self)
        requires
            self.wf(),
        ensures
            self.compression_invariant(),
    {
    }



    /// The domain side of a well-formed tree is two to the power of one
    /// less than its depth, so callers can discharge `in_domain` for
    /// concrete coordinates.
    pub proof fn lemma_side_depth(&self)
        requires
            self.wf(),
        ensures
            self.side() == pow2((self.depth() - 1) as nat) as int,
            1 <= self.depth() <= 31,
            self.side() >= 1,
    {
        lemma_pow2_pos((self.max_depth - 1) as nat);
    }

    /// Law: a tree that reads `v` at exactly one in-domain cell and `d`
    /// everywhere else keeps exactly one live 8-slot group per level: the
    /// written cell's path is split all the way down and everything beside
    /// it has collapsed.
    pub proof fn lemma_single_cell_count(&self, px: int, py: int, pz: int, v: T, d: T)
        requires
            self.wf(),
            self.in_domain(px, py, pz),
            v != d,
            self.query(px, py, pz) == v,
            forall|x: int, y: int, z: int|
                self.in_domain(x, y, z) && !(x == px && y == py && z == pz)
                    ==> #[trigger] self.query(x, y, z) == d,
        ensures
            self.live_nodes() == 8 * ((self.depth() - 1) as int),
    {
        assert forall|x: int, y: int, z: int|
            in_dom3(x, y, z, self.side()) && !(x == px && y == py && z == pz) implies #[trigger]
            lookup(self.nodes(), 1, self.side(), x, y, z) == d by {
            assert(self.in_domain(x, y, z));
            assert(self.query(x, y, z) == d);
        }
        lemma_single_cell_alloc(
            self.nodes(),
            self.bm(),
            1,
            self.side(),
            (self.max_depth - 1) as nat,
            px,
            py,
            pz,
            v,
            d,
        );
    }

    /// Law: a tree whose cells read one value per top-level octant, not
    /// all eight equal, is the root over eight leaves: exactly one live
    /// group.
    pub proof fn lemma_octant_uniform_count(&self, ws: Seq<T>)
        requires
            self.wf(),
            self.side() > 1,
            ws.len() == 8,
            forall|x: int, y: int, z: int|
                self.in_domain(x, y, z) ==> #[trigger] self.query(x, y, z) == ws[octant(x, y, z)],
            exists|o1: int, o2: int|
                0 <= o1 < 8 && 0 <= o2 < 8 && #[trigger] ws[o1] != #[trigger] ws[o2],
        ensures
            self.live_nodes() == 8,
    {
        let s = self.nodes();
        let bm = self.bm();
        let size = self.side();
        let lv = (self.max_depth - 1) as nat;
        if lv == 0 {
            lemma2_to64();
            assert(false);
        }
        lemma_dom_step(0, size, lv);
        // a representative in-domain cell exists in every octant
        assert forall|o: int| 0 <= o < 8 implies in_dom3(rep(o, 0), rep(o, 1), rep(o, 2), size)
            && octant(rep(o, 0), rep(o, 1), rep(o, 2)) == o && lookup(
            s,
            1,
            size,
            rep(o, 0),
            rep(o, 1),
            rep(o, 2),
        ) == ws[o] by {
            assert(self.in_domain(rep(o, 0), rep(o, 1), rep(o, 2)));
            assert(self.query(rep(o, 0), rep(o, 1), rep(o, 2)) == ws[octant(
                rep(o, 0),
                rep(o, 1),
                rep(o, 2),
            )]);
        }
        // two octants read different values, so the root is split
        let (o1, o2) = choose|o1: int, o2: int|
            0 <= o1 < 8 && 0 <= o2 < 8 && #[trigger] ws[o1] != #[trigger] ws[o2];
        if is_leaf(node_at(s, 1)) {
            assert(lookup(s, 1, size, rep(o1, 0), rep(o1, 1), rep(o1, 2)) == node_at(s, 1).data);
            assert(lookup(s, 1, size, rep(o2, 0), rep(o2, 1), rep(o2, 2)) == node_at(s, 1).data);
            assert(false);
        }
        // each octant reads one value throughout, so each child is a leaf
        let c = node_at(s, 1).children as int;
        assert forall|k: int| c <= k < c + 8 implies is_leaf(#[trigger] node_at(s, k))
            && tree_alloc(s, k, size / 2) == 0 by {
            let o = k - c;
            assert forall|x: int, y: int, z: int|
                in_dom3(x, y, z, size) && octant(x, y, z) == o implies #[trigger] lookup(
                s,
                1,
                size,
                x,
                y,
                z,
            ) == ws[o] by {
                assert(self.in_domain(x, y, z));
                assert(self.query(x, y, z) == ws[octant(x, y, z)]);
            }
            lemma_child_covered(s, 1, size, lv, o, ws[o]);
            lemma_subtree_ok_child(s, bm, 1, size, k);
            lemma_compressed_child(s, 1, size, k);
            assert forall|x: int, y: int, z: int|
                in_dom3(x, y, z, size / 2) implies #[trigger] lookup(s, k, size / 2, x, y, z)
                == ws[o] by {
                assert(lookup(s, c + o, size / 2, x, y, z) == ws[o]);
            }
            lemma_uniform_subtree_is_leaf(s, bm, k, size / 2, (lv - 1) as nat, ws[o]);
        }
        lemma_tree_alloc_children(s, 1, size);
        assert(tree_alloc(s, c + 0, size / 2) == 0);
        assert(tree_alloc(s, c + 1, size / 2) == 0);
        assert(tree_alloc(s, c + 2, size / 2) == 0);
        assert(tree_alloc(s, c + 3, size / 2) == 0);
        assert(tree_alloc(s, c + 4, size / 2) == 0);
        assert(tree_alloc(s, c + 5, size / 2) == 0);
        assert(tree_alloc(s, c + 6, size / 2) == 0);
        assert(tree_alloc(s, c + 7, size / 2) == 0);
    }

    /// Law: a tree whose every in-domain cell holds one value `v` has
    /// collapsed to a single leaf, the root: no tracked arena slot is
    /// allocated, and every query returns `v`.
    pub proof fn lemma_uniform_fill_collapses(&self, v: T)
        requires
            self.wf(),
            forall|x: int, y: int, z: int|
                self.in_domain(x, y, z) ==> #[trigger] self.query(x, y, z) == v,
        ensures
            self.live_nodes() == 0,
            forall|x: int, y: int, z: int| #[trigger] self.query(x, y, z) == v,
    {
        assert forall|x: int, y: int, z: int|
            in_dom3(x, y, z, self.side()) implies #[trigger] lookup(
            self.nodes(),
            1,
            self.side(),
            x,
            y,
            z,
        ) == v by {
            assert(self.in_domain(x, y, z));
            assert(self.query(x, y, z) == v);
        }
        lemma_uniform_subtree_is_leaf(self.nodes(), self.bm(), 1, self.side(), (self.max_depth - 1) as nat, v);
        assert(tree_alloc(self.nodes(), 1, self.side()) == 0);
        assert forall|x: int, y: int, z: int| #[trigger] self.query(x, y, z) == v by {
            assert(lookup(self.nodes(), 1, self.side(), x, y, z) == node_at(self.nodes(), 1).data);
            assert(in_dom3(0, 0, 0, self.side()));
            assert(self.query(0, 0, 0) == v);
        }
    }

    /// A tree whose root is a single leaf holding `T`'s default value.
    pub fn new(max_depth: u32) -> (r: Self)
        requires
            1 <= max_depth <= 31,
            eq_reflects::<T>(),
        ensures
            r.wf(),
            r.depth() == max_depth,
            r.live_nodes() == 0,
            r.groups_free() == FREE_SIZE as int,
            forall|x: int, y: int, z: int, x2: int, y2: int, z2: int|
                #![trigger r.query(x, y, z), r.query(x2, y2, z2)]
                r.query(x, y, z) == r.query(x2, y2, z2),
            forall|x: int, y: int, z: int|
                call_ensures(T::default, (), #[trigger] r.query(x, y, z)),
            r.side() == pow2((max_depth - 1) as nat) as int,
    {
        let mut arena: Arena<OctreeNode<T>> = Arena::new();
        let handle: ArenaHandle<OctreeNode<T>> = ArenaHandle::new(1);
        arena.set(&handle, OctreeNode::default());
        let r = Octree { root: handle, arena, max_depth };
        proof {
            lemma_pow2_pos((max_depth - 1) as nat);
            assert(is_leaf(node_at(r.nodes(), 1)));
            assert(subtree_ok(r.nodes(), r.bm(), 1, r.side()));
            assert(compressed(r.nodes(), 1, r.side()));
            assert(tree_alloc(r.nodes(), 1, r.side()) == 0);
        }
        r
    }

    /// The region side, computed and related to its specification.
    fn side_len(&self) -> (r: i32)
        requires
            self.wf(),
        ensures
            r as int == self.side(),
            1 <= r <= 0x40000000,
    {
        let size_u: u32 = 1u32 << (self.max_depth - 1);
        proof {
            vstd::arithmetic::power2::lemma2_to64();
            if self.max_depth - 1 < 30 {
                lemma_pow2_strictly_increases((self.max_depth - 1) as nat, 30);
            }
            assert(pow2((self.max_depth - 1) as nat) <= 0x40000000);
            lemma_u32_shl_is_mul(1u32, (self.max_depth - 1) as u32);
            lemma_pow2_pos((self.max_depth - 1) as nat);
        }
        size_u as i32
    }

    /// Reads the value of cell `(x, y, z)`: descend by octant, stopping at
    /// the first leaf, whose data spans the whole region queried.
    pub fn get(&self, x: i32, y: i32, z: i32) -> (r: T)
        requires
            self.wf(),
        ensures
            r == self.query(x as int, y as int, z as int),
    {
        let size = self.side_len();
        Self::get_rec(&self.arena, self.root, size, x, y, z)
    }

    fn get_rec(
        arena: &Arena<OctreeNode<T>>,
        h: ArenaHandle<OctreeNode<T>>,
        size: i32,
        x: i32,
        y: i32,
        z: i32,
    ) -> (r: T)
        requires
            arena.wf(),
            subtree_ok(arena.slots(), arena.bitmap(), h.idx(), size as int),
            1 <= size <= 0x40000000,
        ensures
            r == lookup(arena.slots(), h.idx(), size as int, x as int, y as int, z as int),
        decreases size,
    {
        let node = *arena.get(&h);
        if size <= 1 || node.children == 0 {
            node.data
        } else {
            let ns = size / 2;
            let q = ns / 2;
            let mut o: u32 = 0;
            let mut x2 = x;
            let mut y2 = y;
            let mut z2 = z;
            if x >= 0 {
                o = o + 4;
                x2 = x - q;
            } else {
                x2 = x + q;
            }
            if y >= 0 {
                o = o + 2;
                y2 = y - q;
            } else {
                y2 = y + q;
            }
            if z >= 0 {
                o = o + 1;
                z2 = z - q;
            } else {
                z2 = z + q;
            }
            proof {
                assert(o as int == octant(x as int, y as int, z as int));
                lemma_subtree_ok_child(
                    arena.slots(),
                    arena.bitmap(),
                    h.idx(),
                    size as int,
                    node.children as int + o as int,
                );
            }
            let child = ArenaHandle::new(node.children + o);
            Self::get_rec(arena, child, ns, x2, y2, z2)
        }
    }

    /// Writes `value` into cell `(x, y, z)`: descend by octant, splitting
    /// each leaf on the path into eight children that inherit its value,
    /// write the final unit leaf, then collapse every ancestor whose eight
    /// children have become uniform leaves.
    pub fn set(&mut self, x: i32, y: i32, z: i32, value: T)
        requires
            old(self).wf(),
            old(self).groups_free() >= old(self).depth() - 1,
        ensures
            final(self).wf(),
            final(self).depth() == old(self).depth(),
            final(self).side() == old(self).side(),
            final(self).query(x as int, y as int, z as int) == value,
            forall|a: int, b: int, c: int|
                #![trigger final(self).query(a, b, c)]
                old(self).side() > 1 && old(self).in_domain(a, b, c) && old(self).in_domain(
                    x as int,
                    y as int,
                    z as int,
                ) && !(a == x as int && b == y as int && c == z as int) ==> final(self).query(
                    a,
                    b,
                    c,
                ) == old(self).query(a, b, c),
            old(self).side() <= 1 ==> forall|a: int, b: int, c: int|
                final(self).query(a, b, c) == value,
            final(self).groups_free() >= old(self).groups_free() - (old(self).depth() - 1),
    {
        let size = self.side_len();
        let root = self.root;
        proof {
            assert((self.max_depth - 1) as nat >= 0);
        }
        Self::set_rec(
            &mut self.arena,
            root,
            size,
            x,
            y,
            z,
            value,
            Ghost((self.max_depth - 1) as nat),
        );
        proof {
            if self.side() <= 1 {
                assert(forall|a: int, b: int, c: int|
                    lookup(self.nodes(), 1, self.side(), a, b, c) == value);
            }
        }
    }

    #[verifier::rlimit(100)]
    #[verifier::spinoff_prover]
    fn set_rec(
        arena: &mut Arena<OctreeNode<T>>,
        h: ArenaHandle<OctreeNode<T>>,
        size: i32,
        x: i32,
        y: i32,
        z: i32,
        value: T,
        Ghost(lv): Ghost<nat>,
    )
        requires
            old(arena).wf(),
            eq_reflects::<T>(),
            subtree_ok(old(arena).slots(), old(arena).bitmap(), h.idx(), size as int),
            compressed(old(arena).slots(), h.idx(), size as int),
            size as int == pow2(lv),
            1 <= size <= 0x40000000,
            old(arena).free_groups() >= lv,
        ensures
            final(arena).wf(),
            final(arena).empty_val() == old(arena).empty_val(),
            subtree_ok(final(arena).slots(), final(arena).bitmap(), h.idx(), size as int),
            compressed(final(arena).slots(), h.idx(), size as int),
            node_at(final(arena).slots(), h.idx()).parent == node_at(
                old(arena).slots(),
                h.idx(),
            ).parent,
            lookup(
                final(arena).slots(),
                h.idx(),
                size as int,
                x as int,
                y as int,
                z as int,
            ) == value,
            size as int <= 1 ==> forall|a: int, b: int, c: int|
                lookup(final(arena).slots(), h.idx(), size as int, a, b, c) == value,
            forall|a: int, b: int, c: int|
                #![trigger lookup(final(arena).slots(), h.idx(), size as int, a, b, c)]
                size as int > 1 && in_dom3(a, b, c, size as int) && in_dom3(
                    x as int,
                    y as int,
                    z as int,
                    size as int,
                ) && !(a == x as int && b == y as int && c == z as int) ==> lookup(
                    final(arena).slots(),
                    h.idx(),
                    size as int,
                    a,
                    b,
                    c,
                ) == lookup(old(arena).slots(), h.idx(), size as int, a, b, c),
            forall|j: int|
                #![trigger node_at(final(arena).slots(), j)]
                valid_slot(j) && !in_sub(old(arena).slots(), h.idx(), size as int, j) && (j == 1
                    || old(arena).occupied(j)) ==> node_at(final(arena).slots(), j) == node_at(
                    old(arena).slots(),
                    j,
                ),
            forall|j: int|
                #![trigger final(arena).occupied(j)]
                valid_handle(j) && !in_sub(old(arena).slots(), h.idx(), size as int, j) && old(arena).occupied(j) ==> final(arena).occupied(j),
            forall|j: int|
                #![trigger in_sub(final(arena).slots(), h.idx(), size as int, j)]
                in_sub(final(arena).slots(), h.idx(), size as int, j) ==> in_sub(
                    old(arena).slots(),
                    h.idx(),
                    size as int,
                    j,
                ) || (valid_handle(j) && !old(arena).occupied(j)),
            final(arena).alloc_count() - tree_alloc(
                final(arena).slots(),
                h.idx(),
                size as int,
            ) == old(arena).alloc_count() - tree_alloc(
                old(arena).slots(),
                h.idx(),
                size as int,
            ),
            final(arena).free_groups() >= old(arena).free_groups() - lv,
        decreases size,
    {
        proof {
            lemma_pow2_pos(lv);
        }
        let node = *arena.get(&h);
        if size <= 1 {
            let updated = OctreeNode { children: node.children, parent: node.parent, data: value };
            arena.set(&h, updated);
            proof {
                let s0 = old(arena).slots();
                let s2 = arena.slots();
                assert(is_leaf(node));
                assert(node_at(s2, h.idx()) == updated);
                assert(subtree_ok(s2, arena.bitmap(), h.idx(), size as int));
                assert forall|j: int| #[trigger]
                    in_sub(s0, h.idx(), size as int, j) == (j == h.idx()) by {}
                assert forall|j: int| #[trigger]
                    in_sub(s2, h.idx(), size as int, j) == (j == h.idx()) by {}
            }
            return ;
        }
        // region side at least two: descend one level
        let ns = size / 2;
        let q = ns / 2;
        proof {
            if lv == 0 {
                lemma2_to64();
                assert(false);
            }
            lemma_dom_step(0, size as int, lv);
            assert(ns as int == pow2((lv - 1) as nat));
        }
        let mut o: u32 = 0;
        let mut x2 = x;
        let mut y2 = y;
        let mut z2 = z;
        if x >= 0 {
            o = o + 4;
            x2 = x - q;
        } else {
            x2 = x + q;
        }
        if y >= 0 {
            o = o + 2;
            y2 = y - q;
        } else {
            y2 = y + q;
        }
        if z >= 0 {
            o = o + 1;
            z2 = z - q;
        } else {
            z2 = z + q;
        }
        proof {
            assert(o as int == octant(x as int, y as int, z as int));
            assert(x2 as int == step(x as int, q as int));
            assert(y2 as int == step(y as int, q as int));
            assert(z2 as int == step(z as int, q as int));
        }
        if node.children == 0 {
            Self::subdivide(arena, h, size);
        }
        let node2 = *arena.get(&h);
        let ghost mid = *arena;
        proof {
            let hh = h.idx();
            let c = node2.children as int;
            let s0 = old(arena).slots();
            if node.children == 0 {
                // restate what the split guarantees over the snapshot
                assert(mid.slots() == arena.slots());
                assert(mid.bitmap() == arena.bitmap());
                assert forall|k: int|
                    c <= k < c + 8 implies is_leaf(#[trigger] node_at(mid.slots(), k)) && node_at(
                    mid.slots(),
                    k,
                ).data == node_at(s0, hh).data && node_at(mid.slots(), k).parent as int == hh
                    && valid_handle(k) && !old(arena).occupied(k) by {
                    assert(is_leaf(node_at(arena.slots(), k)));
                }
                assert forall|j: int| #[trigger]
                    in_sub(mid.slots(), hh, size as int, j) == (j == hh || c <= j < c + 8) by {
                    assert(in_sub(arena.slots(), hh, size as int, j) == (j == hh || c <= j < c
                        + 8));
                }
                assert forall|a: int, b: int, cc: int| #[trigger]
                    lookup(mid.slots(), hh, size as int, a, b, cc) == lookup(
                    s0,
                    hh,
                    size as int,
                    a,
                    b,
                    cc,
                ) by {
                    assert(lookup(arena.slots(), hh, size as int, a, b, cc) == lookup(
                        s0,
                        hh,
                        size as int,
                        a,
                        b,
                        cc,
                    ));
                }
                assert forall|j: int|
                    valid_slot(j) && j != hh && (j == 1 || old(arena).occupied(
                        j,
                    )) implies #[trigger] node_at(mid.slots(), j) == node_at(s0, j) by {
                    assert(node_at(arena.slots(), j) == node_at(s0, j));
                }
                assert forall|j: int|
                    valid_handle(j) && old(arena).occupied(j) implies #[trigger] mid.occupied(
                    j,
                ) by {
                    assert(arena.occupied(j));
                }
                assert(tree_alloc(mid.slots(), hh, size as int) == 8);
                assert(tree_alloc(s0, hh, size as int) == 0);
                assert(mid.alloc_count() == old(arena).alloc_count() + 8);
            }
            assert(!is_leaf(node_at(mid.slots(), hh)));
            assert(subtree_ok(mid.slots(), mid.bitmap(), hh, size as int));
            lemma_subtree_ok_child(mid.slots(), mid.bitmap(), hh, size as int, c + o as int);
            // the child entered is compressed: fresh leaves trivially, an
            // old child by the compression invariant
            if node.children == 0 {
                assert(is_leaf(node_at(mid.slots(), c + o as int)));
            } else {
                assert(mid.slots() == old(arena).slots());
                lemma_compressed_child(mid.slots(), hh, size as int, c + o as int);
            }
            assert(mid.free_groups() >= (lv - 1) as nat);
        }
        let child = ArenaHandle::new(node2.children + o);
        Self::set_rec(arena, child, ns, x2, y2, z2, value, Ghost((lv - 1) as nat));
        let ghost fin1 = *arena;
        proof {
            let hh = h.idx();
            let c = node2.children as int;
            let ch = child.idx();
            let s0 = old(arena).slots();
            let sm = mid.slots();
            let s1 = fin1.slots();
            // the node itself sits outside the child's subtree
            assert(!in_sub(sm, ch, ns as int, hh));
            assert(node_at(s1, hh) == node_at(sm, hh));
            // frame every sibling subtree through the recursive call
            assert forall|k: int|
                c <= k < c + 8 && k != ch implies subtree_ok(s1, fin1.bitmap(), k, ns as int) && (
                forall|j: int| #[trigger]
                    in_sub(s1, k, ns as int, j) == in_sub(sm, k, ns as int, j)) && (forall|
                a: int,
                b: int,
                cc: int,
            | #[trigger]
                lookup(s1, k, ns as int, a, b, cc) == lookup(sm, k, ns as int, a, b, cc))
                && compressed(s1, k, ns as int) == compressed(sm, k, ns as int) && tree_alloc(
                s1,
                k,
                ns as int,
            ) == tree_alloc(sm, k, ns as int) && #[trigger] node_at(s1, k) == node_at(sm, k) by {
                lemma_subtree_ok_child(sm, mid.bitmap(), hh, size as int, k);
                assert forall|j: int| #[trigger]
                    in_sub(sm, k, ns as int, j) implies node_at(s1, j) == node_at(sm, j) && (j >= 2
                    ==> bit_at(fin1.bitmap()[byte_of(j)], bit_of(j)) == bit_at(
                    mid.bitmap()[byte_of(j)],
                    bit_of(j),
                )) by {
                    lemma_subtree_disjoint(sm, mid.bitmap(), hh, size as int, k, ch, j);
                    lemma_in_sub_slots(sm, mid.bitmap(), k, ns as int, j);
                    assert(node_at(s1, j) == node_at(sm, j));
                    if j >= 2 {
                        assert(mid.occupied(j));
                        assert(fin1.occupied(j));
                    }
                }
                assert(agree_on_sub(sm, mid.bitmap(), s1, fin1.bitmap(), k, ns as int));
                lemma_frame(sm, mid.bitmap(), s1, fin1.bitmap(), k, ns as int);
                assert(in_sub(sm, k, ns as int, k));
                assert(node_at(s1, k) == node_at(sm, k));
            }
            // reassemble well-formedness at this node
            assert(subtree_ok(s1, fin1.bitmap(), hh, size as int)) by {
                assert(fin1.bitmap()[byte_of(c)] == 255u8) by {
                    assert forall|i: u8| i < 8 implies #[trigger] bit_at(
                        fin1.bitmap()[byte_of(c)],
                        i,
                    ) by {
                        lemma_byte_handle(byte_of(c), i as int);
                        lemma_handle_byte(c);
                        assert(8 * byte_of(c) + i + 2 == c + i);
                        let k = c + i as int;
                        if k == ch {
                            assert(subtree_ok(s1, fin1.bitmap(), ch, ns as int));
                            assert(bit_at(fin1.bitmap()[byte_of(ch)], bit_of(ch)));
                        } else {
                            lemma_subtree_ok_child(sm, mid.bitmap(), hh, size as int, k);
                            assert(in_sub(sm, k, ns as int, k));
                            lemma_subtree_disjoint(sm, mid.bitmap(), hh, size as int, k, ch, k);
                            assert(mid.occupied(k));
                            assert(fin1.occupied(k));
                            assert(bit_at(fin1.bitmap()[byte_of(k)], bit_of(k)));
                        }
                    }
                    lemma_byte_all_set(fin1.bitmap()[byte_of(c)]);
                }
                assert(bit_at(fin1.bitmap()[byte_of(hh)], bit_of(hh)) == bit_at(
                    mid.bitmap()[byte_of(hh)],
                    bit_of(hh),
                ) || hh == 1) by {
                    if hh >= 2 {
                        assert(mid.occupied(hh));
                        assert(fin1.occupied(hh));
                    }
                }
                assert forall|k: int| #[trigger]
                    child_slot(c, k) implies node_at(s1, k).parent as int == hh && subtree_ok(
                    s1,
                    fin1.bitmap(),
                    k,
                    ns as int,
                ) && !in_sub(s1, k, ns as int, hh) by {
                    if k == ch {
                        assert(node_at(s1, ch).parent == node_at(sm, ch).parent);
                        if in_sub(s1, ch, ns as int, hh) {
                            assert(in_sub(sm, ch, ns as int, hh) || (valid_handle(hh)
                                && !mid.occupied(hh)));
                            assert(false);
                        }
                    } else {
                        assert(node_at(s1, k) == node_at(sm, k));
                        assert(in_sub(s1, k, ns as int, hh) == in_sub(sm, k, ns as int, hh));
                        lemma_subtree_ok_child(sm, mid.bitmap(), hh, size as int, k);
                    }
                }
                assert forall|j: int| #[trigger] sub_count(s1, c, ns as int, j) <= 1 by {
                    assert(sub_count(sm, c, ns as int, j) <= 1);
                    assert forall|k: int|
                        c <= k < c + 8 && k != ch implies (#[trigger] in_sub(s1, k, ns as int, j)
                        == in_sub(sm, k, ns as int, j)) by {}
                    if in_sub(s1, ch, ns as int, j) && !in_sub(sm, ch, ns as int, j) {
                        // a fresh slot of the child's subtree lies in no sibling
                        assert(valid_handle(j) && !mid.occupied(j));
                        assert forall|k: int|
                            c <= k < c + 8 && k != ch implies !#[trigger] in_sub(
                            sm,
                            k,
                            ns as int,
                            j,
                        ) by {
                            if in_sub(sm, k, ns as int, j) {
                                lemma_subtree_ok_child(sm, mid.bitmap(), hh, size as int, k);
                                lemma_in_sub_slots(sm, mid.bitmap(), k, ns as int, j);
                            }
                        }
                        assert(in_sub(sm, c + 0, ns as int, j) == in_sub(s1, c + 0, ns as int, j)
                            || c + 0 == ch);
                        assert(in_sub(sm, c + 1, ns as int, j) == in_sub(s1, c + 1, ns as int, j)
                            || c + 1 == ch);
                        assert(in_sub(sm, c + 2, ns as int, j) == in_sub(s1, c + 2, ns as int, j)
                            || c + 2 == ch);
                        assert(in_sub(sm, c + 3, ns as int, j) == in_sub(s1, c + 3, ns as int, j)
                            || c + 3 == ch);
                        assert(in_sub(sm, c + 4, ns as int, j) == in_sub(s1, c + 4, ns as int, j)
                            || c + 4 == ch);
                        assert(in_sub(sm, c + 5, ns as int, j) == in_sub(s1, c + 5, ns as int, j)
                            || c + 5 == ch);
                        assert(in_sub(sm, c + 6, ns as int, j) == in_sub(s1, c + 6, ns as int, j)
                            || c + 6 == ch);
                        assert(in_sub(sm, c + 7, ns as int, j) == in_sub(s1, c + 7, ns as int, j)
                            || c + 7 == ch);
                    } else {
                        assert(in_sub(s1, ch, ns as int, j) ==> in_sub(sm, ch, ns as int, j));
                    }
                }
            }
        }
        proof {
            // relate the state after the recursive write to the entry
            // state: the written cell, every other cell, the untouched
            // slots, and the allocation balance
            let hh = h.idx();
            let c = node2.children as int;
            let ch = child.idx();
            let s0 = old(arena).slots();
            let sm = mid.slots();
            let s1 = fin1.slots();
            assert(node_at(s1, hh).children as int == c);
            assert(!is_leaf(node_at(s1, hh)));
            // each child of this node is compressed after the write
            assert forall|k: int| #[trigger] child_slot(c, k) implies compressed(
                s1,
                k,
                ns as int,
            ) by {
                if k == ch {
                } else {
                    assert(compressed(s1, k, ns as int) == compressed(sm, k, ns as int));
                    if node.children == 0 {
                        assert(is_leaf(node_at(sm, k)));
                    } else {
                        assert(sm == s0);
                        lemma_compressed_child(s0, hh, size as int, k);
                    }
                }
            }
            // the written cell reads back the new value
            lemma_lookup_step(s1, hh, size as int, x as int, y as int, z as int);
            assert(lookup(s1, hh, size as int, x as int, y as int, z as int) == value);
            // untouched cells read back their old value
            assert forall|a: int, b: int, cc: int|
                in_dom3(a, b, cc, size as int) && in_dom3(
                    x as int,
                    y as int,
                    z as int,
                    size as int,
                ) && !(a == x as int && b == y as int && cc == z as int) implies #[trigger] lookup(
                s1,
                hh,
                size as int,
                a,
                b,
                cc,
            ) == lookup(s0, hh, size as int, a, b, cc) by {
                let oo = octant(a, b, cc);
                assert(0 <= oo < 8);
                let qd = (ns as int) / 2;
                lemma_dom_step(a, size as int, lv);
                lemma_dom_step(b, size as int, lv);
                lemma_dom_step(cc, size as int, lv);
                lemma_dom_step(x as int, size as int, lv);
                lemma_dom_step(y as int, size as int, lv);
                lemma_dom_step(z as int, size as int, lv);
                lemma_lookup_step(s1, hh, size as int, a, b, cc);
                if node.children == 0 {
                    assert(lookup(s0, hh, size as int, a, b, cc) == node.data);
                    assert(lookup(sm, hh, size as int, a, b, cc) == node.data);
                    assert(node_at(sm, c + oo).data == node.data);
                    assert(is_leaf(node_at(sm, c + oo)));
                    if c + oo != ch {
                        assert(node_at(s1, c + oo) == node_at(sm, c + oo));
                        assert(lookup(s1, c + oo, ns as int, step(a, qd), step(b, qd), step(
                        cc, qd)) == node.data);
                    } else {
                        assert(oo == o as int);
                        lemma_octant_signs(a, b, cc, x as int, y as int, z as int);
                        if ns as int <= 1 || (step(a, qd) == x2 as int && step(b, qd) == y2 as int
                            && step(cc, qd) == z2 as int) {
                            assert(a == x as int && b == y as int && cc == z as int);
                            assert(false);
                        } else {
                            assert(lookup(s1, ch, ns as int, step(a, qd), step(b, qd), step(
                            cc, qd)) == lookup(sm, ch, ns as int, step(a, qd), step(b, qd), step(
                            cc, qd)));
                            assert(lookup(sm, ch, ns as int, step(a, qd), step(b, qd), step(
                            cc, qd)) == node.data);
                        }
                    }
                } else {
                    assert(sm == s0);
                    lemma_lookup_step(s0, hh, size as int, a, b, cc);
                    if c + oo != ch {
                        assert(lookup(s1, c + oo, ns as int, step(a, qd), step(b, qd), step(
                        cc, qd)) == lookup(s0, c + oo, ns as int, step(a, qd), step(b, qd), step(
                        cc, qd)));
                    } else {
                        assert(oo == o as int);
                        lemma_octant_signs(a, b, cc, x as int, y as int, z as int);
                        if ns as int <= 1 || (step(a, qd) == x2 as int && step(b, qd) == y2 as int
                            && step(cc, qd) == z2 as int) {
                            assert(a == x as int && b == y as int && cc == z as int);
                            assert(false);
                        } else {
                            assert(lookup(s1, ch, ns as int, step(a, qd), step(b, qd), step(
                            cc, qd)) == lookup(s0, ch, ns as int, step(a, qd), step(b, qd), step(
                            cc, qd)));
                        }
                    }
                }
            }
            // slots outside this subtree are untouched so far
            assert forall|j: int|
                valid_slot(j) && !in_sub(s0, hh, size as int, j) && (j == 1 || old(arena).occupied(j)) implies #[trigger] node_at(s1, j) == node_at(s0, j) by {
                assert(j != hh);
                assert(node_at(sm, j) == node_at(s0, j));
                assert(!(c <= j < c + 8)) by {
                    if c <= j < c + 8 {
                        if node.children == 0 {
                            assert(is_leaf(node_at(sm, j)));
                            assert(!old(arena).occupied(j));
                            assert(j != 1);
                        } else {
                            assert(child_slot(c, j));
                            assert(in_sub(sm, j, ns as int, j));
                            lemma_in_sub_child(sm, hh, size as int, j - c, j);
                            assert(in_sub(s0, hh, size as int, j));
                        }
                        assert(false);
                    }
                }
                assert(!in_sub(sm, ch, ns as int, j)) by {
                    if in_sub(sm, ch, ns as int, j) {
                        lemma_in_sub_child(sm, hh, size as int, o as int, j);
                        if node.children == 0 {
                            assert(in_sub(sm, hh, size as int, j) == (j == hh || c <= j < c + 8));
                            assert(false);
                        } else {
                            assert(in_sub(s0, hh, size as int, j));
                            assert(false);
                        }
                    }
                }
                assert(j == 1 || mid.occupied(j));
                assert(node_at(s1, j) == node_at(sm, j));
            }
            assert forall|j: int|
                valid_handle(j) && !in_sub(s0, hh, size as int, j) && old(arena).occupied(
                    j,
                ) implies #[trigger] fin1.occupied(j) by {
                assert(!(c <= j < c + 8)) by {
                    if c <= j < c + 8 {
                        if node.children == 0 {
                            assert(is_leaf(node_at(sm, j)));
                            assert(!old(arena).occupied(j));
                        } else {
                            assert(child_slot(c, j));
                            assert(in_sub(sm, j, ns as int, j));
                            lemma_in_sub_child(sm, hh, size as int, j - c, j);
                            assert(in_sub(s0, hh, size as int, j));
                        }
                        assert(false);
                    }
                }
                assert(mid.occupied(j));
                assert(!in_sub(sm, ch, ns as int, j)) by {
                    if in_sub(sm, ch, ns as int, j) {
                        lemma_in_sub_child(sm, hh, size as int, o as int, j);
                        if node.children == 0 {
                            assert(in_sub(sm, hh, size as int, j) == (j == hh || c <= j < c + 8));
                            assert(j == hh);
                            assert(!in_sub(s0, hh, size as int, hh));
                            assert(false);
                        } else {
                            assert(in_sub(s0, hh, size as int, j));
                            assert(false);
                        }
                    }
                }
            }
            // the grown subtree reaches only old subtree slots and slots
            // that were free at entry
            assert forall|j: int| #[trigger]
                in_sub(s1, hh, size as int, j) implies in_sub(s0, hh, size as int, j) || (
            valid_handle(j) && !old(arena).occupied(j)) by {
                if in_sub(s1, hh, size as int, j) && j != hh {
                    assert(in_sub(s1, c + 0, ns as int, j) || in_sub(s1, c + 1, ns as int, j)
                        || in_sub(s1, c + 2, ns as int, j) || in_sub(s1, c + 3, ns as int, j)
                        || in_sub(s1, c + 4, ns as int, j) || in_sub(s1, c + 5, ns as int, j)
                        || in_sub(s1, c + 6, ns as int, j) || in_sub(s1, c + 7, ns as int, j));
                    assert forall|k: int|
                        c <= k < c + 8 && k != ch && #[trigger] in_sub(
                            s1,
                            k,
                            ns as int,
                            j,
                        ) implies in_sub(s0, hh, size as int, j) || (valid_handle(j) && !old(arena).occupied(j)) by {
                        assert(in_sub(sm, k, ns as int, j));
                        if node.children == 0 {
                            assert(is_leaf(node_at(sm, k)));
                            assert(j == k);
                            assert(valid_handle(j) && !old(arena).occupied(j));
                        } else {
                            lemma_in_sub_child(sm, hh, size as int, k - c, j);
                            assert(in_sub(s0, hh, size as int, j));
                        }
                    }
                    if in_sub(s1, ch, ns as int, j) {
                        assert(in_sub(sm, ch, ns as int, j) || (valid_handle(j) && !mid.occupied(
                            j,
                        )));
                        if in_sub(sm, ch, ns as int, j) {
                            if node.children == 0 {
                                assert(is_leaf(node_at(sm, ch)));
                                assert(j == ch);
                                assert(valid_handle(j) && !old(arena).occupied(j));
                            } else {
                                lemma_in_sub_child(sm, hh, size as int, o as int, j);
                                assert(in_sub(s0, hh, size as int, j));
                            }
                        } else {
                            assert(valid_handle(j));
                            if old(arena).occupied(j) {
                                if node.children == 0 {
                                    if c <= j < c + 8 {
                                        assert(node_at(sm, j) == node_at(sm, j));
                                        assert(!old(arena).occupied(j));
                                        assert(false);
                                    } else {
                                        assert(mid.occupied(j));
                                        assert(false);
                                    }
                                } else {
                                    assert(mid.occupied(j));
                                    assert(false);
                                }
                            }
                        }
                    }
                }
            }
            // allocation balance so far
            assert(fin1.alloc_count() - tree_alloc(s1, hh, size as int) == old(arena).alloc_count() - tree_alloc(s0, hh, size as int)) by {
                lemma_tree_alloc_children(sm, hh, size as int);
                lemma_tree_alloc_children(s1, hh, size as int);
                assert(tree_alloc(s1, c + 0, (size as int) / 2) == tree_alloc(sm, c + 0, (
                size as int) / 2) || c + 0 == ch);
                assert(tree_alloc(s1, c + 1, (size as int) / 2) == tree_alloc(sm, c + 1, (
                size as int) / 2) || c + 1 == ch);
                assert(tree_alloc(s1, c + 2, (size as int) / 2) == tree_alloc(sm, c + 2, (
                size as int) / 2) || c + 2 == ch);
                assert(tree_alloc(s1, c + 3, (size as int) / 2) == tree_alloc(sm, c + 3, (
                size as int) / 2) || c + 3 == ch);
                assert(tree_alloc(s1, c + 4, (size as int) / 2) == tree_alloc(sm, c + 4, (
                size as int) / 2) || c + 4 == ch);
                assert(tree_alloc(s1, c + 5, (size as int) / 2) == tree_alloc(sm, c + 5, (
                size as int) / 2) || c + 5 == ch);
                assert(tree_alloc(s1, c + 6, (size as int) / 2) == tree_alloc(sm, c + 6, (
                size as int) / 2) || c + 6 == ch);
                assert(tree_alloc(s1, c + 7, (size as int) / 2) == tree_alloc(sm, c + 7, (
                size as int) / 2) || c + 7 == ch);
                assert(tree_alloc(s1, ch, (size as int) / 2) == tree_alloc(s1, ch, ns as int));
                assert(tree_alloc(sm, ch, (size as int) / 2) == tree_alloc(sm, ch, ns as int));
                if node.children == 0 {
                    assert(tree_alloc(s0, hh, size as int) == 0);
                    assert(tree_alloc(sm, hh, size as int) == 8);
                    assert(mid.alloc_count() == old(arena).alloc_count() + 8);
                } else {
                    assert(sm == s0);
                }
            }
        }
        // climb back up: collapse this node if its eight children have
        // become uniform leaves
        Self::compress_if_uniform(arena, h, size);
        proof {
            let hh = h.idx();
            let s0 = old(arena).slots();
            let s1 = fin1.slots();
            let s3 = arena.slots();
            assert forall|a: int, b: int, cc: int| #[trigger]
                lookup(s3, hh, size as int, a, b, cc) == lookup(s1, hh, size as int, a, b, cc) by {}
            assert forall|j: int|
                valid_slot(j) && !in_sub(s0, hh, size as int, j) && (j == 1 || old(arena).occupied(j)) implies #[trigger] node_at(s3, j) == node_at(s0, j) by {
                if in_sub(s1, hh, size as int, j) {
                    assert(in_sub(s0, hh, size as int, j) || (valid_handle(j) && !old(arena).occupied(j)));
                    assert(false);
                }
                assert(node_at(s1, j) == node_at(s0, j));
                assert(node_at(s3, j) == node_at(s1, j)) by {
                    assert(j == 1 || fin1.occupied(j));
                }
            }
            assert forall|j: int|
                valid_handle(j) && !in_sub(s0, hh, size as int, j) && old(arena).occupied(
                    j,
                ) implies #[trigger] arena.occupied(j) by {
                assert(fin1.occupied(j));
                if in_sub(s1, hh, size as int, j) {
                    assert(false);
                }
                assert(arena.occupied(j) == fin1.occupied(j));
            }
            assert forall|j: int| #[trigger]
                in_sub(s3, hh, size as int, j) implies in_sub(s0, hh, size as int, j) || (
            valid_handle(j) && !old(arena).occupied(j)) by {
                assert(in_sub(s1, hh, size as int, j));
            }
        }
    }


    /// Splits a leaf into an internal node over eight fresh leaf children
    /// that inherit its value, so that no cell changes what it reads.
    #[verifier::rlimit(100)]
    #[verifier::spinoff_prover]
    fn subdivide(arena: &mut Arena<OctreeNode<T>>, h: ArenaHandle<OctreeNode<T>>, size: i32)
        requires
            old(arena).wf(),
            subtree_ok(old(arena).slots(), old(arena).bitmap(), h.idx(), size as int),
            is_leaf(node_at(old(arena).slots(), h.idx())),
            size as int > 1,
            old(arena).free_groups() >= 1,
        ensures
            final(arena).wf(),
            final(arena).empty_val() == old(arena).empty_val(),
            final(arena).free_groups() == old(arena).free_groups() - 1,
            subtree_ok(final(arena).slots(), final(arena).bitmap(), h.idx(), size as int),
            !is_leaf(node_at(final(arena).slots(), h.idx())),
            node_at(final(arena).slots(), h.idx()).parent == node_at(
                old(arena).slots(),
                h.idx(),
            ).parent,
            forall|k: int|
                node_at(final(arena).slots(), h.idx()).children as int <= k < node_at(
                    final(arena).slots(),
                    h.idx(),
                ).children as int + 8 ==> is_leaf(#[trigger] node_at(final(arena).slots(), k))
                    && node_at(final(arena).slots(), k).data == node_at(
                    old(arena).slots(),
                    h.idx(),
                ).data && node_at(final(arena).slots(), k).parent as int == h.idx() && valid_handle(
                    k,
                ) && !old(arena).occupied(k),
            forall|a: int, b: int, cc: int| #[trigger]
                lookup(final(arena).slots(), h.idx(), size as int, a, b, cc) == lookup(
                    old(arena).slots(),
                    h.idx(),
                    size as int,
                    a,
                    b,
                    cc,
                ),
            forall|j: int| #[trigger]
                in_sub(final(arena).slots(), h.idx(), size as int, j) == (j == h.idx() || node_at(
                    final(arena).slots(),
                    h.idx(),
                ).children as int <= j < node_at(final(arena).slots(), h.idx()).children as int
                    + 8),
            forall|j: int|
                #![trigger node_at(final(arena).slots(), j)]
                valid_slot(j) && j != h.idx() && (j == 1 || old(arena).occupied(j)) ==> node_at(
                    final(arena).slots(),
                    j,
                ) == node_at(old(arena).slots(), j),
            forall|j: int|
                #![trigger final(arena).occupied(j)]
                valid_handle(j) && old(arena).occupied(j) ==> final(arena).occupied(j),
            final(arena).alloc_count() == old(arena).alloc_count() + 8,
            tree_alloc(final(arena).slots(), h.idx(), size as int) == 8,
            tree_alloc(old(arena).slots(), h.idx(), size as int) == 0,
    {
        let ghost nsd: int = (size as int) / 2;
        let node = *arena.get(&h);
            // subdivide: the eight new leaves inherit this leaf's value
            proof {
                assert(arena.free_groups() >= 1);
                lemma_zero_bytes_pos(arena.bitmap());
            }
            let pidx = h.slot_index();
            let proto = OctreeNode { children: 0, parent: pidx, data: node.data };
            let vals = [proto, proto, proto, proto, proto, proto, proto, proto];
            let kids = arena.store_8_aligned(vals);
            let ghost after_store = *arena;
            proof {
                // this node is not one of the fresh slots, which were free
                if kids.idx() <= h.idx() < kids.idx() + 8 {
                    lemma_byte_handle(byte_of(kids.idx()), h.idx() - kids.idx());
                    lemma_byte_ones_full(old(arena).bitmap()[byte_of(kids.idx())]);
                    assert(!old(arena).occupied(h.idx()));
                    assert(false);
                }
            }
            let knum = kids.slot_index();
            let updated = OctreeNode { children: knum, parent: node.parent, data: node.data };
            arena.set(&h, updated);
            proof {
                let s0 = old(arena).slots();
                let bm0 = old(arena).bitmap();
                let sm = arena.slots();
                let bmm = arena.bitmap();
                let hh = h.idx();
                let c = knum as int;
                assert(node_at(sm, hh) == updated);
                assert(vals@[0] == proto && vals@[1] == proto && vals@[2] == proto && vals@[3]
                    == proto && vals@[4] == proto && vals@[5] == proto && vals@[6] == proto
                    && vals@[7] == proto);
                assert(after_store.val_at(c + 0) == vals@[0] && after_store.val_at(c + 1)
                    == vals@[1] && after_store.val_at(c + 2) == vals@[2] && after_store.val_at(
                    c + 3,
                ) == vals@[3] && after_store.val_at(c + 4) == vals@[4] && after_store.val_at(c + 5)
                    == vals@[5] && after_store.val_at(c + 6) == vals@[6] && after_store.val_at(
                    c + 7,
                ) == vals@[7]);
                assert(node_at(sm, c + 0) == proto && node_at(sm, c + 1) == proto && node_at(
                    sm,
                    c + 2,
                ) == proto && node_at(sm, c + 3) == proto && node_at(sm, c + 4) == proto
                    && node_at(sm, c + 5) == proto && node_at(sm, c + 6) == proto && node_at(
                    sm,
                    c + 7,
                ) == proto);
                lemma_handle_byte(c);
                assert forall|k: int| c <= k < c + 8 implies valid_handle(k) && !old(
                    arena,
                ).occupied(k) by {
                    lemma_byte_handle(byte_of(c), k - c);
                    lemma_byte_ones_full(old(arena).bitmap()[byte_of(c)]);
                }
                assert(arena.occupied(c + 0) == after_store.occupied(c + 0));
                assert(after_store.occupied(c + 0) && after_store.occupied(c + 1)
                    && after_store.occupied(c + 2) && after_store.occupied(c + 3)
                    && after_store.occupied(c + 4) && after_store.occupied(c + 5)
                    && after_store.occupied(c + 6) && after_store.occupied(c + 7));
                assert forall|k: int| c <= k < c + 8 implies #[trigger] node_at(sm, k)
                    == proto by {
                    assert(k == c + 0 || k == c + 1 || k == c + 2 || k == c + 3 || k == c + 4 || k
                        == c + 5 || k == c + 6 || k == c + 7);
                }
                // membership in the pre-state was just this node
                assert forall|j: int| #[trigger]
                    in_sub(s0, hh, size as int, j) == (j == hh) by {}
                // every fresh child is a one-slot subtree
                assert forall|k: int, j: int|
                    c <= k < c + 8 implies (#[trigger] in_sub(sm, k, nsd, j) == (j
                    == k)) by {
                    assert(is_leaf(node_at(sm, k)));
                }
                // structural soundness after the split
                assert(subtree_ok(sm, bmm, hh, size as int)) by {
                    assert(group_ok(c));
                    assert forall|k: int| #[trigger]
                        child_slot(c, k) implies node_at(sm, k).parent as int == hh && subtree_ok(
                        sm,
                        bmm,
                        k,
                        nsd,
                    ) && !in_sub(sm, k, nsd, hh) by {
                        assert(node_at(sm, k) == proto);
                        assert(k == c + 0 || k == c + 1 || k == c + 2 || k == c + 3 || k == c + 4
                            || k == c + 5 || k == c + 6 || k == c + 7);
                        assert(arena.occupied(k));
                        assert(in_sub(sm, k, nsd, hh) == (hh == k));
                    }
                    assert forall|j: int| #[trigger] sub_count(sm, c, nsd, j) <= 1 by {
                        assert(in_sub(sm, c + 0, nsd, j) == (j == c + 0));
                        assert(in_sub(sm, c + 1, nsd, j) == (j == c + 1));
                        assert(in_sub(sm, c + 2, nsd, j) == (j == c + 2));
                        assert(in_sub(sm, c + 3, nsd, j) == (j == c + 3));
                        assert(in_sub(sm, c + 4, nsd, j) == (j == c + 4));
                        assert(in_sub(sm, c + 5, nsd, j) == (j == c + 5));
                        assert(in_sub(sm, c + 6, nsd, j) == (j == c + 6));
                        assert(in_sub(sm, c + 7, nsd, j) == (j == c + 7));
                    }
                }
                // membership now: this node plus the fresh group
                assert forall|j: int| #[trigger]
                    in_sub(sm, hh, size as int, j) == (j == hh || c <= j < c + 8) by {
                    assert(in_sub(sm, c + 0, nsd, j) == (j == c + 0));
                    assert(in_sub(sm, c + 1, nsd, j) == (j == c + 1));
                    assert(in_sub(sm, c + 2, nsd, j) == (j == c + 2));
                    assert(in_sub(sm, c + 3, nsd, j) == (j == c + 3));
                    assert(in_sub(sm, c + 4, nsd, j) == (j == c + 4));
                    assert(in_sub(sm, c + 5, nsd, j) == (j == c + 5));
                    assert(in_sub(sm, c + 6, nsd, j) == (j == c + 6));
                    assert(in_sub(sm, c + 7, nsd, j) == (j == c + 7));
                }
                // the split preserves every cell's value
                assert forall|a: int, b: int, cc: int| #[trigger]
                    lookup(sm, hh, size as int, a, b, cc) == lookup(
                    s0,
                    hh,
                    size as int,
                    a,
                    b,
                    cc,
                ) by {
                    let oo = octant(a, b, cc);
                    assert(0 <= oo < 8);
                    assert(node_at(sm, c + oo) == proto);
                    assert(is_leaf(node_at(sm, c + oo)));
                    assert(lookup(sm, c + oo, nsd, step(a, (nsd) / 2), step(b, (
                    nsd) / 2), step(cc, (nsd) / 2)) == proto.data);
                    assert(lookup(sm, hh, size as int, a, b, cc) == proto.data);
                    assert(lookup(s0, hh, size as int, a, b, cc) == node.data);
                }
                // accounting: one group claimed, one internal node gained
                assert(tree_alloc(sm, hh, size as int) == 8) by {
                    assert(tree_alloc(sm, c + 0, nsd) == 0);
                    assert(tree_alloc(sm, c + 1, nsd) == 0);
                    assert(tree_alloc(sm, c + 2, nsd) == 0);
                    assert(tree_alloc(sm, c + 3, nsd) == 0);
                    assert(tree_alloc(sm, c + 4, nsd) == 0);
                    assert(tree_alloc(sm, c + 5, nsd) == 0);
                    assert(tree_alloc(sm, c + 6, nsd) == 0);
                    assert(tree_alloc(sm, c + 7, nsd) == 0);
                }
                assert(tree_alloc(s0, hh, size as int) == 0);
                assert forall|j: int| #[trigger]
                    in_sub(arena.slots(), h.idx(), size as int, j) == (j == h.idx() || node_at(
                        arena.slots(),
                        h.idx(),
                    ).children as int <= j < node_at(arena.slots(), h.idx()).children as int
                        + 8) by {
                    assert(arena.slots() == sm);
                    assert(node_at(sm, hh).children as int == c);
                    assert(in_sub(sm, hh, size as int, j) == (j == hh || c <= j < c + 8));
                }
                assert forall|j: int|
                    valid_slot(j) && j != h.idx() && (j == 1 || old(arena).occupied(
                        j,
                    )) implies #[trigger] node_at(arena.slots(), j) == node_at(
                    old(arena).slots(),
                    j,
                ) by {
                    assert(!(c <= j < c + 8)) by {
                        if c <= j < c + 8 {
                            lemma_byte_handle(byte_of(c), j - c);
                            lemma_byte_ones_full(old(arena).bitmap()[byte_of(c)]);
                            assert(!old(arena).occupied(j));
                            assert(j != 1);
                            assert(false);
                        }
                    }
                    assert(after_store.val_at(j) == old(arena).val_at(j));
                    assert(node_at(arena.slots(), j) == after_store.val_at(j));
                }
            }
    }

    /// Collapses this node into a leaf if its eight children are uniform
    /// leaves; what every cell reads is unchanged either way.
    #[verifier::rlimit(100)]
    #[verifier::spinoff_prover]
    fn compress_if_uniform(arena: &mut Arena<OctreeNode<T>>, h: ArenaHandle<OctreeNode<T>>, size: i32)
        requires
            old(arena).wf(),
            eq_reflects::<T>(),
            subtree_ok(old(arena).slots(), old(arena).bitmap(), h.idx(), size as int),
            !is_leaf(node_at(old(arena).slots(), h.idx())),
            size as int > 1,
            forall|k: int| #[trigger]
                child_slot(node_at(old(arena).slots(), h.idx()).children as int, k) ==> compressed(
                    old(arena).slots(),
                    k,
                    (size as int) / 2,
                ),
        ensures
            final(arena).wf(),
            final(arena).empty_val() == old(arena).empty_val(),
            final(arena).free_groups() >= old(arena).free_groups(),
            subtree_ok(final(arena).slots(), final(arena).bitmap(), h.idx(), size as int),
            compressed(final(arena).slots(), h.idx(), size as int),
            node_at(final(arena).slots(), h.idx()).parent == node_at(
                old(arena).slots(),
                h.idx(),
            ).parent,
            forall|a: int, b: int, c: int| #[trigger]
                lookup(final(arena).slots(), h.idx(), size as int, a, b, c) == lookup(
                    old(arena).slots(),
                    h.idx(),
                    size as int,
                    a,
                    b,
                    c,
                ),
            forall|j: int|
                #![trigger node_at(final(arena).slots(), j)]
                valid_slot(j) && !in_sub(old(arena).slots(), h.idx(), size as int, j) && (j == 1
                    || old(arena).occupied(j)) ==> node_at(final(arena).slots(), j) == node_at(
                    old(arena).slots(),
                    j,
                ),
            forall|j: int|
                #![trigger final(arena).occupied(j)]
                valid_handle(j) && !in_sub(old(arena).slots(), h.idx(), size as int, j) ==> final(arena).occupied(j) == old(arena).occupied(j),
            forall|j: int|
                #![trigger in_sub(final(arena).slots(), h.idx(), size as int, j)]
                in_sub(final(arena).slots(), h.idx(), size as int, j) ==> in_sub(
                    old(arena).slots(),
                    h.idx(),
                    size as int,
                    j,
                ),
            final(arena).alloc_count() - tree_alloc(
                final(arena).slots(),
                h.idx(),
                size as int,
            ) == old(arena).alloc_count() - tree_alloc(
                old(arena).slots(),
                h.idx(),
                size as int,
            ),
    {
        let node3 = *arena.get(&h);
        let cb = ArenaHandle::new(node3.children);
        let first = *arena.get(&cb);
        let mut uniform: bool = first.children == 0;
        let mut ki: u32 = 1;
        let ghost fin1 = *arena;
        proof {
            assert(node3 == node_at(fin1.slots(), h.idx()));
            assert(first == node_at(fin1.slots(), node3.children as int));
        }
        while ki < 8
            invariant
                1 <= ki <= 8,
                *arena == fin1,
                fin1 == *old(arena),
                eq_reflects::<T>(),
                arena.wf(),
                subtree_ok(fin1.slots(), fin1.bitmap(), h.idx(), size as int),
                !is_leaf(node_at(fin1.slots(), h.idx())),
                node3 == node_at(fin1.slots(), h.idx()),
                node3.children as int + 7 < 2 + 8 * (FREE_SIZE as int),
                node3.children >= 2,
                first == node_at(fin1.slots(), node3.children as int),
                uniform == (forall|k2: int|
                    node3.children as int <= k2 < node3.children as int + ki as int ==> is_leaf(
                        #[trigger] node_at(fin1.slots(), k2),
                    ) && node_at(fin1.slots(), k2).data == node_at(
                        fin1.slots(),
                        node3.children as int,
                    ).data),
            decreases 8 - ki,
        {
            let kid = *arena.get(&ArenaHandle::new(node3.children + ki));
            let ghost before = uniform;
            if !(kid.children == 0 && kid.data == first.data) {
                uniform = false;
            }
            proof {
                let c = node3.children as int;
                let s1 = fin1.slots();
                assert(kid == node_at(s1, c + ki as int));
                let good = is_leaf(node_at(s1, c + ki as int)) && node_at(s1, c + ki as int).data
                    == node_at(s1, c).data;
                assert(uniform == (before && good));
                if before && good {
                    assert forall|k2: int|
                        c <= k2 < c + ki as int + 1 implies is_leaf(
                        #[trigger] node_at(s1, k2),
                    ) && node_at(s1, k2).data == node_at(s1, c).data by {
                        if k2 < c + ki as int {
                            assert(is_leaf(node_at(s1, k2)));
                        }
                    }
                } else if !good {
                    assert(c <= c + (ki as int) && c + (ki as int) < c + (ki as int) + 1);
                    assert(!(is_leaf(node_at(s1, c + ki as int)) && node_at(
                        s1,
                        c + ki as int,
                    ).data == node_at(s1, c).data));
                } else {
                    let w = choose|k2: int|
                        c <= k2 < c + ki as int && !(is_leaf(#[trigger] node_at(s1, k2))
                            && node_at(s1, k2).data == node_at(s1, c).data);
                    assert(c <= w < c + ki as int + 1);
                }
            }
            ki = ki + 1;
        }
        proof {
            assert(uniform == uniform_kids(fin1.slots(), node3.children as int));
        }
        if uniform {
            arena.remove_8_aligned(cb);
            let ghost after_rm = *arena;
            let updated = OctreeNode { children: 0, parent: node3.parent, data: first.data };
            proof {
                let hh = h.idx();
                let c = node3.children as int;
                // this node is outside its own children's group
                assert(!(c <= hh < c + 8)) by {
                    assert forall|k: int| #[trigger] child_slot(c, k) implies k != hh by {
                        assert(in_sub(fin1.slots(), k, (size as int) / 2, k));
                        assert(!in_sub(fin1.slots(), k, (size as int) / 2, hh));
                    }
                    if c <= hh < c + 8 {
                        assert(child_slot(c, hh));
                        assert(false);
                    }
                }
                if hh >= 2 {
                    lemma_handle_byte(hh);
                    lemma_handle_byte(c);
                    assert(fin1.occupied(hh));
                    assert(arena.occupied(hh));
                }
            }
            arena.set(&h, updated);
            proof {
                let hh = h.idx();
                let c = node3.children as int;
                let s1 = fin1.slots();
                let s3 = arena.slots();
                let nss = (size as int) / 2;
                assert(node_at(s3, hh) == updated);
                assert(is_leaf(node_at(s3, hh)));
                assert(subtree_ok(s3, arena.bitmap(), hh, size as int));
                assert(compressed(s3, hh, size as int));
                // every cell already read the common value before the
                // collapse, and reads it afterwards
                lemma_lookup_all_uniform(s1, hh, size as int, first.data);
                assert forall|a: int, b: int, cc: int| #[trigger]
                    lookup(s3, hh, size as int, a, b, cc) == lookup(
                    s1,
                    hh,
                    size as int,
                    a,
                    b,
                    cc,
                ) by {
                    assert(lookup(s1, hh, size as int, a, b, cc) == first.data);
                }
                // membership shrinks to this node alone
                assert forall|j: int| #[trigger]
                    in_sub(s3, hh, size as int, j) == (j == hh) by {}
                // slots outside the old subtree are untouched: the freed
                // group lay inside it
                assert forall|k: int| c <= k < c + 8 implies #[trigger] in_sub(
                    s1,
                    hh,
                    size as int,
                    k,
                ) by {
                    assert(in_sub(s1, c + (k - c), nss, k));
                    lemma_in_sub_child(s1, hh, size as int, k - c, k);
                }
                assert forall|j: int|
                    valid_slot(j) && !in_sub(s1, hh, size as int, j) && (j == 1 || fin1.occupied(
                        j,
                    )) implies #[trigger] node_at(s3, j) == node_at(s1, j) by {
                    assert(j != hh);
                    assert(!(c <= j < c + 8)) by {
                        if c <= j < c + 8 {
                            assert(in_sub(s1, hh, size as int, j));
                        }
                    }
                    assert(after_rm.val_at(j) == fin1.val_at(j));
                    assert(node_at(s3, j) == after_rm.val_at(j));
                }
                assert forall|j: int|
                    valid_handle(j) && !in_sub(s1, hh, size as int, j) implies #[trigger] arena
                    .occupied(j) == fin1.occupied(j) by {
                    assert(!(c <= j < c + 8)) by {
                        if c <= j < c + 8 {
                            assert(in_sub(s1, hh, size as int, j));
                        }
                    }
                    assert(after_rm.occupied(j) == fin1.occupied(j));
                    assert(arena.occupied(j) == after_rm.occupied(j));
                }
                // accounting: the group is gone from the store and from
                // the tree alike
                assert(tree_alloc(s3, hh, size as int) == 0);
                assert(tree_alloc(s1, hh, size as int) == 8) by {
                    lemma_tree_alloc_children(s1, hh, size as int);
                    assert(is_leaf(node_at(s1, c + 0)) && is_leaf(node_at(s1, c + 1)) && is_leaf(
                        node_at(s1, c + 2),
                    ) && is_leaf(node_at(s1, c + 3)) && is_leaf(node_at(s1, c + 4)) && is_leaf(
                        node_at(s1, c + 5),
                    ) && is_leaf(node_at(s1, c + 6)) && is_leaf(node_at(s1, c + 7)));
                    assert(tree_alloc(s1, c + 0, nss) == 0);
                    assert(tree_alloc(s1, c + 1, nss) == 0);
                    assert(tree_alloc(s1, c + 2, nss) == 0);
                    assert(tree_alloc(s1, c + 3, nss) == 0);
                    assert(tree_alloc(s1, c + 4, nss) == 0);
                    assert(tree_alloc(s1, c + 5, nss) == 0);
                    assert(tree_alloc(s1, c + 6, nss) == 0);
                    assert(tree_alloc(s1, c + 7, nss) == 0);
                }
            }
        } else {
            proof {
                let hh = h.idx();
                let c = node3.children as int;
                let s1 = fin1.slots();
                assert(compressed(s1, hh, size as int)) by {
                    assert(!uniform_kids(s1, c));
                }
            }
        }
    }


    /// Number of live arena slots backing the tree (the root slot is
    /// untracked and not counted).
    pub fn allocation_count(&self) -> (r: u32)
        requires
            self.wf(),
        ensures
            r as int == self.live_nodes(),
    {
        self.arena.get_allocation_count()
    }

    /// A read-only view of the whole node arena, dead slots included.
    pub fn as_slice(&self) -> (r: &[OctreeNode<T>])
        ensures
            r@ == self.nodes(),
            self.wf() ==> r@.len() == ARENA_SIZE as int,
    {
        self.arena.as_slice()
    }
}

impl<T: Default> Default for OctreeNode<T> {
    /// A parentless, childless leaf holding `T`'s default value.
    fn default() -> (r: Self)
        ensures
            r.children == 0,
            r.parent == 0,
            call_ensures(T::default, (), r.data),
    {
        OctreeNode { children: 0, parent: 0, data: T::default() }
    }
}



} // verus!
