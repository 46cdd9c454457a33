//! Conversion to GPU-friendly layout.
//!
//! WGSL has no portable 64-bit integer and no byte-addressable storage, so
//! masks cross as two u32 halves and voxel bytes are packed four per word.
//! This is a conversion layer only: the in-memory types are unchanged.

use crate::contree::Contree;
use crate::node::Node;
use vstd::prelude::*;

verus! {

/// A node as the shader reads it.
#[derive(Clone, Copy, Debug, PartialEq, Eq, Structural, Default)]
pub struct GpuNode {
    pub mask_lo: u32,
    pub mask_hi: u32,
    pub child_base: u32,
    pub material: u32,
}

/// A tree as the shader reads it.
#[derive(Clone, Debug)]
pub struct GpuVolume {
    pub nodes: Vec<GpuNode>,
    pub voxels: Vec<u32>,
    pub root: GpuNode,
    pub depth: u32,
}

/// A node with its mask split into halves.
pub open spec fn split_node(node: Node) -> GpuNode {
    GpuNode {
        mask_lo: node.mask as u32,
        mask_hi: (node.mask >> 32u64) as u32,
        child_base: node.child_base,
        material: node.material,
    }
}

impl From<Node> for GpuNode {
    fn from(node: Node) -> (gpu: GpuNode) {
        GpuNode {
            mask_lo: #[verifier::truncate] (node.mask as u32),
            mask_hi: #[verifier::truncate] ((node.mask >> 32u64) as u32),
            child_base: node.child_base,
            material: node.material,
        }
    }
}

impl vstd::std_specs::convert::FromSpecImpl<Node> for GpuNode {
    open spec fn obeys_from_spec() -> bool {
        true
    }

    open spec fn from_spec(node: Node) -> GpuNode {
        split_node(node)
    }
}

/// The voxel byte at an index of packed words.
pub open spec fn packed_byte(words: Seq<u32>, index: int) -> u8 {
    byte_in_word(words[index / 4], index % 4)
}

/// Byte `k` of a word, the lowest first.
pub open spec fn byte_in_word(word: u32, k: int) -> u8 {
    ((word >> ((k * 8) as u32)) & 0xff) as u8
}

/// Four bytes in one word, the first lowest.
fn pack_word(b0: u8, b1: u8, b2: u8, b3: u8) -> (word: u32)
    ensures
        byte_in_word(word, 0) == b0,
        byte_in_word(word, 1) == b1,
        byte_in_word(word, 2) == b2,
        byte_in_word(word, 3) == b3,
{
    let (w0, w1, w2, w3) = (b0 as u32, b1 as u32, b2 as u32, b3 as u32);
    let word: u32 = w0 | (w1 << 8u32) | (w2 << 16u32) | (w3 << 24u32);
    assert(((word >> 0u32) & 0xff) as u8 == b0 && ((word >> 8u32) & 0xff) as u8 == b1 && ((word
        >> 16u32) & 0xff) as u8 == b2 && ((word >> 24u32) & 0xff) as u8 == b3) by (bit_vector)
        requires
            word == (b0 as u32) | ((b1 as u32) << 8u32) | ((b2 as u32) << 16u32) | ((b3 as u32)
                << 24u32),
    ;
    word
}

/// Packs voxel bytes four to a word, little-endian within the word.
pub fn pack_voxels(bytes: &[u8]) -> (words: Vec<u32>)
    ensures
        words@.len() == (bytes@.len() + 3) / 4,
        forall|i: int| 0 <= i < bytes@.len() ==> packed_byte(words@, i) == #[trigger] bytes@[i],
        forall|i: int|
            bytes@.len() <= i < 4 * words@.len() ==> #[trigger] packed_byte(words@, i) == 0,
{
    let mut words: Vec<u32> = Vec::new();
    let mut at: usize = 0;
    while at < bytes.len()
        invariant
            at <= bytes@.len(),
            at < bytes@.len() ==> at == 4 * words@.len(),
            words@.len() == (at + 3) / 4,
            forall|i: int| 0 <= i < at ==> packed_byte(words@, i) == #[trigger] bytes@[i],
            forall|i: int| at <= i < 4 * words@.len() ==> #[trigger] packed_byte(words@, i) == 0,
        decreases bytes@.len() - at,
    {
        let left: usize = bytes.len() - at;
        let b0: u8 = bytes[at];
        let b1: u8 = if left > 1 { bytes[at + 1] } else { 0 };
        let b2: u8 = if left > 2 { bytes[at + 2] } else { 0 };
        let b3: u8 = if left > 3 { bytes[at + 3] } else { 0 };
        let ghost before = words@;
        words.push(pack_word(b0, b1, b2, b3));
        let ghost start = at as int;
        at = if left > 4 { at + 4 } else { bytes.len() };
        proof {
            assert forall|i: int| 0 <= i < 4 * words@.len() implies packed_byte(words@, i) == (
            if i < at {
                bytes@[i]
            } else {
                0
            }) by {
                if i < start {
                    assert(words@[i / 4] == before[i / 4]);
                    assert(packed_byte(before, i) == bytes@[i]);
                } else {
                    assert(i / 4 == before.len());
                    assert(i % 4 == i - start);
                }
            }
            assert forall|i: int| 0 <= i < at implies packed_byte(words@, i)
                == #[trigger] bytes@[i] by {
                assert(0 <= i < 4 * words@.len());
            }
        }
    }
    words
}

/// Reads back a single voxel byte from packed words.
pub fn unpack_voxel(words: &[u32], index: usize) -> (byte: u8)
    requires
        index < 4 * words@.len(),
    ensures
        byte == packed_byte(words@, index as int),
{
    let shift: u32 = ((index % 4) * 8) as u32;
    #[verifier::truncate]
    (((words[index / 4] >> shift) & 0xff) as u8)
}

/// Whether bytes are the words' bytes, each word's lowest byte first or each
/// word's highest byte first.
pub open spec fn native_bytes(words: Seq<u32>, bytes: Seq<u8>) -> bool {
    &&& bytes.len() == 4 * words.len()
    &&& {
        ||| forall|i: int|
            0 <= i < bytes.len() ==> #[trigger] bytes[i] == byte_in_word(words[i / 4], i % 4)
        ||| forall|i: int|
            0 <= i < bytes.len() ==> #[trigger] bytes[i] == byte_in_word(words[i / 4], 3 - i % 4)
    }
}

/// `bytemuck::cast_slice` from `u32` to `u8`: the same memory seen as bytes. There
/// are four to a word, and within each word they lie in the order the machine
/// stores them, which is the same for every word.
#[verifier::external_body]
fn words_as_bytes(words: &[u32]) -> (bytes: &[u8])
    ensures
        native_bytes(words@, bytes@),
{
    bytemuck::cast_slice(words)
}

/// The words of nodes, in field order.
pub open spec fn node_words(nodes: Seq<GpuNode>) -> Seq<u32>
    decreases nodes.len(),
{
    if nodes.len() == 0 {
        Seq::empty()
    } else {
        let n = nodes.last();
        node_words(nodes.drop_last()) + seq![n.mask_lo, n.mask_hi, n.child_base, n.material]
    }
}

/// There are four words to a node.
pub proof fn lemma_node_words(nodes: Seq<GpuNode>)
    ensures
        node_words(nodes).len() == 4 * nodes.len(),
    decreases nodes.len(),
{
    if nodes.len() > 0 {
        lemma_node_words(nodes.drop_last());
    }
}

impl GpuVolume {
    /// Holds exactly what the tree's arena holds.
    pub open spec fn mirrors(&self, tree: &Contree) -> bool {
        &&& self.nodes@ == tree.slots().nodes.map_values(|n: Node| split_node(n))
        &&& self.voxels@.len() == (tree.slots().voxels.len() + 3) / 4
        &&& forall|i: int|
            0 <= i < tree.slots().voxels.len() ==> packed_byte(self.voxels@, i)
                == #[trigger] tree.slots().voxels[i]
        &&& forall|i: int|
            tree.slots().voxels.len() <= i < 4 * self.voxels@.len() ==> #[trigger] packed_byte(
                self.voxels@,
                i,
            ) == 0
        &&& self.root == split_node(tree.top())
        &&& self.depth == tree.height() + 1
    }

    pub fn from_contree(tree: &Contree) -> (volume: GpuVolume)
        ensures
            volume.mirrors(tree),
    {
        let arena_nodes = tree.arena().nodes();
        let mut nodes: Vec<GpuNode> = Vec::new();
        for i in 0..arena_nodes.len()
            invariant
                arena_nodes@ == tree.slots().nodes,
                nodes@ == arena_nodes@.take(i as int).map_values(|n: Node| split_node(n)),
        {
            nodes.push(GpuNode::from(arena_nodes[i]));
            assert(nodes@ =~= arena_nodes@.take(i + 1).map_values(|n: Node| split_node(n)));
        }
        assert(arena_nodes@.take(arena_nodes@.len() as int) =~= arena_nodes@);
        GpuVolume {
            nodes,
            voxels: pack_voxels(tree.arena().voxels()),
            root: GpuNode::from(tree.root()),
            depth: tree.depth(),
        }
    }

    /// The nodes as the bytes that are uploaded: four words each, in field order.
    pub fn node_bytes(&self) -> (bytes: Vec<u8>)
        ensures
            native_bytes(node_words(self.nodes@), bytes@),
            bytes@.len() == 16 * self.nodes@.len(),
    {
        let mut words: Vec<u32> = Vec::new();
        for i in 0..self.nodes.len()
            invariant
                words@ == node_words(self.nodes@.take(i as int)),
        {
            let n = self.nodes[i];
            let ghost before = words@;
            words.push(n.mask_lo);
            words.push(n.mask_hi);
            words.push(n.child_base);
            words.push(n.material);
            proof {
                let more = self.nodes@.take(i + 1);
                assert(more.drop_last() =~= self.nodes@.take(i as int));
                assert(words@ =~= before + seq![n.mask_lo, n.mask_hi, n.child_base, n.material]);
            }
        }
        proof {
            assert(self.nodes@.take(self.nodes@.len() as int) =~= self.nodes@);
            lemma_node_words(self.nodes@);
        }
        vstd::slice::slice_to_vec(words_as_bytes(words.as_slice()))
    }

    /// The packed voxels as the bytes that are uploaded.
    pub fn voxel_bytes(&self) -> (bytes: &[u8])
        ensures
            native_bytes(self.voxels@, bytes@),
    {
        words_as_bytes(self.voxels.as_slice())
    }

    /// Root first, then the arena: the layout the shader expects, where arena
    /// slot `n` lives at buffer index `n + 1`. The shader reads the root from
    /// index 0, so traversal starts without a special case for it.
    pub fn buffer_nodes(&self) -> (out: Vec<GpuNode>)
        ensures
            out@ == seq![self.root] + self.nodes@,
    {
        let mut out: Vec<GpuNode> = Vec::new();
        out.push(self.root);
        for i in 0..self.nodes.len()
            invariant
                out@ == seq![self.root] + self.nodes@.take(i as int),
        {
            out.push(self.nodes[i]);
            assert(out@ =~= seq![self.root] + self.nodes@.take(i + 1));
        }
        assert(self.nodes@.take(self.nodes@.len() as int) =~= self.nodes@);
        out
    }
}

/// The halves of a mask make the mask again.
pub proof fn law_a_mask_survives_the_split(node: Node)
    ensures
        ((split_node(node).mask_hi as u64) << 32u64) | (split_node(node).mask_lo as u64)
            == node.mask,
        split_node(node).child_base == node.child_base,
        split_node(node).material == node.material,
{
    let mask = node.mask;
    assert(((((mask >> 32u64) as u32) as u64) << 32u64) | ((mask as u32) as u64) == mask)
        by (bit_vector);
}

/// The first of a word's four bytes counts least: a word is its bytes, each worth 256
/// times the one before it.
pub proof fn law_the_first_byte_of_a_word_is_lowest(word: u32)
    ensures
        word == byte_in_word(word, 0) + 0x100 * byte_in_word(word, 1) + 0x1_0000 * byte_in_word(
            word,
            2,
        ) + 0x100_0000 * byte_in_word(word, 3),
{
    assert(word == ((word >> 0u32) & 0xff) as u8 + 0x100 * (((word >> 8u32) & 0xff) as u8) + 0x1_0000
        * (((word >> 16u32) & 0xff) as u8) + 0x100_0000 * (((word >> 24u32) & 0xff) as u8))
        by (bit_vector);
}

/// Packed voxels stand four to a word, in order, the first lowest.
pub proof fn law_packed_voxels_stand_in_order(words: Seq<u32>, i: int)
    requires
        0 <= i < words.len(),
    ensures
        words[i] == packed_byte(words, 4 * i) + 0x100 * packed_byte(words, 4 * i + 1) + 0x1_0000
            * packed_byte(words, 4 * i + 2) + 0x100_0000 * packed_byte(words, 4 * i + 3),
{
    law_the_first_byte_of_a_word_is_lowest(words[i]);
    assert((4 * i) / 4 == i && (4 * i + 1) / 4 == i && (4 * i + 2) / 4 == i && (4 * i + 3) / 4 == i);
}

/// A node is uploaded as four words: the lower half of its mask, the upper half, where
/// its children start, and its material.
pub proof fn law_a_node_is_four_words(nodes: Seq<GpuNode>, i: int)
    requires
        0 <= i < nodes.len(),
    ensures
        node_words(nodes).len() == 4 * nodes.len(),
        node_words(nodes)[4 * i] == nodes[i].mask_lo,
        node_words(nodes)[4 * i + 1] == nodes[i].mask_hi,
        node_words(nodes)[4 * i + 2] == nodes[i].child_base,
        node_words(nodes)[4 * i + 3] == nodes[i].material,
    decreases nodes.len(),
{
    lemma_node_words(nodes);
    lemma_node_words(nodes.drop_last());
    if i < nodes.len() - 1 {
        law_a_node_is_four_words(nodes.drop_last(), i);
    }
}

/// What is uploaded is the tree: every node slot with both halves of its mask, where
/// its children start and its material, the root beside them, and every voxel byte at
/// its own slot.
pub proof fn law_what_is_uploaded_is_the_tree(volume: GpuVolume, tree: Contree)
    requires
        volume.mirrors(&tree),
    ensures
        volume.nodes@.len() == tree.slots().nodes.len(),
        forall|i: int|
            0 <= i < tree.slots().nodes.len() ==> {
                let (gpu, node) = (volume.nodes@[i], #[trigger] tree.slots().nodes[i]);
                &&& ((gpu.mask_hi as u64) << 32u64) | (gpu.mask_lo as u64) == node.mask
                &&& gpu.child_base == node.child_base
                &&& gpu.material == node.material
            },
        ((volume.root.mask_hi as u64) << 32u64) | (volume.root.mask_lo as u64) == tree.top().mask,
        volume.root.child_base == tree.top().child_base,
        volume.root.material == tree.top().material,
        volume.depth == tree.height() + 1,
        4 * volume.voxels@.len() >= tree.slots().voxels.len() > 4 * volume.voxels@.len() - 4
            || tree.slots().voxels.len() == volume.voxels@.len() == 0,
        forall|i: int|
            0 <= i < volume.voxels@.len() ==> {
                let byte = |k: int|
                    if k < tree.slots().voxels.len() {
                        tree.slots().voxels[k] as int
                    } else {
                        0
                    };
                #[trigger] volume.voxels@[i] == byte(4 * i) + 0x100 * byte(4 * i + 1) + 0x1_0000
                    * byte(4 * i + 2) + 0x100_0000 * byte(4 * i + 3)
            },
{
    assert forall|i: int| 0 <= i < tree.slots().nodes.len() implies {
        let (gpu, node) = (volume.nodes@[i], #[trigger] tree.slots().nodes[i]);
        &&& ((gpu.mask_hi as u64) << 32u64) | (gpu.mask_lo as u64) == node.mask
        &&& gpu.child_base == node.child_base
        &&& gpu.material == node.material
    } by {
        law_a_mask_survives_the_split(tree.slots().nodes[i]);
    }
    law_a_mask_survives_the_split(tree.top());
    assert forall|i: int| 0 <= i < volume.voxels@.len() implies {
        let byte = |k: int|
            if k < tree.slots().voxels.len() {
                tree.slots().voxels[k] as int
            } else {
                0
            };
        #[trigger] volume.voxels@[i] == byte(4 * i) + 0x100 * byte(4 * i + 1) + 0x1_0000 * byte(
            4 * i + 2,
        ) + 0x100_0000 * byte(4 * i + 3)
    } by {
        law_packed_voxels_stand_in_order(volume.voxels@, i);
        let all = tree.slots().voxels;
        let words = volume.voxels@;
        assert forall|k: int| 4 * i <= k < 4 * i + 4 implies #[trigger] packed_byte(words, k)
            == if k < all.len() {
            all[k]
        } else {
            0
        } by {
            if k < all.len() {
                assert(packed_byte(words, k) == all[k]);
            }
        }
    }
}

} // verus!
