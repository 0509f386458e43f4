//! Block management: the collection of top-level blocks with lookup,
//! chaining, grouping, the animation cache policy, and layout passes.

use vstd::prelude::*;
use crate::block::{first_id_index, has_id, wf_blocks, ImageBlock};
use crate::constants::{
    ALIGN_SPACING, BLOCK_PADDING, CANVAS_PADDING, COORD_LIMIT, DIM_LIMIT, GESTURE_LIMIT,
    MAX_CACHED_ANIMATIONS, MAX_TOTAL_BLOCKS, MIN_CANVAS_INNER_WIDTH,
};
use crate::geom::Vec2;

verus! {

/// A set of block identifiers forming one chain group, in the order the
/// blocks were encountered.
pub type ChainedIds = Vec<u128>;

/// Whether an identifier sequence holds this identifier.
pub open spec fn spec_ids_contain(s: Seq<u128>, id: u128) -> bool {
    s.contains(id)
}

/// Whether two identifier sequences share no identifier.
pub open spec fn spec_ids_disjoint(a: Seq<u128>, b: Seq<u128>) -> bool {
    forall|i: int| 0 <= i < a.len() ==> !b.contains(#[trigger] a[i])
}

/// Whether the identifier set holds this identifier.
pub fn ids_contains(s: &ChainedIds, id: u128) -> (r: bool)
    ensures
        r == spec_ids_contain(s@, id),
{
    let n = s.len();
    let mut i: usize = 0;
    while i < n
        invariant
            n == s@.len(),
            i <= n,
            forall|j: int| 0 <= j < i ==> s@[j] != id,
        decreases n - i,
    {
        if s[i] == id {
            return true;
        }
        i += 1;
    }
    false
}

/// Whether two identifier sets share no identifier.
pub fn ids_disjoint(a: &ChainedIds, b: &ChainedIds) -> (r: bool)
    ensures
        r == spec_ids_disjoint(a@, b@),
{
    let n = a.len();
    let mut i: usize = 0;
    while i < n
        invariant
            n == a@.len(),
            i <= n,
            forall|j: int| 0 <= j < i ==> !b@.contains(#[trigger] a@[j]),
        decreases n - i,
    {
        if ids_contains(b, a[i]) {
            return false;
        }
        i += 1;
    }
    true
}

/// The identifiers of the chained blocks, in block order.
pub open spec fn spec_chained_ids(s: Seq<ImageBlock>) -> Seq<u128> {
    s.filter(|b: ImageBlock| b.chained).map_values(|b: ImageBlock| b.id)
}

/// The index of the first remembered chain holding this identifier, or
/// -1 when none does.
pub open spec fn first_chain_containing(chains: Seq<ChainedIds>, id: u128) -> int
    decreases chains.len(),
{
    if chains.len() == 0 {
        -1
    } else if chains[0]@.contains(id) {
        0
    } else {
        let r = first_chain_containing(chains.subrange(1, chains.len() as int), id);
        if r < 0 {
            -1
        } else {
            r + 1
        }
    }
}

/// Manages the collection of blocks with operations for lookup,
/// chaining, grouping, animation caching and layout.
pub struct BlockManager {
    pub blocks: Vec<ImageBlock>,
    pub next_block_id: usize,
    pub remembered_chains: Vec<ChainedIds>,
    pub animation_access_order: Vec<u128>,
    pub last_unboxed_ids: Vec<u128>,
    pub last_boxed_id: Option<u128>,
}

/// Well-formedness of a manager: all blocks well formed, few enough for
/// layout arithmetic, and the animation access list free of duplicates
/// and within its budget.
pub open spec fn wf_manager(m: BlockManager) -> bool {
    &&& wf_blocks(m.blocks@)
    &&& m.blocks@.len() <= MAX_TOTAL_BLOCKS
    &&& m.animation_access_order@.len() <= MAX_CACHED_ANIMATIONS
    &&& forall|i: int, j: int|
        0 <= i < j < m.animation_access_order@.len() ==> m.animation_access_order@[i]
            != m.animation_access_order@[j]
}

impl BlockManager {
    /// A new, empty manager.
    pub fn new() -> (r: BlockManager)
        ensures
            r.blocks@.len() == 0,
            r.next_block_id == 0,
            r.remembered_chains@.len() == 0,
            r.animation_access_order@.len() == 0,
            r.last_unboxed_ids@.len() == 0,
            r.last_boxed_id is None,
            wf_manager(r),
    {
        BlockManager {
            blocks: Vec::new(),
            next_block_id: 0,
            remembered_chains: Vec::new(),
            animation_access_order: Vec::new(),
            last_unboxed_ids: Vec::new(),
            last_boxed_id: None,
        }
    }

    /// All blocks, in order.
    pub fn blocks(&self) -> (r: &Vec<ImageBlock>)
        ensures
            r@ == self.blocks@,
    {
        &self.blocks
    }

    /// All blocks, in order, for mutation.
    pub fn blocks_mut(&mut self) -> (r: &mut Vec<ImageBlock>)
        ensures
            *r == old(self).blocks,
            *final(self) == (BlockManager { blocks: *final(r), ..*old(self) }),
    {
        &mut self.blocks
    }

    /// The number of top-level blocks.
    pub fn len(&self) -> (r: usize)
        ensures
            r == self.blocks@.len(),
    {
        self.blocks.len()
    }

    /// Whether there are no blocks.
    pub fn is_empty(&self) -> (r: bool)
        ensures
            r == (self.blocks@.len() == 0),
    {
        self.blocks.is_empty()
    }

    /// The identifiers of all top-level blocks, in order.
    pub fn block_ids(&self) -> (r: Vec<u128>)
        ensures
            r@.len() == self.blocks@.len(),
            forall|i: int| 0 <= i < r@.len() ==> r@[i] == self.blocks@[i].id,
    {
        let n = self.blocks.len();
        let mut out: Vec<u128> = Vec::new();
        let mut i: usize = 0;
        while i < n
            invariant
                n == self.blocks@.len(),
                i <= n,
                out@.len() == i,
                forall|j: int| 0 <= j < i ==> out@[j] == self.blocks@[j].id,
            decreases n - i,
        {
            out.push(self.blocks[i].id);
            i += 1;
        }
        out
    }

    /// The next value of the block counter used for naming resources.
    pub fn next_block_id(&self) -> (r: usize)
        ensures
            r == self.next_block_id,
    {
        self.next_block_id
    }

    /// Takes the next resource counter value, advancing the counter.
    pub fn allocate_block_id(&mut self) -> (r: usize)
        requires
            old(self).next_block_id < usize::MAX,
        ensures
            r == old(self).next_block_id,
            *final(self) == (BlockManager {
                next_block_id: (old(self).next_block_id + 1) as usize,
                ..*old(self)
            }),
    {
        let id = self.next_block_id;
        self.next_block_id += 1;
        id
    }

    /// The index of the first block with this identifier, or `None`.
    pub fn index_of(&self, id: u128) -> (r: Option<usize>)
        ensures
            r == if first_id_index(self.blocks@, id) >= 0 {
                Some(first_id_index(self.blocks@, id) as usize)
            } else {
                Option::<usize>::None
            },
    {
        let r = crate::block::block_index_in_slice(&self.blocks, id);
        proof {
            match r {
                Some(i) => {
                    crate::block::lemma_first_id_index(self.blocks@, id, i as int);
                },
                None => {
                    lemma_no_id_no_first(self.blocks@, id);
                },
            }
        }
        r
    }

    /// The first block with this identifier, or `None`.
    pub fn get(&self, id: u128) -> (r: Option<&ImageBlock>)
        ensures
            match r {
                Some(b) => first_id_index(self.blocks@, id) >= 0 && *b == self.blocks@[
                    first_id_index(self.blocks@, id)
                ],
                None => !has_id(self.blocks@, id),
            },
    {
        match self.index_of(id) {
            Some(i) => {
                proof {
                    lemma_first_found(self.blocks@, id);
                    vstd::std_specs::vec::axiom_spec_len(&self.blocks);
                    assert(i as int == first_id_index(self.blocks@, id));
                }
                Some(&self.blocks[i])
            },
            None => {
                proof {
                    lemma_first_found(self.blocks@, id);
                }
                None
            },
        }
    }

    /// The first block with this identifier, for mutation, or `None`.
    pub fn get_mut(&mut self, id: u128) -> (r: Option<&mut ImageBlock>)
        ensures
            match r {
                Some(b) => {
                    let idx = first_id_index(old(self).blocks@, id);
                    &&& idx >= 0
                    &&& *b == old(self).blocks@[idx]
                    &&& final(self).blocks@ == old(self).blocks@.update(idx, *final(b))
                    &&& *final(self) == (BlockManager {
                        blocks: final(self).blocks,
                        ..*old(self)
                    })
                },
                None => {
                    &&& !has_id(old(self).blocks@, id)
                    &&& *final(self) == *old(self)
                },
            },
    {
        proof {
            lemma_first_found(self.blocks@, id);
        }
        match crate::block::block_index_in_slice(&self.blocks, id) {
            Some(i) => {
                proof {
                    crate::block::lemma_first_id_index(self.blocks@, id, i as int);
                    vstd::std_specs::vec::axiom_spec_len(&self.blocks);
                }
                Some(&mut self.blocks[i])
            },
            None => None,
        }
    }

    /// The block at this index, or `None` past the end.
    pub fn get_by_index(&self, index: usize) -> (r: Option<&ImageBlock>)
        ensures
            r == if index < self.blocks@.len() {
                Some(&self.blocks@[index as int])
            } else {
                Option::<&ImageBlock>::None
            },
    {
        if index < self.blocks.len() {
            Some(&self.blocks[index])
        } else {
            None
        }
    }

    /// The block at this index, for mutation, or `None` past the end.
    pub fn get_by_index_mut(&mut self, index: usize) -> (r: Option<&mut ImageBlock>)
        ensures
            match r {
                Some(b) => {
                    &&& index < old(self).blocks@.len()
                    &&& *b == old(self).blocks@[index as int]
                    &&& final(self).blocks@ == old(self).blocks@.update(
                        index as int,
                        *final(b),
                    )
                    &&& *final(self) == (BlockManager {
                        blocks: final(self).blocks,
                        ..*old(self)
                    })
                },
                None => {
                    &&& index >= old(self).blocks@.len()
                    &&& *final(self) == *old(self)
                },
            },
    {
        if index < self.blocks.len() {
            Some(&mut self.blocks[index])
        } else {
            None
        }
    }

    /// Adds a block at the end of the collection.
    pub fn push(&mut self, block: ImageBlock)
        ensures
            *final(self) == (BlockManager { blocks: final(self).blocks, ..*old(self) }),
            final(self).blocks@ == old(self).blocks@.push(block),
    {
        self.blocks.push(block);
    }

    /// Inserts a block at the given index.
    pub fn insert(&mut self, index: usize, block: ImageBlock)
        requires
            index <= old(self).blocks@.len(),
        ensures
            *final(self) == (BlockManager { blocks: final(self).blocks, ..*old(self) }),
            final(self).blocks@ == old(self).blocks@.insert(index as int, block),
    {
        self.blocks.insert(index, block);
    }

    /// Removes and returns the block at this index; the animation access
    /// list forgets its identifier.
    pub fn remove(&mut self, index: usize) -> (r: ImageBlock)
        requires
            index < old(self).blocks@.len(),
        ensures
            r == old(self).blocks@[index as int],
            final(self).blocks@ == old(self).blocks@.remove(index as int),
            final(self).animation_access_order@ == old(self).animation_access_order@.filter(
                |x: u128| x != r.id,
            ),
            *final(self) == (BlockManager {
                blocks: final(self).blocks,
                animation_access_order: final(self).animation_access_order,
                ..*old(self)
            }),
    {
        let block = self.blocks.remove(index);
        retain_ids_not_equal(&mut self.animation_access_order, block.id);
        block
    }

    /// Removes the first block with this identifier, if present.
    pub fn remove_by_id(&mut self, id: u128) -> (r: Option<ImageBlock>)
        ensures
            match r {
                Some(b) => {
                    let idx = first_id_index(old(self).blocks@, id);
                    &&& idx >= 0
                    &&& b == old(self).blocks@[idx]
                    &&& final(self).blocks@ == old(self).blocks@.remove(idx)
                    &&& final(self).animation_access_order@ == old(self).animation_access_order@.filter(|x: u128| x != b.id)
                    &&& *final(self) == (BlockManager {
                        blocks: final(self).blocks,
                        animation_access_order: final(self).animation_access_order,
                        ..*old(self)
                    })
                },
                None => {
                    &&& !has_id(old(self).blocks@, id)
                    &&& *final(self) == *old(self)
                },
            },
    {
        match self.index_of(id) {
            Some(idx) => {
                proof {
                    lemma_first_found(self.blocks@, id);
                    vstd::std_specs::vec::axiom_spec_len(&self.blocks);
                    assert(idx as int == first_id_index(self.blocks@, id));
                }
                Some(self.remove(idx))
            },
            None => {
                proof {
                    lemma_first_found(self.blocks@, id);
                }
                None
            },
        }
    }

    /// Clears all blocks and the animation access list.
    pub fn clear(&mut self)
        ensures
            final(self).blocks@.len() == 0,
            final(self).animation_access_order@.len() == 0,
            *final(self) == (BlockManager {
                blocks: final(self).blocks,
                animation_access_order: final(self).animation_access_order,
                ..*old(self)
            }),
    {
        self.blocks.clear();
        self.animation_access_order.clear();
    }

    /// The least-to-most recently used identifiers of blocks whose
    /// animations were activated.
    pub fn animation_access_order(&self) -> (r: &Vec<u128>)
        ensures
            r@ == self.animation_access_order@,
    {
        &self.animation_access_order
    }

    /// Whether chaining is possible: there is at least one block.
    pub fn can_chain(&self) -> (r: bool)
        ensures
            r == (self.blocks@.len() > 0),
    {
        !self.blocks.is_empty()
    }

    /// The number of chained blocks.
    pub fn chained_count(&self) -> (r: usize)
        ensures
            r == crate::block::spec_count_chained(self.blocks@),
    {
        crate::block::count_chained(&self.blocks)
    }

    /// The identifiers of the chained blocks, in block order.
    pub fn chained_ids(&self) -> (r: ChainedIds)
        ensures
            r@ == spec_chained_ids(self.blocks@),
    {
        let n = self.blocks.len();
        let mut out: Vec<u128> = Vec::new();
        let mut i: usize = 0;
        while i < n
            invariant
                n == self.blocks@.len(),
                i <= n,
                out@ == spec_chained_ids(self.blocks@.take(i as int)),
            decreases n - i,
        {
            proof {
                lemma_chained_ids_take_step(self.blocks@, i as int);
            }
            if self.blocks[i].chained {
                out.push(self.blocks[i].id);
            }
            i += 1;
        }
        proof {
            assert(self.blocks@.take(n as int) =~= self.blocks@);
        }
        out
    }

    /// The indices of the chained blocks, ascending.
    pub fn chained_indices(&self) -> (r: Vec<usize>)
        ensures
            r@.len() == spec_chained_ids(self.blocks@).len(),
            forall|k: int|
                0 <= k < r@.len() ==> (#[trigger] r@[k]) < self.blocks@.len()
                    && self.blocks@[r@[k] as int].chained,
            forall|k1: int, k2: int| 0 <= k1 < k2 < r@.len() ==> r@[k1] < r@[k2],
            forall|i: int|
                0 <= i < self.blocks@.len() && (#[trigger] self.blocks@[i]).chained
                    ==> r@.contains(i as usize),
    {
        let n = self.blocks.len();
        let mut out: Vec<usize> = Vec::new();
        let mut i: usize = 0;
        while i < n
            invariant
                n == self.blocks@.len(),
                i <= n,
                out@.len() == spec_chained_ids(self.blocks@.take(i as int)).len(),
                forall|k: int|
                    0 <= k < out@.len() ==> (#[trigger] out@[k]) < i
                        && self.blocks@[out@[k] as int].chained,
                forall|k1: int, k2: int| 0 <= k1 < k2 < out@.len() ==> out@[k1] < out@[k2],
                forall|j: int|
                    0 <= j < i && (#[trigger] self.blocks@[j]).chained ==> out@.contains(
                        j as usize,
                    ),
            decreases n - i,
        {
            proof {
                lemma_chained_ids_take_step(self.blocks@, i as int);
            }
            let ghost pre = out@;
            if self.blocks[i].chained {
                out.push(i);
                proof {
                    assert(out@ == pre.push(i as usize));
                    assert forall|j: int|
                        0 <= j < i + 1 && (#[trigger] self.blocks@[j]).chained implies out@
                        .contains(j as usize) by {
                        if j < i {
                            assert(pre.contains(j as usize));
                            let k = choose|k: int| 0 <= k < pre.len() && pre[k] == (j as usize);
                            assert(out@[k] == j as usize);
                        } else {
                            assert(out@[out@.len() - 1] == j as usize);
                        }
                    };
                }
            }
            i += 1;
        }
        proof {
            assert(self.blocks@.take(n as int) =~= self.blocks@);
        }
        out
    }

    /// The remembered chain groups.
    pub fn remembered_chains(&self) -> (r: &Vec<ChainedIds>)
        ensures
            r@ == self.remembered_chains@,
    {
        &self.remembered_chains
    }

    /// Replaces the remembered chain groups, as a session load does.
    pub fn set_remembered_chains(&mut self, chains: Vec<ChainedIds>)
        ensures
            *final(self) == (BlockManager { remembered_chains: chains, ..*old(self) }),
    {
        self.remembered_chains = chains;
    }

    /// Clears the chained selection. When it held at least two blocks it
    /// becomes a remembered chain, evicting every remembered chain that
    /// shares a member with it; remembered chains therefore stay
    /// pairwise disjoint.
    pub fn clear_chain_group(&mut self)
        ensures
            final(self).blocks@.len() == old(self).blocks@.len(),
            forall|i: int|
                0 <= i < old(self).blocks@.len() ==> final(self).blocks@[i] == (ImageBlock {
                    chained: false,
                    ..old(self).blocks@[i]
                }),
            final(self).remembered_chains@ == if spec_chained_ids(old(self).blocks@).len() >= 2 {
                old(self).remembered_chains@.filter(
                    |c: ChainedIds| spec_ids_disjoint(c@, spec_chained_ids(old(self).blocks@)),
                ).push(final(self).remembered_chains@.last())
            } else {
                old(self).remembered_chains@
            },
            spec_chained_ids(old(self).blocks@).len() >= 2 ==> final(self).remembered_chains@.last()@ == spec_chained_ids(old(self).blocks@),
            *final(self) == (BlockManager {
                blocks: final(self).blocks,
                remembered_chains: final(self).remembered_chains,
                ..*old(self)
            }),
    {
        let chained_ids = self.chained_ids();

        if chained_ids.len() >= 2 {
            let ghost orig = self.remembered_chains@;
            let mut kept: Vec<ChainedIds> = Vec::new();
            let ghost i: int = 0;
            proof {
                reveal_with_fuel(Seq::<ChainedIds>::filter, 1);
                assert(orig.take(0) =~= Seq::<ChainedIds>::empty());
            }
            while self.remembered_chains.len() > 0
                invariant
                    0 <= i <= orig.len(),
                    self.remembered_chains@ == orig.subrange(i, orig.len() as int),
                    chained_ids@ == spec_chained_ids(old(self).blocks@),
                    kept@ == orig.take(i).filter(
                        |c: ChainedIds| spec_ids_disjoint(c@, chained_ids@),
                    ),
                    *self == (BlockManager {
                        remembered_chains: self.remembered_chains,
                        ..*old(self)
                    }),
                decreases self.remembered_chains@.len(),
            {
                proof {
                    reveal_with_fuel(Seq::<ChainedIds>::filter, 2);
                    assert(orig.take(i + 1).drop_last() =~= orig.take(i));
                    assert(orig.take(i + 1).last() == orig[i]);
                    assert(self.remembered_chains@[0] == orig[i]);
                }
                let chain = self.remembered_chains.remove(0);
                if ids_disjoint(&chain, &chained_ids) {
                    kept.push(chain);
                }
                proof {
                    assert(self.remembered_chains@ =~= orig.subrange(i + 1, orig.len() as int));
                    i = i + 1;
                }
            }
            proof {
                assert(orig.take(orig.len() as int) =~= orig);
            }
            kept.push(chained_ids);
            self.remembered_chains = kept;
        }

        let ghost rc = self.remembered_chains@;
        proof {
            assert(spec_chained_ids(old(self).blocks@).len() >= 2 ==> rc.last()@
                == spec_chained_ids(old(self).blocks@));
        }
        let n = self.blocks.len();
        let mut i: usize = 0;
        while i < n
            invariant
                n == self.blocks@.len() == old(self).blocks@.len(),
                i <= n,
                forall|j: int|
                    0 <= j < i ==> self.blocks@[j] == (ImageBlock {
                        chained: false,
                        ..old(self).blocks@[j]
                    }),
                forall|j: int| i <= j < n ==> #[trigger] self.blocks@[j] == old(self).blocks@[j],
                *self == (BlockManager {
                    blocks: self.blocks,
                    remembered_chains: self.remembered_chains,
                    ..*old(self)
                }),
                self.remembered_chains@ == rc,
                rc == if spec_chained_ids(old(self).blocks@).len() >= 2 {
                    old(self).remembered_chains@.filter(
                        |c: ChainedIds| spec_ids_disjoint(
                            c@,
                            spec_chained_ids(old(self).blocks@),
                        ),
                    ).push(rc.last())
                } else {
                    old(self).remembered_chains@
                },
                spec_chained_ids(old(self).blocks@).len() >= 2 ==> rc.last()@
                    == spec_chained_ids(old(self).blocks@),
            decreases n - i,
        {
            self.blocks[i].chained = false;
            i += 1;
        }
    }

    /// Toggles the chained flag of the block at this index. Turning it
    /// on restores the whole remembered chain the block belongs to, if
    /// any; turning it off releases only this block.
    pub fn toggle_chain(&mut self, index: usize)
        requires
            index < old(self).blocks@.len(),
        ensures
            final(self).blocks@.len() == old(self).blocks@.len(),
            *final(self) == (BlockManager { blocks: final(self).blocks, ..*old(self) }),
            if old(self).blocks@[index as int].chained {
                final(self).blocks@ == old(self).blocks@.update(
                    index as int,
                    ImageBlock { chained: false, ..old(self).blocks@[index as int] },
                )
            } else {
                {
                    let ci = first_chain_containing(
                        old(self).remembered_chains@,
                        old(self).blocks@[index as int].id,
                    );
                    if ci >= 0 {
                        forall|j: int|
                            0 <= j < old(self).blocks@.len() ==> final(self).blocks@[j] == (
                            ImageBlock {
                                chained: old(self).blocks@[j].chained || old(self).remembered_chains@[ci]@.contains(old(self).blocks@[j].id),
                                ..old(self).blocks@[j]
                            })
                    } else {
                        final(self).blocks@ == old(self).blocks@.update(
                            index as int,
                            ImageBlock { chained: true, ..old(self).blocks@[index as int] },
                        )
                    }
                }
            },
    {
        let block_id = self.blocks[index].id;
        let was_chained = self.blocks[index].chained;

        if !was_chained {
            let chain_idx = self.find_remembered_chain(block_id);
            proof {
                lemma_chain_found(self.remembered_chains@, block_id);
                vstd::std_specs::vec::axiom_spec_len(&self.remembered_chains);
            }
            match chain_idx {
                Some(ci) => {
                    let n = self.blocks.len();
                    let mut i: usize = 0;
                    while i < n
                        invariant
                            n == self.blocks@.len() == old(self).blocks@.len(),
                            ci < self.remembered_chains@.len(),
                            i <= n,
                            forall|j: int|
                                0 <= j < i ==> self.blocks@[j] == (ImageBlock {
                                    chained: old(self).blocks@[j].chained || old(self).remembered_chains@[ci as int]@.contains(
                                        old(self).blocks@[j].id,
                                    ),
                                    ..old(self).blocks@[j]
                                }),
                            forall|j: int|
                                i <= j < n ==> #[trigger] self.blocks@[j] == old(self).blocks@[j],
                            *self == (BlockManager { blocks: self.blocks, ..*old(self) }),
                        decreases n - i,
                    {
                        if ids_contains(&self.remembered_chains[ci], self.blocks[i].id) {
                            self.blocks[i].chained = true;
                        } else {
                            let keep = self.blocks[i].chained;
                            self.blocks[i].chained = keep;
                        }
                        i += 1;
                    }
                },
                None => {
                    self.blocks[index].chained = true;
                    proof {
                        assert(self.blocks@ =~= old(self).blocks@.update(
                            index as int,
                            ImageBlock {
                                chained: true,
                                ..old(self).blocks@[index as int]
                            },
                        ));
                    }
                },
            }
        } else {
            self.blocks[index].chained = false;
            proof {
                assert(self.blocks@ =~= old(self).blocks@.update(
                    index as int,
                    ImageBlock { chained: false, ..old(self).blocks@[index as int] },
                ));
            }
        }
    }

    /// The index of the first remembered chain holding this identifier.
    fn find_remembered_chain(&self, id: u128) -> (r: Option<usize>)
        ensures
            r == if first_chain_containing(self.remembered_chains@, id) >= 0 {
                Some(first_chain_containing(self.remembered_chains@, id) as usize)
            } else {
                Option::<usize>::None
            },
    {
        let n = self.remembered_chains.len();
        let mut i: usize = 0;
        while i < n
            invariant
                n == self.remembered_chains@.len(),
                i <= n,
                forall|j: int| 0 <= j < i ==> !self.remembered_chains@[j]@.contains(id),
            decreases n - i,
        {
            if ids_contains(&self.remembered_chains[i], id) {
                proof {
                    lemma_first_chain_containing(self.remembered_chains@, id, i as int);
                }
                return Some(i);
            }
            i += 1;
        }
        proof {
            lemma_no_chain_containing(self.remembered_chains@, id);
        }
        None
    }

    /// Clears the chain selection when no blocks remain.
    pub fn enforce_chain_constraints(&mut self)
        ensures
            old(self).blocks@.len() > 0 ==> *final(self) == *old(self),
            old(self).blocks@.len() == 0 ==> final(self).blocks@.len() == 0 && final(self).remembered_chains@ == old(self).remembered_chains@,
    {
        if self.blocks.is_empty() {
            self.clear_chain_group();
        }
    }

    /// Moves the leader of a drag to the given position; when it is
    /// chained, every other chained block moves by the same delta.
    pub fn apply_drag(&mut self, index: usize, new_pos: Vec2)
        requires
            index < old(self).blocks@.len(),
            -GESTURE_LIMIT <= new_pos.x <= GESTURE_LIMIT,
            -GESTURE_LIMIT <= new_pos.y <= GESTURE_LIMIT,
            forall|i: int|
                0 <= i < old(self).blocks@.len() ==> -GESTURE_LIMIT <= (#[trigger] old(self).blocks@[i]).pos.position.x <= GESTURE_LIMIT && -GESTURE_LIMIT <= old(self).blocks@[i].pos.position.y <= GESTURE_LIMIT,
        ensures
            final(self).blocks@.len() == old(self).blocks@.len(),
            *final(self) == (BlockManager { blocks: final(self).blocks, ..*old(self) }),
            ({
                let s = old(self).blocks@;
                let dx = new_pos.x - s[index as int].pos.position.x;
                let dy = new_pos.y - s[index as int].pos.position.y;
                forall|j: int|
                    0 <= j < s.len() ==> final(self).blocks@[j] == (if j == index as int || (
                    s[index as int].chained && (#[trigger] s[j]).chained) {
                        ImageBlock {
                            pos: crate::block::BlockPosition {
                                position: Vec2 {
                                    x: (s[j].pos.position.x + dx) as i64,
                                    y: (s[j].pos.position.y + dy) as i64,
                                },
                                ..s[j].pos
                            },
                            ..s[j]
                        }
                    } else {
                        s[j]
                    })
            }),
    {
        let ghost s = self.blocks@;
        let old_pos = self.blocks[index].pos.position;
        let dx = new_pos.x - old_pos.x;
        let dy = new_pos.y - old_pos.y;
        let leader_chained = self.blocks[index].chained;
        let n = self.blocks.len();
        let mut i: usize = 0;
        while i < n
            invariant
                n == self.blocks@.len() == s.len(),
                i <= n,
                index < n,
                dx == new_pos.x - s[index as int].pos.position.x,
                dy == new_pos.y - s[index as int].pos.position.y,
                leader_chained == s[index as int].chained,
                -2 * GESTURE_LIMIT <= dx <= 2 * GESTURE_LIMIT,
                -2 * GESTURE_LIMIT <= dy <= 2 * GESTURE_LIMIT,
                forall|k: int|
                    0 <= k < s.len() ==> -GESTURE_LIMIT <= (#[trigger] s[k]).pos.position.x
                        <= GESTURE_LIMIT && -GESTURE_LIMIT <= s[k].pos.position.y
                        <= GESTURE_LIMIT,
                forall|j: int|
                    0 <= j < i ==> self.blocks@[j] == (if j == index as int || (leader_chained
                        && (#[trigger] s[j]).chained) {
                        ImageBlock {
                            pos: crate::block::BlockPosition {
                                position: Vec2 {
                                    x: (s[j].pos.position.x + dx) as i64,
                                    y: (s[j].pos.position.y + dy) as i64,
                                },
                                ..s[j].pos
                            },
                            ..s[j]
                        }
                    } else {
                        s[j]
                    }),
                forall|j: int| i <= j < n ==> #[trigger] self.blocks@[j] == s[j],
                *self == (BlockManager { blocks: self.blocks, ..*old(self) }),
            decreases n - i,
        {
            if i == index || (leader_chained && self.blocks[i].chained) {
                let px = self.blocks[i].pos.position.x + dx;
                let py = self.blocks[i].pos.position.y + dy;
                self.blocks[i].pos.position = Vec2 { x: px, y: py };
            }
            i += 1;
        }
    }

    /// Marks this block's animation as most recently used; when the
    /// cache then holds more than its budget, the least recently used
    /// block loses its extra frames: they are truncated to the first,
    /// its full-sequence flag clears, and its playback stops.
    pub fn mark_animation_used(&mut self, id: u128)
        requires
            wf_manager(*old(self)),
        ensures
            wf_manager(*final(self)),
            ({
                let pruned = old(self).animation_access_order@.filter(|x: u128| x != id).push(
                    id,
                );
                if pruned.len() > MAX_CACHED_ANIMATIONS {
                    final(self).animation_access_order@ == pruned.subrange(
                        1,
                        pruned.len() as int,
                    ) && spec_purged(old(self).blocks@, final(self).blocks@, pruned[0])
                } else {
                    final(self).animation_access_order@ == pruned && final(self).blocks@ == old(self).blocks@
                }
            }),
            *final(self) == (BlockManager {
                blocks: final(self).blocks,
                animation_access_order: final(self).animation_access_order,
                ..*old(self)
            }),
    {
        retain_ids_not_equal(&mut self.animation_access_order, id);
        self.animation_access_order.push(id);

        if self.animation_access_order.len() > MAX_CACHED_ANIMATIONS {
            let to_purge_id = self.animation_access_order.remove(0);
            self.purge_animation_frames(to_purge_id);
        } else {
            proof {
                lemma_filter_retains_non_membership(
                    old(self).animation_access_order@,
                    id,
                );
            }
        }
        proof {
            lemma_filter_retains_non_membership(old(self).animation_access_order@, id);
            let pruned = old(self).animation_access_order@.filter(|x: u128| x != id).push(id);
            old(self).animation_access_order@.lemma_filter_len(|x: u128| x != id);
            assert forall|i: int, j: int|
                0 <= i < j < final(self).animation_access_order@.len() implies final(self).animation_access_order@[i] != final(self).animation_access_order@[j] by {
                lemma_pruned_no_dups(old(self).animation_access_order@, id, i, j);
            }
        }
    }

    /// Truncates a block's animation to its first frame when it holds a
    /// full sequence, stopping playback.
    fn purge_animation_frames(&mut self, id: u128)
        requires
            wf_blocks(old(self).blocks@),
        ensures
            wf_blocks(final(self).blocks@),
            spec_purged(old(self).blocks@, final(self).blocks@, id),
            *final(self) == (BlockManager { blocks: final(self).blocks, ..*old(self) }),
    {
        proof {
            lemma_first_found(self.blocks@, id);
        }
        let idx = match crate::block::block_index_in_slice(&self.blocks, id) {
            Some(i) => i,
            None => {
                return ;
            },
        };
        proof {
            crate::block::lemma_first_id_index(self.blocks@, id, idx as int);
        }
        if self.blocks[idx].is_full_sequence && self.blocks[idx].anim.frames.len() > 1 {
            let b = &mut self.blocks[idx];
            b.anim.frames.truncate(1);
            b.is_full_sequence = false;
            b.anim.animation_enabled = false;
            b.anim.current_frame = 0;
            b.anim.frame_elapsed = 0;
        }
    }
}

/// The relation between the block sequences before and after purging
/// the block with this identifier: when a full-sequence animated block
/// carries it, that block keeps only its first frame, stops, and loses
/// its full-sequence flag; every other block is untouched.
pub open spec fn spec_purged(s: Seq<ImageBlock>, t: Seq<ImageBlock>, id: u128) -> bool {
    let idx = first_id_index(s, id);
    if idx >= 0 && s[idx].is_full_sequence && s[idx].anim.frames@.len() > 1 {
        &&& t.len() == s.len()
        &&& (forall|j: int| 0 <= j < s.len() && j != idx ==> #[trigger] t[j] == s[j])
        &&& t[idx].anim.frames@ == s[idx].anim.frames@.take(1)
        &&& t[idx].anim.current_frame == 0
        &&& t[idx].anim.frame_elapsed == 0
        &&& !t[idx].anim.animation_enabled
        &&& !t[idx].is_full_sequence
        &&& t[idx] == (ImageBlock {
            anim: t[idx].anim,
            is_full_sequence: false,
            ..s[idx]
        })
        &&& t[idx].anim == (crate::block::AnimationState {
            frames: t[idx].anim.frames,
            current_frame: 0,
            frame_elapsed: 0,
            animation_enabled: false,
            ..s[idx].anim
        })
    } else {
        t == s
    }
}

/// Removes every occurrence of this identifier from the list.
fn retain_ids_not_equal(v: &mut Vec<u128>, id: u128)
    ensures
        final(v)@ == old(v)@.filter(|x: u128| x != id),
{
    let n = v.len();
    let mut out: Vec<u128> = Vec::new();
    let mut i: usize = 0;
    while i < n
        invariant
            n == v@.len(),
            v@ == old(v)@,
            i <= n,
            out@ == v@.take(i as int).filter(|x: u128| x != id),
        decreases n - i,
    {
        proof {
            reveal_with_fuel(Seq::<u128>::filter, 2);
            assert(v@.take(i + 1).drop_last() =~= v@.take(i as int));
            assert(v@.take(i + 1).last() == v@[i as int]);
        }
        if v[i] != id {
            out.push(v[i]);
        }
        i += 1;
    }
    proof {
        reveal_with_fuel(Seq::<u128>::filter, 1);
        assert(v@.take(0) =~= Seq::<u128>::empty());
        assert(v@.take(n as int) =~= v@);
    }
    *v = out;
}

/// Clones an identifier set.
fn clone_ids(v: &ChainedIds) -> (r: ChainedIds)
    ensures
        r@ == v@,
{
    let n = v.len();
    let mut out: Vec<u128> = Vec::new();
    let mut i: usize = 0;
    while i < n
        invariant
            n == v@.len(),
            i <= n,
            out@ == v@.take(i as int),
        decreases n - i,
    {
        out.push(v[i]);
        proof {
            assert(v@.take(i + 1) =~= v@.take(i as int).push(v@[i as int]));
        }
        i += 1;
    }
    proof {
        assert(v@.take(n as int) =~= v@);
    }
    out
}

/// Where no block carries the identifier, there is no first index.
proof fn lemma_no_id_no_first(s: Seq<ImageBlock>, id: u128)
    requires
        !has_id(s, id),
    ensures
        first_id_index(s, id) == -1,
    decreases s.len(),
{
    if s.len() > 0 {
        assert(forall|i: int|
            0 <= i < s.len() - 1 ==> s.subrange(1, s.len() as int)[i] == s[i + 1]);
        lemma_no_id_no_first(s.subrange(1, s.len() as int), id);
    }
}

/// The first index of a present identifier is in range, carries it, and
/// nothing before it does; an absent identifier has none.
pub proof fn lemma_first_found(s: Seq<ImageBlock>, id: u128)
    ensures
        first_id_index(s, id) >= 0 ==> {
            let idx = first_id_index(s, id);
            &&& 0 <= idx < s.len()
            &&& s[idx].id == id
            &&& forall|j: int| 0 <= j < idx ==> s[j].id != id
        },
        first_id_index(s, id) == -1 <==> !has_id(s, id),
        first_id_index(s, id) >= -1,
    decreases s.len(),
{
    if !has_id(s, id) {
        lemma_no_id_no_first(s, id);
    } else if s.len() > 0 {
        if s[0].id == id {
        } else {
            let rest = s.subrange(1, s.len() as int);
            assert(forall|i: int| 0 <= i < s.len() - 1 ==> rest[i] == s[i + 1]);
            let w = choose|i: int| 0 <= i < s.len() && s[i].id == id;
            assert(rest[w - 1].id == id);
            assert(has_id(rest, id));
            lemma_first_found(rest, id);
            let ridx = first_id_index(rest, id);
            assert(first_id_index(s, id) == ridx + 1);
            assert(s[ridx + 1] == rest[ridx]);
            assert forall|j: int| 0 <= j < ridx + 1 implies s[j].id != id by {
                if j > 0 {
                    assert(rest[j - 1] == s[j]);
                }
            };
        }
    }
}

/// The chained-identifier sequence of a prefix grows exactly by the
/// next block's identifier when that block is chained.
proof fn lemma_chained_ids_take_step(s: Seq<ImageBlock>, i: int)
    requires
        0 <= i < s.len(),
    ensures
        spec_chained_ids(s.take(i + 1)) == if s[i].chained {
            spec_chained_ids(s.take(i)).push(s[i].id)
        } else {
            spec_chained_ids(s.take(i))
        },
{
    reveal_with_fuel(Seq::<ImageBlock>::filter, 2);
    let p = s.take(i + 1);
    let pred = |b: ImageBlock| b.chained;
    assert(p.drop_last() =~= s.take(i));
    assert(p.len() > 0);
    assert(p.last() == s[i]);
    if s[i].chained {
        assert(p.filter(pred) == p.drop_last().filter(pred).push(s[i]));
        assert(p.filter(pred).map_values(|b: ImageBlock| b.id) =~= p.drop_last().filter(
            pred,
        ).map_values(|b: ImageBlock| b.id).push(s[i].id));
    } else {
        assert(p.filter(pred) == p.drop_last().filter(pred));
    }
}

/// The first containing chain of a present identifier is in range,
/// holds it, and no earlier chain does.
pub proof fn lemma_chain_found(chains: Seq<ChainedIds>, id: u128)
    ensures
        first_chain_containing(chains, id) >= 0 ==> {
            let ci = first_chain_containing(chains, id);
            &&& 0 <= ci < chains.len()
            &&& chains[ci]@.contains(id)
            &&& forall|j: int| 0 <= j < ci ==> !chains[j]@.contains(id)
        },
    decreases chains.len(),
{
    if chains.len() > 0 && !chains[0]@.contains(id) {
        let rest = chains.subrange(1, chains.len() as int);
        assert(forall|k: int| 0 <= k < chains.len() - 1 ==> rest[k] == chains[k + 1]);
        lemma_chain_found(rest, id);
        let r = first_chain_containing(rest, id);
        if r >= 0 {
            assert(chains[r + 1] == rest[r]);
            assert forall|j: int| 0 <= j < r + 1 implies !chains[j]@.contains(id) by {
                if j > 0 {
                    assert(rest[j - 1] == chains[j]);
                }
            };
        }
    }
}

/// The first containing chain of a present identifier.
proof fn lemma_first_chain_containing(chains: Seq<ChainedIds>, id: u128, i: int)
    requires
        0 <= i < chains.len(),
        chains[i]@.contains(id),
        forall|j: int| 0 <= j < i ==> !chains[j]@.contains(id),
    ensures
        first_chain_containing(chains, id) == i,
    decreases chains.len(),
{
    if i > 0 {
        let rest = chains.subrange(1, chains.len() as int);
        assert(forall|k: int| 0 <= k < chains.len() - 1 ==> rest[k] == chains[k + 1]);
        lemma_first_chain_containing(rest, id, i - 1);
    }
}

/// Where no chain holds the identifier, none is first.
proof fn lemma_no_chain_containing(chains: Seq<ChainedIds>, id: u128)
    requires
        forall|j: int| 0 <= j < chains.len() ==> !chains[j]@.contains(id),
    ensures
        first_chain_containing(chains, id) == -1,
    decreases chains.len(),
{
    if chains.len() > 0 {
        let rest = chains.subrange(1, chains.len() as int);
        assert(forall|k: int| 0 <= k < chains.len() - 1 ==> rest[k] == chains[k + 1]);
        lemma_no_chain_containing(rest, id);
    }
}

/// A filtered list no longer holds what the filter removed.
proof fn lemma_filter_retains_non_membership(s: Seq<u128>, id: u128)
    ensures
        !s.filter(|x: u128| x != id).contains(id),
        s.filter(|x: u128| x != id).len() <= s.len(),
{
    s.lemma_filter_len(|x: u128| x != id);
    let f = s.filter(|x: u128| x != id);
    if f.contains(id) {
        let i = choose|i: int| 0 <= i < f.len() && f[i] == id;
        s.lemma_filter_pred(|x: u128| x != id, i);
    }
}

/// Filtering out an identifier and appending it yields a list without
/// duplicates, provided the original had none.
proof fn lemma_pruned_no_dups(s: Seq<u128>, id: u128, i: int, j: int)
    requires
        forall|a: int, b: int| 0 <= a < b < s.len() ==> s[a] != s[b],
        ({
            let pruned = s.filter(|x: u128| x != id).push(id);
            0 <= i < j < pruned.len() || (0 <= i + 1 < j + 1 < pruned.len())
        }),
    ensures
        ({
            let pruned = s.filter(|x: u128| x != id).push(id);
            (0 <= i < j < pruned.len() ==> pruned[i] != pruned[j]) && (0 <= i + 1 < j + 1
                < pruned.len() ==> pruned[i + 1] != pruned[j + 1])
        }),
{
    let f = s.filter(|x: u128| x != id);
    let pruned = f.push(id);
    lemma_filter_retains_non_membership(s, id);
    assert forall|a: int, b: int| 0 <= a < b < f.len() implies f[a] != f[b] by {
        lemma_filter_of_unique(s, id, a, b);
    }
}

/// Filtering a duplicate-free list keeps it duplicate-free.
proof fn lemma_filter_of_unique(s: Seq<u128>, id: u128, a: int, b: int)
    requires
        forall|x: int, y: int| 0 <= x < y < s.len() ==> s[x] != s[y],
        0 <= a < b < s.filter(|x: u128| x != id).len(),
    ensures
        s.filter(|x: u128| x != id)[a] != s.filter(|x: u128| x != id)[b],
    decreases s.len(),
{
    reveal_with_fuel(Seq::<u128>::filter, 2);
    let pred = |x: u128| x != id;
    if s.len() > 0 {
        let f = s.filter(pred);
        let fd = s.drop_last().filter(pred);
        if pred(s.last()) {
            assert(f == fd.push(s.last()));
            if b < f.len() - 1 {
                lemma_filter_of_unique(s.drop_last(), id, a, b);
            } else {
                // f[b] is s.last(); f[a] is an element of the prefix,
                // distinct from the last by uniqueness.
                lemma_filter_membership_index(s.drop_last(), id, a);
            }
        } else {
            assert(f == fd);
            lemma_filter_of_unique(s.drop_last(), id, a, b);
        }
    }
}

/// Every filtered element comes from the original list.
proof fn lemma_filter_membership_index(s: Seq<u128>, id: u128, a: int)
    requires
        0 <= a < s.filter(|x: u128| x != id).len(),
    ensures
        exists|k: int|
            0 <= k < s.len() && s[k] == s.filter(|x: u128| x != id)[a],
    decreases s.len(),
{
    reveal_with_fuel(Seq::<u128>::filter, 2);
    let pred = |x: u128| x != id;
    let f = s.filter(pred);
    if s.len() > 0 {
        let fd = s.drop_last().filter(pred);
        if pred(s.last()) && a == f.len() - 1 {
            assert(s[s.len() - 1] == f[a]);
        } else {
            lemma_filter_membership_index(s.drop_last(), id, a);
            let k = choose|k: int| 0 <= k < s.len() - 1 && s.drop_last()[k] == fd[a];
            assert(s[k] == f[a]);
        }
    }
}


/// What a cascade removal takes out, in the order it walks: from the
/// highest index down, each chained block's subtree identifiers.
pub open spec fn cascade_ids(s: Seq<ImageBlock>) -> Seq<u128>
    decreases s.len(),
{
    if s.len() == 0 {
        Seq::empty()
    } else {
        (if s.last().chained {
            crate::block::ids_in_subtree(s.last())
        } else {
            Seq::empty()
        }) + cascade_ids(s.drop_last())
    }
}

/// Subtree identifier sequences peel from the back as well as from the
/// front.
proof fn lemma_ids_seq_snoc(s: Seq<ImageBlock>)
    requires
        s.len() > 0,
    ensures
        crate::block::ids_in_subtree_seq(s) == crate::block::ids_in_subtree_seq(s.drop_last())
            + crate::block::ids_in_subtree(s.last()),
    decreases s.len(),
{
    let rest = s.subrange(1, s.len() as int);
    if s.len() == 1 {
        assert(rest =~= Seq::<ImageBlock>::empty());
        assert(s.drop_last() =~= Seq::<ImageBlock>::empty());
        assert(crate::block::ids_in_subtree_seq(s) =~= crate::block::ids_in_subtree_seq(
            s.drop_last(),
        ) + crate::block::ids_in_subtree(s.last()));
    } else {
        lemma_ids_seq_snoc(rest);
        assert(rest.drop_last() =~= s.drop_last().subrange(1, s.len() - 1));
        assert(rest.last() == s.last());
        assert(crate::block::ids_in_subtree_seq(s) =~= crate::block::ids_in_subtree_seq(
            s.drop_last(),
        ) + crate::block::ids_in_subtree(s.last()));
    }
}

/// The cascade of a sequence peels from the front: the first block's
/// contribution comes last.
proof fn lemma_cascade_front(s: Seq<ImageBlock>)
    requires
        s.len() > 0,
    ensures
        cascade_ids(s) == cascade_ids(s.subrange(1, s.len() as int)) + (if s[0].chained {
            crate::block::ids_in_subtree(s[0])
        } else {
            Seq::<u128>::empty()
        }),
    decreases s.len(),
{
    let rest = s.subrange(1, s.len() as int);
    if s.len() == 1 {
        assert(rest =~= Seq::<ImageBlock>::empty());
        assert(s.drop_last() =~= Seq::<ImageBlock>::empty());
        assert(s.last() == s[0]);
        assert(cascade_ids(s) =~= cascade_ids(rest) + (if s[0].chained {
            crate::block::ids_in_subtree(s[0])
        } else {
            Seq::<u128>::empty()
        }));
    } else {
        lemma_cascade_front(s.drop_last());
        assert(s.drop_last()[0] == s[0]);
        assert(s.drop_last().subrange(1, s.len() - 1) =~= rest.drop_last());
        assert(rest.last() == s.last());
        assert(cascade_ids(s) =~= cascade_ids(rest) + (if s[0].chained {
            crate::block::ids_in_subtree(s[0])
        } else {
            Seq::<u128>::empty()
        }));
    }
}

/// A filter peels from the front.
proof fn lemma_filter_front(s: Seq<ImageBlock>, pred: spec_fn(ImageBlock) -> bool)
    requires
        s.len() > 0,
    ensures
        s.filter(pred) == (if pred(s[0]) {
            seq![s[0]]
        } else {
            Seq::<ImageBlock>::empty()
        }) + s.subrange(1, s.len() as int).filter(pred),
{
    reveal_with_fuel(Seq::<ImageBlock>::filter, 2);
    let rest = s.subrange(1, s.len() as int);
    assert(s =~= seq![s[0]] + rest);
    Seq::<ImageBlock>::filter_distributes_over_add(seq![s[0]], rest, pred);
    assert(seq![s[0]].drop_last() =~= Seq::<ImageBlock>::empty());
    if pred(s[0]) {
        assert(seq![s[0]].filter(pred) =~= seq![s[0]]);
    } else {
        assert(seq![s[0]].filter(pred) =~= Seq::<ImageBlock>::empty());
    }
    assert(s.filter(pred) =~= (if pred(s[0]) {
        seq![s[0]]
    } else {
        Seq::<ImageBlock>::empty()
    }) + rest.filter(pred));
}

/// Appends the identifiers of every block below this one: each child's
/// identifier followed by that child's own subtree, in order.
fn collect_child_ids(b: &ImageBlock, ids: &mut Vec<u128>)
    ensures
        final(ids)@ == old(ids)@ + crate::block::ids_in_subtree_seq(b.group.children@),
    decreases *b,
{
    let n: usize = b.group.children.len();
    let mut i: usize = 0;
    while i < n
        invariant
            n == b.group.children@.len(),
            i <= n,
            ids@ == old(ids)@ + crate::block::ids_in_subtree_seq(b.group.children@.take(i as int)),
        decreases n - i,
    {
        proof {
            assert(b.group.children@.take(i + 1).drop_last() =~= b.group.children@.take(i as int));
            assert(b.group.children@.take(i + 1).last() == b.group.children@[i as int]);
            lemma_ids_seq_snoc(b.group.children@.take(i + 1));
            assert(decreases_to!(*b => b.group));
            assert(decreases_to!(b.group => b.group.children));
            assert(decreases_to!(b.group.children => b.group.children@));
            assert(decreases_to!(b.group.children@ => b.group.children@[i as int]));
            assert(decreases_to!(*b => b.group.children@[i as int]));
        }
        ids.push(b.group.children[i].id);
        collect_child_ids(&b.group.children[i], ids);
        proof {
            assert(ids@ =~= old(ids)@ + crate::block::ids_in_subtree_seq(
                b.group.children@.take(i + 1),
            ));
        }
        i += 1;
    }
    proof {
        assert(b.group.children@.take(n as int) =~= b.group.children@);
    }
}

/// Keeps only the identifiers that are not among the removed ones.
fn retain_ids_not_in(v: &mut Vec<u128>, removed: &Vec<u128>)
    ensures
        final(v)@ == old(v)@.filter(|x: u128| !removed@.contains(x)),
{
    let n = v.len();
    let mut out: Vec<u128> = Vec::new();
    let mut i: usize = 0;
    while i < n
        invariant
            n == v@.len(),
            v@ == old(v)@,
            i <= n,
            out@ == v@.take(i as int).filter(|x: u128| !removed@.contains(x)),
        decreases n - i,
    {
        proof {
            reveal_with_fuel(Seq::<u128>::filter, 2);
            assert(v@.take(i + 1).drop_last() =~= v@.take(i as int));
            assert(v@.take(i + 1).last() == v@[i as int]);
        }
        if !ids_contains(removed, v[i]) {
            out.push(v[i]);
        }
        i += 1;
    }
    proof {
        reveal_with_fuel(Seq::<u128>::filter, 1);
        assert(v@.take(0) =~= Seq::<u128>::empty());
        assert(v@.take(n as int) =~= v@);
    }
    *v = out;
}

/// Keeps only the chains that share no member with the removed set.
fn retain_chains_disjoint(chains: &mut Vec<ChainedIds>, removed: &Vec<u128>)
    ensures
        final(chains)@ == old(chains)@.filter(
            |c: ChainedIds| spec_ids_disjoint(c@, removed@),
        ),
{
    let ghost orig = chains@;
    let mut kept: Vec<ChainedIds> = Vec::new();
    let ghost i: int = 0;
    proof {
        reveal_with_fuel(Seq::<ChainedIds>::filter, 1);
        assert(orig.take(0) =~= Seq::<ChainedIds>::empty());
    }
    while chains.len() > 0
        invariant
            0 <= i <= orig.len(),
            chains@ == orig.subrange(i, orig.len() as int),
            kept@ == orig.take(i).filter(|c: ChainedIds| spec_ids_disjoint(c@, removed@)),
        decreases chains@.len(),
    {
        proof {
            reveal_with_fuel(Seq::<ChainedIds>::filter, 2);
            assert(orig.take(i + 1).drop_last() =~= orig.take(i));
            assert(orig.take(i + 1).last() == orig[i]);
            assert(chains@[0] == orig[i]);
        }
        let chain = chains.remove(0);
        if ids_disjoint(&chain, removed) {
            kept.push(chain);
        }
        proof {
            assert(chains@ =~= orig.subrange(i + 1, orig.len() as int));
            i = i + 1;
        }
    }
    proof {
        assert(orig.take(orig.len() as int) =~= orig);
    }
    *chains = kept;
}


impl BlockManager {
    /// Removes the block at this index together with all its children,
    /// returning every removed identifier: the block's own first, then
    /// each child subtree in order. The animation access list forgets
    /// all of them.
    pub fn remove_with_children(&mut self, index: usize) -> (r: Vec<u128>)
        requires
            index < old(self).blocks@.len(),
        ensures
            r@ == crate::block::ids_in_subtree(old(self).blocks@[index as int]),
            final(self).blocks@ == old(self).blocks@.remove(index as int),
            final(self).animation_access_order@ == old(self).animation_access_order@.filter(
                |x: u128| !r@.contains(x),
            ),
            *final(self) == (BlockManager {
                blocks: final(self).blocks,
                animation_access_order: final(self).animation_access_order,
                ..*old(self)
            }),
    {
        let block = self.blocks.remove(index);
        let mut removed_ids: Vec<u128> = Vec::new();
        removed_ids.push(block.id);
        collect_child_ids(&block, &mut removed_ids);
        proof {
            assert(removed_ids@ =~= crate::block::ids_in_subtree(
                old(self).blocks@[index as int],
            ));
        }
        retain_ids_not_in(&mut self.animation_access_order, &removed_ids);
        removed_ids
    }

    /// Cascade removal: when the block at this index is chained, every
    /// chained block leaves, children and all, walking from the highest
    /// index down; otherwise only this block's subtree leaves.
    /// Remembered chains that lose a member are dropped, and the
    /// animation access list forgets every removed identifier.
    pub fn remove_cascade(&mut self, index: usize) -> (r: Vec<u128>)
        requires
            index < old(self).blocks@.len(),
        ensures
            !old(self).blocks@[index as int].chained ==> {
                &&& r@ == crate::block::ids_in_subtree(old(self).blocks@[index as int])
                &&& final(self).blocks@ == old(self).blocks@.remove(index as int)
                &&& final(self).animation_access_order@ == old(self).animation_access_order@.filter(|x: u128| !r@.contains(x))
                &&& final(self).remembered_chains@ == old(self).remembered_chains@
            },
            old(self).blocks@[index as int].chained ==> {
                &&& r@ == cascade_ids(old(self).blocks@)
                &&& final(self).blocks@ == old(self).blocks@.filter(
                    |b: ImageBlock| !b.chained,
                )
                &&& final(self).remembered_chains@ == old(self).remembered_chains@.filter(
                    |c: ChainedIds| spec_ids_disjoint(c@, r@),
                )
                &&& final(self).animation_access_order@ == old(self).animation_access_order@.filter(|x: u128| !r@.contains(x))
            },
            *final(self) == (BlockManager {
                blocks: final(self).blocks,
                remembered_chains: final(self).remembered_chains,
                animation_access_order: final(self).animation_access_order,
                ..*old(self)
            }),
    {
        if !self.blocks[index].chained {
            return self.remove_with_children(index);
        }

        let ghost s = self.blocks@;
        let mut all_removed_ids: Vec<u128> = Vec::new();
        let mut idx: usize = self.blocks.len();
        proof {
            assert(s.subrange(idx as int, s.len() as int) =~= Seq::<ImageBlock>::empty());
            assert(self.blocks@ =~= s.take(idx as int) + s.subrange(
                idx as int,
                s.len() as int,
            ).filter(|b: ImageBlock| !b.chained));
        }
        while idx > 0
            invariant
                idx <= s.len(),
                self.blocks@ == s.take(idx as int) + s.subrange(
                    idx as int,
                    s.len() as int,
                ).filter(|b: ImageBlock| !b.chained),
                all_removed_ids@ == cascade_ids(s.subrange(idx as int, s.len() as int)),
                *self == (BlockManager { blocks: self.blocks, ..*old(self) }),
            decreases idx,
        {
            idx -= 1;
            proof {
                lemma_cascade_front(s.subrange(idx as int, s.len() as int));
                lemma_filter_front(
                    s.subrange(idx as int, s.len() as int),
                    |b: ImageBlock| !b.chained,
                );
                assert(s.subrange(idx as int, s.len() as int).subrange(
                    1,
                    s.len() - idx,
                ) =~= s.subrange(idx + 1, s.len() as int));
                assert(s.subrange(idx as int, s.len() as int)[0] == s[idx as int]);
                assert(self.blocks@[idx as int] == s[idx as int]);
            }
            if self.blocks[idx].chained {
                let b = self.blocks.remove(idx);
                all_removed_ids.push(b.id);
                collect_child_ids(&b, &mut all_removed_ids);
                proof {
                    assert(self.blocks@ =~= s.take(idx as int) + s.subrange(
                        idx as int,
                        s.len() as int,
                    ).filter(|b: ImageBlock| !b.chained));
                    assert(all_removed_ids@ =~= cascade_ids(s.subrange(
                        idx as int,
                        s.len() as int,
                    )));
                }
            } else {
                proof {
                    assert(self.blocks@ =~= s.take(idx as int) + s.subrange(
                        idx as int,
                        s.len() as int,
                    ).filter(|b: ImageBlock| !b.chained));
                    assert(all_removed_ids@ =~= cascade_ids(s.subrange(
                        idx as int,
                        s.len() as int,
                    )));
                }
            }
        }
        proof {
            assert(s.subrange(0, s.len() as int) =~= s);
            assert(s.take(0) =~= Seq::<ImageBlock>::empty());
            assert(self.blocks@ =~= s.filter(|b: ImageBlock| !b.chained));
        }

        retain_chains_disjoint(&mut self.remembered_chains, &all_removed_ids);
        retain_ids_not_in(&mut self.animation_access_order, &all_removed_ids);
        all_removed_ids
    }

    /// The greatest preferred height among non-group blocks, zero when
    /// there is none.
    pub fn max_block_height(&self) -> (r: i64)
        requires
            crate::block::wf_blocks(self.blocks@),
        ensures
            r == spec_max_block_height(self.blocks@),
    {
        let n = self.blocks.len();
        let mut acc: i64 = 0;
        let mut i: usize = 0;
        while i < n
            invariant
                n == self.blocks@.len(),
                i <= n,
                crate::block::wf_blocks(self.blocks@),
                acc == spec_max_block_height(self.blocks@.take(i as int)),
            decreases n - i,
        {
            proof {
                assert(self.blocks@.take(i + 1).drop_last() =~= self.blocks@.take(i as int));
                assert(self.blocks@.take(i + 1).last() == self.blocks@[i as int]);
            }
            if !self.blocks[i].group.is_group && self.blocks[i].preferred_image_size.y > acc {
                acc = self.blocks[i].preferred_image_size.y;
            }
            i += 1;
        }
        proof {
            assert(self.blocks@.take(n as int) =~= self.blocks@);
        }
        acc
    }

    /// The index of the first group, other than the excluded block,
    /// whose rectangle contains the position.
    pub fn find_group_at_pos(&self, pos: Vec2, exclude_id: u128) -> (r: Option<usize>)
        requires
            crate::block::wf_blocks(self.blocks@),
        ensures
            match r {
                Some(i) => {
                    &&& i < self.blocks@.len()
                    &&& group_hit(self.blocks@[i as int], pos, exclude_id)
                    &&& forall|j: int|
                        0 <= j < i ==> !group_hit(#[trigger] self.blocks@[j], pos, exclude_id)
                },
                None => forall|j: int|
                    0 <= j < self.blocks@.len() ==> !group_hit(
                        #[trigger] self.blocks@[j],
                        pos,
                        exclude_id,
                    ),
            },
    {
        let n = self.blocks.len();
        let mut i: usize = 0;
        while i < n
            invariant
                n == self.blocks@.len(),
                i <= n,
                crate::block::wf_blocks(self.blocks@),
                forall|j: int| 0 <= j < i ==> !group_hit(#[trigger] self.blocks@[j], pos, exclude_id),
            decreases n - i,
        {
            let b = &self.blocks[i];
            if b.id != exclude_id && b.group.is_group {
                let rect = b.rect();
                if rect.contains(pos) {
                    return Some(i);
                }
            }
            i += 1;
        }
        None
    }

    /// Zeroes every counter of every block, descendants included.
    pub fn reset_all_counters(&mut self)
        ensures
            final(self).blocks@.len() == old(self).blocks@.len(),
            forall|i: int|
                0 <= i < old(self).blocks@.len() ==> crate::block::counters_zeroed(
                    #[trigger] final(self).blocks@[i],
                ) && crate::block::same_but_counters(
                    old(self).blocks@[i],
                    final(self).blocks@[i],
                ),
            *final(self) == (BlockManager { blocks: final(self).blocks, ..*old(self) }),
    {
        let n = self.blocks.len();
        let mut i: usize = 0;
        while i < n
            invariant
                n == self.blocks@.len() == old(self).blocks@.len(),
                i <= n,
                forall|j: int|
                    0 <= j < i ==> crate::block::counters_zeroed(#[trigger] self.blocks@[j])
                        && crate::block::same_but_counters(
                        old(self).blocks@[j],
                        self.blocks@[j],
                    ),
                forall|j: int| i <= j < n ==> #[trigger] self.blocks@[j] == old(self).blocks@[j],
                *self == (BlockManager { blocks: self.blocks, ..*old(self) }),
            decreases n - i,
        {
            self.blocks[i].reset_counters_recursive();
            i += 1;
        }
    }

    /// Whether any block is mid-drag.
    pub fn any_dragging(&self) -> (r: bool)
        ensures
            r == exists|i: int|
                0 <= i < self.blocks@.len() && (#[trigger] self.blocks@[i]).pos.is_dragging,
    {
        let n = self.blocks.len();
        let mut i: usize = 0;
        while i < n
            invariant
                n == self.blocks@.len(),
                i <= n,
                forall|j: int| 0 <= j < i ==> !(#[trigger] self.blocks@[j]).pos.is_dragging,
            decreases n - i,
        {
            if self.blocks[i].pos.is_dragging {
                return true;
            }
            i += 1;
        }
        false
    }
}

/// Whether a block is a group, other than the excluded one, whose
/// rectangle contains the position (edges included).
pub open spec fn group_hit(b: ImageBlock, pos: Vec2, exclude_id: u128) -> bool {
    &&& b.id != exclude_id
    &&& b.group.is_group
    &&& b.pos.position.x <= pos.x <= b.pos.position.x + crate::block::spec_outer_w(b)
    &&& b.pos.position.y <= pos.y <= b.pos.position.y + crate::block::spec_outer_h(b)
}

/// The greatest preferred height among non-group blocks, zero when
/// there is none.
pub open spec fn spec_max_block_height(s: Seq<ImageBlock>) -> int
    decreases s.len(),
{
    if s.len() == 0 {
        0
    } else {
        let rest = spec_max_block_height(s.drop_last());
        if !s.last().group.is_group && s.last().preferred_image_size.y > rest {
            s.last().preferred_image_size.y as int
        } else {
            rest
        }
    }
}


impl BlockManager {
    /// Recomputes every block's position by row-packing into the given
    /// inner width: each block first returns to its preferred size and
    /// is clamped to the available width, then blocks are laid out left
    /// to right, wrapping to a new row when the category (group against
    /// non-group) changes on a begun row and when a block would pass
    /// the right limit. After the pass no block's right edge exceeds
    /// the canvas padding plus the effective inner width.
    pub fn reflow(&mut self, inner_width: i64)
        requires
            crate::block::wf_blocks(old(self).blocks@),
            old(self).blocks@.len() <= MAX_TOTAL_BLOCKS,
            -DIM_LIMIT <= inner_width <= DIM_LIMIT,
        ensures
            crate::block::wf_blocks(final(self).blocks@),
            final(self).blocks@ == crate::layout::spec_reflow(
                old(self).blocks@,
                inner_width as int,
            ),
            *final(self) == (BlockManager { blocks: final(self).blocks, ..*old(self) }),
            forall|i: int|
                0 <= i < old(self).blocks@.len() ==> (#[trigger] final(self).blocks@[i]).pos.position.x + crate::block::spec_outer_w(final(self).blocks@[i])
                    <= CANVAS_PADDING + crate::layout::spec_effective_inner_width(
                    inner_width as int,
                ),
            forall|i: int|
                0 <= i < old(self).blocks@.len() - 1 && (#[trigger] old(
                    self,
                ).blocks@[i]).group.is_group != old(self).blocks@[i + 1].group.is_group
                    ==> final(self).blocks@[i].pos.position.y < final(self).blocks@[i
                    + 1].pos.position.y,
    {
        let ghost s = self.blocks@;
        let inner = crate::geom::max64(inner_width, MIN_CANVAS_INNER_WIDTH);
        let row_limit = CANVAS_PADDING + inner;
        let max_image_width = crate::geom::max64(inner - BLOCK_PADDING * 2, 1);
        let ghost maxw: int = crate::layout::spec_max_image_width(inner_width as int);
        let ghost limit: int = CANVAS_PADDING + crate::layout::spec_effective_inner_width(
            inner_width as int,
        );
        proof {
            assert(max_image_width == maxw);
            assert(row_limit == limit);
        }

        let n = self.blocks.len();
        let mut i: usize = 0;
        while i < n
            invariant
                n == self.blocks@.len() == s.len(),
                i <= n,
                crate::block::wf_blocks(s),
                max_image_width as int == maxw,
                1 <= maxw <= DIM_LIMIT,
                forall|j: int|
                    0 <= j < i ==> #[trigger] self.blocks@[j] == (ImageBlock {
                        image_size: crate::layout::spec_reflow_size(s[j], maxw),
                        ..s[j]
                    }),
                forall|j: int| i <= j < n ==> #[trigger] self.blocks@[j] == s[j],
                *self == (BlockManager { blocks: self.blocks, ..*old(self) }),
            decreases n - i,
        {
            self.blocks[i].reset_to_preferred_size();
            self.blocks[i].constrain_to_width(max_image_width);
            i += 1;
        }

        let ghost items = crate::layout::spec_pack_items(s, maxw);
        let ghost full = crate::layout::spec_reflow_positions(s, inner_width as int);
        proof {
            crate::layout::lemma_pack_len(
                items,
                limit,
                CANVAS_PADDING as int,
                CANVAS_PADDING as int,
                0,
                None,
            );
            assert(items.subrange(0, n as int) =~= items);
            assert(full.take(0) =~= Seq::<(int, int)>::empty());
            assert(full =~= full.take(0) + full);
        }

        let mut cx: i64 = CANVAS_PADDING;
        let mut cy: i64 = CANVAS_PADDING;
        let mut rh: i64 = 0;
        let mut prev: Option<bool> = None;
        let mut k: usize = 0;
        while k < n
            invariant
                n == self.blocks@.len() == s.len() == items.len() == full.len(),
                k <= n,
                n <= MAX_TOTAL_BLOCKS,
                crate::block::wf_blocks(s),
                max_image_width as int == maxw,
                maxw == crate::layout::spec_max_image_width(inner_width as int),
                items == crate::layout::spec_pack_items(s, maxw),
                full == crate::layout::spec_reflow_positions(s, inner_width as int),
                limit == CANVAS_PADDING + crate::layout::spec_effective_inner_width(
                    inner_width as int,
                ),
                1 <= maxw <= DIM_LIMIT,
                row_limit as int == limit,
                CANVAS_PADDING + 58 <= limit <= CANVAS_PADDING + DIM_LIMIT + 2 * BLOCK_PADDING,
                CANVAS_PADDING <= cx <= limit + ALIGN_SPACING,
                0 <= rh <= DIM_LIMIT + 2 * BLOCK_PADDING,
                CANVAS_PADDING <= cy,
                cy <= CANVAS_PADDING + 2 * (k as int) * 1_000_000_000_056,
                prev == if k == 0 {
                    Option::<bool>::None
                } else {
                    Some(items[k as int - 1].is_group)
                },
                forall|j: int|
                    0 <= j < items.len() ==> 0 <= (#[trigger] items[j]).w <= limit
                        - CANVAS_PADDING && 0 <= items[j].h <= DIM_LIMIT + 2 * BLOCK_PADDING,
                full == full.take(k as int) + crate::layout::spec_pack(
                    items.subrange(k as int, n as int),
                    limit,
                    cx as int,
                    cy as int,
                    rh as int,
                    prev,
                ),
                forall|j: int|
                    0 <= j < k ==> #[trigger] self.blocks@[j]
                        == crate::layout::spec_reflow_block(
                        s[j],
                        crate::layout::spec_reflow_size(s[j], maxw),
                        full[j],
                    ),
                forall|j: int|
                    k <= j < n ==> #[trigger] self.blocks@[j] == (ImageBlock {
                        image_size: crate::layout::spec_reflow_size(s[j], maxw),
                        ..s[j]
                    }),
                forall|j: int|
                    0 <= j < k ==> -COORD_LIMIT <= (#[trigger] full[j]).0 <= COORD_LIMIT
                        && -COORD_LIMIT <= full[j].1 <= COORD_LIMIT,
                *self == (BlockManager { blocks: self.blocks, ..*old(self) }),
            decreases n - k,
        {
            let is_group = self.blocks[k].group.is_group;
            proof {
                assert((k as int) * 1_000_000_000_056 <= 1_000_000_000_056_000_000)
                    by (nonlinear_arith)
                    requires
                        0 <= k as int <= 1_000_000,
                ;
                assert(2 * ((k as int) + 1) * 1_000_000_000_056 == 2 * (k as int)
                    * 1_000_000_000_056 + 2 * 1_000_000_000_056) by (nonlinear_arith);
                assert(items.subrange(k as int, n as int)[0] == items[k as int]);
                assert(items[k as int] == crate::layout::spec_pack_item(s[k as int], maxw));
                assert(self.blocks@[k as int].image_size == crate::layout::spec_reflow_size(
                    s[k as int],
                    maxw,
                ));
                assert(is_group == items[k as int].is_group);
            }
            let mut wrapped = false;
            match prev {
                Some(p) => {
                    if p != is_group && cx > CANVAS_PADDING {
                        cx = CANVAS_PADDING;
                        cy = cy + rh + ALIGN_SPACING;
                        rh = 0;
                        wrapped = true;
                    }
                },
                None => {},
            }
            let size = self.blocks[k].outer_size();
            proof {
                assert(size.x == items[k as int].w && size.y == items[k as int].h);
            }
            if cx + size.x > row_limit {
                cx = CANVAS_PADDING;
                cy = cy + rh + ALIGN_SPACING;
                rh = 0;
            }
            self.blocks[k].pos.position = Vec2 { x: cx, y: cy };
            proof {
                let rest = items.subrange(k as int, n as int);
                assert(rest.subrange(1, rest.len() as int) =~= items.subrange(
                    k + 1,
                    n as int,
                ));
                assert(full[k as int] == (cx as int, cy as int));
                assert(full.take(k + 1) =~= full.take(k as int).push(full[k as int]));
                assert(self.blocks@[k as int] == crate::layout::spec_reflow_block(
                    s[k as int],
                    crate::layout::spec_reflow_size(s[k as int], maxw),
                    full[k as int],
                ));
            }
            cx = cx + size.x + ALIGN_SPACING;
            rh = crate::geom::max64(rh, size.y);
            prev = Some(is_group);
            proof {
                assert(full =~= full.take(k + 1) + crate::layout::spec_pack(
                    items.subrange(k + 1, n as int),
                    limit,
                    cx as int,
                    cy as int,
                    rh as int,
                    prev,
                ));
            }
            k += 1;
        }
        proof {
            assert(self.blocks@ =~= crate::layout::spec_reflow(s, inner_width as int));
            assert forall|i2: int|
                0 <= i2 < s.len() implies crate::block::wf_block(
                #[trigger] self.blocks@[i2],
            ) by {
                assert(crate::block::wf_block(s[i2]));
                assert(self.blocks@[i2].group == s[i2].group);
            };
            crate::layout::lemma_pack_in_bounds(
                items,
                limit,
                CANVAS_PADDING as int,
                CANVAS_PADDING as int,
                0,
                None,
            );
            crate::layout::lemma_pack_category_rows(
                items,
                limit,
                CANVAS_PADDING as int,
                CANVAS_PADDING as int,
                0,
                None,
            );
        }
    }
}


/// Stable insertion of a block into a sequence: it comes to rest after
/// every trailing element that does not sort strictly after it.
pub open spec fn spec_sorted_insert(s: Seq<ImageBlock>, x: ImageBlock) -> Seq<ImageBlock>
    decreases s.len(),
{
    if s.len() == 0 {
        seq![x]
    } else if crate::block::layout_le(s.last(), x) {
        s.push(x)
    } else {
        spec_sorted_insert(s.drop_last(), x).push(s.last())
    }
}

/// The stable layout-order sort of a sequence of blocks: each block in
/// turn inserted into the sorted prefix.
pub open spec fn spec_sort_layout(s: Seq<ImageBlock>) -> Seq<ImageBlock>
    decreases s.len(),
{
    if s.len() == 0 {
        Seq::empty()
    } else {
        spec_sorted_insert(spec_sort_layout(s.drop_last()), s.last())
    }
}

/// Inserting at the position the backward scan stops at is the stable
/// insertion: everything at or after the stop sorts strictly after the
/// inserted block, and the element just before it does not.
proof fn lemma_insert_split(t: Seq<ImageBlock>, x: ImageBlock, j: int)
    requires
        0 <= j <= t.len(),
        forall|m: int| j <= m < t.len() ==> !crate::block::layout_le(#[trigger] t[m], x),
        j > 0 ==> crate::block::layout_le(t[j - 1], x),
    ensures
        spec_sorted_insert(t, x) == t.take(j) + seq![x] + t.skip(j),
    decreases t.len() - j,
{
    if j == t.len() {
        if t.len() == 0 {
            assert(spec_sorted_insert(t, x) =~= t.take(j) + seq![x] + t.skip(j));
        } else {
            assert(crate::block::layout_le(t.last(), x));
            assert(spec_sorted_insert(t, x) =~= t.take(j) + seq![x] + t.skip(j));
        }
    } else {
        assert(!crate::block::layout_le(t[t.len() - 1], x));
        let td = t.drop_last();
        assert(forall|m: int| j <= m < td.len() ==> !crate::block::layout_le(
            #[trigger] td[m],
            x,
        ));
        if j > 0 {
            assert(td[j - 1] == t[j - 1]);
        }
        lemma_insert_split(td, x, j);
        assert(td.take(j) =~= t.take(j));
        assert(spec_sorted_insert(t, x) == spec_sorted_insert(td, x).push(t.last()));
        assert((t.take(j) + seq![x] + td.skip(j)).push(t.last()) =~= t.take(j) + seq![x]
            + t.skip(j));
    }
}

/// Whether the backward insertion scan must keep moving left: the
/// element before the position sorts strictly after the block.
fn scan_shift(out: &Vec<ImageBlock>, pos: usize, x: &ImageBlock) -> (r: bool)
    requires
        pos <= out@.len(),
        crate::block::wf_blocks(out@),
        crate::block::wf_block(*x),
    ensures
        r == (pos > 0 && !crate::block::layout_le(out@[pos as int - 1], *x)),
{
    if pos == 0 {
        return false;
    }
    let c = out[pos - 1].cmp_layout(x);
    match c {
        core::cmp::Ordering::Greater => true,
        _ => false,
    }
}

/// Sorts blocks into layout order (groups first, then by quantized row
/// and x), stably: blocks that compare equal keep their relative order.
pub fn sort_by_layout(v: &mut Vec<ImageBlock>)
    requires
        crate::block::wf_blocks(old(v)@),
    ensures
        final(v)@ == spec_sort_layout(old(v)@),
        final(v)@.len() == old(v)@.len(),
        crate::block::wf_blocks(final(v)@),
{
    let ghost orig = v@;
    let mut out: Vec<ImageBlock> = Vec::new();
    let ghost i: int = 0;
    proof {
        assert(orig.take(0) =~= Seq::<ImageBlock>::empty());
    }
    while v.len() > 0
        invariant
            0 <= i <= orig.len(),
            v@ == orig.subrange(i, orig.len() as int),
            crate::block::wf_blocks(orig),
            out@ == spec_sort_layout(orig.take(i)),
            out@.len() == i,
            crate::block::wf_blocks(out@),
        decreases v@.len(),
    {
        proof {
            assert(v@[0] == orig[i]);
            assert(crate::block::wf_block(orig[i]));
        }
        let x = v.remove(0);
        let mut pos = out.len();
        while scan_shift(&out, pos, &x)
            invariant
                pos <= out@.len(),
                crate::block::wf_blocks(out@),
                crate::block::wf_block(x),
                forall|m: int|
                    pos <= m < out@.len() ==> !crate::block::layout_le(#[trigger] out@[m], x),
            decreases pos,
        {
            pos -= 1;
        }
        let ghost t = out@;
        out.insert(pos, x);
        proof {
            lemma_insert_split(t, x, pos as int);
            assert(out@ =~= t.take(pos as int) + seq![x] + t.skip(pos as int));
            assert(orig.take(i + 1).drop_last() =~= orig.take(i));
            assert(orig.take(i + 1).last() == orig[i]);
            assert(out@ == spec_sort_layout(orig.take(i + 1)));
            assert(v@ =~= orig.subrange(i + 1, orig.len() as int));
            i = i + 1;
        }
    }
    proof {
        assert(orig.take(orig.len() as int) =~= orig);
    }
    *v = out;
}

/// Where a dropped leader settles relative to a remaining block: on a
/// strictly earlier quantized row, or on the same row but to its left.
pub open spec fn spec_should_insert_before(leader_pos: Vec2, block_pos: Vec2) -> bool {
    let lq = crate::geom::spec_row_of(leader_pos.y as int);
    let bq = crate::geom::spec_row_of(block_pos.y as int);
    lq < bq || (lq == bq && leader_pos.x < block_pos.x)
}

/// The index the scan between `from` and `to` stops at: the first block
/// the leader settles before, or `to` when there is none.
pub open spec fn spec_scan_insert(s: Seq<ImageBlock>, lp: Vec2, from: int, to: int) -> int
    decreases to - from,
{
    if from >= to {
        to
    } else if spec_should_insert_before(lp, s[from].pos.position) {
        from
    } else {
        spec_scan_insert(s, lp, from + 1, to)
    }
}

/// The insertion index for a dropped leader among the sorted remaining
/// blocks: groups search among the remaining groups only, non-groups
/// among the remaining non-groups only.
pub open spec fn spec_find_insert_index(
    remaining: Seq<ImageBlock>,
    leader_pos: Vec2,
    is_leader_group: bool,
    group_boundary: int,
) -> int {
    if is_leader_group {
        spec_scan_insert(remaining, leader_pos, 0, group_boundary)
    } else {
        spec_scan_insert(remaining, leader_pos, group_boundary, remaining.len() as int)
    }
}

/// The index of the first non-group block, or the length when all are
/// groups.
pub open spec fn spec_group_boundary(s: Seq<ImageBlock>) -> int
    decreases s.len(),
{
    if s.len() == 0 {
        0
    } else if !s[0].group.is_group {
        0
    } else {
        1 + spec_group_boundary(s.subrange(1, s.len() as int))
    }
}

/// The group boundary is in range, everything before it is a group,
/// and the block there (if any) is not.
proof fn lemma_group_boundary(s: Seq<ImageBlock>)
    ensures
        0 <= spec_group_boundary(s) <= s.len(),
        forall|j: int| 0 <= j < spec_group_boundary(s) ==> (#[trigger] s[j]).group.is_group,
        spec_group_boundary(s) < s.len() ==> !s[spec_group_boundary(s)].group.is_group,
    decreases s.len(),
{
    if s.len() > 0 && s[0].group.is_group {
        let rest = s.subrange(1, s.len() as int);
        assert(forall|k: int| 0 <= k < s.len() - 1 ==> rest[k] == s[k + 1]);
        lemma_group_boundary(rest);
        assert forall|j: int| 0 <= j < spec_group_boundary(s) implies (
        #[trigger] s[j]).group.is_group by {
            if j > 0 {
                assert(rest[j - 1] == s[j]);
            }
        };
    }
}

impl BlockManager {
    /// Whether a dropped leader settles before a block at this
    /// position: on an earlier quantized row, or left of it on the
    /// same row.
    pub fn should_insert_before(leader_pos: Vec2, block_pos: Vec2) -> (r: bool)
        requires
            i64::MIN < leader_pos.y,
            i64::MIN < block_pos.y,
        ensures
            r == spec_should_insert_before(leader_pos, block_pos),
    {
        let leader_y_q = crate::geom::row_of(leader_pos.y);
        let block_y_q = crate::geom::row_of(block_pos.y);
        leader_y_q < block_y_q || (leader_y_q == block_y_q && leader_pos.x < block_pos.x)
    }

    /// The insertion index for a dropped leader among the sorted
    /// remaining blocks, restricted to its own category's span.
    fn find_insert_index(
        remaining: &Vec<ImageBlock>,
        leader_pos: Vec2,
        is_leader_group: bool,
        group_boundary: usize,
    ) -> (r: usize)
        requires
            group_boundary <= remaining@.len(),
            crate::block::wf_blocks(remaining@),
            i64::MIN < leader_pos.y,
        ensures
            r == spec_find_insert_index(
                remaining@,
                leader_pos,
                is_leader_group,
                group_boundary as int,
            ),
            r <= remaining@.len(),
    {
        let (from, to): (usize, usize) = if is_leader_group {
            (0, group_boundary)
        } else {
            (group_boundary, remaining.len())
        };
        let mut i = from;
        while i < to
            invariant
                from <= i <= to,
                to <= remaining@.len(),
                group_boundary <= remaining@.len(),
                from as int == if is_leader_group {
                    0int
                } else {
                    group_boundary as int
                },
                to as int == if is_leader_group {
                    group_boundary as int
                } else {
                    remaining@.len() as int
                },
                crate::block::wf_blocks(remaining@),
                i64::MIN < leader_pos.y,
                spec_scan_insert(remaining@, leader_pos, from as int, to as int)
                    == spec_scan_insert(remaining@, leader_pos, i as int, to as int),
            decreases to - i,
        {
            if Self::should_insert_before(leader_pos, remaining[i].pos.position) {
                proof {
                    assert(spec_scan_insert(remaining@, leader_pos, i as int, to as int)
                        == i as int);
                }
                return i;
            }
            proof {
                assert(spec_scan_insert(remaining@, leader_pos, i as int, to as int)
                    == spec_scan_insert(remaining@, leader_pos, i + 1, to as int));
            }
            i += 1;
        }
        proof {
            assert(spec_scan_insert(remaining@, leader_pos, to as int, to as int) == to as int);
        }
        to
    }
}


/// Whether a block belongs to the moved set of a drag settlement: every
/// chained block when the leader is chained, the leader alone otherwise.
pub open spec fn moved_pred(b: ImageBlock, leader_chained: bool, lid: u128) -> bool {
    if leader_chained {
        b.chained
    } else {
        b.id == lid
    }
}

impl BlockManager {
    /// The index of the first non-group block, or the length when all
    /// blocks are groups.
    fn group_boundary_of(v: &Vec<ImageBlock>) -> (r: usize)
        ensures
            r as int == spec_group_boundary(v@),
    {
        proof {
            lemma_group_boundary(v@);
        }
        let n = v.len();
        let mut i: usize = 0;
        while i < n
            invariant
                n == v@.len(),
                i <= n,
                forall|j: int| 0 <= j < i ==> (#[trigger] v@[j]).group.is_group,
                0 <= spec_group_boundary(v@) <= v@.len(),
                forall|j: int|
                    0 <= j < spec_group_boundary(v@) ==> (#[trigger] v@[j]).group.is_group,
                spec_group_boundary(v@) < v@.len() ==> !v@[spec_group_boundary(
                    v@,
                )].group.is_group,
            decreases n - i,
        {
            if !v[i].group.is_group {
                return i;
            }
            i += 1;
        }
        n
    }

    /// Settles a finished drag: with no leader, all blocks are simply
    /// sorted into layout order and reflowed. With a leader that still
    /// exists, the moved set (the leader alone, or every chained block
    /// when the leader is chained) is pulled out in its existing
    /// relative order, the rest are sorted, the moved set is inserted
    /// where the leader was dropped within its own category, and the
    /// whole collection is reflowed. A vanished leader is a no-op.
    pub fn reorder_and_reflow(&mut self, leader_id: Option<u128>, inner_width: i64)
        requires
            crate::block::wf_blocks(old(self).blocks@),
            old(self).blocks@.len() <= MAX_TOTAL_BLOCKS,
            -DIM_LIMIT <= inner_width <= DIM_LIMIT,
        ensures
            *final(self) == (BlockManager { blocks: final(self).blocks, ..*old(self) }),
            match leader_id {
                None => final(self).blocks@ == crate::layout::spec_reflow(
                    spec_sort_layout(old(self).blocks@),
                    inner_width as int,
                ),
                Some(lid) => {
                    if !has_id(old(self).blocks@, lid) {
                        final(self).blocks@ == old(self).blocks@
                    } else {
                        let s = old(self).blocks@;
                        let lc = s[first_id_index(s, lid)].chained;
                        let moved = s.filter(|b: ImageBlock| moved_pred(b, lc, lid));
                        let rem = s.filter(|b: ImageBlock| !moved_pred(b, lc, lid));
                        let sorted = spec_sort_layout(rem);
                        let gb = spec_group_boundary(sorted);
                        let lp = moved[first_id_index(moved, lid)].pos.position;
                        let ip = spec_find_insert_index(
                            sorted,
                            lp,
                            moved[0].group.is_group,
                            gb,
                        );
                        final(self).blocks@ == crate::layout::spec_reflow(
                            sorted.take(ip) + moved + sorted.skip(ip),
                            inner_width as int,
                        )
                    }
                },
            },
    {
        let lid: u128 = match leader_id {
            None => {
                sort_by_layout(&mut self.blocks);
                self.reflow(inner_width);
                return ;
            },
            Some(lid) => lid,
        };

        let fidx: usize = match crate::block::block_index_in_slice(&self.blocks, lid) {
            Some(f) => f,
            None => {
                proof {
                    lemma_first_found(self.blocks@, lid);
                }
                return ;
            },
        };
        proof {
            crate::block::lemma_first_id_index(self.blocks@, lid, fidx as int);
        }

        let ghost s = self.blocks@;
        let is_leader_chained = self.blocks[fidx].chained;
        let ghost pc = |b: ImageBlock| moved_pred(b, is_leader_chained, lid);
        let ghost nc = |b: ImageBlock| !moved_pred(b, is_leader_chained, lid);

        let mut moved: Vec<ImageBlock> = Vec::new();
        let mut remaining: Vec<ImageBlock> = Vec::new();
        let mut first_moved_is_group: bool = false;
        let mut leader_pos = Vec2 { x: 0, y: 0 };
        let mut leader_found: bool = false;
        let ghost i: int = 0;
        proof {
            reveal_with_fuel(Seq::<ImageBlock>::filter, 1);
            assert(s.take(0) =~= Seq::<ImageBlock>::empty());
        }
        while self.blocks.len() > 0
            invariant
                0 <= i <= s.len(),
                self.blocks@ == s.subrange(i, s.len() as int),
                crate::block::wf_blocks(s),
                pc == (|b: ImageBlock| moved_pred(b, is_leader_chained, lid)),
                nc == (|b: ImageBlock| !moved_pred(b, is_leader_chained, lid)),
                moved@ == s.take(i).filter(pc),
                remaining@ == s.take(i).filter(nc),
                moved@.len() + remaining@.len() == i,
                crate::block::wf_blocks(moved@),
                crate::block::wf_blocks(remaining@),
                leader_found == has_id(moved@, lid),
                leader_found ==> leader_pos == moved@[first_id_index(
                    moved@,
                    lid,
                )].pos.position,
                moved@.len() > 0 ==> first_moved_is_group == moved@[0].group.is_group,
                *self == (BlockManager { blocks: self.blocks, ..*old(self) }),
            decreases self.blocks@.len(),
        {
            proof {
                reveal_with_fuel(Seq::<ImageBlock>::filter, 2);
                assert(s.take(i + 1).drop_last() =~= s.take(i));
                assert(s.take(i + 1).last() == s[i]);
                assert(self.blocks@[0] == s[i]);
            }
            let b = self.blocks.remove(0);
            let is_moved = if is_leader_chained {
                b.chained
            } else {
                b.id == lid
            };
            if is_moved {
                let ghost pre = moved@;
                if moved.len() == 0 {
                    first_moved_is_group = b.group.is_group;
                }
                if !leader_found && b.id == lid {
                    leader_found = true;
                    leader_pos = b.pos.position;
                    proof {
                        crate::block::lemma_first_id_index(
                            pre.push(b),
                            lid,
                            pre.len() as int,
                        );
                    }
                }
                moved.push(b);
                proof {
                    if has_id(pre, lid) {
                        lemma_first_found(pre, lid);
                        crate::block::lemma_first_id_index(
                            pre.push(b),
                            lid,
                            first_id_index(pre, lid),
                        );
                    }
                }
            } else {
                remaining.push(b);
            }
            proof {
                assert(self.blocks@ =~= s.subrange(i + 1, s.len() as int));
                i = i + 1;
            }
        }
        proof {
            assert(s.take(s.len() as int) =~= s);
            s.filter_lemma(pc);
            assert(pc(s[fidx as int]));
            assert(moved@.contains(s[fidx as int]));
            let w = choose|w: int| 0 <= w < moved@.len() && moved@[w] == s[fidx as int];
            assert(moved@[w].id == lid);
            assert(has_id(moved@, lid));
        }

        sort_by_layout(&mut remaining);
        let group_boundary = Self::group_boundary_of(&remaining);
        proof {
            lemma_group_boundary(remaining@);
            lemma_first_found(moved@, lid);
        }
        let insert_idx = Self::find_insert_index(
            &remaining,
            leader_pos,
            first_moved_is_group,
            group_boundary,
        );

        let ghost sorted = remaining@;
        let ghost movedv = moved@;
        self.blocks = remaining;
        let mut t: usize = 0;
        proof {
            assert(sorted.take(insert_idx as int) + movedv.take(0) + sorted.skip(
                insert_idx as int,
            ) =~= sorted);
        }
        while moved.len() > 0
            invariant
                t <= movedv.len(),
                movedv.len() + sorted.len() == s.len(),
                s.len() <= MAX_TOTAL_BLOCKS,
                moved@ == movedv.subrange(t as int, movedv.len() as int),
                insert_idx as int <= sorted.len(),
                self.blocks@ == sorted.take(insert_idx as int) + movedv.take(t as int)
                    + sorted.skip(insert_idx as int),
                *self == (BlockManager { blocks: self.blocks, ..*old(self) }),
            decreases moved@.len(),
        {
            proof {
                assert(moved@[0] == movedv[t as int]);
            }
            let b = moved.remove(0);
            self.blocks.insert(insert_idx + t, b);
            proof {
                assert(self.blocks@ =~= sorted.take(insert_idx as int) + movedv.take(t + 1)
                    + sorted.skip(insert_idx as int));
                assert(moved@ =~= movedv.subrange(t + 1, movedv.len() as int));
            }
            t += 1;
        }
        proof {
            assert(movedv.take(movedv.len() as int) =~= movedv);
            let assembled = sorted.take(insert_idx as int) + movedv + sorted.skip(
                insert_idx as int,
            );
            assert(self.blocks@ == assembled);
            assert(assembled.len() == s.len());
            assert forall|j: int| 0 <= j < assembled.len() implies crate::block::wf_block(
                #[trigger] assembled[j],
            ) by {
                if j < insert_idx as int {
                    assert(assembled[j] == sorted[j]);
                } else if j < insert_idx as int + movedv.len() {
                    assert(assembled[j] == movedv[j - insert_idx as int]);
                } else {
                    assert(assembled[j] == sorted[j - movedv.len()]);
                }
            };
        }
        self.reflow(inner_width);
    }
}


/// The blocks that stay at top level when the chained ones are pulled
/// out, except that the block at index `gi` (if any) always stays.
pub open spec fn spec_drop_kept(s: Seq<ImageBlock>, gi: int) -> Seq<ImageBlock>
    decreases s.len(),
{
    if s.len() == 0 {
        Seq::empty()
    } else {
        (if !s[0].chained || gi == 0 {
            seq![s[0]]
        } else {
            Seq::<ImageBlock>::empty()
        }) + spec_drop_kept(s.subrange(1, s.len() as int), gi - 1)
    }
}

/// The chained blocks pulled out of the top level, in order, except the
/// one at index `gi` (if any).
pub open spec fn spec_drop_moved(s: Seq<ImageBlock>, gi: int) -> Seq<ImageBlock>
    decreases s.len(),
{
    if s.len() == 0 {
        Seq::empty()
    } else {
        (if s[0].chained && gi != 0 {
            seq![s[0]]
        } else {
            Seq::<ImageBlock>::empty()
        }) + spec_drop_moved(s.subrange(1, s.len() as int), gi - 1)
    }
}

/// Kept and moved sequences grow at the back as the scan advances.
proof fn lemma_drop_split_snoc(t: Seq<ImageBlock>, x: ImageBlock, gi: int)
    ensures
        spec_drop_kept(t.push(x), gi) == spec_drop_kept(t, gi) + (if !x.chained || gi
            == t.len() {
            seq![x]
        } else {
            Seq::<ImageBlock>::empty()
        }),
        spec_drop_moved(t.push(x), gi) == spec_drop_moved(t, gi) + (if x.chained && gi
            != t.len() {
            seq![x]
        } else {
            Seq::<ImageBlock>::empty()
        }),
    decreases t.len(),
{
    if t.len() == 0 {
        assert(t.push(x)[0] == x);
        assert(t.push(x).subrange(1, 1) =~= Seq::<ImageBlock>::empty());
        assert(spec_drop_kept(Seq::<ImageBlock>::empty(), gi - 1) == Seq::<
            ImageBlock,
        >::empty());
        assert(spec_drop_moved(Seq::<ImageBlock>::empty(), gi - 1) == Seq::<
            ImageBlock,
        >::empty());
        assert(spec_drop_kept(t.push(x), gi) =~= spec_drop_kept(t, gi) + (if !x.chained || gi
            == t.len() {
            seq![x]
        } else {
            Seq::<ImageBlock>::empty()
        }));
        assert(spec_drop_moved(t.push(x), gi) =~= spec_drop_moved(t, gi) + (if x.chained && gi
            != t.len() {
            seq![x]
        } else {
            Seq::<ImageBlock>::empty()
        }));
    } else {
        let tr = t.subrange(1, t.len() as int);
        lemma_drop_split_snoc(tr, x, gi - 1);
        assert(t.push(x)[0] == t[0]);
        assert(t.push(x).subrange(1, t.len() as int + 1) =~= tr.push(x));
        assert(spec_drop_kept(t.push(x), gi) =~= spec_drop_kept(t, gi) + (if !x.chained || gi
            == t.len() {
            seq![x]
        } else {
            Seq::<ImageBlock>::empty()
        }));
        assert(spec_drop_moved(t.push(x), gi) =~= spec_drop_moved(t, gi) + (if x.chained && gi
            != t.len() {
            seq![x]
        } else {
            Seq::<ImageBlock>::empty()
        }));
    }
}

/// With no protected index, the kept blocks are exactly the unchained
/// ones and the moved blocks exactly the chained ones.
proof fn lemma_drop_split_filter(s: Seq<ImageBlock>)
    ensures
        spec_drop_kept(s, -1) == s.filter(|b: ImageBlock| !b.chained),
        spec_drop_moved(s, -1) == s.filter(|b: ImageBlock| b.chained),
    decreases s.len(),
{
    if s.len() == 0 {
        reveal_with_fuel(Seq::<ImageBlock>::filter, 1);
        assert(spec_drop_kept(s, -1) =~= s.filter(|b: ImageBlock| !b.chained));
        assert(spec_drop_moved(s, -1) =~= s.filter(|b: ImageBlock| b.chained));
    } else {
        let rest = s.subrange(1, s.len() as int);
        lemma_drop_split_filter(rest);
        lemma_filter_front(s, |b: ImageBlock| !b.chained);
        lemma_filter_front(s, |b: ImageBlock| b.chained);
        assert(spec_drop_kept(rest, -2) =~= spec_drop_kept(rest, -1)) by {
            lemma_drop_skip_irrelevant(rest, -2, -1);
        }
        assert(spec_drop_moved(rest, -2) =~= spec_drop_moved(rest, -1)) by {
            lemma_drop_skip_irrelevant(rest, -2, -1);
        }
        assert(spec_drop_kept(s, -1) =~= s.filter(|b: ImageBlock| !b.chained));
        assert(spec_drop_moved(s, -1) =~= s.filter(|b: ImageBlock| b.chained));
    }
}

/// A negative protected index never matches, so any two give the same
/// split.
proof fn lemma_drop_skip_irrelevant(s: Seq<ImageBlock>, a: int, b: int)
    requires
        a < 0,
        b < 0,
    ensures
        spec_drop_kept(s, a) == spec_drop_kept(s, b),
        spec_drop_moved(s, a) == spec_drop_moved(s, b),
    decreases s.len(),
{
    if s.len() > 0 {
        lemma_drop_skip_irrelevant(s.subrange(1, s.len() as int), a - 1, b - 1);
        assert(spec_drop_kept(s, a) =~= spec_drop_kept(s, b));
        assert(spec_drop_moved(s, a) =~= spec_drop_moved(s, b));
    }
}

/// The x of the top-left-most corner among the blocks (0 when none).
pub open spec fn spec_min_x(s: Seq<ImageBlock>) -> int
    decreases s.len(),
{
    if s.len() == 0 {
        0
    } else if s.len() == 1 {
        s[0].pos.position.x as int
    } else {
        let rest = spec_min_x(s.drop_last());
        if s.last().pos.position.x < rest {
            s.last().pos.position.x as int
        } else {
            rest
        }
    }
}

/// The y of the top-left-most corner among the blocks (0 when none).
pub open spec fn spec_min_y(s: Seq<ImageBlock>) -> int
    decreases s.len(),
{
    if s.len() == 0 {
        0
    } else if s.len() == 1 {
        s[0].pos.position.y as int
    } else {
        let rest = spec_min_y(s.drop_last());
        if s.last().pos.position.y < rest {
            s.last().pos.position.y as int
        } else {
            rest
        }
    }
}

/// Pulls out of the top level every chained block except the one at the
/// protected index, keeping relative order on both sides.
fn extract_chained(v: &mut Vec<ImageBlock>, skip_index: Option<usize>) -> (moved: Vec<
    ImageBlock,
>)
    requires
        crate::block::wf_blocks(old(v)@),
        skip_index is Some ==> skip_index->0 < old(v)@.len(),
    ensures
        ({
            let gi: int = if skip_index is Some {
                skip_index->0 as int
            } else {
                -1
            };
            &&& final(v)@ == spec_drop_kept(old(v)@, gi)
            &&& moved@ == spec_drop_moved(old(v)@, gi)
        }),
        crate::block::wf_blocks(final(v)@),
        crate::block::wf_blocks(moved@),
        final(v)@.len() + moved@.len() == old(v)@.len(),
    {
        let ghost s = old(v)@;
        let ghost gi: int = if skip_index is Some {
            skip_index->0 as int
        } else {
            -1
        };
        let n = v.len();
        let mut moved: Vec<ImageBlock> = Vec::new();
        let mut i: usize = 0;
        let mut j: usize = 0;
        proof {
            assert(s.take(0) =~= Seq::<ImageBlock>::empty());
            assert(v@ =~= spec_drop_kept(s.take(0), gi) + s.skip(0));
        }
        while j < n
            invariant
                n == s.len(),
                j <= n,
                i as int == spec_drop_kept(s.take(j as int), gi).len(),
                i <= j,
                crate::block::wf_blocks(s),
                gi == if skip_index is Some {
                    skip_index->0 as int
                } else {
                    -1
                },
                v@ == spec_drop_kept(s.take(j as int), gi) + s.skip(j as int),
                moved@ == spec_drop_moved(s.take(j as int), gi),
                moved@.len() + i as int == j,
                crate::block::wf_blocks(v@),
                crate::block::wf_blocks(moved@),
            decreases n - j,
        {
            proof {
                assert(s.take(j + 1) =~= s.take(j as int).push(s[j as int]));
                lemma_drop_split_snoc(s.take(j as int), s[j as int], gi);
                assert(v@[i as int] == s[j as int]);
            }
            let is_skipped = match skip_index {
                Some(k) => j == k,
                None => false,
            };
            if v[i].chained && !is_skipped {
                let ghost vpre = v@;
                let b = v.remove(i);
                moved.push(b);
                proof {
                    assert(v@ =~= spec_drop_kept(s.take(j + 1), gi) + s.skip(j + 1));
                    assert(moved@ =~= spec_drop_moved(s.take(j + 1), gi));
                    assert forall|k: int| 0 <= k < v@.len() implies crate::block::wf_block(
                        #[trigger] v@[k],
                    ) by {
                        if k < i as int {
                            assert(v@[k] == vpre[k]);
                        } else {
                            assert(v@[k] == vpre[k + 1]);
                        }
                    };
                }
            } else {
                i += 1;
                proof {
                    assert(v@ =~= spec_drop_kept(s.take(j + 1), gi) + s.skip(j + 1));
                    assert(moved@ =~= spec_drop_moved(s.take(j + 1), gi));
                }
            }
            j += 1;
        }
        proof {
            assert(s.take(n as int) =~= s);
            assert(s.skip(n as int) =~= Seq::<ImageBlock>::empty());
            assert(v@ =~= spec_drop_kept(s, gi));
        }
        moved
    }

/// The outcome of boxing: the chained blocks, in order, become the
/// children of one fresh group that stands first, positioned at their
/// top-left-most corner; everything else keeps its order after it.
pub open spec fn boxed_outcome(pre: Seq<ImageBlock>, post: Seq<ImageBlock>, rid: u128) -> bool {
    let ch = pre.filter(|b: ImageBlock| b.chained);
    let rest = pre.filter(|b: ImageBlock| !b.chained);
    &&& post.len() == rest.len() + 1
    &&& post[0].group.is_group
    &&& post[0].group.children@ == ch
    &&& post[0].group.group_name == crate::block::spec_group_name(ch)
    &&& post[0].id == rid
    &&& !post[0].chained
    &&& post[0].counter == 0
    &&& post[0].pos.position.x == spec_min_x(ch)
    &&& post[0].pos.position.y == spec_min_y(ch)
    &&& post[0].image_size == (Vec2 {
        x: crate::constants::DEFAULT_GROUP_SIZE,
        y: crate::constants::DEFAULT_GROUP_SIZE,
    })
    &&& post.skip(1) == rest
}

impl BlockManager {
    /// Boxes the chained blocks into one fresh group: they leave the
    /// top level in their relative order and become the group's
    /// children; the group stands first, named after them and placed at
    /// their top-left-most corner. Returns the group's identifier, or
    /// zero (never a real identifier) when nothing was chained.
    pub fn box_chained(&mut self) -> (r: u128)
        requires
            crate::block::wf_blocks(old(self).blocks@),
            old(self).next_block_id < usize::MAX,
        ensures
            crate::block::wf_blocks(final(self).blocks@),
            crate::block::spec_count_chained(old(self).blocks@) == 0 ==> r == 0 && *final(self)
                == *old(self),
            crate::block::spec_count_chained(old(self).blocks@) > 0 ==> {
                &&& r != 0
                &&& boxed_outcome(old(self).blocks@, final(self).blocks@, r)
                &&& *final(self) == (BlockManager {
                    blocks: final(self).blocks,
                    next_block_id: (old(self).next_block_id + 1) as usize,
                    ..*old(self)
                })
            },
    {
        let ghost s = self.blocks@;
        let count = crate::block::count_chained(&self.blocks);
        if count == 0 {
            return 0;
        }
        proof {
            lemma_count_positive_means_chained(s);
        }

        let children = extract_chained(&mut self.blocks, None);
        proof {
            lemma_drop_split_filter(s);
            let w = choose|w: int| 0 <= w < s.len() && (#[trigger] s[w]).chained;
            s.filter_lemma(|b: ImageBlock| b.chained);
            assert(children@.contains(s[w]));
            assert(children@.len() > 0);
            vstd::std_specs::vec::axiom_spec_len(&children);
        }

        let mut min_x: i64 = children[0].pos.position.x;
        let mut min_y: i64 = children[0].pos.position.y;
        let n = children.len();
        let mut i: usize = 1;
        while i < n
            invariant
                n == children@.len(),
                1 <= i <= n,
                min_x as int == spec_min_x(children@.take(i as int)),
                min_y as int == spec_min_y(children@.take(i as int)),
            decreases n - i,
        {
            proof {
                assert(children@.take(i + 1).drop_last() =~= children@.take(i as int));
                assert(children@.take(i + 1).last() == children@[i as int]);
            }
            if children[i].pos.position.x < min_x {
                min_x = children[i].pos.position.x;
            }
            if children[i].pos.position.y < min_y {
                min_y = children[i].pos.position.y;
            }
            i += 1;
        }
        proof {
            assert(children@.take(n as int) =~= children@);
        }

        self.next_block_id += 1;

        let mut group_block = ImageBlock::new_group(crate::block::GroupName::Empty, children);
        group_block.update_group_name();
        group_block.pos.position = Vec2 { x: min_x, y: min_y };
        let new_id = group_block.id;
        proof {
            lemma_min_in_coord_range(s.filter(|b: ImageBlock| b.chained));
            assert(crate::block::wf_block(group_block));
        }
        self.blocks.insert(0, group_block);
        proof {
            assert(self.blocks@.skip(1) =~= s.filter(|b: ImageBlock| !b.chained));
        }
        new_id
    }
}

/// A positive chained count means some block is chained, and a zero
/// count means none is.
proof fn lemma_count_positive_means_chained(s: Seq<ImageBlock>)
    ensures
        crate::block::spec_count_chained(s) > 0 ==> exists|i: int|
            0 <= i < s.len() && (#[trigger] s[i]).chained,
        crate::block::spec_count_chained(s) == 0 ==> forall|i: int|
            0 <= i < s.len() ==> !(#[trigger] s[i]).chained,
        crate::block::spec_count_chained(s) >= 0,
    decreases s.len(),
{
    if s.len() > 0 {
        lemma_count_positive_means_chained(s.drop_last());
        if crate::block::spec_count_chained(s) > 0 {
            if s.last().chained {
                assert(s[s.len() - 1].chained);
            } else {
                let i = choose|i: int|
                    0 <= i < s.drop_last().len() && (#[trigger] s.drop_last()[i]).chained;
                assert(s[i].chained);
            }
        }
        if crate::block::spec_count_chained(s) == 0 {
            assert forall|i: int| 0 <= i < s.len() implies !(#[trigger] s[i]).chained by {
                if i < s.len() - 1 {
                    assert(s.drop_last()[i] == s[i]);
                }
            };
        }
    }
}

/// The minimum corner of well-formed blocks stays in the coordinate
/// range.
proof fn lemma_min_in_coord_range(s: Seq<ImageBlock>)
    requires
        crate::block::wf_blocks(s),
    ensures
        -COORD_LIMIT <= spec_min_x(s) <= COORD_LIMIT,
        -COORD_LIMIT <= spec_min_y(s) <= COORD_LIMIT,
    decreases s.len(),
{
    if s.len() > 1 {
        assert(crate::block::wf_blocks(s.drop_last())) by {
            assert(forall|i: int|
                0 <= i < s.len() - 1 ==> #[trigger] s.drop_last()[i] == s[i]);
        }
        lemma_min_in_coord_range(s.drop_last());
        assert(crate::block::wf_block(s[s.len() - 1]));
    } else if s.len() == 1 {
        assert(crate::block::wf_block(s[0]));
    }
}


/// The children of a group with their chained flags cleared, in order.
pub open spec fn unchained_children(g: ImageBlock) -> Seq<ImageBlock> {
    Seq::new(
        g.group.children@.len(),
        |i: int| ImageBlock { chained: false, ..g.group.children@[i] },
    )
}

/// The outcome of unboxing the group at `index`: the group leaves, its
/// children re-enter at the boundary between groups and non-groups,
/// unchained and in their original order.
pub open spec fn unboxed_outcome(pre: Seq<ImageBlock>, post: Seq<ImageBlock>, index: int) -> bool {
    let rest = pre.remove(index);
    let bnd = spec_group_boundary(rest);
    post == rest.take(bnd) + unchained_children(pre[index]) + rest.skip(bnd)
}

impl BlockManager {
    /// Unboxes the group at this index: the group leaves the top level
    /// and its children re-enter at the boundary between groups and
    /// non-groups, unchained, in their original order. Returns the
    /// children's identifiers; a non-group block at the index is simply
    /// removed, returning none.
    pub fn unbox_group(&mut self, index: usize) -> (r: Vec<u128>)
        requires
            index < old(self).blocks@.len(),
            crate::block::wf_blocks(old(self).blocks@),
        ensures
            crate::block::wf_blocks(final(self).blocks@),
            *final(self) == (BlockManager { blocks: final(self).blocks, ..*old(self) }),
            !old(self).blocks@[index as int].group.is_group ==> final(self).blocks@ == old(
                self,
            ).blocks@.remove(index as int) && r@.len() == 0,
            old(self).blocks@[index as int].group.is_group ==> {
                &&& unboxed_outcome(old(self).blocks@, final(self).blocks@, index as int)
                &&& r@ == old(self).blocks@[index as int].group.children@.map_values(
                    |c: ImageBlock| c.id,
                )
            },
    {
        let ghost s = self.blocks@;
        let group = self.blocks.remove(index);
        let mut unboxed_ids: Vec<u128> = Vec::new();

        if !group.group.is_group {
            return unboxed_ids;
        }

        let insert_idx = Self::group_boundary_of(&self.blocks);
        let ghost rest = s.remove(index as int);
        let ghost ch = group.group.children@;
        let ImageBlock { group: gd, .. } = group;
        let mut children = gd.children;

        let mut t: usize = 0;
        proof {
            vstd::std_specs::vec::axiom_spec_len(&self.blocks);
            vstd::std_specs::vec::axiom_spec_len(&children);
            lemma_group_boundary(rest);
            assert(rest.take(insert_idx as int) + unchained_children(s[index as int]).take(0)
                + rest.skip(insert_idx as int) =~= rest);
            assert(ch.map_values(|c: ImageBlock| c.id).take(0) =~= Seq::<u128>::empty());
            assert(unboxed_ids@ =~= ch.map_values(|c: ImageBlock| c.id).take(0));
        }
        while children.len() > 0
            invariant
                t as int + children@.len() == ch.len(),
                ch.len() <= usize::MAX,
                children@ == ch.subrange(t as int, ch.len() as int),
                insert_idx as int <= rest.len(),
                insert_idx as int + t <= self.blocks@.len(),
                self.blocks@.len() == rest.len() + t,
                crate::block::wf_blocks(rest),
                crate::block::wf_blocks(ch),
                self.blocks@ == rest.take(insert_idx as int) + unchained_children(
                    s[index as int],
                ).take(t as int) + rest.skip(insert_idx as int),
                unchained_children(s[index as int]) == Seq::new(
                    ch.len(),
                    |i: int| ImageBlock { chained: false, ..ch[i] },
                ),
                unboxed_ids@ == ch.map_values(|c: ImageBlock| c.id).take(t as int),
                *self == (BlockManager { blocks: self.blocks, ..*old(self) }),
            decreases children@.len(),
        {
            proof {
                vstd::std_specs::vec::axiom_spec_len(&self.blocks);
                assert(children@[0] == ch[t as int]);
            }
            let mut child = children.remove(0);
            unboxed_ids.push(child.id);
            child.chained = false;
            self.blocks.insert(insert_idx + t, child);
            proof {
                assert(child == unchained_children(s[index as int])[t as int]);
                assert(self.blocks@ =~= rest.take(insert_idx as int) + unchained_children(
                    s[index as int],
                ).take(t as int + 1) + rest.skip(insert_idx as int));
                assert(unboxed_ids@ =~= ch.map_values(|c: ImageBlock| c.id).take(
                    t as int + 1,
                ));
                assert(children@ =~= ch.subrange(t as int + 1, ch.len() as int));
            }
            t += 1;
        }
        proof {
            assert(unchained_children(s[index as int]).take(ch.len() as int)
                =~= unchained_children(s[index as int]));
            assert(ch.map_values(|c: ImageBlock| c.id).take(ch.len() as int) =~= ch.map_values(
                |c: ImageBlock| c.id,
            ));
            assert forall|k: int| 0 <= k < self.blocks@.len() implies crate::block::wf_block(
                #[trigger] self.blocks@[k],
            ) by {
                let ub = unchained_children(s[index as int]);
                if k < insert_idx as int {
                    assert(self.blocks@[k] == rest[k]);
                } else if k < insert_idx as int + ub.len() {
                    assert(self.blocks@[k] == ub[k - insert_idx as int]);
                    assert(crate::block::wf_block(ch[k - insert_idx as int]));
                    assert(self.blocks@[k].group == ch[k - insert_idx as int].group);
                } else {
                    assert(self.blocks@[k] == rest[k - ub.len()]);
                }
            };
        }
        unboxed_ids
    }

    /// Moves one block into a group: it leaves the top level, its drag
    /// and chain flags clear, and it joins the end of the group's
    /// children; the group's derived name follows.
    fn move_single_into_group(&mut self, block_idx: usize, group_idx: usize)
        requires
            block_idx < old(self).blocks@.len(),
            group_idx < old(self).blocks@.len(),
            block_idx != group_idx,
            old(self).blocks@[group_idx as int].group.is_group,
            crate::block::wf_blocks(old(self).blocks@),
        ensures
            crate::block::wf_blocks(final(self).blocks@),
            *final(self) == (BlockManager { blocks: final(self).blocks, ..*old(self) }),
            ({
                let s = old(self).blocks@;
                let t: int = if group_idx > block_idx {
                    group_idx - 1
                } else {
                    group_idx as int
                };
                let moved = ImageBlock {
                    chained: false,
                    pos: crate::block::BlockPosition {
                        is_dragging: false,
                        ..s[block_idx as int].pos
                    },
                    ..s[block_idx as int]
                };
                let removed = s.remove(block_idx as int);
                let newch = removed[t].group.children@.push(moved);
                &&& final(self).blocks@ == removed.update(t, final(self).blocks@[t])
                &&& final(self).blocks@[t] == (ImageBlock {
                    group: final(self).blocks@[t].group,
                    ..removed[t]
                })
                &&& final(self).blocks@[t].group == (crate::block::GroupData {
                    group_name: crate::block::spec_group_name(newch),
                    children: final(self).blocks@[t].group.children,
                    ..removed[t].group
                })
                &&& final(self).blocks@[t].group.children@ == newch
            }),
    {
        let ghost s = self.blocks@;
        let mut block = self.blocks.remove(block_idx);
        block.pos.is_dragging = false;
        block.chained = false;

        let target_idx = if group_idx > block_idx {
            group_idx - 1
        } else {
            group_idx
        };
        proof {
            assert(self.blocks@[target_idx as int]
                == s.remove(block_idx as int)[target_idx as int]);
        }
        self.blocks[target_idx].group.children.push(block);
        self.blocks[target_idx].update_group_name();
        proof {
            assert(self.blocks@ =~= s.remove(block_idx as int).update(
                target_idx as int,
                self.blocks@[target_idx as int],
            ));
            let removed = s.remove(block_idx as int);
            assert forall|k: int| 0 <= k < self.blocks@.len() implies crate::block::wf_block(
                #[trigger] self.blocks@[k],
            ) by {
                if k != target_idx as int {
                    assert(self.blocks@[k] == removed[k]);
                    assert(crate::block::wf_block(removed[k]));
                } else {
                    assert(crate::block::wf_block(removed[k]));
                    assert(crate::block::wf_block(s[block_idx as int]));
                    let nb = self.blocks@[k];
                    assert(crate::block::wf_block_local(nb));
                    assert forall|c: int|
                        0 <= c < nb.group.children@.len() implies crate::block::wf_block(
                        #[trigger] nb.group.children@[c],
                    ) by {
                        if c < nb.group.children@.len() - 1 {
                            assert(nb.group.children@[c] == removed[k].group.children@[c]);
                        } else {
                            assert(nb.group.children@[c].group == s[block_idx as int].group);
                        }
                    };
                }
            };
        }
    }

    /// Drops a block into a group. When the dropped block is chained,
    /// every chained block other than the group itself moves in with
    /// it; otherwise only the dropped block does. The moved blocks
    /// join the group's children in their top-level order, unchained
    /// and no longer dragging, and the group's derived name follows.
    pub fn drop_into_group(&mut self, block_idx: usize, group_idx: usize)
        requires
            block_idx < old(self).blocks@.len(),
            group_idx < old(self).blocks@.len(),
            block_idx != group_idx,
            old(self).blocks@[group_idx as int].group.is_group,
            crate::block::wf_blocks(old(self).blocks@),
        ensures
            crate::block::wf_blocks(final(self).blocks@),
            *final(self) == (BlockManager { blocks: final(self).blocks, ..*old(self) }),
            !old(self).blocks@[block_idx as int].chained ==> ({
                let s = old(self).blocks@;
                let t: int = if group_idx > block_idx {
                    group_idx - 1
                } else {
                    group_idx as int
                };
                let moved = ImageBlock {
                    chained: false,
                    pos: crate::block::BlockPosition {
                        is_dragging: false,
                        ..s[block_idx as int].pos
                    },
                    ..s[block_idx as int]
                };
                let removed = s.remove(block_idx as int);
                let newch = removed[t].group.children@.push(moved);
                &&& final(self).blocks@ == removed.update(t, final(self).blocks@[t])
                &&& final(self).blocks@[t] == (ImageBlock {
                    group: final(self).blocks@[t].group,
                    ..removed[t]
                })
                &&& final(self).blocks@[t].group == (crate::block::GroupData {
                    group_name: crate::block::spec_group_name(newch),
                    children: final(self).blocks@[t].group.children,
                    ..removed[t].group
                })
                &&& final(self).blocks@[t].group.children@ == newch
            }),
            old(self).blocks@[block_idx as int].chained ==> ({
                let s = old(self).blocks@;
                let kept = spec_drop_kept(s, group_idx as int);
                let moved = spec_drop_moved(s, group_idx as int);
                let ti = spec_drop_kept(s.take(group_idx as int), -1).len() as int;
                let newch = s[group_idx as int].group.children@ + Seq::new(
                    moved.len(),
                    |i: int| ImageBlock {
                        chained: false,
                        pos: crate::block::BlockPosition {
                            is_dragging: false,
                            ..moved[i].pos
                        },
                        ..moved[i]
                    },
                );
                &&& 0 <= ti < kept.len()
                &&& kept[ti] == s[group_idx as int]
                &&& final(self).blocks@ == kept.update(ti, final(self).blocks@[ti])
                &&& final(self).blocks@[ti] == (ImageBlock {
                    group: final(self).blocks@[ti].group,
                    ..s[group_idx as int]
                })
                &&& final(self).blocks@[ti].group == (crate::block::GroupData {
                    group_name: crate::block::spec_group_name(newch),
                    children: final(self).blocks@[ti].group.children,
                    ..s[group_idx as int].group
                })
                &&& final(self).blocks@[ti].group.children@ == newch
            }),
    {
        if !self.blocks[block_idx].chained {
            self.move_single_into_group(block_idx, group_idx);
            return ;
        }
        let ghost s = self.blocks@;
        let moved = extract_chained_tracked(&mut self.blocks, group_idx);
        let ghost kept = spec_drop_kept(s, group_idx as int);
        let ghost movedv = spec_drop_moved(s, group_idx as int);
        let ti = moved.1;
        let mut moved_blocks = moved.0;
        let ghost mseq = moved_blocks@;

        let ghost ch0 = s[group_idx as int].group.children@;
        let mut t: usize = 0;
        proof {
            vstd::std_specs::vec::axiom_spec_len(&self.blocks);
            vstd::std_specs::vec::axiom_spec_len(&moved_blocks);
            assert(self.blocks@[ti as int].group.children@ =~= ch0 + Seq::new(
                0,
                |i: int| ImageBlock {
                    chained: false,
                    pos: crate::block::BlockPosition { is_dragging: false, ..mseq[i].pos },
                    ..mseq[i]
                },
            ));
            assert(self.blocks@ =~= kept.update(ti as int, self.blocks@[ti as int]));
        }
        while moved_blocks.len() > 0
            invariant
                t as int + moved_blocks@.len() == mseq.len(),
                mseq.len() <= usize::MAX,
                moved_blocks@ == mseq.subrange(t as int, mseq.len() as int),
                ti < self.blocks@.len(),
                kept.len() == self.blocks@.len(),
                (ti as int) < kept.len(),
                crate::block::wf_blocks(mseq),
                crate::block::wf_blocks(kept),
                kept[ti as int] == s[group_idx as int],
                s[group_idx as int].group.is_group,
                self.blocks@ == kept.update(ti as int, self.blocks@[ti as int]),
                self.blocks@[ti as int] == (ImageBlock {
                    group: self.blocks@[ti as int].group,
                    ..s[group_idx as int]
                }),
                self.blocks@[ti as int].group == (crate::block::GroupData {
                    group_name: self.blocks@[ti as int].group.group_name,
                    children: self.blocks@[ti as int].group.children,
                    ..s[group_idx as int].group
                }),
                self.blocks@[ti as int].group.children@ == ch0 + Seq::new(
                    t as nat,
                    |i: int| ImageBlock {
                        chained: false,
                        pos: crate::block::BlockPosition {
                            is_dragging: false,
                            ..mseq[i].pos
                        },
                        ..mseq[i]
                    },
                ),
                crate::block::wf_blocks(self.blocks@),
                *self == (BlockManager { blocks: self.blocks, ..*old(self) }),
            decreases moved_blocks@.len(),
        {
            proof {
                assert(moved_blocks@[0] == mseq[t as int]);
            }
            let mut c = moved_blocks.remove(0);
            c.chained = false;
            c.pos.is_dragging = false;
            let ghost pre = self.blocks@;
            proof {
                assert(pre == kept.update(ti as int, pre[ti as int]));
            }
            self.blocks[ti].group.children.push(c);
            proof {
                assert(self.blocks@.len() == pre.len());
                assert(forall|k: int|
                    0 <= k < pre.len() && k != ti as int ==> #[trigger] self.blocks@[k]
                        == pre[k]);
                let nb2 = self.blocks@[ti as int];
                assert(kept.update(ti as int, pre[ti as int]).len() == kept.len());
                assert(kept.len() == pre.len());
                assert forall|k: int|
                    0 <= k < self.blocks@.len() implies #[trigger] self.blocks@[k]
                        == kept.update(ti as int, nb2)[k] by {
                    if k != ti as int {
                        assert(self.blocks@[k] == pre[k]);
                        assert(pre[k] == kept.update(ti as int, pre[ti as int])[k]);
                        assert(pre[k] == kept[k]);
                    }
                };
                assert(self.blocks@ =~= kept.update(ti as int, nb2));
                assert(self.blocks@ =~= kept.update(ti as int, self.blocks@[ti as int]));
                assert(self.blocks@[ti as int].group.children@ =~= ch0 + Seq::new(
                    (t + 1) as nat,
                    |i: int| ImageBlock {
                        chained: false,
                        pos: crate::block::BlockPosition {
                            is_dragging: false,
                            ..mseq[i].pos
                        },
                        ..mseq[i]
                    },
                ));
                assert(moved_blocks@ =~= mseq.subrange(t as int + 1, mseq.len() as int));
                let nb = self.blocks@[ti as int];
                assert(crate::block::wf_block_local(nb));
                assert forall|cc: int|
                    0 <= cc < nb.group.children@.len() implies crate::block::wf_block(
                    #[trigger] nb.group.children@[cc],
                ) by {
                    if cc < nb.group.children@.len() - 1 {
                        assert(nb.group.children@[cc] == pre[ti as int].group.children@[cc]);
                        assert(crate::block::wf_block(pre[ti as int]));
                    } else {
                        assert(crate::block::wf_block(mseq[t as int]));
                        assert(nb.group.children@[cc].group == mseq[t as int].group);
                    }
                };
                assert forall|k: int| 0 <= k < self.blocks@.len() implies crate::block::wf_block(
                    #[trigger] self.blocks@[k],
                ) by {
                    if k != ti as int {
                        assert(self.blocks@[k] == pre[k]);
                    }
                };
            }
            t += 1;
        }
        proof {
            assert(mseq.subrange(mseq.len() as int, mseq.len() as int) =~= Seq::<
                ImageBlock,
            >::empty());
        }
        let ghost prename = self.blocks@;
        self.blocks[ti].update_group_name();
        proof {
            assert(self.blocks@ =~= kept.update(ti as int, self.blocks@[ti as int]));
            assert forall|k: int| 0 <= k < self.blocks@.len() implies crate::block::wf_block(
                #[trigger] self.blocks@[k],
            ) by {
                if k != ti as int {
                    assert(self.blocks@[k] == prename[k]);
                } else {
                    assert(crate::block::wf_block(prename[k]));
                    assert(self.blocks@[k].group.children == prename[k].group.children);
                }
            };
        }
    }
}

/// Pulls out every chained block except the one at the protected index,
/// also reporting where that block now stands.
fn extract_chained_tracked(v: &mut Vec<ImageBlock>, skip_index: usize) -> (r: (
    Vec<ImageBlock>,
    usize,
))
    requires
        crate::block::wf_blocks(old(v)@),
        skip_index < old(v)@.len(),
    ensures
        final(v)@ == spec_drop_kept(old(v)@, skip_index as int),
        r.0@ == spec_drop_moved(old(v)@, skip_index as int),
        crate::block::wf_blocks(final(v)@),
        crate::block::wf_blocks(r.0@),
        final(v)@.len() + r.0@.len() == old(v)@.len(),
        r.1 as int == spec_drop_kept(old(v)@.take(skip_index as int), -1).len(),
        r.1 < final(v)@.len(),
        final(v)@[r.1 as int] == old(v)@[skip_index as int],
{
    let ghost s = old(v)@;
    let ghost gi: int = skip_index as int;
    let n = v.len();
    let mut moved: Vec<ImageBlock> = Vec::new();
    let mut i: usize = 0;
    let mut j: usize = 0;
    let mut ti: usize = 0;
    proof {
        assert(s.take(0) =~= Seq::<ImageBlock>::empty());
        assert(v@ =~= spec_drop_kept(s.take(0), gi) + s.skip(0));
    }
    while j < n
        invariant
            n == s.len(),
            j <= n,
            gi == skip_index as int,
            gi < n,
            i as int == spec_drop_kept(s.take(j as int), gi).len(),
            i <= j,
            crate::block::wf_blocks(s),
            v@ == spec_drop_kept(s.take(j as int), gi) + s.skip(j as int),
            moved@ == spec_drop_moved(s.take(j as int), gi),
            moved@.len() + i as int == j,
            crate::block::wf_blocks(v@),
            crate::block::wf_blocks(moved@),
            spec_drop_kept(s.take(j as int), gi) == spec_drop_kept(s.take(j as int), -1)
                || j > gi,
            j > gi ==> ti as int == spec_drop_kept(s.take(gi), -1).len() && (ti as int)
                < spec_drop_kept(s.take(j as int), gi).len() && spec_drop_kept(
                s.take(j as int),
                gi,
            )[ti as int] == s[gi],
        decreases n - j,
    {
        proof {
            assert(s.take(j + 1) =~= s.take(j as int).push(s[j as int]));
            lemma_drop_split_snoc(s.take(j as int), s[j as int], gi);
            lemma_drop_split_snoc(s.take(j as int), s[j as int], -1);
            assert(v@[i as int] == s[j as int]);
        }
        let is_skipped = j == skip_index;
        if is_skipped {
            ti = i;
        }
        if v[i].chained && !is_skipped {
            let ghost vpre = v@;
            let b = v.remove(i);
            moved.push(b);
            proof {
                assert(v@ =~= spec_drop_kept(s.take(j + 1), gi) + s.skip(j + 1));
                assert(moved@ =~= spec_drop_moved(s.take(j + 1), gi));
                assert forall|k: int| 0 <= k < v@.len() implies crate::block::wf_block(
                    #[trigger] v@[k],
                ) by {
                    if k < i as int {
                        assert(v@[k] == vpre[k]);
                    } else {
                        assert(v@[k] == vpre[k + 1]);
                    }
                };
            }
        } else {
            i += 1;
            proof {
                assert(v@ =~= spec_drop_kept(s.take(j + 1), gi) + s.skip(j + 1));
                assert(moved@ =~= spec_drop_moved(s.take(j + 1), gi));
            }
        }
        j += 1;
    }
    proof {
        assert(s.take(n as int) =~= s);
        assert(s.skip(n as int) =~= Seq::<ImageBlock>::empty());
        assert(v@ =~= spec_drop_kept(s, gi));
    }
    (moved, ti)
}


/// The blocks with the chained flag also set on every block whose
/// identifier the given set holds.
pub open spec fn marked_with(s: Seq<ImageBlock>, ids: Seq<u128>) -> Seq<ImageBlock> {
    Seq::new(
        s.len(),
        |i: int| ImageBlock { chained: s[i].chained || ids.contains(s[i].id), ..s[i] },
    )
}

/// The index of the first chained block, or -1 when none is chained.
pub open spec fn spec_first_chained(s: Seq<ImageBlock>) -> int
    decreases s.len(),
{
    if s.len() == 0 {
        -1
    } else if s[0].chained {
        0
    } else {
        let r = spec_first_chained(s.subrange(1, s.len() as int));
        if r < 0 {
            -1
        } else {
            r + 1
        }
    }
}

/// An index that is chained, with none chained before it, is the first
/// chained index.
proof fn lemma_first_chained(s: Seq<ImageBlock>, i: int)
    requires
        0 <= i < s.len(),
        s[i].chained,
        forall|j: int| 0 <= j < i ==> !s[j].chained,
    ensures
        spec_first_chained(s) == i,
    decreases s.len(),
{
    if i > 0 {
        let rest = s.subrange(1, s.len() as int);
        assert(forall|k: int| 0 <= k < s.len() - 1 ==> rest[k] == s[k + 1]);
        lemma_first_chained(rest, i - 1);
    }
}

/// A chained block makes the chained count positive.
proof fn lemma_chained_means_count_positive(s: Seq<ImageBlock>, i: int)
    requires
        0 <= i < s.len(),
        s[i].chained,
    ensures
        crate::block::spec_count_chained(s) > 0,
    decreases s.len(),
{
    lemma_count_positive_means_chained(s);
    if i == s.len() - 1 {
    } else {
        lemma_chained_means_count_positive(s.drop_last(), i);
    }
}

/// The identifiers of a block's children, in order.
fn child_ids(b: &ImageBlock) -> (r: Vec<u128>)
    ensures
        r@ == b.group.children@.map_values(|c: ImageBlock| c.id),
{
    let n = b.group.children.len();
    let mut out: Vec<u128> = Vec::new();
    let mut i: usize = 0;
    proof {
        assert(out@ =~= b.group.children@.map_values(|c: ImageBlock| c.id).take(0));
    }
    while i < n
        invariant
            n == b.group.children@.len(),
            i <= n,
            out@ == b.group.children@.map_values(|c: ImageBlock| c.id).take(i as int),
        decreases n - i,
    {
        out.push(b.group.children[i].id);
        proof {
            assert(out@ =~= b.group.children@.map_values(|c: ImageBlock| c.id).take(
                i as int + 1,
            ));
        }
        i += 1;
    }
    proof {
        assert(b.group.children@.map_values(|c: ImageBlock| c.id).take(n as int)
            =~= b.group.children@.map_values(|c: ImageBlock| c.id));
    }
    out
}

impl BlockManager {
    /// One control for boxing and unboxing, with a single undo slot.
    /// With nothing chained it first tries to re-box the most recently
    /// unboxed set (chaining its surviving members again), then to
    /// unbox the most recently boxed group. With exactly one chained
    /// block that is a group, that group is unboxed; with any other
    /// non-empty chained set, the set is boxed.
    pub fn toggle_compact_group(&mut self)
        requires
            crate::block::wf_blocks(old(self).blocks@),
            old(self).next_block_id < usize::MAX,
        ensures
            crate::block::wf_blocks(final(self).blocks@),
            final(self).remembered_chains == old(self).remembered_chains,
            final(self).animation_access_order == old(self).animation_access_order,
            ({
                let s = old(self).blocks@;
                let cnt = crate::block::spec_count_chained(s);
                let lu = old(self).last_unboxed_ids@;
                let can_rebox = lu.len() > 0 && exists|i: int|
                    0 <= i < s.len() && lu.contains((#[trigger] s[i]).id);
                let can_reunbox = lu.len() == 0 && old(self).last_boxed_id is Some && has_id(
                    s,
                    old(self).last_boxed_id->0,
                );
                if cnt == 0 {
                    if can_rebox {
                        {
                            let rid = final(self).last_boxed_id->0;
                            &&& final(self).last_boxed_id is Some
                            &&& rid != 0
                            &&& boxed_outcome(marked_with(s, lu), final(self).blocks@, rid)
                            &&& final(self).last_unboxed_ids@.len() == 0
                            &&& final(self).next_block_id == old(self).next_block_id + 1
                        }
                    } else if can_reunbox {
                        {
                            let gi = first_id_index(s, old(self).last_boxed_id->0);
                            &&& (s[gi].group.is_group ==> unboxed_outcome(
                                s,
                                final(self).blocks@,
                                gi,
                            ))
                            &&& (!s[gi].group.is_group ==> final(self).blocks@ == s.remove(
                                gi,
                            ))
                            &&& final(self).last_unboxed_ids@ == s[gi].group.children@.map_values(
                                |c: ImageBlock| c.id,
                            )
                            &&& final(self).last_boxed_id is None
                            &&& final(self).next_block_id == old(self).next_block_id
                        }
                    } else {
                        *final(self) == *old(self)
                    }
                } else if cnt == 1 && s[spec_first_chained(s)].group.is_group {
                    {
                        let gi = spec_first_chained(s);
                        &&& unboxed_outcome(s, final(self).blocks@, gi)
                        &&& final(self).last_unboxed_ids@ == s[gi].group.children@.map_values(
                            |c: ImageBlock| c.id,
                        )
                        &&& final(self).last_boxed_id is None
                        &&& final(self).next_block_id == old(self).next_block_id
                    }
                } else {
                    {
                        let rid = final(self).last_boxed_id->0;
                        &&& final(self).last_boxed_id is Some
                        &&& rid != 0
                        &&& boxed_outcome(s, final(self).blocks@, rid)
                        &&& final(self).last_unboxed_ids@.len() == 0
                        &&& final(self).next_block_id == old(self).next_block_id + 1
                    }
                }
            }),
    {
        let ghost s = self.blocks@;
        let cnt = self.chained_count();
        proof {
            lemma_count_positive_means_chained(s);
        }

        if cnt == 0 {
            if self.last_unboxed_ids.len() > 0 {
                let mut found_any = false;
                let n = self.blocks.len();
                let mut i: usize = 0;
                while i < n
                    invariant
                        n == self.blocks@.len() == s.len(),
                        i <= n,
                        found_any == exists|j: int|
                            0 <= j < i && old(self).last_unboxed_ids@.contains(
                                (#[trigger] s[j]).id,
                            ),
                        forall|j: int|
                            0 <= j < i ==> #[trigger] self.blocks@[j] == (ImageBlock {
                                chained: s[j].chained || old(self).last_unboxed_ids@.contains(
                                    s[j].id,
                                ),
                                ..s[j]
                            }),
                        forall|j: int|
                            i <= j < n ==> #[trigger] self.blocks@[j] == s[j],
                        *self == (BlockManager { blocks: self.blocks, ..*old(self) }),
                        !found_any ==> *self == *old(self),
                        crate::block::wf_blocks(s),
                        self.next_block_id < usize::MAX,
                    decreases n - i,
                {
                    if ids_contains(&self.last_unboxed_ids, self.blocks[i].id) {
                        self.blocks[i].chained = true;
                        found_any = true;
                        proof {
                            assert(old(self).last_unboxed_ids@.contains(s[i as int].id));
                        }
                    }
                    i += 1;
                }
                if found_any {
                    proof {
                        assert(self.blocks@ =~= marked_with(s, old(self).last_unboxed_ids@));
                        let w = choose|j: int|
                            0 <= j < s.len() && old(self).last_unboxed_ids@.contains(
                                (#[trigger] s[j]).id,
                            );
                        assert(self.blocks@[w].chained);
                        lemma_chained_means_count_positive(self.blocks@, w);
                        assert forall|k: int|
                            0 <= k < self.blocks@.len() implies crate::block::wf_block(
                            #[trigger] self.blocks@[k],
                        ) by {
                            assert(crate::block::wf_block(s[k]));
                            assert(self.blocks@[k].group == s[k].group);
                        };
                    }
                    let rid = self.box_chained();
                    self.last_boxed_id = Some(rid);
                    self.last_unboxed_ids = Vec::new();
                    return ;
                }
                proof {
                    assert(self.blocks@ =~= s);
                }
                return ;
            }
            let gid: u128 = match self.last_boxed_id {
                Some(g) => g,
                None => {
                    return ;
                },
            };
            let idx: usize = match self.index_of(gid) {
                Some(i) => i,
                None => {
                    proof {
                        lemma_first_found(s, gid);
                    }
                    return ;
                },
            };
            proof {
                lemma_first_found(s, gid);
                vstd::std_specs::vec::axiom_spec_len(&self.blocks);
                assert(idx as int == first_id_index(s, gid));
            }
            let ids = child_ids(&self.blocks[idx]);
            self.last_unboxed_ids = ids;
            self.unbox_group(idx);
            self.last_boxed_id = None;
            return ;
        }

        if cnt == 1 {
            let n = self.blocks.len();
            let mut ci: usize = 0;
            while ci < n
                invariant
                    n == self.blocks@.len() == s.len(),
                    ci <= n,
                    self.blocks@ == s,
                    crate::block::wf_blocks(s),
                    crate::block::spec_count_chained(s) == 1,
                    forall|j: int| 0 <= j < ci ==> !(#[trigger] s[j]).chained,
                    exists|j: int| 0 <= j < s.len() && (#[trigger] s[j]).chained,
                    *self == *old(self),
                    self.next_block_id < usize::MAX,
                decreases n - ci,
            {
                if self.blocks[ci].chained {
                    proof {
                        lemma_first_chained(s, ci as int);
                    }
                    if self.blocks[ci].group.is_group {
                        let ids = child_ids(&self.blocks[ci]);
                        self.last_unboxed_ids = ids;
                        self.unbox_group(ci);
                        self.last_boxed_id = None;
                        return ;
                    }
                    let rid = self.box_chained();
                    self.last_boxed_id = Some(rid);
                    self.last_unboxed_ids = Vec::new();
                    return ;
                }
                ci += 1;
            }
            proof {
                let w = choose|j: int| 0 <= j < s.len() && (#[trigger] s[j]).chained;
                assert(false);
            }
        }

        let rid = self.box_chained();
        self.last_boxed_id = Some(rid);
        self.last_unboxed_ids = Vec::new();
    }
}


/// The remembered-chain round trip: when a chained set of at least two
/// blocks is cleared (so it becomes a remembered chain, evicting every
/// remembered chain that overlapped it) and any one member is then
/// toggled back on, every member of the original set is chained again.
/// The states are related by the contracts of `clear_chain_group` and
/// `toggle_chain`.
pub proof fn lemma_remembered_chain_round_trip(
    m0: BlockManager,
    m1: BlockManager,
    m2: BlockManager,
    index: int,
)
    requires
        spec_chained_ids(m0.blocks@).len() >= 2,
        m1.blocks@.len() == m0.blocks@.len(),
        forall|i: int|
            0 <= i < m0.blocks@.len() ==> m1.blocks@[i] == (ImageBlock {
                chained: false,
                ..m0.blocks@[i]
            }),
        m1.remembered_chains@ == m0.remembered_chains@.filter(
            |c: ChainedIds| spec_ids_disjoint(c@, spec_chained_ids(m0.blocks@)),
        ).push(m1.remembered_chains@.last()),
        m1.remembered_chains@.last()@ == spec_chained_ids(m0.blocks@),
        0 <= index < m1.blocks@.len(),
        spec_chained_ids(m0.blocks@).contains(m1.blocks@[index].id),
        m2.blocks@.len() == m1.blocks@.len(),
        ({
            let ci = first_chain_containing(
                m1.remembered_chains@,
                m1.blocks@[index].id,
            );
            ci >= 0 ==> forall|j: int|
                0 <= j < m1.blocks@.len() ==> m2.blocks@[j] == (ImageBlock {
                    chained: m1.blocks@[j].chained || m1.remembered_chains@[ci]@.contains(
                        m1.blocks@[j].id,
                    ),
                    ..m1.blocks@[j]
                })
        }),
    ensures
        forall|j: int|
            0 <= j < m0.blocks@.len() && (#[trigger] m0.blocks@[j]).chained
                ==> m2.blocks@[j].chained,
{
    let cleared = spec_chained_ids(m0.blocks@);
    let rc1 = m1.remembered_chains@;
    let id = m1.blocks@[index].id;
    let last: int = rc1.len() - 1;
    assert(rc1[last]@ == cleared);
    assert(rc1[last]@.contains(id));
    let filtered = m0.remembered_chains@.filter(
        |c: ChainedIds| spec_ids_disjoint(c@, cleared),
    );
    assert forall|k: int| 0 <= k < last implies !rc1[k]@.contains(id) by {
        assert(rc1[k] == filtered[k]);
        m0.remembered_chains@.lemma_filter_pred(
            |c: ChainedIds| spec_ids_disjoint(c@, cleared),
            k,
        );
        assert(spec_ids_disjoint(filtered[k]@, cleared));
        if rc1[k]@.contains(id) {
            let w = choose|w: int| 0 <= w < rc1[k]@.len() && rc1[k]@[w] == id;
            assert(!cleared.contains(rc1[k]@[w]));
        }
    };
    lemma_first_chain_containing(rc1, id, last);
    assert forall|j: int|
        0 <= j < m0.blocks@.len() && (#[trigger] m0.blocks@[j]).chained
            implies m2.blocks@[j].chained by {
        let pred = |b: ImageBlock| b.chained;
        m0.blocks@.filter_lemma(pred);
        assert(m0.blocks@.filter(pred).contains(m0.blocks@[j]));
        let w = choose|w: int|
            0 <= w < m0.blocks@.filter(pred).len() && m0.blocks@.filter(pred)[w]
                == m0.blocks@[j];
        assert(cleared[w] == m0.blocks@[j].id);
        assert(cleared.contains(m1.blocks@[j].id));
    };
}

/// The box/unbox round trip: when the chained blocks are all
/// non-groups, boxing them and unboxing the resulting group puts every
/// boxed block back at the boundary between groups and non-groups, in
/// its original relative order and unchained, while the other blocks
/// keep their order. The states are related by the contracts of
/// `box_chained` and `unbox_group`.
pub proof fn lemma_box_unbox_round_trip(
    s: Seq<ImageBlock>,
    post_box: Seq<ImageBlock>,
    post_unbox: Seq<ImageBlock>,
    rid: u128,
)
    requires
        crate::block::spec_count_chained(s) > 0,
        boxed_outcome(s, post_box, rid),
        unboxed_outcome(post_box, post_unbox, 0),
    ensures
        ({
            let ch = s.filter(|b: ImageBlock| b.chained);
            let rest = s.filter(|b: ImageBlock| !b.chained);
            let bnd = spec_group_boundary(rest);
            post_unbox == rest.take(bnd) + Seq::new(
                ch.len(),
                |i: int| ImageBlock { chained: false, ..ch[i] },
            ) + rest.skip(bnd)
        }),
{
    let ch = s.filter(|b: ImageBlock| b.chained);
    let rest = s.filter(|b: ImageBlock| !b.chained);
    assert(post_box.remove(0) =~= post_box.skip(1));
    assert(post_box.remove(0) =~= rest);
    let bnd = spec_group_boundary(rest);
    assert(unchained_children(post_box[0]) =~= Seq::new(
        ch.len(),
        |i: int| ImageBlock { chained: false, ..ch[i] },
    ));
}


impl Default for BlockManager {
    /// The empty manager.
    fn default() -> (r: BlockManager)
        ensures
            r.blocks@.len() == 0,
            r.next_block_id == 0,
            r.remembered_chains@.len() == 0,
            r.animation_access_order@.len() == 0,
            r.last_unboxed_ids@.len() == 0,
            r.last_boxed_id is None,
            wf_manager(r),
    {
        BlockManager::new()
    }
}

} // verus!











// The items below continue the manager: tree-wide removal, cascade
// removal over chains, and the utility queries they rely on.