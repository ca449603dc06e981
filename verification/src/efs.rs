use vstd::prelude::*;

use crate::dirent::{count_id, valid_name_bytes, EntryV, DIRENT_SZ};
use crate::disk_inode::DiskInode;

verus! {

/// On-disk inode records per block.
pub const INODES_PER_BLOCK: u32 = 4;

/// Bytes one on-disk inode record takes.
pub const INODE_RECORD_SZ: usize = 128;

/// First block of the inode area.
pub const INODE_AREA_START: u32 = 1;

/// How many slots of a bitmap are free.
pub open spec fn count_free(s: Seq<bool>) -> nat
    decreases s.len(),
{
    if s.len() == 0 {
        0
    } else {
        count_free(s.drop_last()) + if s.last() {
            0nat
        } else {
            1nat
        }
    }
}

pub proof fn lemma_count_free_update(s: Seq<bool>, i: int, v: bool)
    requires
        0 <= i < s.len(),
    ensures
        count_free(s.update(i, v)) == count_free(s) - (if s[i] {
            0int
        } else {
            1int
        }) + (if v {
            0int
        } else {
            1int
        }),
    decreases s.len(),
{
    if i == s.len() - 1 {
        assert(s.update(i, v).drop_last() =~= s.drop_last());
    } else {
        assert(s.update(i, v).drop_last() =~= s.drop_last().update(i, v));
        lemma_count_free_update(s.drop_last(), i, v);
    }
}

/// A bitmap with no free slot counts zero free slots.
pub proof fn lemma_count_free_full(s: Seq<bool>)
    requires
        forall|i: int| 0 <= i < s.len() ==> #[trigger] s[i],
    ensures
        count_free(s) == 0,
    decreases s.len(),
{
    if s.len() > 0 {
        lemma_count_free_full(s.drop_last());
    }
}

/// A bitmap with every slot free counts them all.
pub proof fn lemma_count_free_empty(s: Seq<bool>)
    requires
        forall|i: int| 0 <= i < s.len() ==> !(#[trigger] s[i]),
    ensures
        count_free(s) == s.len(),
    decreases s.len(),
{
    if s.len() > 0 {
        lemma_count_free_empty(s.drop_last());
    }
}

/// Counting one slot more of the same bitmap.
pub proof fn lemma_count_free_take(s: Seq<bool>, i: int)
    requires
        0 <= i < s.len(),
    ensures
        count_free(s.take(i + 1)) == count_free(s.take(i)) + if s[i] {
            0nat
        } else {
            1nat
        },
{
    assert(s.take(i + 1).drop_last() =~= s.take(i));
    assert(s.take(i + 1).last() == s[i]);
}

/// The whole bitmap is its own `len`-prefix.
pub proof fn lemma_count_free_take_all(s: Seq<bool>)
    ensures
        count_free(s.take(s.len() as int)) == count_free(s),
{
    assert(s.take(s.len() as int) =~= s);
}

/// The filesystem: the inode area, and the two allocation bitmaps the
/// superblock layer owns — one slot per inode, one per data block.
pub struct EasyFileSystem {
    pub inodes: Vec<DiskInode>,
    pub inode_bitmap: Vec<bool>,
    pub data_bitmap: Vec<bool>,
}

/// The disk block and byte offset where an inode record sits.
pub open spec fn inode_block_of(id: u32) -> u32 {
    (INODE_AREA_START + id / INODES_PER_BLOCK) as u32
}

pub open spec fn inode_offset_of(id: u32) -> usize {
    ((id % INODES_PER_BLOCK) as usize * INODE_RECORD_SZ) as usize
}

impl EasyFileSystem {
    pub open spec fn inode_count(self) -> int {
        self.inode_bitmap@.len() as int
    }

    pub open spec fn inode_allocated(self, id: int) -> bool {
        0 <= id < self.inode_count() && self.inode_bitmap@[id]
    }

    pub open spec fn node(self, id: int) -> DiskInode {
        self.inodes@[id]
    }

    /// The root directory's record.
    pub open spec fn root(self) -> DiskInode {
        self.inodes@[0]
    }

    /// The root directory's entries.
    pub open spec fn root_entries(self) -> Seq<EntryV> {
        self.root().entries()
    }

    pub open spec fn free_inode_count(self) -> nat {
        count_free(self.inode_bitmap@)
    }

    pub open spec fn free_data_count(self) -> nat {
        count_free(self.data_bitmap@)
    }

    /// Some directory entry carries this name.
    pub open spec fn has_name(self, name: Seq<u8>) -> bool {
        exists|k: int| 0 <= k < self.root_entries().len() && (#[trigger] self.root_entries()[k]).name
            == name
    }

    /// Every allocated inode's blocks lie inside the data area, are marked
    /// used, and no two allocated inodes share a block.
    pub open spec fn blocks_wf(self) -> bool {
        &&& forall|id: int, j: int|
            self.inode_allocated(id) && 0 <= j < self.node(id).blocks@.len() ==> 0 <= #[trigger] self.node(
                id,
            ).blocks@[j] < self.data_bitmap@.len() && self.data_bitmap@[self.node(id).blocks@[j] as int]
        &&& forall|a: int, b: int, i: int, j: int|
            #![trigger self.node(a).blocks@[i], self.node(b).blocks@[j]]
            self.inode_allocated(a) && self.inode_allocated(b) && a != b && 0 <= i < self.node(
                a,
            ).blocks@.len() && 0 <= j < self.node(b).blocks@.len() ==> self.node(a).blocks@[i]
                != self.node(b).blocks@[j]
    }

    /// Every root entry holds a valid, pairwise-distinct name and references
    /// an allocated file inode other than the root.
    pub open spec fn entries_wf(self) -> bool {
        &&& forall|k: int|
            0 <= k < self.root_entries().len() ==> valid_name_bytes(
                (#[trigger] self.root_entries()[k]).name,
            )
        &&& forall|k: int|
            0 <= k < self.root_entries().len() ==> 0 < (#[trigger] self.root_entries()[k]).id
                < self.inode_count() && self.inode_allocated(self.root_entries()[k].id as int)
        &&& forall|k1: int, k2: int|
            #![trigger self.root_entries()[k1].name, self.root_entries()[k2].name]
            0 <= k1 < k2 < self.root_entries().len() ==> self.root_entries()[k1].name
                != self.root_entries()[k2].name
    }

    /// Every allocated file inode's link count equals the number of root
    /// entries that reference it — and so is never zero while allocated.
    pub open spec fn nlink_wf(self) -> bool {
        forall|id: int|
            1 <= id < self.inode_count() && self.inode_allocated(id) ==> (#[trigger] self.node(
                id,
            )).nlink as nat == count_id(self.root_entries(), id as u32) && self.node(id).nlink >= 1
    }

    /// The filesystem invariant: consistent table sizes, well-formed records,
    /// one root directory and otherwise only files, the directory packing
    /// equality, and the block, entry and link-count conditions.
    pub open spec fn wf(self) -> bool {
        &&& self.inodes@.len() == self.inode_count()
        &&& self.inode_count() <= u32::MAX as int
        &&& self.data_bitmap@.len() <= u32::MAX as int
        &&& forall|id: int| self.inode_allocated(id) ==> (#[trigger] self.node(id)).wf()
        &&& 0 < self.inode_count()
        &&& self.inode_allocated(0)
        &&& self.root().is_dir_spec()
        &&& forall|id: int|
            1 <= id < self.inode_count() && self.inode_allocated(id) ==> (#[trigger] self.node(
                id,
            )).is_file_spec()
        &&& self.root().size as int == self.root().file_count as int * 32
        &&& self.blocks_wf()
        &&& self.entries_wf()
        &&& self.nlink_wf()
    }

    /// The filesystem invariant, except that one inode's link count already
    /// counts a directory entry that is about to be recorded: the state in
    /// the middle of `create` or `linkat`, after the target inode's link
    /// count was set and before its entry was appended.
    pub open spec fn wf_but_nlink_pending(self, id: int) -> bool {
        &&& self.inodes@.len() == self.inode_count()
        &&& self.inode_count() <= u32::MAX as int
        &&& self.data_bitmap@.len() <= u32::MAX as int
        &&& forall|i: int| self.inode_allocated(i) ==> (#[trigger] self.node(i)).wf()
        &&& 0 < self.inode_count()
        &&& self.inode_allocated(0)
        &&& self.root().is_dir_spec()
        &&& forall|i: int|
            1 <= i < self.inode_count() && self.inode_allocated(i) ==> (#[trigger] self.node(
                i,
            )).is_file_spec()
        &&& self.root().size as int == self.root().file_count as int * 32
        &&& self.blocks_wf()
        &&& self.entries_wf()
        &&& 1 <= id < self.inode_count()
        &&& self.inode_allocated(id)
        &&& self.node(id).nlink as nat == count_id(self.root_entries(), id as u32) + 1
        &&& forall|i: int|
            1 <= i < self.inode_count() && self.inode_allocated(i) && i != id ==> (
            #[trigger] self.node(i)).nlink as nat == count_id(self.root_entries(), i as u32)
                && self.node(i).nlink >= 1
    }

    /// Set up a filesystem with the given inode and data-block capacity,
    /// holding only an empty root directory.
    pub fn new(total_inodes: u32, total_data_blocks: u32) -> (r: EasyFileSystem)
        requires
            total_inodes >= 1,
        ensures
            r.wf(),
            r.inode_count() == total_inodes as int,
            r.data_bitmap@.len() == total_data_blocks as int,
            r.free_inode_count() == total_inodes as int - 1,
            r.free_data_count() == total_data_blocks as int,
            r.root_entries().len() == 0,
            r.root().size == 0,
            r.root().nlink == 1,
            forall|id: int| 1 <= id < r.inode_count() ==> !r.inode_allocated(id),
    {
        let mut inodes: Vec<DiskInode> = Vec::new();
        let mut inode_bitmap: Vec<bool> = Vec::new();
        let mut data_bitmap: Vec<bool> = Vec::new();
        let n = total_inodes as usize;
        let m = total_data_blocks as usize;
        for i in 0..n
            invariant
                inodes@.len() == i,
                inode_bitmap@.len() == i,
                forall|k: int| 0 <= k < i ==> !(#[trigger] inode_bitmap@[k]),
                forall|k: int|
                    0 <= k < i ==> (#[trigger] inodes@[k]).wf() && inodes@[k].size == 0
                        && inodes@[k].file_count == 0,
        {
            inodes.push(DiskInode::empty_slot());
            inode_bitmap.push(false);
        }
        for i in 0..m
            invariant
                data_bitmap@.len() == i,
                forall|k: int| 0 <= k < i ==> !(#[trigger] data_bitmap@[k]),
        {
            data_bitmap.push(false);
        }
        proof {
            lemma_count_free_empty(inode_bitmap@);
            lemma_count_free_empty(data_bitmap@);
        }
        let mut fs = EasyFileSystem { inodes, inode_bitmap, data_bitmap };
        let mut root = DiskInode::empty_slot();
        root.initialize(crate::disk_inode::DiskInodeType::Directory);
        let _slot = fs.replace_inode(0, root);
        let ghost bm0 = fs.inode_bitmap@;
        fs.inode_bitmap[0] = true;
        proof {
            lemma_count_free_update(bm0, 0, true);
            assert(fs.inode_bitmap@ == bm0.update(0, true));
            assert(fs.root_entries() =~= Seq::<EntryV>::empty());
            assert forall|id: int|
                1 <= id < fs.inode_count() && fs.inode_allocated(id) implies (#[trigger] fs.node(
                id,
            )).nlink as nat == count_id(fs.root_entries(), id as u32) && fs.node(id).nlink
                >= 1 by {
                assert(!fs.inode_bitmap@[id]);
            }
        }
        fs
    }

    /// Swap the record of inode slot `idx` for another, handing the old one
    /// back: how an operation takes a disk inode out to work on it.
    pub fn replace_inode(&mut self, idx: usize, node: DiskInode) -> (r: DiskInode)
        requires
            idx < old(self).inodes@.len(),
        ensures
            r == old(self).inodes@[idx as int],
            final(self).inodes@ == old(self).inodes@.update(idx as int, node),
            final(self).inode_bitmap == old(self).inode_bitmap,
            final(self).data_bitmap == old(self).data_bitmap,
    {
        let mut node = node;
        core::mem::swap(&mut node, &mut self.inodes[idx]);
        node
    }

    /// Allocate a free slot in a bitmap: the lowest free index, marked used.
    fn alloc_bit(bitmap: &mut Vec<bool>) -> (r: usize)
        requires
            count_free(old(bitmap)@) > 0,
        ensures
            r < old(bitmap)@.len(),
            !old(bitmap)@[r as int],
            final(bitmap)@ == old(bitmap)@.update(r as int, true),
            count_free(final(bitmap)@) == count_free(old(bitmap)@) - 1,
    {
        let n = bitmap.len();
        for i in 0..n
            invariant
                n == bitmap@.len(),
                bitmap@ == old(bitmap)@,
                count_free(bitmap@) > 0,
                forall|k: int| 0 <= k < i ==> #[trigger] bitmap@[k],
        {
            if !bitmap[i] {
                bitmap[i] = true;
                proof {
                    lemma_count_free_update(old(bitmap)@, i as int, true);
                }
                return i;
            }
        }
        proof {
            lemma_count_free_full(bitmap@);
            assert(false);
        }
        0
    }

    /// Allocate a fresh inode id.
    pub fn alloc_inode(&mut self) -> (r: u32)
        requires
            old(self).free_inode_count() > 0,
            old(self).inode_count() <= u32::MAX as int,
        ensures
            (r as int) < old(self).inode_count(),
            !old(self).inode_allocated(r as int),
            final(self).inode_bitmap@ == old(self).inode_bitmap@.update(r as int, true),
            final(self).free_inode_count() == old(self).free_inode_count() - 1,
            final(self).inodes == old(self).inodes,
            final(self).data_bitmap == old(self).data_bitmap,
    {
        Self::alloc_bit(&mut self.inode_bitmap) as u32
    }

    /// Allocate a fresh data block id.
    pub fn alloc_data(&mut self) -> (r: u32)
        requires
            old(self).free_data_count() > 0,
            old(self).data_bitmap@.len() <= u32::MAX as int,
        ensures
            (r as int) < old(self).data_bitmap@.len(),
            !old(self).data_bitmap@[r as int],
            final(self).data_bitmap@ == old(self).data_bitmap@.update(r as int, true),
            final(self).free_data_count() == old(self).free_data_count() - 1,
            final(self).inodes == old(self).inodes,
            final(self).inode_bitmap == old(self).inode_bitmap,
    {
        Self::alloc_bit(&mut self.data_bitmap) as u32
    }

    /// Return a data block to the allocator.
    pub fn dealloc_data(&mut self, block: u32)
        requires
            (block as int) < old(self).data_bitmap@.len(),
            old(self).data_bitmap@[block as int],
        ensures
            final(self).data_bitmap@ == old(self).data_bitmap@.update(block as int, false),
            final(self).free_data_count() == old(self).free_data_count() + 1,
            final(self).inodes == old(self).inodes,
            final(self).inode_bitmap == old(self).inode_bitmap,
    {
        self.data_bitmap[block as usize] = false;
        proof {
            lemma_count_free_update(old(self).data_bitmap@, block as int, false);
        }
    }

    /// Return an inode slot to the allocator.
    pub fn dealloc_inode(&mut self, id: u32)
        requires
            (id as int) < old(self).inode_bitmap@.len(),
            old(self).inode_bitmap@[id as int],
        ensures
            final(self).inode_bitmap@ == old(self).inode_bitmap@.update(id as int, false),
            final(self).free_inode_count() == old(self).free_inode_count() + 1,
            final(self).inodes == old(self).inodes,
            final(self).data_bitmap == old(self).data_bitmap,
    {
        self.inode_bitmap[id as usize] = false;
        proof {
            lemma_count_free_update(old(self).inode_bitmap@, id as int, false);
        }
    }

    /// Where inode `id`'s on-disk record sits: its block id and byte offset.
    pub fn get_disk_inode_pos(&self, id: u32) -> (r: (u32, usize))
        ensures
            r.0 == inode_block_of(id),
            r.1 == inode_offset_of(id),
    {
        (INODE_AREA_START + id / INODES_PER_BLOCK, (id % INODES_PER_BLOCK) as usize
            * INODE_RECORD_SZ)
    }

    /// How many inode slots are free.
    pub fn free_inodes(&self) -> (r: usize)
        ensures
            r as nat == self.free_inode_count(),
    {
        Self::count_free_bits(&self.inode_bitmap)
    }

    /// How many data blocks are free.
    pub fn free_data_blocks(&self) -> (r: usize)
        ensures
            r as nat == self.free_data_count(),
    {
        Self::count_free_bits(&self.data_bitmap)
    }

    fn count_free_bits(bitmap: &Vec<bool>) -> (r: usize)
        ensures
            r as nat == count_free(bitmap@),
    {
        let n = bitmap.len();
        let mut r: usize = 0;
        for i in 0..n
            invariant
                n == bitmap@.len(),
                r as nat == count_free(bitmap@.take(i as int)),
                r <= i,
        {
            proof {
                lemma_count_free_take(bitmap@, i as int);
            }
            if !bitmap[i] {
                r += 1;
            }
        }
        proof {
            lemma_count_free_take_all(bitmap@);
        }
        r
    }
}

/// Directory packing: in a well-formed filesystem the root directory's byte
/// size is exactly its entry count times the fixed record width, and its
/// content parses to exactly that many entries.
pub proof fn lemma_directory_packing(fs: EasyFileSystem)
    requires
        fs.wf(),
    ensures
        fs.root().size as int == fs.root().file_count as int * DIRENT_SZ as int,
        fs.root_entries().len() == fs.root().file_count as int,
{
}

/// Link-count correctness: every allocated file inode's link count equals the
/// number of directory entries that reference its id, and stays positive —
/// an inode is reachable exactly while links to it remain.
pub proof fn lemma_link_count(fs: EasyFileSystem, id: int)
    requires
        fs.wf(),
        1 <= id < fs.inode_count(),
        fs.inode_allocated(id),
    ensures
        fs.node(id).nlink as nat == count_id(fs.root_entries(), id as u32),
        fs.node(id).nlink >= 1,
{
}

} // verus!
