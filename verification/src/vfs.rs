use vstd::prelude::*;

use crate::dirent::{
    count_id, entries_of, lemma_count_id_compact, lemma_count_id_le_len, lemma_count_id_push,
    lemma_count_id_zero, lemma_count_id_zero_converse, lemma_valid_name_bytes, name_bytes,
    valid_name, valid_name_bytes, DirEntry, EntryV,
};
use crate::disk_inode::{distinct_u32, total_blocks_of, DiskInode, DiskInodeType};
use crate::efs::{inode_block_of, inode_offset_of, EasyFileSystem};

verus! {

use vstd::string::StringSliceAdditionalSpecFns;

/// A handle on one inode: its stable id and the cached on-disk position of
/// its record. Handles are transient views; the filesystem state itself is
/// passed to every operation.
#[derive(Clone, Copy)]
pub struct Inode {
    pub inode_id: u32,
    pub block_id: usize,
    pub block_offset: usize,
}

impl Inode {
    /// The handle points at an allocated inode and carries its record's true
    /// on-disk position.
    pub open spec fn valid(self, fs: EasyFileSystem) -> bool {
        &&& fs.inode_allocated(self.inode_id as int)
        &&& self.block_id == inode_block_of(self.inode_id) as usize
        &&& self.block_offset == inode_offset_of(self.inode_id)
    }

    /// The record this handle resolves to.
    pub open spec fn node(self, fs: EasyFileSystem) -> DiskInode {
        fs.node(self.inode_id as int)
    }

    /// Create a vfs inode handle.
    pub fn new(inode_id: u32, block_id: u32, block_offset: usize) -> (r: Inode)
        ensures
            r.inode_id == inode_id,
            r.block_id == block_id as usize,
            r.block_offset == block_offset,
    {
        Inode { inode_id, block_id: block_id as usize, block_offset }
    }

    /// The handle of the root directory.
    pub fn root() -> (r: Inode)
        ensures
            r.inode_id == 0,
            forall|fs: EasyFileSystem| fs.wf() ==> r.valid(fs),
    {
        Inode { inode_id: 0, block_id: 1, block_offset: 0 }
    }

    /// Find the slot and inode id an entry of this directory gives `name`.
    fn find_inode_id(&self, fs: &EasyFileSystem, name: &str) -> (r: Option<(u32, usize)>)
        requires
            fs.wf(),
            self.valid(*fs),
            self.node(*fs).is_dir_spec(),
            name.is_ascii(),
        ensures
            match r {
                Some((id, pos)) => {
                    &&& 0 <= pos < fs.root_entries().len()
                    &&& fs.root_entries()[pos as int].name == name_bytes(name@)
                    &&& id == fs.root_entries()[pos as int].id
                },
                None => !fs.has_name(name_bytes(name@)),
            },
    {
        proof {
            assert(self.inode_id == 0) by {
                if self.inode_id >= 1 {
                    assert(self.node(*fs).is_file_spec());
                }
            }
            vstd::string::is_ascii_spec_bytes(name);
            assert(name.spec_bytes() =~= name_bytes(name@));
        }
        let qb: &[u8] = name.as_bytes();
        let root = &fs.inodes[self.inode_id as usize];
        let n = root.file_count as usize;
        for k in 0..n
            invariant
                fs.wf(),
                root == fs.root(),
                fs.root().wf(),
                n == fs.root_entries().len(),
                fs.root().size as int == 32 * (n as int),
                qb@ == name_bytes(name@),
                forall|j: int|
                    0 <= j < k ==> (#[trigger] fs.root_entries()[j]).name != name_bytes(name@),
        {
            proof {
                assert(32 * (k as int) + 32 <= 32 * (n as int));
            }
            let e = root.read_entry(k);
            proof {
                assert(e@ == fs.root_entries()[k as int]);
            }
            let nb = e.name_bytes_vec();
            if bytes_eq(&nb, qb) {
                return Some((e.inode_id(), k));
            }
        }
        None
    }

    /// Find the inode `name` resolves to in this directory: a fresh handle on
    /// a match, absence when no entry carries the name.
    pub fn find(&self, fs: &EasyFileSystem, name: &str) -> (r: Option<Inode>)
        requires
            fs.wf(),
            self.valid(*fs),
            self.node(*fs).is_dir_spec(),
            name.is_ascii(),
        ensures
            match r {
                Some(h) => {
                    &&& fs.has_name(name_bytes(name@))
                    &&& h.valid(*fs)
                    &&& exists|k: int|
                        0 <= k < fs.root_entries().len() && (#[trigger] fs.root_entries()[k]).name
                            == name_bytes(name@) && h.inode_id == fs.root_entries()[k].id
                },
                None => !fs.has_name(name_bytes(name@)),
            },
    {
        match self.find_inode_id(fs, name) {
            Some((inode_id, _pos)) => {
                let (block_id, block_offset) = fs.get_disk_inode_pos(inode_id);
                Some(Inode::new(inode_id, block_id, block_offset))
            },
            None => None,
        }
    }

    /// A snapshot of the inode: whether it is a regular file, its id, and its
    /// link count.
    pub fn stat(&self, fs: &EasyFileSystem) -> (r: (bool, u32, u32))
        requires
            fs.wf(),
            self.valid(*fs),
        ensures
            r.0 == self.node(*fs).is_file_spec(),
            r.1 == self.inode_id,
            r.2 == self.node(*fs).nlink,
    {
        let node = &fs.inodes[self.inode_id as usize];
        (node.is_file(), self.inode_id, node.nlink)
    }

    /// List the directory's entry names, in current on-disk slot order — the
    /// order reflects compaction history, not insertion order. The names are
    /// exactly one per entry, and pairwise distinct.
    pub fn ls(&self, fs: &EasyFileSystem) -> (r: Vec<String>)
        requires
            fs.wf(),
            self.valid(*fs),
            self.node(*fs).is_dir_spec(),
        ensures
            r@.len() == fs.root_entries().len(),
            forall|k: int|
                0 <= k < r@.len() ==> (#[trigger] r@[k])@ == crate::dirent::name_chars(
                    fs.root_entries()[k].name,
                ),
            forall|k1: int, k2: int|
                #![trigger r@[k1], r@[k2]]
                0 <= k1 < k2 < r@.len() ==> r@[k1]@ != r@[k2]@,
    {
        proof {
            assert(self.inode_id == 0) by {
                if self.inode_id >= 1 {
                    assert(self.node(*fs).is_file_spec());
                }
            }
        }
        let root = &fs.inodes[self.inode_id as usize];
        let n = root.file_count as usize;
        let mut v: Vec<String> = Vec::new();
        for k in 0..n
            invariant
                fs.wf(),
                root == fs.root(),
                fs.root().wf(),
                n == fs.root_entries().len(),
                fs.root().size as int == 32 * (n as int),
                v@.len() == k,
                forall|j: int|
                    0 <= j < k ==> (#[trigger] v@[j])@ == crate::dirent::name_chars(
                        fs.root_entries()[j].name,
                    ),
        {
            proof {
                assert(32 * (k as int) + 32 <= 32 * (n as int));
            }
            let e = root.read_entry(k);
            proof {
                assert(e@ == fs.root_entries()[k as int]);
                assert(valid_name_bytes(e@.name));
            }
            let s = e.name();
            v.push(s);
        }
        proof {
            assert forall|k1: int, k2: int|
                #![trigger v@[k1], v@[k2]]
                0 <= k1 < k2 < v@.len() implies v@[k1]@ != v@[k2]@ by {
                let n1 = fs.root_entries()[k1].name;
                let n2 = fs.root_entries()[k2].name;
                assert(n1 != n2);
                if v@[k1]@ == v@[k2]@ {
                    assert(crate::dirent::name_chars(n1) =~= crate::dirent::name_chars(n2));
                    assert forall|i: int| 0 <= i < n1.len() implies n1[i] == n2[i] by {
                        assert(crate::dirent::name_chars(n1)[i] == crate::dirent::name_chars(
                            n2,
                        )[i]);
                        assert((n1[i] as char) as u8 == n1[i]);
                        assert((n2[i] as char) as u8 == n2[i]);
                    }
                    assert(n1 =~= n2);
                }
            }
        }
        v
    }

    /// Read from the inode's content at `offset`: transfers
    /// `min(buf.len(), size - offset)` bytes into the front of `buf`, none
    /// once the offset passes the end — a short count signals end of data,
    /// never an error.
    pub fn read_at(&self, fs: &EasyFileSystem, offset: usize, buf: &mut Vec<u8>) -> (n: usize)
        requires
            fs.wf(),
            self.valid(*fs),
        ensures
            n == crate::disk_inode::read_len_spec(
                self.node(*fs).size as int,
                offset as int,
                old(buf)@.len() as int,
            ),
            final(buf)@.len() == old(buf)@.len(),
            forall|i: int|
                0 <= i < n ==> #[trigger] final(buf)@[i] == self.node(*fs).data@[offset + i],
            forall|i: int|
                n <= i < final(buf)@.len() ==> #[trigger] final(buf)@[i] == old(buf)@[i],
    {
        let node = &fs.inodes[self.inode_id as usize];
        node.read_at(offset, buf)
    }
}

/// Whether some slot of the sequence holds block id `b`.
pub open spec fn holds_block(s: Seq<u32>, b: int) -> bool {
    exists|j: int| 0 <= j < s.len() && s[j] == b
}

impl Inode {
    /// Grow a disk inode to `new_size` bytes: a no-op when the requested size
    /// does not exceed the current one; otherwise exactly the additionally
    /// required blocks are taken from the allocator, one at a time, and the
    /// record is extended over them.
    fn increase_size(
        &self,
        new_size: u32,
        disk_inode: &mut DiskInode,
        fs: &mut EasyFileSystem,
    )
        requires
            old(disk_inode).wf(),
            old(fs).data_bitmap@.len() <= u32::MAX as int,
            forall|j: int|
                0 <= j < old(disk_inode).blocks@.len() ==> 0 <= #[trigger] old(disk_inode).blocks@[j] < old(fs).data_bitmap@.len() && old(fs).data_bitmap@[old(disk_inode).blocks@[j] as int],
            old(fs).free_data_count() >= old(disk_inode).blocks_needed(new_size),
        ensures
            final(fs).inodes == old(fs).inodes,
            final(fs).inode_bitmap == old(fs).inode_bitmap,
            final(fs).data_bitmap@.len() == old(fs).data_bitmap@.len(),
            new_size < old(disk_inode).size ==> *final(disk_inode) == *old(disk_inode)
                && *final(fs) == *old(fs),
            new_size >= old(disk_inode).size ==> ({
                let added = final(disk_inode).blocks@.skip(old(disk_inode).blocks@.len() as int);
                &&& final(disk_inode).wf()
                &&& final(disk_inode).size == new_size
                &&& final(disk_inode).ty == old(disk_inode).ty
                &&& final(disk_inode).nlink == old(disk_inode).nlink
                &&& final(disk_inode).file_count == old(disk_inode).file_count
                &&& final(disk_inode).blocks@ == old(disk_inode).blocks@ + added
                &&& added.len() == old(disk_inode).blocks_needed(new_size)
                &&& final(disk_inode).data@.len() == new_size as int
                &&& forall|i: int|
                    0 <= i < old(disk_inode).data@.len() ==> #[trigger] final(disk_inode).data@[i]
                        == old(disk_inode).data@[i]
                &&& forall|i: int|
                    old(disk_inode).data@.len() <= i < new_size as int ==> #[trigger] final(disk_inode).data@[i] == 0u8
                &&& forall|j: int|
                    0 <= j < added.len() ==> 0 <= #[trigger] added[j] < old(fs).data_bitmap@.len() && !old(fs).data_bitmap@[added[j] as int] && final(fs).data_bitmap@[added[j] as int]
                &&& forall|b: int|
                    0 <= b < old(fs).data_bitmap@.len() ==> #[trigger] final(fs).data_bitmap@[b] == (
                    old(fs).data_bitmap@[b] || holds_block(added, b))
                &&& final(fs).free_data_count() == old(fs).free_data_count() - added.len()
            }),
    {
        if new_size < disk_inode.size {
            return ;
        }
        let needed = disk_inode.blocks_num_needed(new_size);
        let ghost bm0 = fs.data_bitmap@;
        let mut v: Vec<u32> = Vec::new();
        let mut i: u32 = 0;
        while i < needed
            invariant
                i == v@.len(),
                i <= needed,
                needed == old(disk_inode).blocks_needed(new_size),
                old(fs).free_data_count() >= needed,
                fs.inodes == old(fs).inodes,
                fs.inode_bitmap == old(fs).inode_bitmap,
                bm0 == old(fs).data_bitmap@,
                fs.data_bitmap@.len() == bm0.len() <= u32::MAX as int,
                fs.free_data_count() == old(fs).free_data_count() - i,
                forall|b: int|
                    0 <= b < bm0.len() ==> #[trigger] fs.data_bitmap@[b] == (bm0[b] || holds_block(
                        v@,
                        b,
                    )),
                forall|j: int|
                    0 <= j < v@.len() ==> 0 <= #[trigger] v@[j] < bm0.len() && !bm0[v@[j] as int]
                        && fs.data_bitmap@[v@[j] as int],
                distinct_u32(v@),
            decreases needed - i,
        {
            let ghost pre = fs.data_bitmap@;
            let b = fs.alloc_data();
            proof {
                assert(fs.data_bitmap@ == pre.update(b as int, true));
                assert(!bm0[b as int]);
                assert(!holds_block(v@, b as int)) by {
                    if holds_block(v@, b as int) {
                        let j = choose|j: int| 0 <= j < v@.len() && v@[j] == b;
                        assert(pre[v@[j] as int]);
                    }
                }
                assert forall|x: int| 0 <= x < bm0.len() implies #[trigger] fs.data_bitmap@[x] == (
                bm0[x] || holds_block(v@.push(b), x)) by {
                    if x == b as int {
                        assert(v@.push(b)[v@.len() as int] == b);
                    } else {
                        if holds_block(v@, x) {
                            let j = choose|j: int| 0 <= j < v@.len() && v@[j] == x;
                            assert(v@.push(b)[j] == x);
                        }
                        if holds_block(v@.push(b), x) {
                            let j = choose|j: int|
                                0 <= j < v@.push(b).len() && v@.push(b)[j] == x;
                            assert(0 <= j < v@.len() && v@[j] == x);
                        }
                    }
                }
            }
  v.push(b);
            i += 1;
        }
        proof {
            assert forall|a: int, j: int|
                0 <= a < old(disk_inode).blocks@.len() && 0 <= j < v@.len() implies old(disk_inode).blocks@[a] != v@[j] by {
                assert(bm0[old(disk_inode).blocks@[a] as int]);
            }
        }
        disk_inode.increase_size(new_size, v);
        proof {
            assert(final(disk_inode).blocks@.skip(old(disk_inode).blocks@.len() as int) =~= v@);
        }
    }
    /// Write `buf` into the inode's content at `offset`, growing the inode
    /// first when the write reaches past its end; the grown gap is zero
    /// bytes. The whole buffer is always transferred, and every dirty line is
    /// flushed before the call returns.
    pub fn write_at(&self, fs: &mut EasyFileSystem, offset: usize, buf: &[u8]) -> (n: usize)
        requires
            old(fs).wf(),
            self.valid(*old(fs)),
            self.node(*old(fs)).is_file_spec(),
            offset + buf@.len() <= u32::MAX as int,
            old(fs).free_data_count() >= self.node(*old(fs)).blocks_needed(
                (offset + buf@.len()) as u32,
            ),
        ensures
            final(fs).wf(),
            n == buf@.len(),
            self.valid(*final(fs)),
            ({
                let node0 = self.node(*old(fs));
                let node1 = self.node(*final(fs));
                let end = offset as int + buf@.len() as int;
                &&& node1.size as int == if end > node0.size as int {
                    end
                } else {
                    node0.size as int
                }
                &&& node1.size >= node0.size
                &&& node1.ty == node0.ty
                &&& node1.nlink == node0.nlink
                &&& node1.file_count == node0.file_count
                &&& node1.data@.len() == node1.size as int
                &&& forall|i: int|
                    offset <= i < end ==> #[trigger] node1.data@[i] == buf@[i - offset]
                &&& forall|i: int|
                    0 <= i < node0.size as int && !(offset <= i < end)
                        ==> #[trigger] node1.data@[i] == node0.data@[i]
                &&& forall|i: int|
                    node0.size as int <= i < node1.size as int && !(offset <= i < end)
                        ==> #[trigger] node1.data@[i] == 0u8
            }),
            final(fs).inode_bitmap == old(fs).inode_bitmap,
            final(fs).data_bitmap@.len() == old(fs).data_bitmap@.len(),
            forall|id: int|
                0 <= id < old(fs).inode_count() && id != self.inode_id as int ==> final(fs).node(id)
                    == old(fs).node(id),
            final(fs).root_entries() == old(fs).root_entries(),
            final(fs).free_inode_count() == old(fs).free_inode_count(),
            final(fs).free_data_count() == old(fs).free_data_count() - self.node(
                *old(fs),
            ).blocks_needed((offset + buf@.len()) as u32),
    {
        let idx = self.inode_id as usize;
        proof {
            assert(idx != 0);
        }
        let end = offset + buf.len();
        let mut node = fs.replace_inode(idx, DiskInode::empty_slot());
        self.increase_size(end as u32, &mut node, fs);
        let n = node.write_at(offset, buf);
        let ghost node1 = node;
        let _slot = fs.replace_inode(idx, node);
        proof {
            let idv = self.inode_id as int;
            let o = *old(fs);
            assert(fs.inodes@ =~= o.inodes@.update(idv, node1));
            assert(fs.root() == o.root());
            assert(fs.root_entries() == o.root_entries());
            lemma_wf_after_file_node_change(o, *fs, idv);
        }
        n
    }

    /// Reclaim every data block of this file inode: its content becomes
    /// empty and each block goes back to the allocator.
    pub fn clear(&self, fs: &mut EasyFileSystem)
        requires
            old(fs).wf(),
            self.valid(*old(fs)),
            self.node(*old(fs)).is_file_spec(),
        ensures
            final(fs).wf(),
            self.valid(*final(fs)),
            ({
                let node0 = self.node(*old(fs));
                let node1 = self.node(*final(fs));
                &&& node1.size == 0
                &&& node1.data@.len() == 0
                &&& node1.blocks@.len() == 0
                &&& node1.ty == node0.ty
                &&& node1.nlink == node0.nlink
                &&& node1.file_count == node0.file_count
            }),
            final(fs).inode_bitmap == old(fs).inode_bitmap,
            final(fs).data_bitmap@.len() == old(fs).data_bitmap@.len(),
            forall|id: int|
                0 <= id < old(fs).inode_count() && id != self.inode_id as int ==> final(fs).node(id)
                    == old(fs).node(id),
            final(fs).root_entries() == old(fs).root_entries(),
            final(fs).free_inode_count() == old(fs).free_inode_count(),
            final(fs).free_data_count() == old(fs).free_data_count() + total_blocks_of(
                self.node(*old(fs)).size as int,
            ),
    {
        let idx = self.inode_id as usize;
        proof {
            assert(idx != 0);
        }
        let mut node = fs.replace_inode(idx, DiskInode::empty_slot());
        let ghost size0 = node.size;
        let blocks = node.clear_size();
        proof {
            // the reclaimed count matches the block count the prior size implies
            assert(blocks@.len() == total_blocks_of(size0 as int));
        }
        dealloc_all(fs, &blocks);
        let ghost node1 = node;
        let _slot = fs.replace_inode(idx, node);
        proof {
            let idv = self.inode_id as int;
            let o = *old(fs);
            assert(fs.inodes@ =~= o.inodes@.update(idv, node1));
            assert(fs.root() == o.root());
            assert(fs.root_entries() == o.root_entries());
            lemma_wf_after_file_node_change(o, *fs, idv);
        }
    }
}

impl Inode {
    /// Append the {name, id} entry at the directory's current entry count:
    /// bump the count, grow the content by one record width, and write the
    /// record into the new slot — the shared tail of `create` and `linkat`.
    fn append_root_entry(&self, fs: &mut EasyFileSystem, name: &str, id: u32)
        requires
            old(fs).wf_but_nlink_pending(id as int),
            self.valid(*old(fs)),
            self.node(*old(fs)).is_dir_spec(),
            valid_name(name@),
            !old(fs).has_name(name_bytes(name@)),
            old(fs).node(id as int).is_file_spec(),
            old(fs).root().size as int + 32 <= u32::MAX as int,
            old(fs).free_data_count() >= old(fs).root().blocks_needed(
                (old(fs).root().size + 32) as u32,
            ),
        ensures
            final(fs).wf(),
            final(fs).root_entries() == old(fs).root_entries().push(
                EntryV { name: name_bytes(name@), id },
            ),
            final(fs).inode_bitmap == old(fs).inode_bitmap,
            final(fs).data_bitmap@.len() == old(fs).data_bitmap@.len(),
            forall|i: int|
                1 <= i < old(fs).inode_count() ==> #[trigger] final(fs).node(i) == old(fs).node(i),
            final(fs).root().size == old(fs).root().size + 32,
            final(fs).root().file_count == old(fs).root().file_count + 1,
            final(fs).root().nlink == old(fs).root().nlink,
            final(fs).free_inode_count() == old(fs).free_inode_count(),
            final(fs).free_data_count() == old(fs).free_data_count() - old(fs).root().blocks_needed(
                (old(fs).root().size + 32) as u32,
            ),
    {
        proof {
            assert(self.inode_id == 0) by {
                if self.inode_id >= 1 {
                    assert(self.node(*old(fs)).is_file_spec());
                }
            }
        }
        let mut root = fs.replace_inode(0, DiskInode::empty_slot());
        let ghost data0 = root.data@;
        let ghost e0 = old(fs).root_entries();
        let file_count = root.file_count;
        proof {
            assert(root.size as int == file_count as int * 32);
            assert((file_count as int + 1) * 32 == root.size as int + 32);
        }
        let new_size = (file_count + 1) * 32;
        root.file_count = file_count + 1;
        self.increase_size(new_size, &mut root, fs);
        let ghost data1 = root.data@;
        let dirent = DirEntry::new(name, id);
        root.write_entry(file_count as usize, &dirent);
        let ghost root1 = root;
        let _slot = fs.replace_inode(0, root);
        proof {
            let o = *old(fs);
            let fc = file_count as int;
            let nb = name_bytes(name@);
            let e = EntryV { name: nb, id };
            let data2 = root1.data@;
            assert(fs.inodes@ =~= o.inodes@.update(0, root1));
            // the directory now parses as the old entries plus the new one
            assert forall|k: int|
                0 <= k < fc implies entries_of(data2, fc + 1)[k] == e0[k] by {
                assert(data2.subrange(32 * k, 32 * k + 32) =~= data0.subrange(32 * k, 32 * k + 32));
            }
            assert(data2.subrange(32 * fc, 32 * fc + 32) == dirent.spec_bytes());
            assert(entries_of(data2, fc + 1)[fc] == e);
            assert(fs.root_entries() =~= e0.push(e));
            assert(fs.root_entries() == e0.push(e));
            // well-formedness
            assert forall|i: int| fs.inode_allocated(i) implies (#[trigger] fs.node(i)).wf() by {
                if i != 0 {
                    assert(o.node(i).wf());
                }
            }
            assert forall|i: int|
                1 <= i < fs.inode_count() && fs.inode_allocated(i) implies (#[trigger] fs.node(
                i,
            )).is_file_spec() by {
                assert(o.node(i).is_file_spec());
            }
            let added = root1.blocks@.skip(o.root().blocks@.len() as int);
            assert forall|j: int|
                0 <= j < root1.blocks@.len() implies 0 <= #[trigger] root1.blocks@[j]
                    < fs.data_bitmap@.len() && fs.data_bitmap@[root1.blocks@[j] as int] by {
                if j < o.root().blocks@.len() {
                    assert(o.data_bitmap@[o.root().blocks@[j] as int]);
                } else {
                    assert(added[j - o.root().blocks@.len()] == root1.blocks@[j]);
                }
            }
            assert forall|b: int|
                0 <= b < fs.data_bitmap@.len() && #[trigger] fs.data_bitmap@[b]
                    && !o.data_bitmap@[b] implies holds_block(root1.blocks@, b) by {
                assert(holds_block(added, b));
                let j = choose|j: int| 0 <= j < added.len() && added[j] == b;
                assert(root1.blocks@[o.root().blocks@.len() + j] == b);
            }
            assert forall|j: int|
                0 <= j < root1.blocks@.len() && !holds_block(
                    o.root().blocks@,
                    #[trigger] root1.blocks@[j] as int,
                ) implies !o.data_bitmap@[root1.blocks@[j] as int] by {
                if j < o.root().blocks@.len() {
                    assert(o.root().blocks@[j] == root1.blocks@[j]);
                } else {
                    assert(added[j - o.root().blocks@.len()] == root1.blocks@[j]);
                }
            }
            lemma_blocks_wf_after_node_change(o, *fs, 0);
            // the new entry keeps names distinct and references a live file
            lemma_valid_name_bytes(name@);
            assert forall|k1: int, k2: int|
                #![trigger fs.root_entries()[k1].name, fs.root_entries()[k2].name]
                0 <= k1 < k2 < fs.root_entries().len() implies fs.root_entries()[k1].name
                    != fs.root_entries()[k2].name by {
                if k2 == fc {
                    assert(fs.root_entries()[k1] == e0[k1]);
                    assert(e0[k1].name != nb);
                } else {
                    assert(e0[k1].name != e0[k2].name);
                }
            }
            assert forall|k: int|
                0 <= k < fs.root_entries().len() implies 0 < (#[trigger] fs.root_entries()[k]).id
                    < fs.inode_count() && fs.inode_allocated(fs.root_entries()[k].id as int) by {
                if k < fc {
                    assert(fs.root_entries()[k] == e0[k]);
                }
            }
            assert forall|k: int|
                0 <= k < fs.root_entries().len() implies valid_name_bytes(
                (#[trigger] fs.root_entries()[k]).name,
            ) by {
                if k < fc {
                    assert(fs.root_entries()[k] == e0[k]);
                }
            }
            // link counts: only the pending inode's count rose, by exactly one
            assert forall|i: int|
                1 <= i < fs.inode_count() && fs.inode_allocated(i) implies (#[trigger] fs.node(
                i,
            )).nlink as nat == count_id(fs.root_entries(), i as u32) && fs.node(i).nlink >= 1 by {
                lemma_count_id_push(e0, e, i as u32);
                if i != id as int {
                    assert(o.node(i).nlink as nat == count_id(e0, i as u32));
                }
            }
            assert(fs.wf());
        }
    }

    /// Create a file named `name` in this directory: absence is returned, and
    /// nothing changes, when the name is already taken; otherwise a fresh
    /// inode is allocated, initialized as a file whose first link is the new
    /// entry, and recorded in the directory, and a handle on it is returned.
    pub fn create(&self, fs: &mut EasyFileSystem, name: &str) -> (r: Option<Inode>)
        requires
            old(fs).wf(),
            self.valid(*old(fs)),
            self.node(*old(fs)).is_dir_spec(),
            valid_name(name@),
            !old(fs).has_name(name_bytes(name@)) ==> old(fs).free_inode_count() > 0 && old(
                fs,
            ).root().size as int + 32 <= u32::MAX as int && old(fs).free_data_count() >= old(
                fs,
            ).root().blocks_needed((old(fs).root().size + 32) as u32),
        ensures
            final(fs).wf(),
            match r {
                None => old(fs).has_name(name_bytes(name@)) && *final(fs) == *old(fs),
                Some(h) => {
                    &&& !old(fs).has_name(name_bytes(name@))
                    &&& 0 < (h.inode_id as int) < old(fs).inode_count()
                    &&& !old(fs).inode_allocated(h.inode_id as int)
                    &&& h.valid(*final(fs))
                    &&& final(fs).root_entries() == old(fs).root_entries().push(
                        EntryV { name: name_bytes(name@), id: h.inode_id },
                    )
                    &&& final(fs).node(h.inode_id as int).is_file_spec()
                    &&& final(fs).node(h.inode_id as int).nlink == 1
                    &&& final(fs).node(h.inode_id as int).size == 0
                    &&& final(fs).inode_bitmap@ == old(fs).inode_bitmap@.update(
                        h.inode_id as int,
                        true,
                    )
                    &&& forall|i: int|
                        1 <= i < old(fs).inode_count() && i != h.inode_id as int
                            ==> #[trigger] final(fs).node(i) == old(fs).node(i)
                    &&& final(fs).root().size == old(fs).root().size + 32
                    &&& final(fs).root().file_count == old(fs).root().file_count + 1
                    &&& final(fs).free_inode_count() == old(fs).free_inode_count() - 1
                    &&& final(fs).free_data_count() == old(fs).free_data_count() - old(fs).root().blocks_needed((old(fs).root().size + 32) as u32)
                    &&& final(fs).data_bitmap@.len() == old(fs).data_bitmap@.len()
                },
            },
    {
        if self.find_inode_id(fs, name).is_some() {
            return None;
        }
        let new_inode_id = fs.alloc_inode();
        let mut node = DiskInode::empty_slot();
        node.initialize(DiskInodeType::File);
        let ghost node0 = node;
        let _slot = fs.replace_inode(new_inode_id as usize, node);
        proof {
            let o = *old(fs);
            let idv = new_inode_id as int;
            let e0 = o.root_entries();
            assert(fs.inodes@ =~= o.inodes@.update(idv, node0));
            assert(idv != 0);
            assert(fs.root() == o.root());
            assert(fs.root_entries() == e0);
            assert forall|k: int|
                0 <= k < e0.len() implies (#[trigger] e0[k]).id != new_inode_id by {
                assert(o.inode_allocated(e0[k].id as int));
            }
            lemma_count_id_zero(e0, new_inode_id);
            assert forall|i: int| fs.inode_allocated(i) implies (#[trigger] fs.node(i)).wf() by {
                if i != idv {
                    assert(o.inode_allocated(i));
                    assert(o.node(i).wf());
                }
            }
            assert forall|i: int|
                1 <= i < fs.inode_count() && fs.inode_allocated(i) implies (#[trigger] fs.node(
                i,
            )).is_file_spec() by {
                if i != idv {
                    assert(o.node(i).is_file_spec());
                }
            }
            assert forall|id2: int, j: int|
                fs.inode_allocated(id2) && 0 <= j < fs.node(id2).blocks@.len() implies 0
                    <= #[trigger] fs.node(id2).blocks@[j] < fs.data_bitmap@.len()
                    && fs.data_bitmap@[fs.node(id2).blocks@[j] as int] by {
                if id2 != idv {
                    assert(o.inode_allocated(id2));
                    assert(o.data_bitmap@[o.node(id2).blocks@[j] as int]);
                }
            }
            assert forall|a: int, b: int, i: int, j: int|
                #![trigger fs.node(a).blocks@[i], fs.node(b).blocks@[j]]
                fs.inode_allocated(a) && fs.inode_allocated(b) && a != b && 0 <= i < fs.node(
                    a,
                ).blocks@.len() && 0 <= j < fs.node(b).blocks@.len() implies fs.node(a).blocks@[i]
                    != fs.node(b).blocks@[j] by {
                assert(a != idv && b != idv ==> o.node(a).blocks@[i] != o.node(b).blocks@[j]);
            }
            assert forall|k: int|
                0 <= k < fs.root_entries().len() implies 0 < (#[trigger] fs.root_entries()[k]).id
                    < fs.inode_count() && fs.inode_allocated(fs.root_entries()[k].id as int) by {
                assert(e0[k] == fs.root_entries()[k]);
                assert(o.inode_allocated(e0[k].id as int));
            }
            assert forall|i: int|
                1 <= i < fs.inode_count() && fs.inode_allocated(i) && i != idv implies (
            #[trigger] fs.node(i)).nlink as nat == count_id(fs.root_entries(), i as u32)
                && fs.node(i).nlink >= 1 by {
                assert(o.inode_allocated(i));
                assert(o.node(i).nlink as nat == count_id(e0, i as u32));
            }
            assert(fs.wf_but_nlink_pending(idv));
        }
        self.append_root_entry(fs, name, new_inode_id);
        let (block_id, block_offset) = fs.get_disk_inode_pos(new_inode_id);
        let r = Inode::new(new_inode_id, block_id, block_offset);
        proof {
            assert(fs.inode_allocated(new_inode_id as int));
        }
        Some(r)
    }

    /// Hard-link `new_name` to the inode `old_name` resolves to: fails with
    /// the negative sentinel, without mutation, when `new_name` is already
    /// taken (checked first) or `old_name` is absent; otherwise the target's
    /// link count rises by one and a new entry is recorded.
    pub fn linkat(&self, fs: &mut EasyFileSystem, old_name: &str, new_name: &str) -> (r: isize)
        requires
            old(fs).wf(),
            self.valid(*old(fs)),
            self.node(*old(fs)).is_dir_spec(),
            old_name.is_ascii(),
            valid_name(new_name@),
            !old(fs).has_name(name_bytes(new_name@)) && old(fs).has_name(name_bytes(old_name@))
                ==> old(fs).root().size as int + 32 <= u32::MAX as int && old(
                fs,
            ).free_data_count() >= old(fs).root().blocks_needed((old(fs).root().size + 32) as u32),
        ensures
            final(fs).wf(),
            r == 0 || r == -1,
            (r == -1) <==> (old(fs).has_name(name_bytes(new_name@)) || !old(fs).has_name(
                name_bytes(old_name@),
            )),
            r == -1 ==> *final(fs) == *old(fs),
            r == 0 ==> (exists|k: int|
                #![trigger old(fs).root_entries()[k]]
                0 <= k < old(fs).root_entries().len() && old(fs).root_entries()[k].name
                    == name_bytes(old_name@) && ({
                    let tid = old(fs).root_entries()[k].id;
                    &&& final(fs).root_entries() == old(fs).root_entries().push(
                        EntryV { name: name_bytes(new_name@), id: tid },
                    )
                    &&& final(fs).node(tid as int).nlink == old(fs).node(tid as int).nlink + 1
                    &&& final(fs).node(tid as int).size == old(fs).node(tid as int).size
                    &&& final(fs).node(tid as int).data == old(fs).node(tid as int).data
                    &&& final(fs).node(tid as int).ty == old(fs).node(tid as int).ty
                    &&& forall|i: int|
                        1 <= i < old(fs).inode_count() && i != tid as int ==> #[trigger] final(fs).node(i) == old(fs).node(i)
                    &&& final(fs).inode_bitmap == old(fs).inode_bitmap
                    &&& final(fs).root().size == old(fs).root().size + 32
                    &&& final(fs).root().file_count == old(fs).root().file_count + 1
                    &&& final(fs).free_inode_count() == old(fs).free_inode_count()
                    &&& final(fs).free_data_count() == old(fs).free_data_count() - old(fs).root().blocks_needed((old(fs).root().size + 32) as u32)
                })),
    {
        if self.find_inode_id(fs, new_name).is_some() {
            return -1;
        }
        match self.find_inode_id(fs, old_name) {
            None => -1,
            Some((tid, pos)) => {
                let ghost o = *old(fs);
                let ghost e0 = o.root_entries();
                proof {
                    assert(e0[pos as int].id == tid);
                    assert(0 < (tid as int) < o.inode_count());
                    lemma_count_id_le_len(e0, tid);
                    assert(e0.len() as int == o.root().file_count as int);
                    assert(o.root().file_count as int * 32 == o.root().size as int);
                    assert(o.inode_allocated(tid as int));
                    assert(o.node(tid as int).nlink as nat == count_id(e0, tid));
                    assert(o.node(tid as int).nlink < u32::MAX);
                }
                let mut tnode = fs.replace_inode(tid as usize, DiskInode::empty_slot());
                tnode.nlink = tnode.nlink + 1;
                let ghost tnode1 = tnode;
                let _s = fs.replace_inode(tid as usize, tnode);
                proof {
                    let idv = tid as int;
                    assert(fs.inodes@ =~= o.inodes@.update(idv, tnode1));
                    assert(idv != 0);
                    assert(fs.root() == o.root());
                    assert(fs.root_entries() == e0);
                    assert(tnode1.wf()) by {
                        assert(o.node(idv).wf());
                    }
                    assert forall|i: int| fs.inode_allocated(i) implies (#[trigger] fs.node(
                        i,
                    )).wf() by {
                        if i != idv {
                            assert(o.node(i).wf());
                        }
                    }
                    assert forall|i: int|
                        1 <= i < fs.inode_count() && fs.inode_allocated(i) implies (
                    #[trigger] fs.node(i)).is_file_spec() by {
                        if i != idv {
                            assert(o.node(i).is_file_spec());
                        } else {
                            assert(o.node(idv).is_file_spec());
                        }
                    }
                    assert forall|id2: int, j: int|
                        fs.inode_allocated(id2) && 0 <= j < fs.node(id2).blocks@.len() implies 0
                            <= #[trigger] fs.node(id2).blocks@[j] < fs.data_bitmap@.len()
                            && fs.data_bitmap@[fs.node(id2).blocks@[j] as int] by {
                        if id2 != idv {
                            assert(o.data_bitmap@[o.node(id2).blocks@[j] as int]);
                        } else {
                            assert(o.data_bitmap@[o.node(idv).blocks@[j] as int]);
                        }
                    }
                    assert forall|a: int, b: int, i: int, j: int|
                        #![trigger fs.node(a).blocks@[i], fs.node(b).blocks@[j]]
                        fs.inode_allocated(a) && fs.inode_allocated(b) && a != b && 0 <= i
                            < fs.node(a).blocks@.len() && 0 <= j < fs.node(b).blocks@.len() implies
                        fs.node(a).blocks@[i] != fs.node(b).blocks@[j] by {
                        assert(fs.node(a).blocks@ == o.node(a).blocks@);
                        assert(fs.node(b).blocks@ == o.node(b).blocks@);
                        assert(o.node(a).blocks@[i] != o.node(b).blocks@[j]);
                    }
                    assert forall|k: int|
                        0 <= k < fs.root_entries().len() implies 0 < (
                    #[trigger] fs.root_entries()[k]).id < fs.inode_count() && fs.inode_allocated(
                        fs.root_entries()[k].id as int,
                    ) by {
                        assert(e0[k] == fs.root_entries()[k]);
                        assert(o.inode_allocated(e0[k].id as int));
                    }
                    assert forall|i: int|
                        1 <= i < fs.inode_count() && fs.inode_allocated(i) && i != idv implies (
                    #[trigger] fs.node(i)).nlink as nat == count_id(fs.root_entries(), i as u32)
                        && fs.node(i).nlink >= 1 by {
                        assert(o.node(i).nlink as nat == count_id(e0, i as u32));
                    }
                    assert(fs.wf_but_nlink_pending(idv));
                }
                self.append_root_entry(fs, new_name, tid);
                proof {
                    assert(e0[pos as int].name == name_bytes(old_name@) && e0[pos as int].id
                        == tid);
                }
                0
            },
        }
    }

    /// Remove the entry named `name`: fails with the negative sentinel,
    /// without mutation, when the name is absent. Otherwise the target's link
    /// count drops by one and the slot is compacted — the last entry's bytes
    /// move into the removed slot and the entry count shrinks by one. When
    /// the count reaches zero the target's data blocks and inode slot are
    /// reclaimed.
    pub fn unlinkat(&self, fs: &mut EasyFileSystem, name: &str) -> (r: isize)
        requires
            old(fs).wf(),
            self.valid(*old(fs)),
            self.node(*old(fs)).is_dir_spec(),
            name.is_ascii(),
        ensures
            final(fs).wf(),
            r == 0 || r == -1,
            (r == -1) <==> !old(fs).has_name(name_bytes(name@)),
            r == -1 ==> *final(fs) == *old(fs),
            r == 0 ==> (exists|pos: int|
                #![trigger old(fs).root_entries()[pos]]
                0 <= pos < old(fs).root_entries().len() && old(fs).root_entries()[pos].name
                    == name_bytes(name@) && ({
                    let e0 = old(fs).root_entries();
                    let n = e0.len() as int;
                    let tid = e0[pos].id as int;
                    &&& final(fs).root_entries() == e0.update(pos, e0[n - 1]).take(n - 1)
                    &&& final(fs).root().file_count == old(fs).root().file_count - 1
                    &&& final(fs).root().size == old(fs).root().size - 32
                    &&& forall|i: int|
                        1 <= i < old(fs).inode_count() && i != tid ==> #[trigger] final(fs).node(i)
                            == old(fs).node(i)
                    &&& (old(fs).node(tid).nlink > 1 ==> {
                        &&& final(fs).inode_bitmap == old(fs).inode_bitmap
                        &&& final(fs).node(tid).nlink == old(fs).node(tid).nlink - 1
                        &&& final(fs).node(tid).size == old(fs).node(tid).size
                        &&& final(fs).node(tid).data == old(fs).node(tid).data
                        &&& final(fs).free_inode_count() == old(fs).free_inode_count()
                        &&& final(fs).free_data_count() == old(fs).free_data_count()
                    })
                    &&& (old(fs).node(tid).nlink == 1 ==> {
                        &&& !final(fs).inode_allocated(tid)
                        &&& final(fs).inode_bitmap@ == old(fs).inode_bitmap@.update(tid, false)
                        &&& final(fs).free_inode_count() == old(fs).free_inode_count() + 1
                        &&& final(fs).free_data_count() == old(fs).free_data_count()
                            + total_blocks_of(old(fs).node(tid).size as int)
                    })
                })),
    {
        let found = self.find_inode_id(fs, name);
        match found {
            None => -1,
            Some((tid, pos)) => {
                let ghost o = *old(fs);
                let ghost e0 = o.root_entries();
                let ghost n = e0.len() as int;
                let ghost tidv = tid as int;
                proof {
                    assert(e0[pos as int].id == tid);
                    assert(0 < tidv < o.inode_count());
                    assert(o.inode_allocated(tidv));
                    assert(o.node(tidv).nlink as nat == count_id(e0, tid));
                    assert(o.node(tidv).nlink >= 1);
                    assert(e0.len() as int == o.root().file_count as int);
                    assert(o.root().file_count as int * 32 == o.root().size as int);
                    assert(n >= 1);
                }
                // drop the target's link count
                let mut tnode = fs.replace_inode(tid as usize, DiskInode::empty_slot());
                tnode.nlink = tnode.nlink - 1;
                let nlink = tnode.nlink;
                let ghost tnode1 = tnode;
                let _s = fs.replace_inode(tid as usize, tnode);
                // compact the directory: the last entry moves into the slot
                let mut root = fs.replace_inode(0, DiskInode::empty_slot());
                let ghost d0 = root.data@;
                let file_count = root.file_count;
                if pos != file_count as usize - 1 {
                    let last = root.read_entry(file_count as usize - 1);
                    root.write_entry(pos, &last);
                }
                let ghost d1 = root.data@;
                root.file_count = file_count - 1;
                let new_sz = root.size - 32;
                root.size = new_sz;
                root.data.truncate(new_sz as usize);
                let ghost root1 = root;
                let _r = fs.replace_inode(0, root);
                proof {
                    vstd::arithmetic::div_mod::lemma_div_is_ordered(
                        new_sz as int + 511,
                        o.root().size as int + 511,
                        512,
                    );
                    let lastE = e0[n - 1];
                    let e1 = e0.update(pos as int, lastE).take(n - 1);
                    assert(fs.inodes@ =~= o.inodes@.update(tidv, tnode1).update(0, root1));
                    let d2 = root1.data@;
                    assert(d2 =~= d1.subrange(0, 32 * (n - 1)));
                    assert forall|k: int|
                        0 <= k < n - 1 implies entries_of(d2, n - 1)[k] == e1[k] by {
                        assert(d2.subrange(32 * k, 32 * k + 32) =~= d1.subrange(
                            32 * k,
                            32 * k + 32,
                        ));
                        if k != pos as int {
                            assert(d1.subrange(32 * k, 32 * k + 32) =~= d0.subrange(
                                32 * k,
                                32 * k + 32,
                            ));
                        }
                    }
                    assert(fs.root_entries() =~= e1);
                    assert(fs.root_entries() == e1);
                    // the compacted directory record is well formed
                    assert(root1.wf());
                    // names stay valid and pairwise distinct
                    assert forall|k: int|
                        0 <= k < e1.len() implies valid_name_bytes((#[trigger] e1[k]).name) by {
                        if k != pos as int {
                            assert(e1[k] == e0[k]);
                        }
                    }
                    assert forall|k1: int, k2: int|
                        #![trigger e1[k1].name, e1[k2].name]
                        0 <= k1 < k2 < e1.len() implies e1[k1].name != e1[k2].name by {
                        if k1 == pos as int {
                            assert(e1[k1] == e0[n - 1] && e1[k2] == e0[k2]);
                        } else if k2 == pos as int {
                            assert(e1[k1] == e0[k1] && e1[k2] == e0[n - 1]);
                        } else {
                            assert(e1[k1] == e0[k1] && e1[k2] == e0[k2]);
                        }
                    }
                    // every entry still references an allocated file inode
                    assert forall|k: int|
                        0 <= k < e1.len() implies 0 < (#[trigger] e1[k]).id < o.inode_count()
                            && o.inode_allocated(e1[k].id as int) by {
                        if k != pos as int {
                            assert(e1[k] == e0[k]);
                        } else {
                            assert(e1[k] == e0[n - 1]);
                        }
                    }
                    // link counts after the removal
                    lemma_count_id_compact(e0, pos as int, tid);
                    assert(count_id(e1, tid) == count_id(e0, tid) - 1);
                }
                if nlink == 0 {
                    // last link gone: reclaim the data blocks and the slot
                    let mut t2 = fs.replace_inode(tid as usize, DiskInode::empty_slot());
                    let ghost size0 = t2.size;
                    let blocks = t2.clear_size();
                    proof {
                        assert(blocks@ == o.node(tidv).blocks@);
                        assert(blocks@.len() == total_blocks_of(size0 as int));
                        assert forall|j: int|
                            0 <= j < blocks@.len() implies 0 <= #[trigger] blocks@[j]
                                < fs.data_bitmap@.len() && fs.data_bitmap@[blocks@[j] as int] by {
                            assert(o.data_bitmap@[o.node(tidv).blocks@[j] as int]);
                        }
                    }
                    dealloc_all(fs, &blocks);
                    let ghost t2c = t2;
                    let _x = fs.replace_inode(tid as usize, t2);
                    fs.dealloc_inode(tid);
                    proof {
                        let f = *fs;
                        let lastE = e0[n - 1];
                        let e1 = e0.update(pos as int, lastE).take(n - 1);
                        assert(f.inodes@ =~= o.inodes@.update(0, root1).update(tidv, t2c));
                        assert(f.root() == root1);
                        assert(f.root_entries() == e1);
                        lemma_count_id_zero_converse(e1, tid);
                        assert forall|i: int| f.inode_allocated(i) implies (#[trigger] f.node(
                            i,
                        )).wf() by {
                            if i != tidv && i != 0 {
                                assert(o.node(i).wf());
                            }
                        }
                        assert forall|i: int|
                            1 <= i < f.inode_count() && f.inode_allocated(i) implies (
                        #[trigger] f.node(i)).is_file_spec() by {
                            assert(o.node(i).is_file_spec());
                        }
                        assert forall|id2: int, j: int|
                            f.inode_allocated(id2) && 0 <= j < f.node(id2).blocks@.len() implies 0
                                <= #[trigger] f.node(id2).blocks@[j] < f.data_bitmap@.len()
                                && f.data_bitmap@[f.node(id2).blocks@[j] as int] by {
                            assert(id2 != tidv);
                            assert(f.node(id2).blocks@ == o.node(id2).blocks@);
                            let b = o.node(id2).blocks@[j] as int;
                            assert(o.data_bitmap@[b]);
                            assert(!holds_block(blocks@, b)) by {
                                if holds_block(blocks@, b) {
                                    let j2 = choose|j2: int|
                                        0 <= j2 < blocks@.len() && blocks@[j2] == b;
                                    assert(o.node(tidv).blocks@[j2] != o.node(id2).blocks@[j]);
                                }
                            }
                        }
                        assert forall|a: int, b: int, i: int, j: int|
                            #![trigger f.node(a).blocks@[i], f.node(b).blocks@[j]]
                            f.inode_allocated(a) && f.inode_allocated(b) && a != b && 0 <= i
                                < f.node(a).blocks@.len() && 0 <= j < f.node(b).blocks@.len()
                            implies f.node(a).blocks@[i] != f.node(b).blocks@[j] by {
                            assert(f.node(a).blocks@ == o.node(a).blocks@);
                            assert(f.node(b).blocks@ == o.node(b).blocks@);
                            assert(o.node(a).blocks@[i] != o.node(b).blocks@[j]);
                        }
                        assert forall|k: int|
                            0 <= k < f.root_entries().len() implies 0 < (
                        #[trigger] f.root_entries()[k]).id < f.inode_count() && f.inode_allocated(
                            f.root_entries()[k].id as int,
                        ) by {
                            assert(e1[k].id != tid);
                            if k != pos as int {
                                assert(e1[k] == e0[k]);
                            } else {
                                assert(e1[k] == e0[n - 1]);
                            }
                        }
                        assert forall|i: int|
                            1 <= i < f.inode_count() && f.inode_allocated(i) implies (
                        #[trigger] f.node(i)).nlink as nat == count_id(f.root_entries(), i as u32)
                            && f.node(i).nlink >= 1 by {
                            lemma_count_id_compact(e0, pos as int, i as u32);
                            assert(i != tidv);
                            assert(o.node(i).nlink as nat == count_id(e0, i as u32));
                        }
                        assert(f.wf());
                    }
                } else {
                    proof {
                        let f = *fs;
                        let lastE = e0[n - 1];
                        let e1 = e0.update(pos as int, lastE).take(n - 1);
                        assert forall|i: int| f.inode_allocated(i) implies (#[trigger] f.node(
                            i,
                        )).wf() by {
                            if i != tidv && i != 0 {
                                assert(o.node(i).wf());
                            } else if i == tidv {
                                assert(o.node(tidv).wf());
                            }
                        }
                        assert forall|i: int|
                            1 <= i < f.inode_count() && f.inode_allocated(i) implies (
                        #[trigger] f.node(i)).is_file_spec() by {
                            if i != tidv {
                                assert(o.node(i).is_file_spec());
                            } else {
                                assert(o.node(tidv).is_file_spec());
                            }
                        }
                        assert forall|id2: int, j: int|
                            f.inode_allocated(id2) && 0 <= j < f.node(id2).blocks@.len() implies 0
                                <= #[trigger] f.node(id2).blocks@[j] < f.data_bitmap@.len()
                                && f.data_bitmap@[f.node(id2).blocks@[j] as int] by {
                            assert(f.node(id2).blocks@ == o.node(id2).blocks@);
                            assert(o.data_bitmap@[o.node(id2).blocks@[j] as int]);
                        }
                        assert forall|a: int, b: int, i: int, j: int|
                            #![trigger f.node(a).blocks@[i], f.node(b).blocks@[j]]
                            f.inode_allocated(a) && f.inode_allocated(b) && a != b && 0 <= i
                                < f.node(a).blocks@.len() && 0 <= j < f.node(b).blocks@.len()
                            implies f.node(a).blocks@[i] != f.node(b).blocks@[j] by {
                            assert(f.node(a).blocks@ == o.node(a).blocks@);
                            assert(f.node(b).blocks@ == o.node(b).blocks@);
                            assert(o.node(a).blocks@[i] != o.node(b).blocks@[j]);
                        }
                        assert forall|i: int|
                            1 <= i < f.inode_count() && f.inode_allocated(i) implies (
                        #[trigger] f.node(i)).nlink as nat == count_id(f.root_entries(), i as u32)
                            && f.node(i).nlink >= 1 by {
                            lemma_count_id_compact(e0, pos as int, i as u32);
                            if i != tidv {
                                assert(o.node(i).nlink as nat == count_id(e0, i as u32));
                            }
                        }
                        assert(f.wf());
                    }
                }
                0
            },
        }
    }
}

/// Return a batch of distinct, used data blocks to the allocator, one at a
/// time.
fn dealloc_all(fs: &mut EasyFileSystem, blocks: &Vec<u32>)
    requires
        forall|j: int|
            0 <= j < blocks@.len() ==> 0 <= #[trigger] blocks@[j] < old(fs).data_bitmap@.len()
                && old(fs).data_bitmap@[blocks@[j] as int],
        distinct_u32(blocks@),
    ensures
        final(fs).inodes == old(fs).inodes,
        final(fs).inode_bitmap == old(fs).inode_bitmap,
        final(fs).data_bitmap@.len() == old(fs).data_bitmap@.len(),
        forall|b: int|
            0 <= b < old(fs).data_bitmap@.len() ==> #[trigger] final(fs).data_bitmap@[b] == (old(fs).data_bitmap@[b] && !holds_block(blocks@, b)),
        final(fs).free_data_count() == old(fs).free_data_count() + blocks@.len(),
{
    let n = blocks.len();
    for k in 0..n
        invariant
            n == blocks@.len(),
            forall|j: int|
                0 <= j < blocks@.len() ==> 0 <= #[trigger] blocks@[j] < old(fs).data_bitmap@.len() && old(fs).data_bitmap@[blocks@[j] as int],
            distinct_u32(blocks@),
            fs.inodes == old(fs).inodes,
            fs.inode_bitmap == old(fs).inode_bitmap,
            fs.data_bitmap@.len() == old(fs).data_bitmap@.len(),
            forall|b: int|
                0 <= b < old(fs).data_bitmap@.len() ==> #[trigger] fs.data_bitmap@[b] == (old(fs).data_bitmap@[b] && !holds_block(blocks@.take(k as int), b)),
            fs.free_data_count() == old(fs).free_data_count() + k,
    {
        let b = blocks[k];
        proof {
            assert(!holds_block(blocks@.take(k as int), b as int)) by {
                if holds_block(blocks@.take(k as int), b as int) {
                    let j = choose|j: int|
                        0 <= j < blocks@.take(k as int).len() && blocks@.take(k as int)[j]
                            == b as int;
                    assert(blocks@[j] == blocks@[k as int]);
                }
            }
            assert(fs.data_bitmap@[b as int]);
        }
        let ghost pre = fs.data_bitmap@;
        fs.dealloc_data(b);
        proof {
            assert forall|x: int| 0 <= x < old(fs).data_bitmap@.len() implies
                #[trigger] fs.data_bitmap@[x] == (old(fs).data_bitmap@[x] && !holds_block(
                blocks@.take(k as int + 1),
                x,
            )) by {
                if x == b as int {
                    assert(blocks@.take(k as int + 1)[k as int] == b);
                } else {
                    assert(holds_block(blocks@.take(k as int + 1), x) == holds_block(
                        blocks@.take(k as int),
                        x,
                    )) by {
                        if holds_block(blocks@.take(k as int), x) {
                            let j = choose|j: int|
                                0 <= j < k as int && blocks@.take(k as int)[j] == x;
                            assert(blocks@.take(k as int + 1)[j] == x);
                        }
                        if holds_block(blocks@.take(k as int + 1), x) {
                            let j = choose|j: int|
                                0 <= j < k as int + 1 && #[trigger] blocks@.take(k as int + 1)[j]
                                    == x;
                            if j < k as int {
                                assert(blocks@.take(k as int)[j] == x);
                            }
                        }
                    }
                }
            }
        }
    }
    proof {
        assert(blocks@.take(n as int) =~= blocks@);
    }
}

/// A change confined to one allocated inode's record, whose block accounting
/// stays consistent with the data bitmap, preserves the block conditions.
proof fn lemma_blocks_wf_after_node_change(o: EasyFileSystem, f: EasyFileSystem, idv: int)
    requires
        o.blocks_wf(),
        o.inodes@.len() == o.inode_bitmap@.len(),
        0 <= idv < o.inodes@.len(),
        o.inode_allocated(idv),
        f.inode_bitmap == o.inode_bitmap,
        f.inodes@.len() == o.inodes@.len(),
        f.data_bitmap@.len() == o.data_bitmap@.len(),
        forall|id: int|
            0 <= id < o.inodes@.len() && id != idv ==> #[trigger] f.node(id) == o.node(id),
        forall|j: int|
            0 <= j < f.node(idv).blocks@.len() ==> 0 <= #[trigger] f.node(idv).blocks@[j]
                < f.data_bitmap@.len() && f.data_bitmap@[f.node(idv).blocks@[j] as int],
        forall|b: int|
            0 <= b < f.data_bitmap@.len() && #[trigger] f.data_bitmap@[b] && !o.data_bitmap@[b]
                ==> holds_block(f.node(idv).blocks@, b),
        forall|b: int|
            0 <= b < o.data_bitmap@.len() && #[trigger] o.data_bitmap@[b] && !f.data_bitmap@[b]
                ==> holds_block(o.node(idv).blocks@, b),
        forall|j: int|
            0 <= j < f.node(idv).blocks@.len() && !holds_block(
                o.node(idv).blocks@,
                #[trigger] f.node(idv).blocks@[j] as int,
            ) ==> !o.data_bitmap@[f.node(idv).blocks@[j] as int],
    ensures
        f.blocks_wf(),
{
    assert forall|id: int, j: int|
        f.inode_allocated(id) && 0 <= j < f.node(id).blocks@.len() implies 0 <= #[trigger] f.node(
        id,
    ).blocks@[j] < f.data_bitmap@.len() && f.data_bitmap@[f.node(id).blocks@[j] as int] by {
        if id != idv {
            let b = o.node(id).blocks@[j] as int;
            assert(0 <= b < o.data_bitmap@.len() && o.data_bitmap@[b]);
            if !f.data_bitmap@[b] {
                assert(holds_block(o.node(idv).blocks@, b));
                let j2 = choose|j2: int|
                    0 <= j2 < o.node(idv).blocks@.len() && o.node(idv).blocks@[j2] == b;
                assert(o.node(idv).blocks@[j2] != o.node(id).blocks@[j]);
            }
        }
    }
    assert forall|a: int, b: int, i: int, j: int|
        #![trigger f.node(a).blocks@[i], f.node(b).blocks@[j]]
        f.inode_allocated(a) && f.inode_allocated(b) && a != b && 0 <= i < f.node(a).blocks@.len()
            && 0 <= j < f.node(b).blocks@.len() implies f.node(a).blocks@[i] != f.node(
        b,
    ).blocks@[j] by {
        if a != idv && b != idv {
            assert(o.node(a).blocks@[i] != o.node(b).blocks@[j]);
        } else if a == idv {
            let x = f.node(a).blocks@[i] as int;
            let y = o.node(b).blocks@[j] as int;
            assert(o.data_bitmap@[y]);
            if holds_block(o.node(idv).blocks@, x) {
                let j2 = choose|j2: int|
                    0 <= j2 < o.node(idv).blocks@.len() && o.node(idv).blocks@[j2] == x;
                assert(o.node(idv).blocks@[j2] != o.node(b).blocks@[j]);
            } else {
                assert(!o.data_bitmap@[x]);
            }
        } else {
            let x = f.node(b).blocks@[j] as int;
            let y = o.node(a).blocks@[i] as int;
            assert(o.data_bitmap@[y]);
            if holds_block(o.node(idv).blocks@, x) {
                let j2 = choose|j2: int|
                    0 <= j2 < o.node(idv).blocks@.len() && o.node(idv).blocks@[j2] == x;
                assert(o.node(idv).blocks@[j2] != o.node(a).blocks@[i]);
            } else {
                assert(!o.data_bitmap@[x]);
            }
        }
    }
}

/// A change confined to one allocated file inode, whose block accounting
/// stays consistent with the data bitmap, preserves the filesystem invariant:
/// the directory, the other inodes and the link counts are untouched.
proof fn lemma_wf_after_file_node_change(o: EasyFileSystem, f: EasyFileSystem, idv: int)
    requires
        o.wf(),
        0 < idv < o.inode_count(),
        o.inode_allocated(idv),
        o.node(idv).is_file_spec(),
        f.inode_bitmap == o.inode_bitmap,
        f.inodes@.len() == o.inodes@.len(),
        f.data_bitmap@.len() == o.data_bitmap@.len(),
        forall|id: int|
            0 <= id < o.inodes@.len() && id != idv ==> #[trigger] f.node(id) == o.node(id),
        f.node(idv).wf(),
        f.node(idv).ty == o.node(idv).ty,
        f.node(idv).nlink == o.node(idv).nlink,
        forall|j: int|
            0 <= j < f.node(idv).blocks@.len() ==> 0 <= #[trigger] f.node(idv).blocks@[j]
                < f.data_bitmap@.len() && f.data_bitmap@[f.node(idv).blocks@[j] as int],
        forall|b: int|
            0 <= b < f.data_bitmap@.len() && #[trigger] f.data_bitmap@[b] && !o.data_bitmap@[b]
                ==> holds_block(f.node(idv).blocks@, b),
        forall|b: int|
            0 <= b < o.data_bitmap@.len() && #[trigger] o.data_bitmap@[b] && !f.data_bitmap@[b]
                ==> holds_block(o.node(idv).blocks@, b),
        forall|j: int|
            0 <= j < f.node(idv).blocks@.len() && !holds_block(
                o.node(idv).blocks@,
                #[trigger] f.node(idv).blocks@[j] as int,
            ) ==> !o.data_bitmap@[f.node(idv).blocks@[j] as int],
    ensures
        f.wf(),
{
    assert(f.node(0) == o.node(0));
    assert(f.root_entries() == o.root_entries());
    assert forall|id: int| f.inode_allocated(id) implies (#[trigger] f.node(id)).wf() by {
        if id != idv {
            assert(o.node(id).wf());
        }
    }
    assert forall|id: int|
        1 <= id < f.inode_count() && f.inode_allocated(id) implies (#[trigger] f.node(
        id,
    )).is_file_spec() by {
        if id != idv {
            assert(o.node(id).is_file_spec());
        }
    }
    // block ranges and marks
    assert forall|id: int, j: int|
        f.inode_allocated(id) && 0 <= j < f.node(id).blocks@.len() implies 0 <= #[trigger] f.node(
        id,
    ).blocks@[j] < f.data_bitmap@.len() && f.data_bitmap@[f.node(id).blocks@[j] as int] by {
        if id != idv {
            let b = o.node(id).blocks@[j] as int;
            assert(0 <= b < o.data_bitmap@.len() && o.data_bitmap@[b]);
            if !f.data_bitmap@[b] {
                assert(holds_block(o.node(idv).blocks@, b));
                let j2 = choose|j2: int|
                    0 <= j2 < o.node(idv).blocks@.len() && o.node(idv).blocks@[j2] == b;
                assert(o.node(idv).blocks@[j2] != o.node(id).blocks@[j]);
            }
        }
    }
    // no two allocated inodes share a block
    assert forall|a: int, b: int, i: int, j: int|
        #![trigger f.node(a).blocks@[i], f.node(b).blocks@[j]]
        f.inode_allocated(a) && f.inode_allocated(b) && a != b && 0 <= i < f.node(a).blocks@.len()
            && 0 <= j < f.node(b).blocks@.len() implies f.node(a).blocks@[i] != f.node(
        b,
    ).blocks@[j] by {
        if a != idv && b != idv {
            assert(o.node(a).blocks@[i] != o.node(b).blocks@[j]);
        } else if a == idv {
            let x = f.node(a).blocks@[i] as int;
            let y = o.node(b).blocks@[j] as int;
            assert(o.data_bitmap@[y]);
            if holds_block(o.node(idv).blocks@, x) {
                let j2 = choose|j2: int|
                    0 <= j2 < o.node(idv).blocks@.len() && o.node(idv).blocks@[j2] == x;
                assert(o.node(idv).blocks@[j2] != o.node(b).blocks@[j]);
            } else {
                assert(!o.data_bitmap@[x]);
            }
        } else {
            let x = f.node(b).blocks@[j] as int;
            let y = o.node(a).blocks@[i] as int;
            assert(o.data_bitmap@[y]);
            if holds_block(o.node(idv).blocks@, x) {
                let j2 = choose|j2: int|
                    0 <= j2 < o.node(idv).blocks@.len() && o.node(idv).blocks@[j2] == x;
                assert(o.node(idv).blocks@[j2] != o.node(a).blocks@[i]);
            } else {
                assert(!o.data_bitmap@[x]);
            }
        }
    }
    assert forall|k: int|
        0 <= k < f.root_entries().len() implies 0 < (#[trigger] f.root_entries()[k]).id
            < f.inode_count() && f.inode_allocated(f.root_entries()[k].id as int) by {
        assert(o.root_entries()[k] == f.root_entries()[k]);
    }
}

/// Whether a byte vector and a byte slice hold the same bytes.
fn bytes_eq(a: &Vec<u8>, b: &[u8]) -> (r: bool)
    ensures
        r == (a@ == b@),
{
    if a.len() != b.len() {
        return false;
    }
    let n = a.len();
    for i in 0..n
        invariant
            n == a@.len() == b@.len(),
            forall|k: int| 0 <= k < i ==> #[trigger] a@[k] == b@[k],
    {
        if a[i] != b[i] {
            return false;
        }
    }
    proof {
        assert(a@ =~= b@);
    }
    true
}

} // verus!
