use vstd::prelude::*;

use crate::dirent::{entries_of, parse_entry, DirEntry, EntryV, DIRENT_SZ};

verus! {

/// Bytes in one disk block.
pub const BLOCK_SZ: usize = 512;

/// What an on-disk inode stands for.
#[derive(Clone, Copy)]
pub enum DiskInodeType {
    File,
    Directory,
}

/// Every index pair of the sequence holds different block ids.
pub open spec fn distinct_u32(s: Seq<u32>) -> bool {
    forall|i: int, j: int| 0 <= i < j < s.len() ==> s[i] != s[j]
}

/// Blocks needed to hold `size` bytes.
pub open spec fn total_blocks_of(size: int) -> int {
    (size + 511) / 512
}

/// Bytes a read may transfer: bounded by the buffer and by the bytes left
/// after the offset; zero once the offset passes the end.
pub open spec fn read_len_spec(size: int, offset: int, buf_len: int) -> int {
    if offset >= size {
        0
    } else if buf_len <= size - offset {
        buf_len
    } else {
        size - offset
    }
}

/// The on-disk record of one file or directory: its byte content together
/// with the size, type, link count, entry count and allocated-block
/// bookkeeping.
pub struct DiskInode {
    pub size: u32,
    pub ty: DiskInodeType,
    pub nlink: u32,
    pub file_count: u32,
    pub data: Vec<u8>,
    pub blocks: Vec<u32>,
}

impl DiskInode {
    pub open spec fn is_dir_spec(self) -> bool {
        self.ty is Directory
    }

    pub open spec fn is_file_spec(self) -> bool {
        self.ty is File
    }

    /// The record accounts for its content: the content is exactly `size`
    /// bytes, enough distinct blocks are held to store it, and a file holds
    /// no more than that (a directory may keep a trailing block after it
    /// shrank).
    pub open spec fn wf(self) -> bool {
        &&& self.data@.len() == self.size as int
        &&& self.blocks@.len() >= total_blocks_of(self.size as int)
        &&& self.blocks@.len() <= total_blocks_of(u32::MAX as int)
        &&& (self.is_file_spec() ==> self.blocks@.len() == total_blocks_of(self.size as int))
        &&& distinct_u32(self.blocks@)
    }

    /// The entries a directory's packed content holds.
    pub open spec fn entries(self) -> Seq<EntryV> {
        entries_of(self.data@, self.file_count as int)
    }

    /// Blocks a growth to `new_size` bytes must allocate beyond those held.
    pub open spec fn blocks_needed(self, new_size: u32) -> int {
        if total_blocks_of(new_size as int) > self.blocks@.len() {
            total_blocks_of(new_size as int) - self.blocks@.len()
        } else {
            0
        }
    }

    pub fn is_dir(&self) -> (r: bool)
        ensures
            r == self.is_dir_spec(),
    {
        match self.ty {
            DiskInodeType::Directory => true,
            DiskInodeType::File => false,
        }
    }

    pub fn is_file(&self) -> (r: bool)
        ensures
            r == self.is_file_spec(),
    {
        match self.ty {
            DiskInodeType::Directory => false,
            DiskInodeType::File => true,
        }
    }

    /// An empty, unreferenced slot.
    pub fn empty_slot() -> (r: DiskInode)
        ensures
            r.wf(),
            r.size == 0,
            r.nlink == 0,
            r.file_count == 0,
            r.is_file_spec(),
            r.data@.len() == 0,
            r.blocks@.len() == 0,
    {
        DiskInode {
            size: 0,
            ty: DiskInodeType::File,
            nlink: 0,
            file_count: 0,
            data: Vec::new(),
            blocks: Vec::new(),
        }
    }

    /// Set the record up for a fresh inode: empty, and already holding its
    /// first link, since the caller records the directory entry that is that
    /// link.
    pub fn initialize(&mut self, ty: DiskInodeType)
        ensures
            final(self).wf(),
            final(self).size == 0,
            final(self).nlink == 1,
            final(self).file_count == 0,
            final(self).ty == ty,
            final(self).data@.len() == 0,
            final(self).blocks@.len() == 0,
    {
        self.size = 0;
        self.ty = ty;
        self.nlink = 1;
        self.file_count = 0;
        self.data.clear();
        self.blocks.clear();
    }

    /// Read a byte range of the content into `buf`, from `offset` on:
    /// transfers `min(buf.len(), size - offset)` bytes, none once the offset
    /// passes the end.
    pub fn read_at(&self, offset: usize, buf: &mut Vec<u8>) -> (n: usize)
        requires
            self.wf(),
        ensures
            n == read_len_spec(self.size as int, offset as int, old(buf)@.len() as int),
            final(buf)@.len() == old(buf)@.len(),
            forall|i: int| 0 <= i < n ==> #[trigger] final(buf)@[i] == self.data@[offset + i],
            forall|i: int|
                n <= i < final(buf)@.len() ==> #[trigger] final(buf)@[i] == old(buf)@[i],
    {
        let size = self.size as usize;
        if offset >= size {
            return 0;
        }
        let n = if buf.len() <= size - offset {
            buf.len()
        } else {
            size - offset
        };
        for i in 0..n
            invariant
                self.wf(),
                offset + n <= size == self.size,
                n <= buf@.len(),
                buf@.len() == old(buf)@.len(),
                forall|k: int| 0 <= k < i ==> #[trigger] buf@[k] == self.data@[offset + k],
                forall|k: int| i <= k < buf@.len() ==> #[trigger] buf@[k] == old(buf)@[k],
        {
            buf[i] = self.data[offset + i];
        }
        n
    }

    /// Overwrite the byte range of the content at `offset` with `buf`. The
    /// caller has grown the record first, so the range lies inside the
    /// content; the whole buffer is always transferred.
    pub fn write_at(&mut self, offset: usize, buf: &[u8]) -> (n: usize)
        requires
            old(self).wf(),
            offset + buf@.len() <= old(self).size,
        ensures
            final(self).wf(),
            n == buf@.len(),
            final(self).size == old(self).size,
            final(self).ty == old(self).ty,
            final(self).nlink == old(self).nlink,
            final(self).file_count == old(self).file_count,
            final(self).blocks == old(self).blocks,
            final(self).data@.len() == old(self).data@.len(),
            forall|i: int|
                offset <= i < offset + buf@.len() ==> #[trigger] final(self).data@[i] == buf@[i - offset],
            forall|i: int|
                0 <= i < final(self).data@.len() && !(offset <= i < offset + buf@.len())
                    ==> #[trigger] final(self).data@[i] == old(self).data@[i],
    {
        let n = buf.len();
        for i in 0..n
            invariant
                offset + n <= self.size,
                n == buf@.len(),
                self.wf(),
                self.size == old(self).size,
                self.ty == old(self).ty,
                self.nlink == old(self).nlink,
                self.file_count == old(self).file_count,
                self.blocks == old(self).blocks,
                self.data@.len() == old(self).data@.len(),
                forall|k: int|
                    offset <= k < offset + i ==> #[trigger] self.data@[k] == buf@[k - offset],
                forall|k: int|
                    0 <= k < self.data@.len() && !(offset <= k < offset + i)
                        ==> #[trigger] self.data@[k] == old(self).data@[k],
        {
            self.data[offset + i] = buf[i];
        }
        n
    }

    /// How many more blocks holding `new_size` bytes takes than the record
    /// already has.
    pub fn blocks_num_needed(&self, new_size: u32) -> (r: u32)
        requires
            self.wf(),
        ensures
            r == self.blocks_needed(new_size),
    {
        let tb = new_size / 512 + if new_size % 512 != 0 {
            1
        } else {
            0
        };
        proof {
            lemma_total_blocks(new_size);
        }
        let have = self.blocks.len() as u32;
        if tb > have {
            tb - have
        } else {
            0
        }
    }

    /// Grow the content to `new_size` bytes, the added bytes zero, recording
    /// the freshly allocated blocks that hold them.
    pub fn increase_size(&mut self, new_size: u32, new_blocks: Vec<u32>)
        requires
            old(self).wf(),
            new_size >= old(self).size,
            new_blocks@.len() == if total_blocks_of(new_size as int) > old(self).blocks@.len() {
                total_blocks_of(new_size as int) - old(self).blocks@.len()
            } else {
                0
            },
            distinct_u32(new_blocks@),
            forall|i: int, j: int|
                0 <= i < old(self).blocks@.len() && 0 <= j < new_blocks@.len() ==> old(
                    self,
                ).blocks@[i] != new_blocks@[j],
        ensures
            final(self).wf(),
            final(self).size == new_size,
            final(self).ty == old(self).ty,
            final(self).nlink == old(self).nlink,
            final(self).file_count == old(self).file_count,
            final(self).blocks@ == old(self).blocks@ + new_blocks@,
            final(self).data@.len() == new_size as int,
            forall|i: int|
                0 <= i < old(self).data@.len() ==> #[trigger] final(self).data@[i] == old(self).data@[i],
            forall|i: int|
                old(self).data@.len() <= i < new_size as int ==> #[trigger] final(self).data@[i] == 0u8,
    {
        proof {
            vstd::arithmetic::div_mod::lemma_div_is_ordered(
                old(self).size as int + 511,
                new_size as int + 511,
                512,
            );
            vstd::arithmetic::div_mod::lemma_div_is_ordered(
                new_size as int + 511,
                u32::MAX as int + 511,
                512,
            );
        }
        let ghost nbs = new_blocks@;
        let mut nb = new_blocks;
        self.blocks.append(&mut nb);
        proof {
            assert forall|i: int, j: int| 0 <= i < j < self.blocks@.len() implies self.blocks@[i]
                != self.blocks@[j] by {
                let m = old(self).blocks@.len() as int;
                if j < m {
                    assert(old(self).blocks@[i] != old(self).blocks@[j]);
                } else if i < m {
                    assert(old(self).blocks@[i] != nbs[j - m]);
                } else {
                    assert(nbs[i - m] != nbs[j - m]);
                }
            }
        }
        let target = new_size as usize;
        while self.data.len() < target
            invariant
                target == new_size as int,
                self.size == old(self).size,
                self.ty == old(self).ty,
                self.nlink == old(self).nlink,
                self.file_count == old(self).file_count,
                self.blocks@ == old(self).blocks@ + nbs,
                distinct_u32(self.blocks@),
                old(self).data@.len() <= self.data@.len() <= target,
                forall|i: int|
                    0 <= i < old(self).data@.len() ==> #[trigger] self.data@[i] == old(
                        self,
                    ).data@[i],
                forall|i: int|
                    old(self).data@.len() <= i < self.data@.len() ==> #[trigger] self.data@[i]
                        == 0u8,
            decreases target - self.data@.len(),
        {
            self.data.push(0u8);
        }
        self.size = new_size;
    }

    /// Give up the whole content: the record becomes empty and every held
    /// block is returned to the caller for deallocation.
    pub fn clear_size(&mut self) -> (r: Vec<u32>)
        requires
            old(self).wf(),
        ensures
            final(self).wf(),
            r@ == old(self).blocks@,
            final(self).size == 0,
            final(self).ty == old(self).ty,
            final(self).nlink == old(self).nlink,
            final(self).file_count == old(self).file_count,
            final(self).data@.len() == 0,
            final(self).blocks@.len() == 0,
    {
        self.size = 0;
        self.data.clear();
        let mut r: Vec<u32> = Vec::new();
        core::mem::swap(&mut r, &mut self.blocks);
        r
    }

    /// Read directory record `k` of the content.
    pub fn read_entry(&self, k: usize) -> (r: DirEntry)
        requires
            self.wf(),
            32 * (k as int) + 32 <= self.size as int,
        ensures
            r.wf(),
            r@ == parse_entry(self.data@.subrange(32 * k as int, 32 * k as int + 32)),
    {
        let mut buf: Vec<u8> = Vec::new();
        for i in 0..DIRENT_SZ
            invariant
                buf@.len() == i,
        {
            buf.push(0u8);
        }
        let n = self.read_at(32 * k, &mut buf);
        proof {
            assert(buf@ =~= self.data@.subrange(32 * k as int, 32 * k as int + 32));
        }
        DirEntry::from_bytes(buf)
    }

    /// Overwrite directory record `k` of the content.
    pub fn write_entry(&mut self, k: usize, e: &DirEntry)
        requires
            old(self).wf(),
            e.wf(),
            32 * (k as int) + 32 <= old(self).size as int,
        ensures
            final(self).wf(),
            final(self).size == old(self).size,
            final(self).ty == old(self).ty,
            final(self).nlink == old(self).nlink,
            final(self).file_count == old(self).file_count,
            final(self).blocks == old(self).blocks,
            final(self).data@.len() == old(self).data@.len(),
            final(self).data@.subrange(32 * k as int, 32 * k as int + 32) == e.spec_bytes(),
            forall|i: int|
                0 <= i < final(self).data@.len() && !(32 * k as int <= i < 32 * k as int + 32)
                    ==> #[trigger] final(self).data@[i] == old(self).data@[i],
    {
        let n = self.write_at(32 * k, e.as_bytes().as_slice());
        proof {
            assert(self.data@.subrange(32 * k as int, 32 * k as int + 32) =~= e.spec_bytes());
        }
    }
}

/// The executable block count agrees with `total_blocks_of`.
pub proof fn lemma_total_blocks(size: u32)
    ensures
        size / 512 + if size % 512 != 0 {
            1u32
        } else {
            0u32
        } == total_blocks_of(size as int),
{
    let s = size as int;
    vstd::arithmetic::div_mod::lemma_fundamental_div_mod(s, 512);
    vstd::arithmetic::div_mod::lemma_fundamental_div_mod(s + 511, 512);
    assert(s == 512 * (s / 512) + s % 512);
    assert(s + 511 == 512 * ((s + 511) / 512) + (s + 511) % 512);
}

} // verus!
