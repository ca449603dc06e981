use vstd::prelude::*;

verus! {

use vstd::string::StringSliceAdditionalSpecFns;

/// Width in bytes of one on-disk directory entry record.
pub const DIRENT_SZ: usize = 32;

/// Longest name (in bytes) a directory entry can hold.
pub const NAME_LENGTH_LIMIT: usize = 27;

/// Width in bytes of the fixed name field: the name's bytes followed by at
/// least one terminating zero byte.
pub const NAME_FIELD_SZ: usize = 28;

/// A directory entry as the logic sees it: the name's bytes (without padding)
/// and the inode id the entry references.
#[verifier::ext_equal]
pub ghost struct EntryV {
    pub name: Seq<u8>,
    pub id: u32,
}

/// A name that fits the fixed-width field: short enough to leave a
/// terminating zero, made of printable ASCII bytes (never zero).
pub open spec fn valid_name_bytes(name: Seq<u8>) -> bool {
    &&& name.len() <= NAME_LENGTH_LIMIT as int
    &&& forall|i: int| 0 <= i < name.len() ==> 0u8 < #[trigger] name[i] < 128u8
}

/// A stored name as text: one character per byte.
pub open spec fn name_chars(name: Seq<u8>) -> Seq<char> {
    Seq::new(name.len(), |i: int| name[i] as char)
}

/// The bytes of an ASCII name, character by character.
pub open spec fn name_bytes(s: Seq<char>) -> Seq<u8> {
    Seq::new(s.len(), |i: int| s[i] as u8)
}

/// A name usable by the public operations: ASCII, free of zero characters,
/// and short enough for the fixed-width field.
pub open spec fn valid_name(s: Seq<char>) -> bool {
    &&& s.len() <= NAME_LENGTH_LIMIT as int
    &&& forall|i: int| 0 <= i < s.len() ==> '\u{1}' <= #[trigger] s[i] <= '\u{7f}'
}

pub proof fn lemma_valid_name_bytes(s: Seq<char>)
    requires
        valid_name(s),
    ensures
        valid_name_bytes(name_bytes(s)),
        vstd::utf8::is_ascii_chars(s),
{
    assert forall|i: int| 0 <= i < name_bytes(s).len() implies #[trigger] name_bytes(s)[i]
        != 0u8 by {
        assert('\u{1}' <= s[i] <= '\u{7f}');
    }
}

/// The name field as stored on disk: the name's bytes, zero-padded to the
/// fixed width.
pub open spec fn padded_name(name: Seq<u8>) -> Seq<u8> {
    name + Seq::new((NAME_FIELD_SZ - name.len()) as nat, |i: int| 0u8)
}

/// The name a fixed-width field holds: its bytes up to the first zero.
pub open spec fn name_of(field: Seq<u8>) -> Seq<u8>
    decreases field.len(),
{
    if field.len() == 0 || field[0] == 0u8 {
        Seq::empty()
    } else {
        seq![field[0]] + name_of(field.drop_first())
    }
}

/// Packing a valid name into the field and reading it back yields the name.
pub proof fn lemma_name_round_trip(name: Seq<u8>)
    requires
        valid_name_bytes(name),
    ensures
        name_of(padded_name(name)) == name,
{
    lemma_name_of_prefix(padded_name(name), name.len() as int);
    assert(padded_name(name).take(name.len() as int) =~= name);
}

/// Reading a field whose first `n` bytes are non-zero and whose byte `n` is
/// zero yields exactly those first `n` bytes.
pub proof fn lemma_name_of_prefix(field: Seq<u8>, n: int)
    requires
        0 <= n < field.len(),
        forall|i: int| 0 <= i < n ==> #[trigger] field[i] != 0u8,
        field[n] == 0u8,
    ensures
        name_of(field) == field.take(n),
    decreases n,
{
    if n == 0 {
        assert(name_of(field) =~= field.take(0));
    } else {
        let rest = field.drop_first();
        assert(forall|i: int| 0 <= i < n - 1 ==> #[trigger] rest[i] == field[i + 1]);
        lemma_name_of_prefix(rest, n - 1);
        assert(name_of(field) =~= field.take(n));
    }
}

/// The inode id a 4-byte little-endian field holds.
pub open spec fn le_u32_of(b: Seq<u8>) -> u32
    recommends
        b.len() == 4,
{
    (b[0] + b[1] * 256 + b[2] * 65536 + b[3] * 16777216) as u32
}

/// The entry a 32-byte record holds.
pub open spec fn parse_entry(b: Seq<u8>) -> EntryV
    recommends
        b.len() == DIRENT_SZ as int,
{
    EntryV {
        name: name_of(b.take(NAME_FIELD_SZ as int)),
        id: le_u32_of(b.subrange(NAME_FIELD_SZ as int, DIRENT_SZ as int)),
    }
}

/// The first `n` entries a packed directory content holds.
pub open spec fn entries_of(data: Seq<u8>, n: int) -> Seq<EntryV>
    recommends
        0 <= n,
        DIRENT_SZ as int * n <= data.len(),
{
    Seq::new(n as nat, |k: int| parse_entry(data.subrange(32 * k, 32 * k + 32)))
}

/// How many of the entries reference the given inode id.
pub open spec fn count_id(s: Seq<EntryV>, id: u32) -> nat
    decreases s.len(),
{
    if s.len() == 0 {
        0
    } else {
        count_id(s.drop_last(), id) + if s.last().id == id {
            1nat
        } else {
            0nat
        }
    }
}

pub proof fn lemma_count_id_push(s: Seq<EntryV>, e: EntryV, id: u32)
    ensures
        count_id(s.push(e), id) == count_id(s, id) + if e.id == id {
            1nat
        } else {
            0nat
        },
{
    assert(s.push(e).drop_last() =~= s);
}

/// Entries that never mention an id contribute nothing to its count.
pub proof fn lemma_count_id_zero(s: Seq<EntryV>, id: u32)
    requires
        forall|k: int| 0 <= k < s.len() ==> (#[trigger] s[k]).id != id,
    ensures
        count_id(s, id) == 0,
    decreases s.len(),
{
    if s.len() > 0 {
        lemma_count_id_zero(s.drop_last(), id);
    }
}

/// No id is referenced more often than there are entries.
pub proof fn lemma_count_id_le_len(s: Seq<EntryV>, id: u32)
    ensures
        count_id(s, id) <= s.len(),
    decreases s.len(),
{
    if s.len() > 0 {
        lemma_count_id_le_len(s.drop_last(), id);
    }
}

/// An id with count zero is referenced by no entry.
pub proof fn lemma_count_id_zero_converse(s: Seq<EntryV>, id: u32)
    requires
        count_id(s, id) == 0,
    ensures
        forall|k: int| 0 <= k < s.len() ==> (#[trigger] s[k]).id != id,
    decreases s.len(),
{
    if s.len() > 0 {
        lemma_count_id_zero_converse(s.drop_last(), id);
        assert forall|k: int| 0 <= k < s.len() implies (#[trigger] s[k]).id != id by {
            if k < s.len() - 1 {
                assert(s.drop_last()[k] == s[k]);
            }
        }
    }
}

/// Dropping the last entry lowers the count by that entry's contribution.
pub proof fn lemma_count_id_drop_last(s: Seq<EntryV>, id: u32)
    requires
        s.len() > 0,
    ensures
        count_id(s.drop_last(), id) == count_id(s, id) - if s.last().id == id {
            1nat
        } else {
            0nat
        },
{
}

/// Replacing one entry adjusts the count by the two entries' contributions.
pub proof fn lemma_count_id_update(s: Seq<EntryV>, j: int, e: EntryV, id: u32)
    requires
        0 <= j < s.len(),
    ensures
        count_id(s.update(j, e), id) == count_id(s, id) - (if s[j].id == id {
            1int
        } else {
            0int
        }) + (if e.id == id {
            1int
        } else {
            0int
        }),
    decreases s.len(),
{
    if j == s.len() - 1 {
        assert(s.update(j, e).drop_last() =~= s.drop_last());
        assert(s.update(j, e).last() == e);
    } else {
        assert(s.update(j, e).drop_last() =~= s.drop_last().update(j, e));
        lemma_count_id_update(s.drop_last(), j, e, id);
    }
}

/// Removing a slot by moving the last entry into it lowers the removed
/// entry's count by one and leaves every other count unchanged.
pub proof fn lemma_count_id_compact(s: Seq<EntryV>, pos: int, id: u32)
    requires
        s.len() > 0,
        0 <= pos < s.len(),
    ensures
        count_id(s.update(pos, s.last()).take(s.len() - 1), id) == count_id(s, id) - (
        if s[pos].id == id {
            1int
        } else {
            0int
        }),
{
    let n = s.len() as int;
    if pos == n - 1 {
        assert(s.update(pos, s.last()) =~= s);
        assert(s.take(n - 1) =~= s.drop_last());
    } else {
        let t = s.update(pos, s.last());
        assert(t.take(n - 1) =~= t.drop_last());
        lemma_count_id_update(s, pos, s.last(), id);
        assert(t.drop_last() =~= t.take(n - 1));
        lemma_count_id_drop_last(t, id);
        assert(t.last() == s.last());
    }
}

/// A field with no zero byte reads back whole.
pub proof fn lemma_name_of_all(field: Seq<u8>)
    requires
        forall|i: int| 0 <= i < field.len() ==> #[trigger] field[i] != 0u8,
    ensures
        name_of(field) == field,
    decreases field.len(),
{
    if field.len() > 0 {
        let rest = field.drop_first();
        assert(forall|i: int| 0 <= i < rest.len() ==> #[trigger] rest[i] == field[i + 1]);
        lemma_name_of_all(rest);
        assert(name_of(field) =~= field);
    } else {
        assert(name_of(field) =~= field);
    }
}

/// Relies on String::from_utf8: bytes below 128 are ASCII, always valid
/// UTF-8, and decode one character per byte, each with the byte's value.
#[verifier::external_body]
fn ascii_to_string(b: Vec<u8>) -> (r: String)
    requires
        forall|i: int| 0 <= i < b@.len() ==> #[trigger] b@[i] < 128u8,
    ensures
        r@ == Seq::new(b@.len(), |i: int| b@[i] as char),
{
    match String::from_utf8(b) {
        Ok(s) => s,
        Err(_) => String::new(),
    }
}

/// One fixed-width directory record, kept as its exact on-disk bytes.
pub struct DirEntry {
    pub bytes: Vec<u8>,
}

impl View for DirEntry {
    type V = EntryV;

    open spec fn view(&self) -> EntryV {
        parse_entry(self.bytes@)
    }
}

impl DirEntry {
    /// The record is exactly one entry wide.
    pub open spec fn wf(self) -> bool {
        self.bytes@.len() == DIRENT_SZ as int
    }

    /// An all-zero record: the empty name, inode id zero.
    pub fn empty() -> (r: DirEntry)
        ensures
            r.wf(),
            r@.name.len() == 0,
            r@.id == 0,
    {
        let mut bytes: Vec<u8> = Vec::new();
        for i in 0..DIRENT_SZ
            invariant
                bytes@.len() == i,
                forall|k: int| 0 <= k < i ==> #[trigger] bytes@[k] == 0u8,
        {
            bytes.push(0u8);
        }
        let r = DirEntry { bytes };
        proof {
            assert(r.bytes@.take(NAME_FIELD_SZ as int)[0] == 0u8);
            assert(r@.id == le_u32_of(r.bytes@.subrange(28, 32)));
        }
        r
    }

    /// Wrap 32 bytes read back from a directory's content.
    pub fn from_bytes(bytes: Vec<u8>) -> (r: DirEntry)
        requires
            bytes@.len() == DIRENT_SZ as int,
        ensures
            r.wf(),
            r@ == parse_entry(bytes@),
            r.spec_bytes() == bytes@,
    {
        DirEntry { bytes }
    }

    /// The record's exact bytes, in spec.
    pub open spec fn spec_bytes(self) -> Seq<u8> {
        self.bytes@
    }

    /// The record's exact bytes.
    pub fn as_bytes(&self) -> (r: &Vec<u8>)
        ensures
            r@ == self.spec_bytes(),
    {
        &self.bytes
    }

    /// Pack a name and an inode id into a fresh record.
    pub fn new(name: &str, inode_id: u32) -> (r: DirEntry)
        requires
            valid_name(name@),
        ensures
            r.wf(),
            r@ == (EntryV { name: name_bytes(name@), id: inode_id }),
    {
        proof {
            lemma_valid_name_bytes(name@);
            vstd::string::is_ascii_spec_bytes(name);
            assert(name.spec_bytes() =~= name_bytes(name@));
        }
        let nb: &[u8] = name.as_bytes();
        let mut bytes: Vec<u8> = Vec::new();
        let n = nb.len();
        for i in 0..n
            invariant
                n == nb@.len() <= NAME_LENGTH_LIMIT as int,
                bytes@.len() == i,
                forall|k: int| 0 <= k < i ==> #[trigger] bytes@[k] == nb@[k],
        {
            bytes.push(nb[i]);
        }
        for i in n..NAME_FIELD_SZ
            invariant
                n == nb@.len() <= NAME_LENGTH_LIMIT as int,
                n <= i,
                bytes@.len() == i,
                forall|k: int| 0 <= k < n ==> #[trigger] bytes@[k] == nb@[k],
                forall|k: int| n <= k < i ==> #[trigger] bytes@[k] == 0u8,
        {
            bytes.push(0u8);
        }
        bytes.push((inode_id % 256) as u8);
        bytes.push(((inode_id / 256) % 256) as u8);
        bytes.push(((inode_id / 65536) % 256) as u8);
        bytes.push((inode_id / 16777216) as u8);
        let r = DirEntry { bytes };
        proof {
            let nbs = name_bytes(name@);
            assert(nb@ =~= nbs);
            assert(r.bytes@.take(NAME_FIELD_SZ as int) =~= padded_name(nbs));
            lemma_name_round_trip(nbs);
            let idb = r.bytes@.subrange(NAME_FIELD_SZ as int, DIRENT_SZ as int);
            assert(idb[0] == (inode_id % 256) as u8);
            assert(idb[1] == ((inode_id / 256) % 256) as u8);
            assert(idb[2] == ((inode_id / 65536) % 256) as u8);
            assert(idb[3] == (inode_id / 16777216) as u8);
            lemma_le_u32_recompose(inode_id);
        }
        r
    }

    /// The inode id the record references.
    pub fn inode_id(&self) -> (r: u32)
        requires
            self.wf(),
        ensures
            r == self@.id,
    {
        let b0 = self.bytes[28] as u32;
        let b1 = self.bytes[29] as u32;
        let b2 = self.bytes[30] as u32;
        let b3 = self.bytes[31] as u32;
        proof {
            let idb = self.bytes@.subrange(NAME_FIELD_SZ as int, DIRENT_SZ as int);
            assert(idb[0] == self.bytes@[28] && idb[1] == self.bytes@[29] && idb[2]
                == self.bytes@[30] && idb[3] == self.bytes@[31]);
        }
        b0 + b1 * 256 + b2 * 65536 + b3 * 16777216
    }

    /// The name's bytes, without the zero padding.
    pub fn name_bytes_vec(&self) -> (r: Vec<u8>)
        requires
            self.wf(),
        ensures
            r@ == self@.name,
    {
        let mut n: usize = 0;
        while n < NAME_FIELD_SZ && self.bytes[n] != 0u8
            invariant
                self.wf(),
                0 <= n <= NAME_FIELD_SZ,
                forall|k: int| 0 <= k < n ==> #[trigger] self.bytes@[k] != 0u8,
            decreases NAME_FIELD_SZ - n,
        {
            n += 1;
        }
        proof {
            let field = self.bytes@.take(NAME_FIELD_SZ as int);
            if n < NAME_FIELD_SZ {
                assert(forall|k: int| 0 <= k < n ==> #[trigger] field[k] != 0u8);
                assert(field[n as int] == 0u8);
                lemma_name_of_prefix(field, n as int);
            } else {
                assert(forall|k: int| 0 <= k < field.len() ==> #[trigger] field[k] != 0u8);
                lemma_name_of_all(field);
                assert(field.take(n as int) =~= field);
            }
        }
        let mut r: Vec<u8> = Vec::new();
        for i in 0..n
            invariant
                self.wf(),
                n <= NAME_FIELD_SZ,
                r@.len() == i,
                forall|k: int| 0 <= k < i ==> #[trigger] r@[k] == self.bytes@[k],
        {
            r.push(self.bytes[i]);
        }
        proof {
            assert(r@ =~= self.bytes@.take(NAME_FIELD_SZ as int).take(n as int));
        }
        r
    }

    /// The name as a string, one character per stored byte.
    pub fn name(&self) -> (r: String)
        requires
            self.wf(),
            forall|i: int| 0 <= i < self@.name.len() ==> #[trigger] self@.name[i] < 128u8,
        ensures
            r@ == name_chars(self@.name),
    {
        let nb = self.name_bytes_vec();
        let r = ascii_to_string(nb);
        proof {
            assert(r@ =~= name_chars(self@.name));
        }
        r
    }
}

/// A value equals its little-endian base-256 digits put back together.
pub proof fn lemma_le_u32_recompose(x: u32)
    ensures
        (x % 256) + ((x / 256) % 256) * 256 + ((x / 65536) % 256) * 65536 + (x / 16777216)
            * 16777216 == x,
{
    assert((x % 256) + ((x / 256) % 256) * 256 + ((x / 65536) % 256) * 65536 + (x / 16777216)
        * 16777216 == x) by (bit_vector);
}

} // verus!
