//! Directory-entry decoding: the 32-byte short entry, the long-file-name
//! shard, and the checksum that ties the two together.

use vstd::prelude::*;
use vstd::string::StringExecFns;
use vstd::string::StringSliceAdditionalSpecFns;
use crate::bytes::copy_range;
use crate::bytes::le16;
use crate::bytes::le32;
use crate::bytes::read_u16;
use crate::bytes::read_u32;
use crate::fat::Cluster;

verus! {

/// A short FAT directory entry, decoded from its 32-byte on-disk record.
///
/// An entry can belong to a file, a subdirectory or the volume label. The
/// long name and the cluster chain are not part of the record; they are
/// attached afterwards with [`Entry::add_lfn`] and [`Entry::add_clusters`].
#[derive(Debug)]
pub struct Entry {
    /// The raw 11-byte short name (8 name bytes + 3 extension bytes),
    /// space-padded as stored on disk.
    pub name: Vec<u8>,
    /// Long version of the file name, filled by [`Entry::add_lfn`].
    pub long_name: Option<String>,
    /// Attribute flag byte.
    pub attributes: u8,
    /// Time created (tenths of a second byte).
    pub creat_tos: u8,
    /// Time created (hours, minutes, seconds).
    pub creat_hms: u16,
    /// Day created.
    pub creat_day: u16,
    /// Day accessed.
    pub access_day: u16,
    /// Time written to (hours, minutes, seconds).
    pub written_hms: u16,
    /// Day written to.
    pub written_day: u16,
    /// First cluster of the entry's data.
    pub start: Cluster,
    /// All clusters belonging to the entry, filled by
    /// [`Entry::add_clusters`].
    pub clusters: Option<Vec<Cluster>>,
    /// File size in bytes.
    pub size: u32,
    /// Checksum of the short name, derived for LFN matching.
    pub checksum: u8,
    /// Whether the deletion marker (first byte 0xE5) is set.
    pub deleted: bool,
}

/// A long-file-name shard: a 32-byte record with attribute byte 0x0F that
/// carries an ordered fragment of the long name.
#[derive(Debug)]
pub struct LFNEntry {
    /// Orders the shards of one name; the 0x40 bit marks the last shard.
    pub sequence_number: u8,
    /// The fragment of the long name carried by this shard.
    pub filename: String,
    /// Must equal the checksum of the owning entry's short name.
    pub checksum: u8,
}

// ------------------------------------------------------------------
// Checksum
// ------------------------------------------------------------------

/// One folding step of the short-name checksum: rotate the running sum one
/// bit to the right, then add the next byte, truncated to 8 bits.
pub open spec fn checksum_step(sum: u16, b: u8) -> u16 {
    (((((sum & 1) << 7 | (sum >> 1)) + b as u16) as int) % 256) as u16
}

pub open spec fn spec_checksum_u16(s: Seq<u8>) -> u16
    decreases s.len(),
{
    if s.len() == 0 {
        0
    } else {
        checksum_step(spec_checksum_u16(s.drop_last()), s.last())
    }
}

/// The checksum of a short name: the right-rotate-and-add fold over its
/// bytes, an 8-bit quantity.
pub open spec fn spec_checksum(s: Seq<u8>) -> u8 {
    spec_checksum_u16(s) as u8
}

/// The checksum of a short name is a function of its byte sequence alone:
/// equal sequences always fold to equal checksums, so recomputing it for the
/// same name always yields the same value.
pub proof fn lemma_checksum_depends_on_bytes_alone(s1: Seq<u8>, s2: Seq<u8>)
    requires
        s1 == s2,
    ensures
        spec_checksum(s1) == spec_checksum(s2),
{
}

/// The fold over the bytes of a short name, as the exec functions compute it.
fn checksum_of_bytes(s: &[u8]) -> (r: u8)
    ensures
        r == spec_checksum(s@),
{
    let mut sum: u16 = 0;
    let mut i: usize = 0;
    let n = s.len();
    while i < n
        invariant
            i <= n,
            n == s@.len(),
            sum == spec_checksum_u16(s@.take(i as int)),
            sum < 256,
        decreases n - i,
    {
        let b = *vstd::slice::slice_index_get(s, i);
        assert(((sum & 1) << 7 | (sum >> 1)) < 256) by (bit_vector)
            requires
                sum < 256,
        ;
        sum = (((sum & 1) << 7 | (sum >> 1)) + b as u16) % 256;
        proof {
            assert(s@.take(i + 1).drop_last() =~= s@.take(i as int));
            assert(s@.take(i + 1).last() == s@[i as int]);
        }
        i = i + 1;
    }
    proof {
        assert(s@.take(n as int) =~= s@);
    }
    sum as u8
}

// ------------------------------------------------------------------
// Short names
// ------------------------------------------------------------------

/// `s` with its trailing space bytes removed.
pub open spec fn trim_spaces(s: Seq<u8>) -> Seq<u8>
    decreases s.len(),
{
    if s.len() > 0 && s.last() == 0x20 {
        trim_spaces(s.drop_last())
    } else {
        s
    }
}

/// Each byte read as the character with the same code.
pub open spec fn byte_chars(s: Seq<u8>) -> Seq<char> {
    s.map_values(|b: u8| b as char)
}

/// Whether the entry is the `.` pseudo-entry of a directory.
pub open spec fn spec_is_dot(e: Entry) -> bool {
    trim_spaces(e.name@) == seq![0x2Eu8]
}

/// Whether the entry is the `..` pseudo-entry of a directory.
pub open spec fn spec_is_dotdot(e: Entry) -> bool {
    trim_spaces(e.name@) == seq![0x2Eu8, 0x2Eu8]
}

/// The length that is left of `s` once trailing spaces are dropped.
fn trimmed_len(s: &Vec<u8>) -> (l: usize)
    ensures
        l <= s@.len(),
        s@.take(l as int) == trim_spaces(s@),
    decreases s@.len(),
{
    let mut l = s.len();
    proof {
        assert(s@.take(l as int) =~= s@);
    }
    while l > 0 && s[l - 1] == 0x20
        invariant
            l <= s@.len(),
            trim_spaces(s@) == trim_spaces(s@.take(l as int)),
        decreases l,
    {
        proof {
            assert(s@.take(l as int).last() == s@[l - 1]);
            assert(s@.take(l as int).drop_last() =~= s@.take(l - 1));
        }
        l = l - 1;
    }
    proof {
        if l > 0 {
            assert(s@.take(l as int).last() == s@[l - 1]);
        }
        assert(trim_spaces(s@.take(l as int)) == s@.take(l as int));
    }
    l
}

/// Builds the string whose characters are the first `len` bytes of `s`.
pub(crate) fn prefix_string(s: &Vec<u8>, len: usize) -> (r: String)
    requires
        len <= s@.len(),
    ensures
        r@ == byte_chars(s@.take(len as int)),
{
    let mut r = String::new();
    let mut i: usize = 0;
    while i < len
        invariant
            i <= len,
            len <= s@.len(),
            r@ == byte_chars(s@.take(i as int)),
        decreases len - i,
    {
        r.push(s[i] as char);
        proof {
            assert(r@ =~= byte_chars(s@.take(i + 1)));
        }
        i = i + 1;
    }
    r
}

// ------------------------------------------------------------------
// Decoding relations
// ------------------------------------------------------------------

/// How the on-disk fields of an [`Entry`] relate to its 32-byte window `w`.
/// These fields come straight from the record and are preserved when a long
/// name or a cluster chain is attached later.
pub open spec fn entry_core_decodes(e: Entry, w: Seq<u8>) -> bool
    recommends
        w.len() == 32,
{
    &&& e.name@ == w.subrange(0, 11)
    &&& e.attributes == w[11]
    &&& e.creat_tos == w[13]
    &&& e.creat_hms == le16(w, 14)
    &&& e.creat_day == le16(w, 16)
    &&& e.access_day == le16(w, 18)
    &&& e.written_hms == le16(w, 22)
    &&& e.written_day == le16(w, 24)
    &&& e.start.0 == le16(w, 20) * 0x1_0000 + le16(w, 26)
    &&& e.size == le32(w, 28)
    &&& e.checksum == spec_checksum(w.subrange(0, 11))
    &&& e.deleted == (w[0] == 0xE5)
}

/// How a freshly decoded [`Entry`] relates to its 32-byte on-disk window
/// `w`: the record fields, with no long name and no chain attached yet.
pub open spec fn entry_decodes(e: Entry, w: Seq<u8>) -> bool
    recommends
        w.len() == 32,
{
    &&& entry_core_decodes(e, w)
    &&& e.long_name is None
    &&& e.clusters is None
}

/// The thirteen UTF-16 code units of an LFN shard, in name order: five at
/// bytes 1..11, six at bytes 14..26, two at bytes 28..32.
pub open spec fn lfn_units(w: Seq<u8>) -> Seq<u16>
    recommends
        w.len() == 32,
{
    seq![
        le16(w, 1) as u16,
        le16(w, 3) as u16,
        le16(w, 5) as u16,
        le16(w, 7) as u16,
        le16(w, 9) as u16,
        le16(w, 14) as u16,
        le16(w, 16) as u16,
        le16(w, 18) as u16,
        le16(w, 20) as u16,
        le16(w, 22) as u16,
        le16(w, 24) as u16,
        le16(w, 28) as u16,
        le16(w, 30) as u16,
    ]
}

/// The character a single UTF-16 code unit stands for. Surrogate halves have
/// no one-unit decoding and map to the replacement character.
pub open spec fn unit_char(u: u16) -> char {
    if 0xD800 <= u < 0xE000 {
        '\u{FFFD}'
    } else {
        u as char
    }
}

/// The name fragment encoded by a shard's code units: units up to the first
/// 0x0000 terminator or 0xFFFF padding unit, decoded one by one.
pub open spec fn units_to_chars(us: Seq<u16>) -> Seq<char>
    decreases us.len(),
{
    if us.len() == 0 {
        Seq::empty()
    } else if us[0] == 0 || us[0] == 0xFFFF {
        Seq::empty()
    } else {
        seq![unit_char(us[0])] + units_to_chars(us.drop_first())
    }
}

/// How a decoded [`LFNEntry`] relates to its 32-byte on-disk window `w`.
pub open spec fn lfn_decodes(l: LFNEntry, w: Seq<u8>) -> bool
    recommends
        w.len() == 32,
{
    &&& l.sequence_number == w[0]
    &&& l.checksum == w[13]
    &&& l.filename@ == units_to_chars(lfn_units(w))
}

/// Builds the string of the characters that `us` encodes.
fn units_to_string(us: &Vec<u16>) -> (r: String)
    ensures
        r@ == units_to_chars(us@),
{
    let mut r = String::new();
    let mut i: usize = 0;
    let n = us.len();
    proof {
        assert(us@.skip(0) =~= us@);
    }
    while i < n
        invariant
            i <= n,
            n == us@.len(),
            units_to_chars(us@) == r@ + units_to_chars(us@.skip(i as int)),
        decreases n - i,
    {
        let u = us[i];
        proof {
            assert(us@.skip(i as int)[0] == us@[i as int]);
            assert(us@.skip(i as int).drop_first() =~= us@.skip(i + 1));
        }
        if u == 0 || u == 0xFFFF {
            proof {
                assert(units_to_chars(us@.skip(i as int)) =~= Seq::<char>::empty());
                assert(units_to_chars(us@) =~= r@);
            }
            return r;
        }
        if 0xD800 <= u && u < 0xE000 {
            r.push('\u{FFFD}');
        } else {
            match char::from_u32(u as u32) {
                Some(c) => {
                    proof {
                        vstd::utf8::char_u32_cast(c, u as u32);
                    }
                    r.push(c);
                },
                None => {
                    proof {
                        assert(false);
                    }
                },
            }
        }
        proof {
            assert(units_to_chars(us@.skip(i as int)) =~= seq![unit_char(us@[i as int])]
                + units_to_chars(us@.skip(i + 1)));
        }
        i = i + 1;
    }
    proof {
        assert(units_to_chars(us@.skip(n as int)) =~= Seq::<char>::empty());
        assert(units_to_chars(us@) =~= r@);
    }
    r
}

// ------------------------------------------------------------------
// LFN buckets: filtering, ordering and concatenation
// ------------------------------------------------------------------

/// The ordinal of a shard within its name: the sequence number with the
/// last-shard marker bit masked off.
pub open spec fn shard_key(e: LFNEntry) -> u8 {
    e.sequence_number & 0x3F
}

/// Inserts `x` behind every element of `s` whose key is at most `x`'s:
/// stable insertion into a key-sorted sequence.
pub open spec fn insert_sorted(s: Seq<LFNEntry>, x: LFNEntry) -> Seq<LFNEntry>
    decreases s.len(),
{
    if s.len() == 0 {
        seq![x]
    } else if shard_key(x) < shard_key(s.last()) {
        insert_sorted(s.drop_last(), x).push(s.last())
    } else {
        s.push(x)
    }
}

/// The shards of `shards` whose checksum is `k`, ordered by ascending shard
/// key; shards with equal keys keep their encounter order.
pub open spec fn spec_bucket(shards: Seq<LFNEntry>, k: u8) -> Seq<LFNEntry>
    decreases shards.len(),
{
    if shards.len() == 0 {
        Seq::empty()
    } else {
        let prev = spec_bucket(shards.drop_last(), k);
        if shards.last().checksum == k {
            insert_sorted(prev, shards.last())
        } else {
            prev
        }
    }
}

/// The fragments of `s` concatenated in order.
pub open spec fn concat_names(s: Seq<LFNEntry>) -> Seq<char>
    decreases s.len(),
{
    if s.len() == 0 {
        Seq::empty()
    } else {
        concat_names(s.drop_last()) + s.last().filename@
    }
}

proof fn lemma_insert_sorted_at(s: Seq<LFNEntry>, x: LFNEntry, j: int)
    requires
        0 <= j <= s.len(),
        forall|i: int| j <= i < s.len() ==> shard_key(x) < shard_key(#[trigger] s[i]),
        j > 0 ==> shard_key(s[j - 1]) <= shard_key(x),
    ensures
        insert_sorted(s, x) == s.subrange(0, j) + seq![x] + s.subrange(j, s.len() as int),
    decreases s.len() - j,
{
    if j == s.len() {
        if s.len() == 0 {
            assert(insert_sorted(s, x) =~= s.subrange(0, j) + seq![x] + s.subrange(
                j,
                s.len() as int,
            ));
        } else {
            assert(insert_sorted(s, x) == s.push(x));
            assert(s.push(x) =~= s.subrange(0, j) + seq![x] + s.subrange(j, s.len() as int));
        }
    } else {
        assert(shard_key(x) < shard_key(s.last()));
        lemma_insert_sorted_at(s.drop_last(), x, j);
        assert(insert_sorted(s, x) == (s.drop_last().subrange(0, j) + seq![x]
            + s.drop_last().subrange(j, s.len() - 1)).push(s.last()));
        assert((s.drop_last().subrange(0, j) + seq![x] + s.drop_last().subrange(j, s.len() - 1))
            .push(s.last()) =~= s.subrange(0, j) + seq![x] + s.subrange(j, s.len() as int));
    }
}

impl Clone for LFNEntry {
    /// Copies the shard; the copy carries the same fields.
    fn clone(&self) -> (r: Self)
        ensures
            r == *self,
    {
        LFNEntry {
            sequence_number: self.sequence_number,
            filename: self.filename.clone(),
            checksum: self.checksum,
        }
    }
}

impl LFNEntry {
    /// Decodes a long-file-name shard from its 32-byte on-disk window.
    pub fn new(mem: &Vec<u8>) -> (r: LFNEntry)
        requires
            mem@.len() >= 32,
        ensures
            lfn_decodes(r, mem@.subrange(0, 32)),
    {
        let mut units: Vec<u16> = Vec::new();
        units.push(read_u16(mem, 1));
        units.push(read_u16(mem, 3));
        units.push(read_u16(mem, 5));
        units.push(read_u16(mem, 7));
        units.push(read_u16(mem, 9));
        units.push(read_u16(mem, 14));
        units.push(read_u16(mem, 16));
        units.push(read_u16(mem, 18));
        units.push(read_u16(mem, 20));
        units.push(read_u16(mem, 22));
        units.push(read_u16(mem, 24));
        units.push(read_u16(mem, 28));
        units.push(read_u16(mem, 30));
        proof {
            assert(units@ =~= lfn_units(mem@.subrange(0, 32)));
        }
        let filename = units_to_string(&units);
        LFNEntry { sequence_number: mem[0], filename, checksum: mem[13] }
    }

    /// The checksum byte carried by the shard.
    pub fn checksum(&self) -> (r: u8)
        ensures
            r == self.checksum,
    {
        self.checksum
    }

    /// Whether an attribute byte (offset 11 of a directory record) marks the
    /// record as a long-file-name shard.
    pub fn is_lfn_entry(attributes: u8) -> (r: bool)
        ensures
            r == (attributes == 0x0F),
    {
        attributes == 0x0F
    }
}

// ------------------------------------------------------------------
// Entry
// ------------------------------------------------------------------

/// The rendered one-line label of an entry: its long name when one was
/// attached, otherwise its trimmed short name; a deletion marker; and a tag
/// V, D or F for volume label, directory or file.
pub open spec fn spec_entry_label(e: Entry) -> Seq<char> {
    "["@ + spec_entry_name(e) + ": "@ + (if e.deleted {
        "X | "@
    } else {
        Seq::empty()
    }) + spec_type_tag(e) + "]"@
}

/// The name under which an entry is shown.
pub open spec fn spec_entry_name(e: Entry) -> Seq<char> {
    match e.long_name {
        Some(l) => l@,
        None => byte_chars(trim_spaces(e.name@)),
    }
}

/// The type tag of an entry: the volume-label bit wins over the
/// subdirectory bit; anything else is a file.
pub open spec fn spec_type_tag(e: Entry) -> Seq<char> {
    if e.attributes & 0x08 != 0 {
        "V"@
    } else if e.attributes & 0x10 != 0 {
        "D"@
    } else {
        "F"@
    }
}

impl Entry {
    /// Calculates the checksum of a short file name.
    ///
    /// The checksum connects LFN shards to their short directory entry. It
    /// folds the UTF-8 bytes of `s`; a short name read from disk is ASCII,
    /// where those bytes are the name's bytes themselves.
    pub fn checksum(s: &str) -> (r: u8)
        ensures
            r == spec_checksum(s.spec_bytes()),
    {
        checksum_of_bytes(s.as_bytes())
    }

    /// Decodes a short directory entry from its 32-byte on-disk window.
    pub fn new(mem: &Vec<u8>) -> (r: Entry)
        requires
            mem@.len() >= 32,
        ensures
            entry_decodes(r, mem@.subrange(0, 32)),
    {
        let name = copy_range(mem, 0, 11);
        let checksum = checksum_of_bytes(name.as_slice());
        let high = read_u16(mem, 20);
        let low = read_u16(mem, 26);
        let e = Entry {
            attributes: mem[11],
            creat_tos: mem[13],
            creat_hms: read_u16(mem, 14),
            creat_day: read_u16(mem, 16),
            access_day: read_u16(mem, 18),
            written_hms: read_u16(mem, 22),
            written_day: read_u16(mem, 24),
            start: Cluster((high as u32) * 0x1_0000 + low as u32),
            clusters: None,
            size: read_u32(mem, 28),
            checksum,
            deleted: mem[0] == 0xE5,
            long_name: None,
            name,
        };
        proof {
            let w = mem@.subrange(0, 32);
            assert(e.name@ =~= w.subrange(0, 11));
            assert(w[11] == mem@[11] && w[13] == mem@[13] && w[0] == mem@[0]);
            assert(le16(w, 14) == le16(mem@, 14) && le16(w, 16) == le16(mem@, 16));
            assert(le16(w, 18) == le16(mem@, 18) && le16(w, 20) == le16(mem@, 20));
            assert(le16(w, 22) == le16(mem@, 22) && le16(w, 24) == le16(mem@, 24));
            assert(le16(w, 26) == le16(mem@, 26) && le32(w, 28) == le32(mem@, 28));
        }
        e
    }

    /// Whether the entry is the volume label (attribute bit 0x08).
    pub fn is_disk_volume_entry(&self) -> (r: bool)
        ensures
            r == (self.attributes & 0x08 != 0),
    {
        (self.attributes & 0x08) != 0
    }

    /// Whether the entry is a subdirectory (attribute bit 0x10).
    pub fn is_subdir_entry(&self) -> (r: bool)
        ensures
            r == (self.attributes & 0x10 != 0),
    {
        (self.attributes & 0x10) != 0
    }

    /// Whether the deletion marker is set.
    pub fn is_deleted(&self) -> (r: bool)
        ensures
            r == self.deleted,
    {
        self.deleted
    }

    /// Whether the entry is the `.` pseudo-entry of a directory.
    pub fn is_this_entry(&self) -> (r: bool)
        ensures
            r == spec_is_dot(*self),
    {
        let l = trimmed_len(&self.name);
        let r = l == 1 && self.name[0] == 0x2E;
        proof {
            if r {
                assert(self.name@.take(l as int) =~= seq![0x2Eu8]);
            }
            if trim_spaces(self.name@) == seq![0x2Eu8] {
                assert(self.name@.take(l as int) == seq![0x2Eu8]);
                assert(self.name@.take(l as int)[0] == self.name@[0]);
            }
        }
        r
    }

    /// Whether the entry is the `..` pseudo-entry of a directory.
    pub fn is_prev_entry(&self) -> (r: bool)
        ensures
            r == spec_is_dotdot(*self),
    {
        let l = trimmed_len(&self.name);
        let r = l == 2 && self.name[0] == 0x2E && self.name[1] == 0x2E;
        proof {
            if r {
                assert(self.name@.take(l as int) =~= seq![0x2Eu8, 0x2Eu8]);
            }
            if trim_spaces(self.name@) == seq![0x2Eu8, 0x2Eu8] {
                assert(self.name@.take(l as int) == seq![0x2Eu8, 0x2Eu8]);
                assert(self.name@.take(l as int)[0] == self.name@[0]);
                assert(self.name@.take(l as int)[1] == self.name@[1]);
            }
        }
        r
    }

    /// Renders the entry as `[name: T]`, with `X | ` before the tag when the
    /// entry is deleted.
    pub fn to_string(&self) -> (r: String)
        ensures
            r@ == spec_entry_label(*self),
    {
        let mut s = String::from_str("[");
        match &self.long_name {
            Some(n) => s.append(n.as_str()),
            None => {
                let l = trimmed_len(&self.name);
                let trimmed = prefix_string(&self.name, l);
                s.append(trimmed.as_str());
            },
        }
        s.append(": ");
        if self.deleted {
            s.append("X | ");
        }
        if self.is_disk_volume_entry() {
            s.append("V");
        } else if self.is_subdir_entry() {
            s.append("D");
        } else {
            s.append("F");
        }
        s.append("]");
        proof {
            assert(s@ =~= spec_entry_label(*self));
        }
        s
    }

    /// Attaches the long name to the entry.
    ///
    /// The shards of `lfns` whose checksum matches the entry's are ordered by
    /// ascending sequence number (with the last-shard marker bit masked off)
    /// and their fragments concatenated. When no shard matches, the entry is
    /// left as it was.
    pub fn add_lfn(&mut self, lfns: &Vec<LFNEntry>)
        ensures
            final(self).name == old(self).name,
            final(self).attributes == old(self).attributes,
            final(self).creat_tos == old(self).creat_tos,
            final(self).creat_hms == old(self).creat_hms,
            final(self).creat_day == old(self).creat_day,
            final(self).access_day == old(self).access_day,
            final(self).written_hms == old(self).written_hms,
            final(self).written_day == old(self).written_day,
            final(self).start == old(self).start,
            final(self).clusters == old(self).clusters,
            final(self).size == old(self).size,
            final(self).checksum == old(self).checksum,
            final(self).deleted == old(self).deleted,
            spec_bucket(lfns@, old(self).checksum).len() == 0 ==> final(self).long_name == old(
                self,
            ).long_name,
            spec_bucket(lfns@, old(self).checksum).len() > 0 ==> (final(self).long_name matches Some(
                n) && n@ == concat_names(spec_bucket(lfns@, old(self).checksum))),
    {
        let ghost k = self.checksum;
        let mut bucket: Vec<LFNEntry> = Vec::new();
        let mut idx: usize = 0;
        let n = lfns.len();
        while idx < n
            invariant
                idx <= n,
                n == lfns@.len(),
                self == old(self),
                bucket@ == spec_bucket(lfns@.take(idx as int), k),
                k == self.checksum,
            decreases n - idx,
        {
            proof {
                assert(lfns@.take(idx + 1).drop_last() =~= lfns@.take(idx as int));
                assert(lfns@.take(idx + 1).last() == lfns@[idx as int]);
            }
            if lfns[idx].checksum == self.checksum {
                let x = lfns[idx].clone();
                let kx = x.sequence_number & 0x3F;
                let mut j = bucket.len();
                while j > 0 && (bucket[j - 1].sequence_number & 0x3F) > kx
                    invariant
                        j <= bucket@.len(),
                        kx == shard_key(x),
                        forall|i: int|
                            j <= i < bucket@.len() ==> shard_key(x) < shard_key(
                                #[trigger] bucket@[i],
                            ),
                    decreases j,
                {
                    j = j - 1;
                }
                proof {
                    lemma_insert_sorted_at(bucket@, x, j as int);
                }
                let ghost pre = bucket@;
                bucket.insert(j, x);
                proof {
                    assert(pre.insert(j as int, x) =~= pre.subrange(0, j as int) + seq![x]
                        + pre.subrange(j as int, pre.len() as int));
                }
            }
            idx = idx + 1;
        }
        proof {
            assert(lfns@.take(n as int) =~= lfns@);
        }
        if bucket.len() > 0 {
            let mut s = String::new();
            let mut i: usize = 0;
            let bn = bucket.len();
            while i < bn
                invariant
                    i <= bn,
                    bn == bucket@.len(),
                    s@ == concat_names(bucket@.take(i as int)),
                decreases bn - i,
            {
                proof {
                    assert(bucket@.take(i + 1).drop_last() =~= bucket@.take(i as int));
                    assert(bucket@.take(i + 1).last() == bucket@[i as int]);
                }
                s.append(bucket[i].filename.as_str());
                i = i + 1;
            }
            proof {
                assert(bucket@.take(bn as int) =~= bucket@);
            }
            self.long_name = Some(s);
        }
    }

    /// Attaches the cluster chain of the entry's data.
    pub fn add_clusters(&mut self, clusters: Vec<Cluster>)
        ensures
            final(self).clusters matches Some(c) && c@ == clusters@,
            final(self).name == old(self).name,
            final(self).long_name == old(self).long_name,
            final(self).attributes == old(self).attributes,
            final(self).creat_tos == old(self).creat_tos,
            final(self).creat_hms == old(self).creat_hms,
            final(self).creat_day == old(self).creat_day,
            final(self).access_day == old(self).access_day,
            final(self).written_hms == old(self).written_hms,
            final(self).written_day == old(self).written_day,
            final(self).start == old(self).start,
            final(self).size == old(self).size,
            final(self).checksum == old(self).checksum,
            final(self).deleted == old(self).deleted,
    {
        self.clusters = Some(clusters);
    }

    /// The attached cluster chain, when one was attached.
    pub fn clusters(&self) -> (r: &Option<Vec<Cluster>>)
        ensures
            r == self.clusters,
    {
        &self.clusters
    }

    /// The first cluster of the entry's data.
    pub fn start(&self) -> (r: &Cluster)
        ensures
            r == self.start,
    {
        &self.start
    }
}

} // verus!
