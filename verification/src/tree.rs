//! The directory walker: scanning directory regions in 32-byte strides,
//! coalescing long-file-name shards with their short entries, and descending
//! into subdirectories along their cluster chains.

use vstd::prelude::*;
use vstd::string::StringExecFns;
use crate::bytes::copy_range;
use crate::bytes::le16;
use crate::fat::Cluster;
use crate::fat::Fat;
use crate::fat::Fat16;
use crate::fat::Fat32;
use crate::fat::FatError;
use crate::fat::FatVolume;
use crate::fat::cluster_views;
use crate::fat::lemma_walk_elems;
use crate::fat::spec_info;
use crate::fat_entry::Entry;
use crate::fat_entry::LFNEntry;
use crate::fat_entry::concat_names;
use crate::fat_entry::entry_core_decodes;
use crate::fat_entry::entry_decodes;
use crate::fat_entry::insert_sorted;
use crate::fat_entry::lfn_decodes;
use crate::fat_entry::lfn_units;
use crate::fat_entry::shard_key;
use crate::fat_entry::spec_bucket;
use crate::fat_entry::spec_checksum;
use crate::fat_entry::spec_entry_label;
use crate::fat_entry::spec_is_dot;
use crate::fat_entry::spec_is_dotdot;
use crate::fat_entry::trim_spaces;
use crate::fat_entry::units_to_chars;

verus! {

/// One emitted node of the directory tree: the fully resolved entry and the
/// depth at which it was found (the root's entries have the starting depth).
#[derive(Debug)]
pub struct TreeItem {
    pub depth: u64,
    pub entry: Entry,
}

// ------------------------------------------------------------------
// What one region scan collects
// ------------------------------------------------------------------

/// The window offsets of the short entries collected from the chunk at
/// `off`, scanning 32-byte strides from relative position `i`, stopping at
/// the chunk end or at the first entry whose first byte is zero.
pub open spec fn chunk_shorts(m: Seq<u8>, off: int, max: int, i: int) -> Seq<int>
    decreases max - i,
{
    if i < 0 || i + 32 > max {
        Seq::empty()
    } else if m[off + i] == 0 {
        Seq::empty()
    } else if m[off + i + 11] == 0x0F {
        chunk_shorts(m, off, max, i + 32)
    } else {
        seq![off + i] + chunk_shorts(m, off, max, i + 32)
    }
}

/// The window offsets of the LFN shards collected from the chunk at `off`,
/// by the same walk as [`chunk_shorts`].
pub open spec fn chunk_lfns(m: Seq<u8>, off: int, max: int, i: int) -> Seq<int>
    decreases max - i,
{
    if i < 0 || i + 32 > max {
        Seq::empty()
    } else if m[off + i] == 0 {
        Seq::empty()
    } else if m[off + i + 11] == 0x0F {
        seq![off + i] + chunk_lfns(m, off, max, i + 32)
    } else {
        chunk_lfns(m, off, max, i + 32)
    }
}

/// Whether the walk of the chunk at `off` stops because of an
/// end-of-directory sentinel (a zero first byte), rather than by running off
/// the chunk end.
pub open spec fn chunk_sentinel(m: Seq<u8>, off: int, max: int, i: int) -> bool
    decreases max - i,
{
    if i < 0 || i + 32 > max {
        false
    } else if m[off + i] == 0 {
        true
    } else {
        chunk_sentinel(m, off, max, i + 32)
    }
}

/// The short-entry window offsets of a whole region: its chunks in order,
/// each scanned in strides, the whole walk stopping at the first chunk that
/// holds an end-of-directory sentinel.
pub open spec fn region_shorts(m: Seq<u8>, offs: Seq<int>, max: int) -> Seq<int>
    decreases offs.len(),
{
    if offs.len() == 0 {
        Seq::empty()
    } else {
        let c = chunk_shorts(m, offs[0], max, 0);
        if chunk_sentinel(m, offs[0], max, 0) {
            c
        } else {
            c + region_shorts(m, offs.drop_first(), max)
        }
    }
}

/// The LFN-shard window offsets of a whole region, by the same walk.
pub open spec fn region_lfns(m: Seq<u8>, offs: Seq<int>, max: int) -> Seq<int>
    decreases offs.len(),
{
    if offs.len() == 0 {
        Seq::empty()
    } else {
        let c = chunk_lfns(m, offs[0], max, 0);
        if chunk_sentinel(m, offs[0], max, 0) {
            c
        } else {
            c + region_lfns(m, offs.drop_first(), max)
        }
    }
}

/// The byte offsets of a vector of window offsets, as mathematical integers.
pub open spec fn offs_int(s: Seq<usize>) -> Seq<int> {
    s.map_values(|o: usize| o as int)
}

/// `es` holds exactly one decoded entry per window offset of `ws`, in
/// order.
pub open spec fn entries_match(m: Seq<u8>, es: Seq<Entry>, ws: Seq<int>) -> bool {
    &&& es.len() == ws.len()
    &&& forall|j: int|
        0 <= j < es.len() ==> entry_decodes(#[trigger] es[j], m.subrange(ws[j], ws[j] + 32))
}

/// `ls` holds exactly one decoded shard per window offset of `ws`, in
/// order.
pub open spec fn lfns_match(m: Seq<u8>, ls: Seq<LFNEntry>, ws: Seq<int>) -> bool {
    &&& ls.len() == ws.len()
    &&& forall|j: int|
        0 <= j < ls.len() ==> lfn_decodes(#[trigger] ls[j], m.subrange(ws[j], ws[j] + 32))
}

// ------------------------------------------------------------------
// The walk, stated over the windows themselves
// ------------------------------------------------------------------

/// One row of the walk model: the depth of an emitted entry, its window
/// offset, the shard window offsets of its region, and its cluster chain.
pub type WalkRow = (u64, int, Seq<int>, Seq<u32>);

/// The first-cluster field stored in the short-entry window at `w`: the
/// high 16 bits at bytes 20..22, the low 16 bits at bytes 26..28.
pub open spec fn sp_start(m: Seq<u8>, w: int) -> u32 {
    (le16(m.subrange(w, w + 32), 20) * 0x1_0000 + le16(m.subrange(w, w + 32), 26)) as u32
}

impl Fat {
    /// The byte offsets of the chunks that a cluster chain spans.
    pub open spec fn sp_chain_chunks(self, chain: Seq<u32>) -> Seq<int> {
        Seq::new(chain.len(), |i: int| self.sp_offset(self.sp_cluster_to_sector(chain[i] as int)))
    }

    /// Whether some chunk of `chain`, read as a region chunk of `bytes`
    /// bytes, runs past the end of the image.
    pub open spec fn sp_chain_oob(self, chain: Seq<u32>, bytes: int) -> bool {
        exists|i: int|
            0 <= i < chain.len() && self.sp_offset(
                self.sp_cluster_to_sector((#[trigger] chain[i]) as int),
            ) + bytes > self.mem@.len()
    }

    /// The recursive directory walk as a function of the image alone: the
    /// short-entry windows `ws` of one region (with its shard windows
    /// `lws`) are taken in order; each entry's chain is walked through the
    /// FAT; a subdirectory that is not `.` or `..` contributes its own
    /// region's walk right after its row; `.` and `..` contribute nothing.
    /// The result is the emitted rows in preorder, or the first error: a
    /// failed chain walk, a chain chunk past the image, or exhausted
    /// recursion fuel on a directory cycle.
    pub open spec fn sp_items(self, ws: Seq<int>, lws: Seq<int>, depth: u64, fuel: nat) -> Result<
        Seq<WalkRow>,
        FatError,
    >
        decreases fuel, ws.len(),
    {
        if ws.len() == 0 {
            Ok(Seq::empty())
        } else if self.fat_table_entry_size == 12 {
            Err(FatError::UnsupportedVariant)
        } else {
            let w = ws[0];
            match self.sp_walk(sp_start(self.mem@, w), self.total_clusters as nat) {
                Err(e) => Err(e),
                Ok(chain) => {
                    let dotish = window_is_dotish(self.mem@, w);
                    let is_sub = self.mem@.subrange(w, w + 32)[11] & 0x10 != 0;
                    let recurse = is_sub && !dotish;
                    let cbytes = self.bytes_per_sector as int * self.sectors_per_cluster as int;
                    if recurse && self.sp_chain_oob(chain, cbytes) {
                        Err(FatError::Truncated)
                    } else if recurse && fuel == 0 {
                        Err(FatError::MalformedChain)
                    } else {
                        let kids = if recurse {
                            self.sp_items(
                                region_shorts(self.mem@, self.sp_chain_chunks(chain), cbytes),
                                region_lfns(self.mem@, self.sp_chain_chunks(chain), cbytes),
                                (depth + 1) as u64,
                                (fuel - 1) as nat,
                            )
                        } else {
                            Ok(Seq::empty())
                        };
                        match kids {
                            Err(e) => Err(e),
                            Ok(ks) => match self.sp_items(ws.drop_first(), lws, depth, fuel) {
                                Err(e) => Err(e),
                                Ok(rest) => Ok(
                                    (if dotish {
                                        Seq::empty()
                                    } else {
                                        seq![(depth, w, lws, chain)]
                                    }) + ks + rest,
                                ),
                            },
                        }
                    }
                },
            }
        }
    }
}

/// `items` is exactly the walk model `model`, row for row: same depth, the
/// entry's record fields decoded from the row's window, its long name
/// resolved from the row's region shards, and its attached chain equal to
/// the row's chain.
pub open spec fn tree_items_match(m: Seq<u8>, items: Seq<TreeItem>, model: Seq<WalkRow>) -> bool {
    &&& items.len() == model.len()
    &&& forall|j: int|
        0 <= j < items.len() ==> {
            &&& (#[trigger] items[j]).depth == model[j].0
            &&& entry_core_decodes(items[j].entry, m.subrange(model[j].1, model[j].1 + 32))
            &&& entry_resolved(m, items[j].entry, model[j].1, model[j].2)
            &&& (items[j].entry.clusters matches Some(c) && cluster_views(c@) == model[j].3)
        }
}

// ------------------------------------------------------------------
// Long names, stated over the windows themselves
// ------------------------------------------------------------------

/// The shard ordinal stored at window `w`: its first byte with the
/// last-shard marker bit masked off.
pub open spec fn w_key(m: Seq<u8>, w: int) -> u8 {
    m.subrange(w, w + 32)[0] & 0x3F
}

/// [`crate::fat_entry::insert_sorted`], carried out on window offsets.
pub open spec fn insert_sorted_w(m: Seq<u8>, s: Seq<int>, x: int) -> Seq<int>
    decreases s.len(),
{
    if s.len() == 0 {
        seq![x]
    } else if w_key(m, x) < w_key(m, s.last()) {
        insert_sorted_w(m, s.drop_last(), x).push(s.last())
    } else {
        s.push(x)
    }
}

/// [`crate::fat_entry::spec_bucket`], carried out on window offsets: the
/// shard windows of `ws` whose checksum byte is `k`, ordered by ascending
/// shard key, encounter order kept among equal keys.
pub open spec fn bucket_w(m: Seq<u8>, ws: Seq<int>, k: u8) -> Seq<int>
    decreases ws.len(),
{
    if ws.len() == 0 {
        Seq::empty()
    } else {
        let prev = bucket_w(m, ws.drop_last(), k);
        if m.subrange(ws.last(), ws.last() + 32)[13] == k {
            insert_sorted_w(m, prev, ws.last())
        } else {
            prev
        }
    }
}

/// The concatenation of the name fragments carried by the windows of `ws`,
/// in order.
pub open spec fn concat_names_w(m: Seq<u8>, ws: Seq<int>) -> Seq<char>
    decreases ws.len(),
{
    if ws.len() == 0 {
        Seq::empty()
    } else {
        concat_names_w(m, ws.drop_last()) + units_to_chars(
            lfn_units(m.subrange(ws.last(), ws.last() + 32)),
        )
    }
}

proof fn lemma_insert_match(m: Seq<u8>, ls: Seq<LFNEntry>, ws: Seq<int>, x: LFNEntry, wx: int)
    requires
        lfns_match(m, ls, ws),
        lfn_decodes(x, m.subrange(wx, wx + 32)),
    ensures
        lfns_match(m, insert_sorted(ls, x), insert_sorted_w(m, ws, wx)),
    decreases ls.len(),
{
    assert(shard_key(x) == w_key(m, wx));
    if ls.len() == 0 {
        assert(insert_sorted(ls, x) == seq![x]);
        assert(insert_sorted_w(m, ws, wx) == seq![wx]);
    } else {
        assert(lfn_decodes(ls[ls.len() - 1], m.subrange(ws[ws.len() - 1], ws[ws.len() - 1] + 32)));
        assert(shard_key(ls.last()) == w_key(m, ws.last()));
        if shard_key(x) < shard_key(ls.last()) {
            assert(lfns_match(m, ls.drop_last(), ws.drop_last())) by {
                assert(forall|j: int|
                    0 <= j < ls.len() - 1 ==> #[trigger] ls.drop_last()[j] == ls[j]
                        && ws.drop_last()[j] == ws[j]);
            }
            lemma_insert_match(m, ls.drop_last(), ws.drop_last(), x, wx);
            let a = insert_sorted(ls.drop_last(), x);
            let b = insert_sorted_w(m, ws.drop_last(), wx);
            assert(insert_sorted(ls, x) == a.push(ls.last()));
            assert(insert_sorted_w(m, ws, wx) == b.push(ws.last()));
            assert(forall|j: int| 0 <= j < a.len() ==> #[trigger] a.push(ls.last())[j] == a[j]);
            assert(forall|j: int| 0 <= j < b.len() ==> #[trigger] b.push(ws.last())[j] == b[j]);
            assert(a.push(ls.last())[a.len() as int] == ls.last());
            assert(b.push(ws.last())[b.len() as int] == ws.last());
        } else {
            assert(insert_sorted(ls, x) == ls.push(x));
            assert(insert_sorted_w(m, ws, wx) == ws.push(wx));
            assert(forall|j: int| 0 <= j < ls.len() ==> #[trigger] ls.push(x)[j] == ls[j]);
            assert(forall|j: int| 0 <= j < ws.len() ==> #[trigger] ws.push(wx)[j] == ws[j]);
            assert(ls.push(x)[ls.len() as int] == x);
            assert(ws.push(wx)[ws.len() as int] == wx);
        }
    }
}

proof fn lemma_bucket_match(m: Seq<u8>, ls: Seq<LFNEntry>, ws: Seq<int>, k: u8)
    requires
        lfns_match(m, ls, ws),
    ensures
        lfns_match(m, spec_bucket(ls, k), bucket_w(m, ws, k)),
    decreases ls.len(),
{
    if ls.len() > 0 {
        assert(lfn_decodes(ls[ls.len() - 1], m.subrange(ws[ws.len() - 1], ws[ws.len() - 1] + 32)));
        assert(ls.last().checksum == m.subrange(ws.last(), ws.last() + 32)[13]);
        assert(lfns_match(m, ls.drop_last(), ws.drop_last())) by {
            assert(forall|j: int|
                0 <= j < ls.len() - 1 ==> #[trigger] ls.drop_last()[j] == ls[j]
                    && ws.drop_last()[j] == ws[j]);
        }
        lemma_bucket_match(m, ls.drop_last(), ws.drop_last(), k);
        if ls.last().checksum == k {
            lemma_insert_match(
                m,
                spec_bucket(ls.drop_last(), k),
                bucket_w(m, ws.drop_last(), k),
                ls.last(),
                ws.last(),
            );
        }
    }
}

proof fn lemma_concat_match(m: Seq<u8>, ls: Seq<LFNEntry>, ws: Seq<int>)
    requires
        lfns_match(m, ls, ws),
    ensures
        concat_names(ls) == concat_names_w(m, ws),
    decreases ls.len(),
{
    if ls.len() > 0 {
        assert(lfn_decodes(ls[ls.len() - 1], m.subrange(ws[ws.len() - 1], ws[ws.len() - 1] + 32)));
        assert(lfns_match(m, ls.drop_last(), ws.drop_last())) by {
            assert(forall|j: int|
                0 <= j < ls.len() - 1 ==> #[trigger] ls.drop_last()[j] == ls[j]
                    && ws.drop_last()[j] == ws[j]);
        }
        lemma_concat_match(m, ls.drop_last(), ws.drop_last());
        assert(ls.last().filename@ == units_to_chars(
            lfn_units(m.subrange(ws.last(), ws.last() + 32)),
        ));
    }
}

// ------------------------------------------------------------------
// What the walk emits at one level
// ------------------------------------------------------------------

/// Whether the short entry at window `w` is the `.` or `..` pseudo-entry:
/// its space-trimmed name field is one or two dots.
pub open spec fn window_is_dotish(m: Seq<u8>, w: int) -> bool {
    ||| trim_spaces(m.subrange(w, w + 11)) == seq![0x2Eu8]
    ||| trim_spaces(m.subrange(w, w + 11)) == seq![0x2Eu8, 0x2Eu8]
}

/// The short-entry windows of `ws` that the walk emits: all of them, in
/// order, except the `.` and `..` pseudo-entries.
pub open spec fn emitted_windows(m: Seq<u8>, ws: Seq<int>) -> Seq<int>
    decreases ws.len(),
{
    if ws.len() == 0 {
        Seq::empty()
    } else if window_is_dotish(m, ws[0]) {
        emitted_windows(m, ws.drop_first())
    } else {
        seq![ws[0]] + emitted_windows(m, ws.drop_first())
    }
}

/// The entries of the items that sit at depth `d`, in order.
pub open spec fn items_at(items: Seq<TreeItem>, d: u64) -> Seq<Entry>
    decreases items.len(),
{
    if items.len() == 0 {
        Seq::empty()
    } else if items[0].depth == d {
        seq![items[0].entry] + items_at(items.drop_first(), d)
    } else {
        items_at(items.drop_first(), d)
    }
}

/// How an emitted entry's long name relates to the LFN shard windows `lws`
/// of its region: the fragments of the shards whose checksum byte equals
/// the checksum of the entry's short name, ordered by ascending shard key
/// and concatenated — or no long name at all when no shard matches.
pub open spec fn entry_resolved(m: Seq<u8>, e: Entry, w: int, lws: Seq<int>) -> bool {
    let b = bucket_w(m, lws, spec_checksum(m.subrange(w, w + 11)));
    &&& b.len() == 0 ==> e.long_name is None
    &&& b.len() > 0 ==> (e.long_name matches Some(n) && n@ == concat_names_w(m, b))
}

/// The items of depth `d` hold exactly one entry per short-entry window
/// offset of `ws`, in order, each carrying that window's record fields and
/// the long name that the region's shard windows `lws` give it.
pub open spec fn level_matches(
    m: Seq<u8>,
    items: Seq<TreeItem>,
    d: u64,
    ws: Seq<int>,
    lws: Seq<int>,
) -> bool {
    &&& items_at(items, d).len() == ws.len()
    &&& forall|j: int|
        0 <= j < ws.len() ==> entry_core_decodes(
            #[trigger] items_at(items, d)[j],
            m.subrange(ws[j], ws[j] + 32),
        )
    &&& forall|j: int|
        0 <= j < ws.len() ==> entry_resolved(m, #[trigger] items_at(items, d)[j], ws[j], lws)
}

proof fn lemma_emitted_push(m: Seq<u8>, s: Seq<int>, x: int)
    ensures
        emitted_windows(m, s.push(x)) == emitted_windows(m, s) + (if window_is_dotish(m, x) {
            Seq::<int>::empty()
        } else {
            seq![x]
        }),
    decreases s.len(),
{
    if s.len() == 0 {
        assert(s.push(x)[0] == x);
        assert(s.push(x).drop_first() =~= Seq::<int>::empty());
        assert(emitted_windows(m, s.push(x).drop_first()) == Seq::<int>::empty());
        assert(emitted_windows(m, s) == Seq::<int>::empty());
        if window_is_dotish(m, x) {
            assert(emitted_windows(m, s.push(x)) =~= emitted_windows(m, s) + Seq::<int>::empty());
        } else {
            assert(emitted_windows(m, s.push(x)) == seq![x] + emitted_windows(
                m,
                s.push(x).drop_first(),
            ));
            assert(emitted_windows(m, s.push(x)) =~= emitted_windows(m, s) + seq![x]);
        }
    } else {
        assert(s.push(x)[0] == s[0]);
        assert(s.push(x).drop_first() =~= s.drop_first().push(x));
        lemma_emitted_push(m, s.drop_first(), x);
        let tail = if window_is_dotish(m, x) {
            Seq::<int>::empty()
        } else {
            seq![x]
        };
        if !window_is_dotish(m, s[0]) {
            assert(seq![s[0]] + (emitted_windows(m, s.drop_first()) + tail) =~= (seq![s[0]]
                + emitted_windows(m, s.drop_first())) + tail);
        }
    }
}

proof fn lemma_items_at_push(items: Seq<TreeItem>, it: TreeItem, d: u64)
    ensures
        items_at(items.push(it), d) == items_at(items, d) + (if it.depth == d {
            seq![it.entry]
        } else {
            Seq::<Entry>::empty()
        }),
    decreases items.len(),
{
    if items.len() == 0 {
        assert(items.push(it)[0] == it);
        assert(items.push(it).drop_first() =~= Seq::<TreeItem>::empty());
        assert(items_at(items.push(it).drop_first(), d) == Seq::<Entry>::empty());
        assert(items_at(items, d) == Seq::<Entry>::empty());
        if it.depth == d {
            assert(items_at(items.push(it), d) == seq![it.entry] + items_at(
                items.push(it).drop_first(),
                d,
            ));
            assert(items_at(items.push(it), d) =~= items_at(items, d) + seq![it.entry]);
        } else {
            assert(items_at(items.push(it), d) == items_at(items.push(it).drop_first(), d));
            assert(items_at(items.push(it), d) =~= items_at(items, d) + Seq::<Entry>::empty());
        }
    } else {
        assert(items.push(it)[0] == items[0]);
        assert(items.push(it).drop_first() =~= items.drop_first().push(it));
        lemma_items_at_push(items.drop_first(), it, d);
        let tail = if it.depth == d {
            seq![it.entry]
        } else {
            Seq::<Entry>::empty()
        };
        if items[0].depth == d {
            assert(seq![items[0].entry] + (items_at(items.drop_first(), d) + tail) =~= (seq![
                items[0].entry,
            ] + items_at(items.drop_first(), d)) + tail);
        }
    }
}

proof fn lemma_items_at_concat(a: Seq<TreeItem>, b: Seq<TreeItem>, d: u64)
    ensures
        items_at(a + b, d) == items_at(a, d) + items_at(b, d),
    decreases a.len(),
{
    if a.len() == 0 {
        assert(a + b =~= b);
        assert(items_at(a, d) =~= Seq::<Entry>::empty());
        assert(items_at(a, d) + items_at(b, d) =~= items_at(b, d));
    } else {
        assert((a + b)[0] == a[0]);
        assert((a + b).drop_first() =~= a.drop_first() + b);
        lemma_items_at_concat(a.drop_first(), b, d);
        if a[0].depth == d {
            assert(seq![a[0].entry] + (items_at(a.drop_first(), d) + items_at(b, d)) =~= (seq![
                a[0].entry,
            ] + items_at(a.drop_first(), d)) + items_at(b, d));
        }
    }
}

proof fn lemma_items_at_absent(items: Seq<TreeItem>, d: u64)
    requires
        forall|j: int| 0 <= j < items.len() ==> (#[trigger] items[j]).depth > d,
    ensures
        items_at(items, d) == Seq::<Entry>::empty(),
    decreases items.len(),
{
    if items.len() > 0 {
        assert(items[0].depth > d);
        assert(forall|j: int|
            0 <= j < items.drop_first().len() ==> (#[trigger] items.drop_first()[j]).depth > d);
        lemma_items_at_absent(items.drop_first(), d);
    }
}

// ------------------------------------------------------------------
// The sentinel halts the walk
// ------------------------------------------------------------------

/// A directory entry whose first byte is zero halts the walk of its chunk:
/// every window the walk collects from stride position `i` on lies strictly
/// before a zero entry at stride position `z`, and the walk registers the
/// sentinel (so later chunks of the region are not scanned either).
pub proof fn lemma_sentinel_halts(m: Seq<u8>, off: int, max: int, i: int, z: int)
    requires
        0 <= i <= z,
        (z - i) % 32 == 0,
        z + 32 <= max,
        m[off + z] == 0,
    ensures
        forall|w: int| chunk_shorts(m, off, max, i).contains(w) ==> w < off + z,
        forall|w: int| chunk_lfns(m, off, max, i).contains(w) ==> w < off + z,
        chunk_sentinel(m, off, max, i),
    decreases z - i,
{
    if i == z {
        assert(chunk_shorts(m, off, max, i) =~= Seq::empty());
        assert(chunk_lfns(m, off, max, i) =~= Seq::empty());
    } else {
        assert(z - i >= 32) by {
            if z - i < 32 {
                assert((z - i) % 32 == z - i);
            }
        }
        if m[off + i] == 0 {
            assert(chunk_shorts(m, off, max, i) =~= Seq::empty());
            assert(chunk_lfns(m, off, max, i) =~= Seq::empty());
        } else {
            assert((z - (i + 32)) % 32 == 0) by {
                assert(z - i == (z - (i + 32)) + 32);
                vstd::arithmetic::div_mod::lemma_mod_adds(z - (i + 32), 32, 32);
            }
            lemma_sentinel_halts(m, off, max, i + 32, z);
            assert forall|w: int| chunk_shorts(m, off, max, i).contains(w) implies w < off
                + z by {
                if m[off + i + 11] != 0x0F {
                    let c = chunk_shorts(m, off, max, i);
                    assert(c == seq![off + i] + chunk_shorts(m, off, max, i + 32));
                    let k = choose|k: int| 0 <= k < c.len() && c[k] == w;
                    if k == 0 {
                        assert(w == off + i);
                    } else {
                        assert(chunk_shorts(m, off, max, i + 32)[k - 1] == w);
                        assert(chunk_shorts(m, off, max, i + 32).contains(w));
                    }
                } else {
                    assert(chunk_shorts(m, off, max, i) == chunk_shorts(m, off, max, i + 32));
                    assert(chunk_shorts(m, off, max, i + 32).contains(w));
                }
            }
            assert forall|w: int| chunk_lfns(m, off, max, i).contains(w) implies w < off + z by {
                if m[off + i + 11] == 0x0F {
                    let c = chunk_lfns(m, off, max, i);
                    assert(c == seq![off + i] + chunk_lfns(m, off, max, i + 32));
                    let k = choose|k: int| 0 <= k < c.len() && c[k] == w;
                    if k == 0 {
                        assert(w == off + i);
                    } else {
                        assert(chunk_lfns(m, off, max, i + 32)[k - 1] == w);
                        assert(chunk_lfns(m, off, max, i + 32).contains(w));
                    }
                } else {
                    assert(chunk_lfns(m, off, max, i) == chunk_lfns(m, off, max, i + 32));
                    assert(chunk_lfns(m, off, max, i + 32).contains(w));
                }
            }
        }
    }
}

// ------------------------------------------------------------------
// Scanning one region
// ------------------------------------------------------------------

/// Scans a directory region: every chunk of `offsets` in order, in 32-byte
/// strides, collecting short entries and LFN shards in encounter order and
/// stopping the whole scan at the first entry whose first byte is zero.
pub fn scan_region(mem: &Vec<u8>, offsets: &Vec<usize>, max: usize) -> (r: (
    Vec<Entry>,
    Vec<LFNEntry>,
))
    requires
        forall|k: int| 0 <= k < offsets@.len() ==> (#[trigger] offsets@[k]) + max <= mem@.len(),
    ensures
        entries_match(mem@, r.0@, region_shorts(mem@, offs_int(offsets@), max as int)),
        lfns_match(mem@, r.1@, region_lfns(mem@, offs_int(offsets@), max as int)),
        forall|j: int|
            0 <= j < region_shorts(mem@, offs_int(offsets@), max as int).len() ==> 0 <= #[trigger] (
            region_shorts(mem@, offs_int(offsets@), max as int)[j]) && region_shorts(
                mem@,
                offs_int(offsets@),
                max as int,
            )[j] + 32 <= mem@.len(),
        forall|j: int|
            0 <= j < region_lfns(mem@, offs_int(offsets@), max as int).len() ==> 0 <= #[trigger] (
            region_lfns(mem@, offs_int(offsets@), max as int)[j]) && region_lfns(
                mem@,
                offs_int(offsets@),
                max as int,
            )[j] + 32 <= mem@.len(),
{
    let ghost oi = offs_int(offsets@);
    let ghost maxi = max as int;
    let mut shorts: Vec<Entry> = Vec::new();
    let mut lfns: Vec<LFNEntry> = Vec::new();
    let ghost mut gws_s: Seq<int> = Seq::empty();
    let ghost mut gws_l: Seq<int> = Seq::empty();
    let mut k: usize = 0;
    let n = offsets.len();
    let ml = mem.len();
    proof {
        assert(oi.skip(0) =~= oi);
        assert(Seq::<int>::empty() + region_shorts(mem@, oi, maxi) =~= region_shorts(
            mem@,
            oi,
            maxi,
        ));
        assert(Seq::<int>::empty() + region_lfns(mem@, oi, maxi) =~= region_lfns(mem@, oi, maxi));
    }
    while k < n
        invariant
            k <= n,
            n == offsets@.len(),
            oi == offs_int(offsets@),
            maxi == max as int,
            ml == mem@.len(),
            forall|j: int| 0 <= j < offsets@.len() ==> (#[trigger] offsets@[j]) + max <= mem@.len(),
            entries_match(mem@, shorts@, gws_s),
            lfns_match(mem@, lfns@, gws_l),
            forall|j: int|
                0 <= j < gws_s.len() ==> 0 <= #[trigger] gws_s[j] && gws_s[j] + 32 <= mem@.len(),
            forall|j: int|
                0 <= j < gws_l.len() ==> 0 <= #[trigger] gws_l[j] && gws_l[j] + 32 <= mem@.len(),
            region_shorts(mem@, oi, maxi) == gws_s + region_shorts(mem@, oi.skip(k as int), maxi),
            region_lfns(mem@, oi, maxi) == gws_l + region_lfns(mem@, oi.skip(k as int), maxi),
        decreases n - k,
    {
        let coff = offsets[k];
        let ghost coffi = coff as int;
        proof {
            assert(oi.skip(k as int)[0] == oi[k as int]);
            assert(oi.skip(k as int).drop_first() =~= oi.skip(k as int + 1));
        }
        let ghost gs0_s = gws_s;
        let ghost gs0_l = gws_l;
        let mut i: usize = 0;
        let mut sentinel = false;
        loop
            invariant_except_break
                k < n,
                coff == offsets@[k as int],
                entries_match(mem@, shorts@, gws_s),
                lfns_match(mem@, lfns@, gws_l),
                forall|j: int|
                    0 <= j < gws_s.len() ==> 0 <= #[trigger] gws_s[j] && gws_s[j] + 32
                        <= mem@.len(),
                forall|j: int|
                    0 <= j < gws_l.len() ==> 0 <= #[trigger] gws_l[j] && gws_l[j] + 32
                        <= mem@.len(),
                gs0_s + chunk_shorts(mem@, coffi, maxi, 0) == gws_s + chunk_shorts(
                    mem@,
                    coffi,
                    maxi,
                    i as int,
                ),
                gs0_l + chunk_lfns(mem@, coffi, maxi, 0) == gws_l + chunk_lfns(
                    mem@,
                    coffi,
                    maxi,
                    i as int,
                ),
                chunk_sentinel(mem@, coffi, maxi, 0) == chunk_sentinel(mem@, coffi, maxi, i as int),
                !sentinel,
            invariant
                n == offsets@.len(),
                oi == offs_int(offsets@),
                maxi == max as int,
                coffi == coff as int,
                ml == mem@.len(),
                coff + max <= ml,
                forall|j: int|
                    0 <= j < offsets@.len() ==> (#[trigger] offsets@[j]) + max <= mem@.len(),
            ensures
                entries_match(mem@, shorts@, gws_s),
                lfns_match(mem@, lfns@, gws_l),
                forall|j: int|
                    0 <= j < gws_s.len() ==> 0 <= #[trigger] gws_s[j] && gws_s[j] + 32
                        <= mem@.len(),
                forall|j: int|
                    0 <= j < gws_l.len() ==> 0 <= #[trigger] gws_l[j] && gws_l[j] + 32
                        <= mem@.len(),
                gws_s == gs0_s + chunk_shorts(mem@, coffi, maxi, 0),
                gws_l == gs0_l + chunk_lfns(mem@, coffi, maxi, 0),
                sentinel == chunk_sentinel(mem@, coffi, maxi, 0),
            decreases maxi - i,
        {
            if i >= max || max - i < 32 {
                proof {
                    assert(chunk_shorts(mem@, coffi, maxi, i as int) =~= Seq::empty());
                    assert(chunk_lfns(mem@, coffi, maxi, i as int) =~= Seq::empty());
                    assert(gs0_s + chunk_shorts(mem@, coffi, maxi, 0) =~= gws_s);
                    assert(gs0_l + chunk_lfns(mem@, coffi, maxi, 0) =~= gws_l);
                }
                break ;
            }
            if mem[coff + i] == 0 {
                sentinel = true;
                proof {
                    assert(chunk_shorts(mem@, coffi, maxi, i as int) =~= Seq::empty());
                    assert(chunk_lfns(mem@, coffi, maxi, i as int) =~= Seq::empty());
                    assert(gs0_s + chunk_shorts(mem@, coffi, maxi, 0) =~= gws_s);
                    assert(gs0_l + chunk_lfns(mem@, coffi, maxi, 0) =~= gws_l);
                }
                break ;
            }
            let window = copy_range(mem, coff + i, 32);
            proof {
                assert(window@[0] == mem@[coffi + i]);
                assert(window@[11] == mem@[coffi + i + 11]);
            }
            if window[11] == 0x0F {
                let l = LFNEntry::new(&window);
                proof {
                    assert(window@.subrange(0, 32) =~= window@);
                    assert(chunk_lfns(mem@, coffi, maxi, i as int) == seq![coffi + i] + chunk_lfns(
                        mem@,
                        coffi,
                        maxi,
                        i + 32,
                    ));
                    assert(gws_l + (seq![coffi + i] + chunk_lfns(mem@, coffi, maxi, i + 32)) =~= (
                    gws_l.push(coffi + i)) + chunk_lfns(mem@, coffi, maxi, i + 32));
                    assert(mem@.subrange(coffi + i, coffi + i + 32) == window@);
                }
                lfns.push(l);
                proof {
                    gws_l = gws_l.push(coffi + i);
                }
            } else {
                let e = Entry::new(&window);
                proof {
                    assert(window@.subrange(0, 32) =~= window@);
                    assert(chunk_shorts(mem@, coffi, maxi, i as int) == seq![coffi + i]
                        + chunk_shorts(mem@, coffi, maxi, i + 32));
                    assert(gws_s + (seq![coffi + i] + chunk_shorts(mem@, coffi, maxi, i + 32)) =~= (
                    gws_s.push(coffi + i)) + chunk_shorts(mem@, coffi, maxi, i + 32));
                    assert(mem@.subrange(coffi + i, coffi + i + 32) == window@);
                }
                shorts.push(e);
                proof {
                    gws_s = gws_s.push(coffi + i);
                }
            }
            i = i + 32;
        }
        if sentinel {
            proof {
                assert(region_shorts(mem@, oi.skip(k as int), maxi) == chunk_shorts(
                    mem@,
                    coffi,
                    maxi,
                    0,
                ));
                assert(region_lfns(mem@, oi.skip(k as int), maxi) == chunk_lfns(
                    mem@,
                    coffi,
                    maxi,
                    0,
                ));
                assert(region_shorts(mem@, oi, maxi) == gws_s);
                assert(region_lfns(mem@, oi, maxi) == gws_l);
            }
            return (shorts, lfns);
        }
        proof {
            assert(region_shorts(mem@, oi.skip(k as int), maxi) == chunk_shorts(
                mem@,
                coffi,
                maxi,
                0,
            ) + region_shorts(mem@, oi.skip(k as int + 1), maxi));
            assert(region_lfns(mem@, oi.skip(k as int), maxi) == chunk_lfns(mem@, coffi, maxi, 0)
                + region_lfns(mem@, oi.skip(k as int + 1), maxi));
            crate::numfmt::lemma_concat3(
                gs0_s,
                chunk_shorts(mem@, coffi, maxi, 0),
                region_shorts(mem@, oi.skip(k as int + 1), maxi),
            );
            crate::numfmt::lemma_concat3(
                gs0_l,
                chunk_lfns(mem@, coffi, maxi, 0),
                region_lfns(mem@, oi.skip(k as int + 1), maxi),
            );
        }
        k = k + 1;
    }
    proof {
        assert(oi.skip(n as int) =~= Seq::<int>::empty());
        assert(region_shorts(mem@, oi, maxi) == gws_s);
        assert(region_lfns(mem@, oi, maxi) == gws_l);
    }
    (shorts, lfns)
}

// ------------------------------------------------------------------
// The recursive walk
// ------------------------------------------------------------------

impl Fat {
    /// The byte offsets of the clusters of a chain, each checked to leave
    /// room for a whole region chunk of `region_bytes` within the image.
    fn chain_offsets_checked(&self, clusters: &Vec<Cluster>, region_bytes: usize) -> (r: Result<
        Vec<usize>,
        FatError,
    >)
        requires
            self.wf(),
            forall|i: int| 0 <= i < clusters@.len() ==> (#[trigger] clusters@[i]).0 >= 2,
        ensures
            r is Ok <==> !self.sp_chain_oob(cluster_views(clusters@), region_bytes as int),
            r matches Err(e) ==> e == FatError::Truncated,
            r matches Ok(offs) ==> {
                &&& offs@.len() == clusters@.len()
                &&& forall|j: int|
                    0 <= j < offs@.len() ==> (#[trigger] offs@[j]) + region_bytes
                        <= self.mem@.len()
                &&& forall|j: int|
                    0 <= j < offs@.len() ==> #[trigger] offs@[j] == self.sp_offset(
                        self.sp_cluster_to_sector(clusters@[j].0 as int),
                    )
            },
    {
        let mut offs: Vec<usize> = Vec::new();
        let ml = self.mem.len();
        let mut i: usize = 0;
        let n = clusters.len();
        while i < n
            invariant
                i <= n,
                n == clusters@.len(),
                ml == self.mem@.len(),
                self.wf(),
                forall|j: int| 0 <= j < clusters@.len() ==> (#[trigger] clusters@[j]).0 >= 2,
                offs@.len() == i,
                forall|j: int|
                    0 <= j < i ==> (#[trigger] offs@[j]) + region_bytes <= self.mem@.len(),
                forall|j: int|
                    0 <= j < i ==> #[trigger] offs@[j] == self.sp_offset(
                        self.sp_cluster_to_sector(clusters@[j].0 as int),
                    ),
            decreases n - i,
        {
            let c = clusters[i].0;
            proof {
                let c64 = (c - 2) as u64;
                let spc64 = self.sectors_per_cluster as u64;
                let sca64 = self.start_cluster_area.0 as u64;
                let bps64 = self.bytes_per_sector as u64;
                assert(c64 * spc64 < 0x100_0000_0000) by (nonlinear_arith)
                    requires
                        c64 < 0x1_0000_0000,
                        spc64 < 0x100,
                ;
                assert((c64 * spc64 + sca64) * bps64 < 0x200_0000_0000_0000)
                    by (nonlinear_arith)
                    requires
                        c64 * spc64 < 0x100_0000_0000,
                        sca64 < 0x1_0000_0000,
                        bps64 < 0x1_0000,
                ;
            }
            let sec64 = (c - 2) as u64 * self.sectors_per_cluster as u64
                + self.start_cluster_area.0 as u64;
            let off64 = sec64 * self.bytes_per_sector as u64;
            if off64 > ml as u64 || region_bytes as u64 > ml as u64 - off64 {
                proof {
                    let cv = cluster_views(clusters@);
                    assert(cv[i as int] == clusters@[i as int].0);
                    assert(self.sp_offset(self.sp_cluster_to_sector(cv[i as int] as int))
                        + region_bytes > self.mem@.len());
                    assert(self.sp_chain_oob(cv, region_bytes as int));
                }
                return Err(FatError::Truncated);
            }
            offs.push(off64 as usize);
            i = i + 1;
        }
        proof {
            let cv = cluster_views(clusters@);
            assert forall|q: int|
                0 <= q < cv.len() implies self.sp_offset(
                self.sp_cluster_to_sector((#[trigger] cv[q]) as int),
            ) + region_bytes <= self.mem@.len() by {
                assert(cv[q] == clusters@[q].0);
                assert(offs@[q] == self.sp_offset(self.sp_cluster_to_sector(clusters@[q].0 as int)));
                assert(offs@[q] + region_bytes <= self.mem@.len());
            }
            assert(!self.sp_chain_oob(cv, region_bytes as int));
        }
        Ok(offs)
    }

    /// Walks one directory region and, recursively, every subdirectory
    /// found in it. Entries are emitted in encounter order, parents before
    /// their children; the `.` and `..` pseudo-entries are never emitted and
    /// never descended into. `fuel` bounds the recursion depth, so a volume
    /// whose directories form a cycle is reported as malformed rather than
    /// walked forever. The result — the emitted rows in preorder with their
    /// record fields, long names and chains, or the walk's first error — is
    /// exactly what [`Fat::sp_items`] prescribes for the region.
    pub fn walk_region(
        &self,
        offsets: &Vec<usize>,
        max: usize,
        depth: u64,
        fuel: u64,
    ) -> (r: Result<Vec<TreeItem>, FatError>)
        requires
            self.wf(),
            depth + fuel <= u64::MAX,
            forall|j: int|
                0 <= j < offsets@.len() ==> (#[trigger] offsets@[j]) + max <= self.mem@.len(),
        ensures
            r matches Ok(items) ==> forall|j: int|
                0 <= j < items@.len() ==> !spec_is_dot((#[trigger] items@[j]).entry)
                    && !spec_is_dotdot(items@[j].entry) && items@[j].depth >= depth
                    && items@[j].entry.clusters is Some,
            r matches Ok(items) ==> level_matches(
                self.mem@,
                items@,
                depth,
                emitted_windows(
                    self.mem@,
                    region_shorts(self.mem@, offs_int(offsets@), max as int),
                ),
                region_lfns(self.mem@, offs_int(offsets@), max as int),
            ),
            match self.sp_items(
                region_shorts(self.mem@, offs_int(offsets@), max as int),
                region_lfns(self.mem@, offs_int(offsets@), max as int),
                depth,
                fuel as nat,
            ) {
                Ok(model) => r matches Ok(items) && tree_items_match(self.mem@, items@, model),
                Err(e) => r matches Err(e2) && e2 == e,
            },
        decreases fuel,
    {
        let ghost m = self.mem@;
        let ghost ws_all = region_shorts(self.mem@, offs_int(offsets@), max as int);
        let ghost lws_all = region_lfns(self.mem@, offs_int(offsets@), max as int);
        let ghost fnat = fuel as nat;
        let (mut shorts, lfns) = scan_region(&self.mem, offsets, max);
        let mut items: Vec<TreeItem> = Vec::new();
        let ghost mut p: int = 0;
        let ghost mut gmodel: Seq<WalkRow> = Seq::empty();
        proof {
            assert(ws_all.skip(0) =~= ws_all);
            assert(ws_all.take(0) =~= Seq::<int>::empty());
            assert forall|j: int|
                0 <= j < ws_all.len() implies 0 <= #[trigger] ws_all[j] && ws_all[j] + 32
                <= m.len() by {
                assert(region_shorts(self.mem@, offs_int(offsets@), max as int)[j] == ws_all[j]);
            }
            match self.sp_items(ws_all, lws_all, depth, fnat) {
                Ok(full0) => {
                    assert(Seq::<WalkRow>::empty() + full0 =~= full0);
                },
                Err(_) => {},
            }
        }
        while shorts.len() > 0
            invariant
                self.wf(),
                depth + fuel <= u64::MAX,
                m == self.mem@,
                ws_all == region_shorts(self.mem@, offs_int(offsets@), max as int),
                lws_all == region_lfns(self.mem@, offs_int(offsets@), max as int),
                forall|j: int|
                    0 <= j < ws_all.len() ==> 0 <= #[trigger] ws_all[j] && ws_all[j] + 32
                        <= m.len(),
                0 <= p <= ws_all.len(),
                fnat == fuel as nat,
                entries_match(m, shorts@, ws_all.skip(p)),
                lfns_match(m, lfns@, lws_all),
                level_matches(m, items@, depth, emitted_windows(m, ws_all.take(p)), lws_all),
                tree_items_match(m, items@, gmodel),
                match self.sp_items(ws_all.skip(p), lws_all, depth, fnat) {
                    Ok(rest) => self.sp_items(ws_all, lws_all, depth, fnat) matches Ok(full)
                        && full == gmodel + rest,
                    Err(e) => self.sp_items(ws_all, lws_all, depth, fnat) matches Err(e2) && e2
                        == e,
                },
                forall|j: int|
                    0 <= j < items@.len() ==> !spec_is_dot((#[trigger] items@[j]).entry)
                        && !spec_is_dotdot(items@[j].entry) && items@[j].depth >= depth
                        && items@[j].entry.clusters is Some,
            decreases shorts@.len(),
        {
            let ghost w = ws_all[p];
            let ghost win = m.subrange(w, w + 32);
            let ghost pre_shorts = shorts@;
            proof {
                assert(pre_shorts.len() == ws_all.skip(p).len());
                assert(region_shorts(self.mem@, offs_int(offsets@), max as int)[p] == ws_all[p]);
                assert(0 <= w && w + 32 <= m.len());
                assert(ws_all.skip(p)[0] == ws_all[p]);
                assert(entry_decodes(pre_shorts[0], win));
            }
            let mut e = shorts.remove(0);
            proof {
                assert(shorts@ =~= pre_shorts.drop_first());
                assert forall|j: int|
                    0 <= j < shorts@.len() implies entry_decodes(
                    #[trigger] shorts@[j],
                    m.subrange(ws_all.skip(p + 1)[j], ws_all.skip(p + 1)[j] + 32),
                ) by {
                    assert(shorts@[j] == pre_shorts[j + 1]);
                    assert(ws_all.skip(p)[j + 1] == ws_all.skip(p + 1)[j]);
                }
            }
            e.add_lfn(&lfns);
            let start = e.start;
            proof {
                assert(entry_core_decodes(e, win));
                assert(win.subrange(0, 11) =~= m.subrange(w, w + 11));
                assert(window_is_dotish(m, w) == (spec_is_dot(e) || spec_is_dotdot(e)));
                assert(sp_start(m, w) == start.0);
                assert(ws_all.skip(p).drop_first() =~= ws_all.skip(p + 1));
            }
            let chain = match self.get_cluster_chain(&start) {
                Ok(c) => c,
                Err(err) => {
                    proof {
                        assert(self.sp_items(ws_all.skip(p), lws_all, depth, fnat) == Err::<
                            Seq<WalkRow>,
                            FatError,
                        >(err));
                    }
                    return Err(err);
                },
            };
            proof {
                assert(self.fat_table_entry_size != 12);
                lemma_walk_elems(*self, start.0, self.total_clusters as nat);
                assert(forall|j: int|
                    0 <= j < chain@.len() ==> (#[trigger] chain@[j]).0 == cluster_views(chain@)[j]);
            }
            let ghost cv = cluster_views(chain@);
            proof {
                assert(self.sp_walk(sp_start(m, w), self.total_clusters as nat) == Ok::<
                    Seq<u32>,
                    FatError,
                >(cv));
            }
            let is_dot = e.is_this_entry();
            let is_dotdot = e.is_prev_entry();
            let is_sub = e.is_subdir_entry();
            let recurse = is_sub && !is_dot && !is_dotdot;
            proof {
                assert((m.subrange(w, w + 32)[11] & 0x10 != 0) == is_sub);
                let b32 = self.bytes_per_sector as u32;
                let c32 = self.sectors_per_cluster as u32;
                assert(b32 * c32 < 0x100_0000) by (nonlinear_arith)
                    requires
                        b32 < 0x1_0000,
                        c32 < 0x100,
                ;
            }
            let cluster_bytes = self.bytes_per_sector as usize * self.sectors_per_cluster as usize;
            let ghost cbi = cluster_bytes as int;
            let child_offs: Vec<usize> = if recurse {
                match self.chain_offsets_checked(&chain, cluster_bytes) {
                    Ok(o) => o,
                    Err(err) => {
                        proof {
                            assert(self.sp_chain_oob(cv, cbi));
                            assert(self.sp_items(ws_all.skip(p), lws_all, depth, fnat) == Err::<
                                Seq<WalkRow>,
                                FatError,
                            >(FatError::Truncated));
                        }
                        return Err(err);
                    },
                }
            } else {
                Vec::new()
            };
            proof {
                if recurse {
                    assert(!self.sp_chain_oob(cv, cbi));
                    assert forall|q: int|
                        0 <= q < offs_int(child_offs@).len() implies offs_int(child_offs@)[q]
                        == self.sp_chain_chunks(cv)[q] by {
                        assert(child_offs@[q] == self.sp_offset(
                            self.sp_cluster_to_sector(chain@[q].0 as int),
                        ));
                        assert(cv[q] == chain@[q].0);
                    }
                    assert(offs_int(child_offs@) =~= self.sp_chain_chunks(cv));
                }
            }
            e.add_clusters(chain);
            proof {
                assert(entry_core_decodes(e, win));
                assert(ws_all.take(p + 1) =~= ws_all.take(p).push(w));
                lemma_emitted_push(m, ws_all.take(p), w);
                let k = spec_checksum(m.subrange(w, w + 11));
                assert(e.checksum == k);
                lemma_bucket_match(m, lfns@, lws_all, k);
                if bucket_w(m, lws_all, k).len() > 0 {
                    lemma_concat_match(m, spec_bucket(lfns@, k), bucket_w(m, lws_all, k));
                }
                assert(entry_resolved(m, e, w, lws_all));
                assert(e.clusters matches Some(c) && cluster_views(c@) == cv);
            }
            let ghost head_items: Seq<TreeItem> = if is_dot || is_dotdot {
                Seq::empty()
            } else {
                seq![TreeItem { depth, entry: e }]
            };
            let ghost head_rows: Seq<WalkRow> = if is_dot || is_dotdot {
                Seq::empty()
            } else {
                seq![(depth, w, lws_all, cv)]
            };
            let ghost pre0 = items@;
            if !is_dot && !is_dotdot {
                let ghost pre_items = items@;
                items.push(TreeItem { depth, entry: e });
                proof {
                    lemma_items_at_push(pre_items, TreeItem { depth, entry: e }, depth);
                    let old_ws = emitted_windows(m, ws_all.take(p));
                    let new_ws = emitted_windows(m, ws_all.take(p + 1));
                    assert(new_ws == old_ws + seq![w]);
                    assert(items_at(items@, depth) == items_at(pre_items, depth) + seq![e]);
                    assert forall|j: int|
                        0 <= j < new_ws.len() implies entry_core_decodes(
                        #[trigger] items_at(items@, depth)[j],
                        m.subrange(new_ws[j], new_ws[j] + 32),
                    ) && entry_resolved(m, items_at(items@, depth)[j], new_ws[j], lws_all) by {
                        if j < old_ws.len() {
                            assert(items_at(items@, depth)[j] == items_at(pre_items, depth)[j]);
                            assert(new_ws[j] == old_ws[j]);
                        } else {
                            assert(items_at(items@, depth)[j] == e);
                            assert(new_ws[j] == w);
                        }
                    }
                }
            } else {
                proof {
                    assert(emitted_windows(m, ws_all.take(p + 1)) =~= emitted_windows(
                        m,
                        ws_all.take(p),
                    ));
                }
            }
            let ghost mut ksm: Seq<WalkRow> = Seq::empty();
            let ghost mut kid_items: Seq<TreeItem> = Seq::empty();
            if recurse {
                if fuel == 0 {
                    proof {
                        assert(self.sp_items(ws_all.skip(p), lws_all, depth, fnat) == Err::<
                            Seq<WalkRow>,
                            FatError,
                        >(FatError::MalformedChain));
                    }
                    return Err(FatError::MalformedChain);
                }
                let mut kids = match self.walk_region(&child_offs, cluster_bytes, depth + 1, fuel
                    - 1) {
                    Ok(v) => v,
                    Err(err) => {
                        proof {
                            assert(self.sp_items(
                                region_shorts(m, self.sp_chain_chunks(cv), cbi),
                                region_lfns(m, self.sp_chain_chunks(cv), cbi),
                                (depth + 1) as u64,
                                (fnat - 1) as nat,
                            ) == Err::<Seq<WalkRow>, FatError>(err));
                            assert(self.sp_items(ws_all.skip(p), lws_all, depth, fnat) == Err::<
                                Seq<WalkRow>,
                                FatError,
                            >(err));
                        }
                        return Err(err);
                    },
                };
                let ghost pre_items = items@;
                proof {
                    kid_items = kids@;
                    ksm = self.sp_items(
                        region_shorts(m, self.sp_chain_chunks(cv), cbi),
                        region_lfns(m, self.sp_chain_chunks(cv), cbi),
                        (depth + 1) as u64,
                        (fnat - 1) as nat,
                    )->Ok_0;
                    assert(tree_items_match(m, kid_items, ksm));
                }
                items.append(&mut kids);
                proof {
                    assert(forall|j: int|
                        0 <= j < kid_items.len() ==> (#[trigger] kid_items[j]).depth > depth);
                    lemma_items_at_concat(pre_items, kid_items, depth);
                    lemma_items_at_absent(kid_items, depth);
                    assert(items_at(items@, depth) =~= items_at(pre_items, depth));
                }
            }
            proof {
                assert(items@ =~= pre0 + head_items + kid_items);
                let gnew = gmodel + head_rows + ksm;
                assert(items@.len() == gnew.len());
                assert forall|j: int|
                    0 <= j < gnew.len() implies {
                    &&& (#[trigger] items@[j]).depth == gnew[j].0
                    &&& entry_core_decodes(items@[j].entry, m.subrange(gnew[j].1, gnew[j].1 + 32))
                    &&& entry_resolved(m, items@[j].entry, gnew[j].1, gnew[j].2)
                    &&& (items@[j].entry.clusters matches Some(c) && cluster_views(c@)
                        == gnew[j].3)
                } by {
                    if j < gmodel.len() {
                        assert(items@[j] == pre0[j]);
                        assert(gnew[j] == gmodel[j]);
                    } else if j < gmodel.len() + head_rows.len() {
                        assert(items@[j] == head_items[0]);
                        assert(gnew[j] == head_rows[0]);
                    } else {
                        assert(items@[j] == kid_items[j - gmodel.len() - head_rows.len()]);
                        assert(gnew[j] == ksm[j - gmodel.len() - head_rows.len()]);
                    }
                }
                assert(tree_items_match(m, items@, gnew));
                match self.sp_items(ws_all.skip(p + 1), lws_all, depth, fnat) {
                    Ok(rest) => {
                        assert(self.sp_items(ws_all.skip(p), lws_all, depth, fnat) == Ok::<
                            Seq<WalkRow>,
                            FatError,
                        >(head_rows + ksm + rest));
                        assert(gmodel + (head_rows + ksm + rest) =~= gnew + rest);
                    },
                    Err(_) => {},
                }
                gmodel = gnew;
                p = p + 1;
            }
        }
        proof {
            assert(ws_all.skip(p).len() == 0);
            assert(p == ws_all.len());
            assert(ws_all.take(p) =~= ws_all);
            assert(gmodel + Seq::<WalkRow>::empty() =~= gmodel);
        }
        Ok(items)
    }
}

// ------------------------------------------------------------------
// The consumer surface
// ------------------------------------------------------------------

/// The two read-only inspection capabilities of a parsed volume: the layout
/// report and the recursive directory walk.
pub trait FAT {
    /// The common geometry record of the volume.
    spec fn base(&self) -> Fat;

    /// The volume is internally consistent.
    spec fn wf(&self) -> bool;

    /// The byte offsets of the chunks of the root directory region: one
    /// contiguous range for a FAT12/16 root, the root cluster chain for
    /// FAT32.
    spec fn root_chunks(&self) -> Seq<int>;

    /// The byte size of one chunk of the root directory region.
    spec fn root_chunk_bytes(&self) -> int;

    /// What walking this volume's tree must produce: the rows of the
    /// recursive walk of the root region in preorder, or the first error —
    /// a root region or chain chunk past the image, a failed chain walk, a
    /// directory cycle, or a FAT12 chain.
    spec fn sp_tree_result(&self) -> Result<Seq<WalkRow>, FatError>;

    /// Renders the layout report of the volume.
    fn info(&self) -> (r: String)
        requires
            self.wf(),
        ensures
            r@ == spec_info(self.base()),
    ;

    /// Walks the directory tree from the root. The result is exactly what
    /// [`FAT::sp_tree_result`] prescribes: the fully resolved entries of
    /// the walk in preorder — parents before their children, children
    /// before the next sibling, one depth unit per descent, each entry
    /// carrying its record fields, its resolved long name and its cluster
    /// chain — or the error of the walk. The `.` and `..` pseudo-entries
    /// are never emitted to the consumer.
    fn tree(&self) -> (r: Result<Vec<TreeItem>, FatError>)
        requires
            self.wf(),
        ensures
            r matches Ok(items) ==> forall|j: int|
                0 <= j < items@.len() ==> !spec_is_dot((#[trigger] items@[j]).entry)
                    && !spec_is_dotdot(items@[j].entry) && items@[j].entry.clusters is Some,
            r matches Ok(items) ==> level_matches(
                self.base().mem@,
                items@,
                1,
                emitted_windows(
                    self.base().mem@,
                    region_shorts(self.base().mem@, self.root_chunks(), self.root_chunk_bytes()),
                ),
                region_lfns(self.base().mem@, self.root_chunks(), self.root_chunk_bytes()),
            ),
            match self.sp_tree_result() {
                Ok(model) => r matches Ok(items) && tree_items_match(
                    self.base().mem@,
                    items@,
                    model,
                ),
                Err(e) => r matches Err(e2) && e2 == e,
            },
    ;
}

impl FAT for Fat16 {
    open spec fn base(&self) -> Fat {
        self.fat
    }

    open spec fn wf(&self) -> bool {
        self.fat.wf()
    }

    open spec fn root_chunks(&self) -> Seq<int> {
        seq![self.fat.sp_offset(self.fat.start_root_dir.0 as int)]
    }

    open spec fn root_chunk_bytes(&self) -> int {
        self.total_root_entries * 32
    }

    open spec fn sp_tree_result(&self) -> Result<Seq<WalkRow>, FatError> {
        if self.fat.sp_offset(self.fat.start_root_dir.0 as int) + self.total_root_entries * 32
            > self.fat.mem@.len() {
            Err(FatError::Truncated)
        } else {
            self.fat.sp_items(
                region_shorts(self.fat.mem@, self.root_chunks(), self.root_chunk_bytes()),
                region_lfns(self.fat.mem@, self.root_chunks(), self.root_chunk_bytes()),
                1,
                self.fat.total_clusters as nat,
            )
        }
    }

    fn info(&self) -> (r: String) {
        self.fat.info()
    }

    fn tree(&self) -> (r: Result<Vec<TreeItem>, FatError>) {
        proof {
            let s64 = self.fat.start_root_dir.0 as u64;
            let b64 = self.fat.bytes_per_sector as u64;
            assert(s64 * b64 < 0x1_0000_0000_0000) by (nonlinear_arith)
                requires
                    s64 < 0x1_0000_0000,
                    b64 < 0x1_0000,
            ;
        }
        let off64 = self.fat.start_root_dir.0 as u64 * self.fat.bytes_per_sector as u64;
        let max = self.total_root_entries as usize * 32;
        let ml = self.fat.mem.len();
        if off64 > ml as u64 || max as u64 > ml as u64 - off64 {
            proof {
                assert(self.sp_tree_result() == Err::<Seq<WalkRow>, FatError>(
                    FatError::Truncated,
                ));
            }
            return Err(FatError::Truncated);
        }
        let offsets = vec![off64 as usize];
        proof {
            assert(forall|j: int|
                0 <= j < offsets@.len() ==> (#[trigger] offsets@[j]) + max <= self.fat.mem@.len());
            assert(offs_int(offsets@) =~= self.root_chunks());
            assert(max as int == self.root_chunk_bytes());
            assert((self.fat.total_clusters as u64) as nat == self.fat.total_clusters as nat);
        }
        self.fat.walk_region(&offsets, max, 1, self.fat.total_clusters as u64)
    }
}

impl FAT for Fat32 {
    open spec fn base(&self) -> Fat {
        self.fat
    }

    open spec fn wf(&self) -> bool {
        self.fat.wf() && self.root_clusters@.len() >= 1
    }

    open spec fn root_chunks(&self) -> Seq<int> {
        match self.fat.sp_walk(self.root_clusters@[0].0, self.fat.total_clusters as nat) {
            Ok(ch) => self.fat.sp_chain_chunks(ch),
            Err(_) => Seq::empty(),
        }
    }

    open spec fn root_chunk_bytes(&self) -> int {
        self.fat.bytes_per_sector * self.fat.sectors_per_cluster
    }

    open spec fn sp_tree_result(&self) -> Result<Seq<WalkRow>, FatError> {
        if self.fat.fat_table_entry_size == 12 {
            Err(FatError::UnsupportedVariant)
        } else {
            match self.fat.sp_walk(self.root_clusters@[0].0, self.fat.total_clusters as nat) {
                Err(e) => Err(e),
                Ok(ch) => {
                    if self.fat.sp_chain_oob(ch, self.root_chunk_bytes()) {
                        Err(FatError::Truncated)
                    } else {
                        self.fat.sp_items(
                            region_shorts(self.fat.mem@, self.root_chunks(), self.root_chunk_bytes()),
                            region_lfns(self.fat.mem@, self.root_chunks(), self.root_chunk_bytes()),
                            1,
                            self.fat.total_clusters as nat,
                        )
                    }
                },
            }
        }
    }

    fn info(&self) -> (r: String) {
        self.fat.info()
    }

    fn tree(&self) -> (r: Result<Vec<TreeItem>, FatError>) {
        let start = self.root_clusters[0];
        let chain = match self.fat.get_cluster_chain(&start) {
            Ok(c) => c,
            Err(err) => {
                proof {
                    assert(self.sp_tree_result() == Err::<Seq<WalkRow>, FatError>(err));
                }
                return Err(err);
            },
        };
        let ghost cv = cluster_views(chain@);
        proof {
            assert(self.fat.fat_table_entry_size != 12);
            lemma_walk_elems(self.fat, start.0, self.fat.total_clusters as nat);
            assert(forall|j: int|
                0 <= j < chain@.len() ==> (#[trigger] chain@[j]).0 == cluster_views(chain@)[j]);
            assert(self.fat.sp_walk(self.root_clusters@[0].0, self.fat.total_clusters as nat)
                == Ok::<Seq<u32>, FatError>(cv));
            let b32 = self.fat.bytes_per_sector as u32;
            let c32 = self.fat.sectors_per_cluster as u32;
            assert(b32 * c32 < 0x100_0000) by (nonlinear_arith)
                requires
                    b32 < 0x1_0000,
                    c32 < 0x100,
            ;
        }
        let cluster_bytes = self.fat.bytes_per_sector as usize
            * self.fat.sectors_per_cluster as usize;
        let child_offs = match self.fat.chain_offsets_checked(&chain, cluster_bytes) {
            Ok(o) => o,
            Err(err) => {
                proof {
                    assert(self.fat.sp_chain_oob(cv, self.root_chunk_bytes()));
                    assert(self.sp_tree_result() == Err::<Seq<WalkRow>, FatError>(
                        FatError::Truncated,
                    ));
                }
                return Err(err);
            },
        };
        proof {
            assert(!self.fat.sp_chain_oob(cv, self.root_chunk_bytes()));
            assert forall|q: int|
                0 <= q < offs_int(child_offs@).len() implies offs_int(child_offs@)[q]
                == self.fat.sp_chain_chunks(cv)[q] by {
                assert(child_offs@[q] == self.fat.sp_offset(
                    self.fat.sp_cluster_to_sector(chain@[q].0 as int),
                ));
                assert(cv[q] == chain@[q].0);
            }
            assert(offs_int(child_offs@) =~= self.fat.sp_chain_chunks(cv));
            assert(offs_int(child_offs@) =~= self.root_chunks());
            assert(cluster_bytes as int == self.root_chunk_bytes());
            assert((self.fat.total_clusters as u64) as nat == self.fat.total_clusters as nat);
        }
        self.fat.walk_region(&child_offs, cluster_bytes, 1, self.fat.total_clusters as u64)
    }
}

impl FAT for FatVolume {
    open spec fn base(&self) -> Fat {
        match self {
            FatVolume::Fat16(f) => f.fat,
            FatVolume::Fat32(g) => g.fat,
        }
    }

    open spec fn wf(&self) -> bool {
        match self {
            FatVolume::Fat16(f) => f.wf(),
            FatVolume::Fat32(g) => g.wf(),
        }
    }

    open spec fn root_chunks(&self) -> Seq<int> {
        match self {
            FatVolume::Fat16(f) => f.root_chunks(),
            FatVolume::Fat32(g) => g.root_chunks(),
        }
    }

    open spec fn root_chunk_bytes(&self) -> int {
        match self {
            FatVolume::Fat16(f) => f.root_chunk_bytes(),
            FatVolume::Fat32(g) => g.root_chunk_bytes(),
        }
    }

    open spec fn sp_tree_result(&self) -> Result<Seq<WalkRow>, FatError> {
        match self {
            FatVolume::Fat16(f) => f.sp_tree_result(),
            FatVolume::Fat32(g) => g.sp_tree_result(),
        }
    }

    fn info(&self) -> (r: String) {
        match self {
            FatVolume::Fat16(f) => f.info(),
            FatVolume::Fat32(g) => g.info(),
        }
    }

    fn tree(&self) -> (r: Result<Vec<TreeItem>, FatError>) {
        match self {
            FatVolume::Fat16(f) => f.tree(),
            FatVolume::Fat32(g) => g.tree(),
        }
    }
}

// ------------------------------------------------------------------
// Rendering
// ------------------------------------------------------------------

/// One indent unit per recursion depth.
pub open spec fn spec_indent(d: int) -> Seq<char>
    decreases d,
{
    if d <= 0 {
        Seq::empty()
    } else {
        spec_indent(d - 1) + "*"@
    }
}

/// Renders each tree item as its indent followed by its entry's label.
pub fn render_tree(items: &Vec<TreeItem>) -> (r: Vec<String>)
    ensures
        r@.len() == items@.len(),
        forall|j: int|
            0 <= j < items@.len() ==> (#[trigger] r@[j])@ == spec_indent(items@[j].depth as int)
                + spec_entry_label(items@[j].entry),
{
    let mut lines: Vec<String> = Vec::new();
    let mut j: usize = 0;
    let n = items.len();
    while j < n
        invariant
            j <= n,
            n == items@.len(),
            lines@.len() == j,
            forall|q: int|
                0 <= q < j ==> (#[trigger] lines@[q])@ == spec_indent(items@[q].depth as int)
                    + spec_entry_label(items@[q].entry),
        decreases n - j,
    {
        let it = &items[j];
        let mut line = String::new();
        let mut d: u64 = 0;
        proof {
            assert(line@ =~= spec_indent(0));
        }
        while d < it.depth
            invariant
                d <= it.depth,
                line@ == spec_indent(d as int),
            decreases it.depth - d,
        {
            line.append("*");
            d = d + 1;
        }
        let label = it.entry.to_string();
        line.append(label.as_str());
        lines.push(line);
        j = j + 1;
    }
    lines
}

} // verus!
