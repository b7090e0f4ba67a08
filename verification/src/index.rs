//! The stat index: digests of the tree's files, the epoch over them, and the frame the index
//! is stored in.

use crate::codec::{blake3_hex, is_hex_digit, ContentHasher};
use crate::order::{rank_less, views, Ranked};
use crate::ordmap::{
    entry_views, keys_ascend, law_stored_reads_back, lemma_slot, lookup, slot, stored, OrdMap,
};
use crate::paths::{path_rank, TreePath};
use crate::text::{lossy, lossy_text, slice_copy};
use crate::walk::{lang_of, lang_tag};
use vstd::prelude::*;
use vstd::string::*;
use vstd::utf8::*;

verus! {

/// What is known of one file.
#[derive(Debug, Clone)]
pub struct IndexEntry {
    pub size: u64,
    pub mtime_ns: i128,
    pub hash: String,
    pub lang: String,
}

/// What an [`IndexEntry`] says.
pub struct IndexEntryView {
    pub size: u64,
    pub mtime_ns: i128,
    pub hash: Seq<char>,
    pub lang: Seq<char>,
}

impl View for IndexEntry {
    type V = IndexEntryView;

    open spec fn view(&self) -> IndexEntryView {
        IndexEntryView {
            size: self.size,
            mtime_ns: self.mtime_ns,
            hash: self.hash@,
            lang: self.lang@,
        }
    }
}

/// The index: a generation that grows with every save, and an entry per file.
#[derive(Debug)]
pub struct StatIndex {
    pub generation: u64,
    pub entries: OrdMap<TreePath, IndexEntry>,
}

/// The frame's magic, `VCIX`.
pub open spec fn index_magic() -> Seq<u8> {
    seq![86u8, 67, 73, 88]
}

/// The frame's format version, little-endian.
pub open spec fn index_version() -> Seq<u8> {
    seq![2u8, 0, 0, 0]
}

/// The stored form of an index body.
pub open spec fn framed(body: Seq<u8>) -> Seq<u8> {
    index_magic() + index_version() + body
}

/// The body in stored bytes, when they carry the magic and the version.
pub open spec fn unframed(bytes: Seq<u8>) -> Option<Seq<u8>> {
    if bytes.len() >= 8 && bytes.take(4) == index_magic() && bytes.subrange(4, 8)
        == index_version() {
        Some(bytes.skip(8))
    } else {
        None
    }
}

/// What is stored is read back, and nothing else is taken for an index.
pub proof fn law_frame_reads_back(body: Seq<u8>, bytes: Seq<u8>)
    ensures
        unframed(framed(body)) == Some(body),
        unframed(bytes) is Some ==> bytes == framed(unframed(bytes)->0),
{
    let f = framed(body);
    assert(f.take(4) =~= index_magic());
    assert(f.subrange(4, 8) =~= index_version());
    assert(f.skip(8) =~= body);
    if unframed(bytes) is Some {
        assert(bytes =~= bytes.take(4) + bytes.subrange(4, 8) + bytes.skip(8));
    }
}

/// The entries from `i` on, each stored into `done`.
pub open spec fn collected_from(
    list: Seq<(Seq<u8>, IndexEntryView)>,
    i: int,
    done: Seq<(Seq<u8>, IndexEntryView)>,
) -> Seq<(Seq<u8>, IndexEntryView)>
    decreases list.len() - i,
{
    if i >= list.len() {
        done
    } else {
        collected_from(
            list,
            i + 1,
            stored::<TreePath, IndexEntryView>(done, list[i].0, list[i].1),
        )
    }
}

proof fn lemma_collected(list: Seq<(Seq<u8>, IndexEntryView)>, i: int)
    requires
        keys_ascend::<TreePath, IndexEntryView>(list),
        0 <= i <= list.len(),
    ensures
        collected_from(list, i, list.take(i)) == list,
    decreases list.len() - i,
{
    if i < list.len() {
        let done = list.take(i);
        if i > 0 {
            assert(done.last() == list[i - 1]);
            assert(rank_less(
                TreePath::rank_at(list[i - 1].0),
                TreePath::rank_at(list[i].0),
            ));
        }
        assert(slot::<TreePath, IndexEntryView>(done, path_rank(list[i].0)) == i);
        assert(stored::<TreePath, IndexEntryView>(done, list[i].0, list[i].1) =~= list.take(i + 1));
        lemma_collected(list, i + 1);
    } else {
        assert(list.take(i) =~= list);
    }
}

/// An index whose entries are read back as they were written is the same index.
pub proof fn law_entries_collect_to_the_same_index(list: Seq<(Seq<u8>, IndexEntryView)>)
    requires
        keys_ascend::<TreePath, IndexEntryView>(list),
    ensures
        collected_from(list, 0, seq![]) == list,
{
    assert(list.take(0) =~= Seq::<(Seq<u8>, IndexEntryView)>::empty());
    lemma_collected(list, 0);
}

/// What walking the tree found of one file.
#[derive(Debug, Clone)]
pub struct FileStat {
    pub path: TreePath,
    pub size: u64,
    pub mtime_ns: i128,
    /// The digest of the contents; it counts only where the index does not already know
    /// the file by its size and time.
    pub hash: String,
}

/// What a [`FileStat`] says.
pub struct StatView {
    pub path: Seq<u8>,
    pub size: u64,
    pub mtime_ns: i128,
    pub hash: Seq<char>,
}

impl View for FileStat {
    type V = StatView;

    open spec fn view(&self) -> StatView {
        StatView {
            path: self.path@,
            size: self.size,
            mtime_ns: self.mtime_ns,
            hash: self.hash@,
        }
    }
}

/// Whether the index already knows a file of this size and time.
pub open spec fn known(
    prev: Seq<(Seq<u8>, IndexEntryView)>,
    path: Seq<u8>,
    size: u64,
    mtime_ns: i128,
) -> bool {
    match lookup::<TreePath, IndexEntryView>(prev, path_rank(path)) {
        Some(e) => e.size == size && e.mtime_ns == mtime_ns,
        None => false,
    }
}

/// The entry of one file: what the index knows when size and time are unchanged, the fresh
/// digest and the path's language otherwise.
pub open spec fn entry_for(prev: Seq<(Seq<u8>, IndexEntryView)>, s: StatView) -> IndexEntryView {
    if known(prev, s.path, s.size, s.mtime_ns) {
        lookup::<TreePath, IndexEntryView>(prev, path_rank(s.path))->0
    } else {
        IndexEntryView {
            size: s.size,
            mtime_ns: s.mtime_ns,
            hash: s.hash,
            lang: lang_of(s.path),
        }
    }
}

/// The entries of the files from `i` on, added to `done`.
pub open spec fn entries_from(
    prev: Seq<(Seq<u8>, IndexEntryView)>,
    stats: Seq<StatView>,
    i: int,
    done: Seq<(Seq<u8>, IndexEntryView)>,
) -> Seq<(Seq<u8>, IndexEntryView)>
    decreases stats.len() - i,
{
    if i >= stats.len() {
        done
    } else {
        entries_from(
            prev,
            stats,
            i + 1,
            stored::<TreePath, IndexEntryView>(done, stats[i].path, entry_for(prev, stats[i])),
        )
    }
}

/// What the epoch is the digest of: per file its path, a zero byte, its digest and a line
/// feed.
pub open spec fn epoch_input(entries: Seq<(Seq<u8>, IndexEntryView)>) -> Seq<u8>
    decreases entries.len(),
{
    if entries.len() == 0 {
        seq![]
    } else {
        let (path, e) = entries.last();
        epoch_input(entries.drop_last()) + encode_utf8(lossy_text(path)) + seq![0u8] + encode_utf8(
            e.hash,
        ) + seq![10u8]
    }
}

/// The epoch of an index.
pub open spec fn epoch_of(entries: Seq<(Seq<u8>, IndexEntryView)>) -> Seq<char> {
    blake3_hex(epoch_input(entries))
}

/// Where the short form of an epoch ends: after eight bytes, or at the end.
pub open spec fn epoch_cut(epoch: Seq<char>) -> int {
    if encode_utf8(epoch).len() < 8 {
        encode_utf8(epoch).len() as int
    } else {
        8
    }
}

/// The first eight bytes of an epoch, or all of a shorter one.
pub open spec fn short_epoch(epoch: Seq<char>) -> Seq<char> {
    decode_utf8(encode_utf8(epoch).take(epoch_cut(epoch)))
}

/// Whether an epoch can be cut there: not inside of a character.
pub open spec fn can_cut(epoch: Seq<char>) -> bool {
    is_char_boundary(encode_utf8(epoch), epoch_cut(epoch))
}

/// An epoch of ASCII characters can be cut, and its short form is its first eight.
proof fn lemma_ascii_epoch(epoch: Seq<char>)
    requires
        is_ascii_chars(epoch),
    ensures
        can_cut(epoch),
        epoch.len() >= 8 ==> short_epoch(epoch) == epoch.take(8),
        epoch.len() < 8 ==> short_epoch(epoch) == epoch,
{
    is_ascii_chars_encode_utf8(epoch);
    encode_utf8_valid_utf8(epoch);
    is_char_boundary_start_end_of_seq(encode_utf8(epoch));
    if epoch.len() >= 8 {
        let head = epoch.take(8);
        is_ascii_chars_encode_utf8(head);
        assert(encode_utf8(epoch).take(8) =~= encode_utf8(head));
        encode_utf8_decode_utf8(head);
        if epoch.len() > 8 {
            is_char_boundary_iff_not_is_continuation_byte(encode_utf8(epoch), 8);
            assert(encode_utf8(epoch)[8] == epoch[8] as u8);
            assert(epoch[8] as nat <= 127);
            utf8_byte_ranges_bitwise(encode_utf8(epoch)[8]);
        }
    } else {
        assert(encode_utf8(epoch).take(epoch_cut(epoch)) =~= encode_utf8(epoch));
        encode_utf8_decode_utf8(epoch);
    }
}

impl StatIndex {
    /// An index of nothing.
    pub fn empty() -> (ix: Self)
        ensures
            ix.generation == 0,
            ix.entries.wf(),
            ix.entries@.len() == 0,
    {
        StatIndex { generation: 0, entries: OrdMap::new() }
    }

    /// The index of this generation with these entries; of two for one path the later counts.
    pub fn collect(generation: u64, list: Vec<(TreePath, IndexEntry)>) -> (ix: Self)
        ensures
            ix.generation == generation,
            ix.entries.wf(),
            ix.entries@ == collected_from(entry_views(list@), 0, seq![]),
            keys_ascend::<TreePath, IndexEntryView>(entry_views(list@)) ==> ix.entries@
                == entry_views(list@),
    {
        let mut entries: OrdMap<TreePath, IndexEntry> = OrdMap::new();
        let ghost lv = entry_views(list@);
        let mut i: usize = 0;
        while i < list.len()
            invariant
                i <= list.len(),
                lv == entry_views(list@),
                entries.wf(),
                collected_from(lv, 0, seq![]) == collected_from(lv, i as int, entries@),
            decreases list.len() - i,
        {
            let (path, e) = &list[i];
            assert(lv[i as int] == (path@, e@));
            let copy = IndexEntry {
                size: e.size,
                mtime_ns: e.mtime_ns,
                hash: e.hash.clone(),
                lang: e.lang.clone(),
            };
            entries.insert(path.copy(), copy);
            i = i + 1;
        }
        proof {
            if keys_ascend::<TreePath, IndexEntryView>(lv) {
                law_entries_collect_to_the_same_index(lv);
            }
        }
        StatIndex { generation, entries }
    }

    /// The body in stored bytes; nothing when they are not an index of this format, which
    /// is then rebuilt.
    pub fn load(bytes: &[u8]) -> (body: Option<Vec<u8>>)
        ensures
            match body {
                Some(b) => unframed(bytes@) == Some(b@),
                None => unframed(bytes@) is None,
            },
    {
        if bytes.len() < 8 {
            return None;
        }
        if bytes[0] == 86 && bytes[1] == 67 && bytes[2] == 73 && bytes[3] == 88 && bytes[4] == 2
            && bytes[5] == 0 && bytes[6] == 0 && bytes[7] == 0 {
            assert(bytes@.take(4) =~= index_magic());
            assert(bytes@.subrange(4, 8) =~= index_version());
            let body = slice_copy(bytes, 8, bytes.len());
            assert(body@ =~= bytes@.skip(8));
            Some(body)
        } else {
            proof {
                if bytes@.take(4) == index_magic() && bytes@.subrange(4, 8) == index_version() {
                    assert(bytes@.take(4)[0] == 86 && bytes@.take(4)[1] == 67);
                    assert(bytes@.take(4)[2] == 73 && bytes@.take(4)[3] == 88);
                    assert(bytes@.subrange(4, 8)[0] == 2 && bytes@.subrange(4, 8)[1] == 0);
                    assert(bytes@.subrange(4, 8)[2] == 0 && bytes@.subrange(4, 8)[3] == 0);
                }
            }
            None
        }
    }

    /// Moves the index to its next generation, the one it is stored as. There has to be
    /// one.
    pub fn bump(&mut self)
        requires
            old(self).generation < u64::MAX,
        ensures
            final(self).generation == old(self).generation + 1,
            final(self).entries == old(self).entries,
    {
        self.generation = self.generation + 1;
    }

    /// The stored form of an encoded index.
    pub fn save(body: &[u8]) -> (bytes: Vec<u8>)
        ensures
            bytes@ == framed(body@),
    {
        let mut bytes: Vec<u8> = vec![86, 67, 73, 88, 2, 0, 0, 0];
        bytes.extend_from_slice(body);
        assert(bytes@ =~= framed(body@));
        bytes
    }

    /// Whether the digest of a file can be taken from the index.
    pub fn knows(&self, path: &TreePath, size: u64, mtime_ns: i128) -> (yes: bool)
        requires
            self.entries.wf(),
        ensures
            yes == known(self.entries@, path@, size, mtime_ns),
    {
        match self.entries.get(path) {
            Some(e) => e.size == size && e.mtime_ns == mtime_ns,
            None => false,
        }
    }

    /// The epoch over the entries.
    pub fn epoch(&self) -> (epoch: String)
        ensures
            epoch@ == epoch_of(self.entries@),
            epoch@.len() == 64,
            is_ascii_chars(epoch@),
    {
        let mut h = ContentHasher::new();
        let ghost ev = self.entries@;
        let zero: Vec<u8> = vec![0];
        let feed: Vec<u8> = vec![10];
        assert(zero@ =~= seq![0u8]);
        assert(feed@ =~= seq![10u8]);
        let mut i: usize = 0;
        assert(ev.take(0) =~= Seq::<(Seq<u8>, IndexEntryView)>::empty());
        while i < self.entries.entries.len()
            invariant
                i <= self.entries.entries.len(),
                ev == self.entries@,
                zero@ == seq![0u8],
                feed@ == seq![10u8],
                h.taken() == epoch_input(ev.take(i as int)),
            decreases self.entries.entries.len() - i,
        {
            let entry = &self.entries.entries[i];
            proof {
                assert(ev.take(i + 1).drop_last() =~= ev.take(i as int));
                assert(ev.take(i + 1).last() == (entry.0@, entry.1@));
            }
            let name = lossy(entry.0.raw.as_slice());
            h.update(name.as_str().as_bytes());
            h.update(zero.as_slice());
            h.update(entry.1.hash.as_str().as_bytes());
            h.update(feed.as_slice());
            i = i + 1;
        }
        assert(ev.take(ev.len() as int) =~= ev);
        let epoch = h.finish();
        assert forall|i: int| 0 <= i < epoch@.len() implies '\0' <= #[trigger] epoch@[i]
            <= '\u{7f}' by {
            assert(is_hex_digit(epoch@[i]));
        }
        epoch
    }
}

/// The index over the files found, carried over from `prev` where size and time are
/// unchanged, and its epoch. It still has the generation of `prev`.
pub fn refresh(prev: &StatIndex, stats: &Vec<FileStat>) -> (r: (StatIndex, String))
    requires
        prev.entries.wf(),
    ensures
        r.0.generation == prev.generation,
        r.0.entries.wf(),
        r.0.entries@ == entries_from(prev.entries@, views(stats@), 0, seq![]),
        r.1@ == epoch_of(r.0.entries@),
        r.1@.len() == 64,
        can_cut(r.1@),
        short_epoch(r.1@) == r.1@.take(8),
{
    let mut entries: OrdMap<TreePath, IndexEntry> = OrdMap::new();
    let ghost pv = prev.entries@;
    let ghost sv = views(stats@);
    let mut i: usize = 0;
    while i < stats.len()
        invariant
            i <= stats.len(),
            prev.entries.wf(),
            pv == prev.entries@,
            sv == views(stats@),
            entries.wf(),
            entries_from(pv, sv, 0, seq![]) == entries_from(pv, sv, i as int, entries@),
        decreases stats.len() - i,
    {
        let s = &stats[i];
        assert(sv[i as int] == s@);
        let e = match prev.entries.get(&s.path) {
            Some(e) if e.size == s.size && e.mtime_ns == s.mtime_ns => IndexEntry {
                size: s.size,
                mtime_ns: s.mtime_ns,
                hash: e.hash.clone(),
                lang: e.lang.clone(),
            },
            _ => IndexEntry {
                size: s.size,
                mtime_ns: s.mtime_ns,
                hash: s.hash.clone(),
                lang: lang_tag(&s.path).to_owned(),
            },
        };
        assert(e@ == entry_for(pv, s@));
        entries.insert(s.path.copy(), e);
        i = i + 1;
    }
    let ix = StatIndex { generation: prev.generation, entries };
    let epoch = ix.epoch();
    proof {
        lemma_ascii_epoch(epoch@);
    }
    (ix, epoch)
}

/// The epoch is of paths and contents alone: sizes and times do not enter into it.
pub proof fn law_epoch_is_of_paths_and_contents_alone(
    a: Seq<(Seq<u8>, IndexEntryView)>,
    b: Seq<(Seq<u8>, IndexEntryView)>,
)
    requires
        a.len() == b.len(),
        forall|k: int|
            0 <= k < a.len() ==> (#[trigger] a[k]).0 == b[k].0 && a[k].1.hash == b[k].1.hash,
    ensures
        epoch_of(a) == epoch_of(b),
{
    lemma_same_epoch_input(a, b);
}

proof fn lemma_same_epoch_input(
    a: Seq<(Seq<u8>, IndexEntryView)>,
    b: Seq<(Seq<u8>, IndexEntryView)>,
)
    requires
        a.len() == b.len(),
        forall|k: int|
            0 <= k < a.len() ==> (#[trigger] a[k]).0 == b[k].0 && a[k].1.hash == b[k].1.hash,
    ensures
        epoch_input(a) == epoch_input(b),
    decreases a.len(),
{
    if a.len() > 0 {
        let ar = a.drop_last();
        let br = b.drop_last();
        assert forall|k: int| 0 <= k < ar.len() implies (#[trigger] ar[k]).0 == br[k].0
            && ar[k].1.hash == br[k].1.hash by {
            assert(ar[k] == a[k] && br[k] == b[k]);
        }
        lemma_same_epoch_input(ar, br);
        assert(a.last() == a[a.len() - 1]);
        assert(b.last() == b[b.len() - 1]);
    }
}

/// A change of contents enters into what the epoch is the digest of: over the same files,
/// with digests of one length, two epochs are digests of the same bytes only when every
/// digest is the same.
pub proof fn law_epoch_input_tells_contents_apart(
    a: Seq<(Seq<u8>, IndexEntryView)>,
    b: Seq<(Seq<u8>, IndexEntryView)>,
)
    requires
        a.len() == b.len(),
        forall|k: int|
            0 <= k < a.len() ==> (#[trigger] a[k]).0 == b[k].0 && encode_utf8(a[k].1.hash).len()
                == encode_utf8(b[k].1.hash).len(),
        epoch_input(a) == epoch_input(b),
    ensures
        forall|k: int| 0 <= k < a.len() ==> (#[trigger] a[k]).1.hash == b[k].1.hash,
    decreases a.len(),
{
    if a.len() > 0 {
        let n = a.len() - 1;
        let ar = a.drop_last();
        let br = b.drop_last();
        assert forall|k: int| 0 <= k < ar.len() implies (#[trigger] ar[k]).0 == br[k].0
            && encode_utf8(ar[k].1.hash).len() == encode_utf8(br[k].1.hash).len() by {
            assert(ar[k] == a[k] && br[k] == b[k]);
        }
        let ha = encode_utf8(a[n].1.hash);
        let hb = encode_utf8(b[n].1.hash);
        let head = encode_utf8(lossy_text(a[n].0)) + seq![0u8];
        let ta = head + ha + seq![10u8];
        let tb = head + hb + seq![10u8];
        assert(a.last() == a[n] && b.last() == b[n]);
        assert(epoch_input(a) =~= epoch_input(ar) + ta);
        assert(epoch_input(b) =~= epoch_input(br) + tb);
        let whole = epoch_input(a);
        let cut = whole.len() - ta.len();
        assert(epoch_input(ar) =~= whole.take(cut as int));
        assert(epoch_input(br) =~= whole.take(cut as int));
        assert(ta =~= whole.skip(cut as int));
        assert(tb =~= whole.skip(cut as int));
        assert(ha =~= ta.subrange(head.len() as int, (head.len() + ha.len()) as int));
        assert(hb =~= tb.subrange(head.len() as int, (head.len() + hb.len()) as int));
        encode_utf8_decode_utf8(a[n].1.hash);
        encode_utf8_decode_utf8(b[n].1.hash);
        law_epoch_input_tells_contents_apart(ar, br);
        assert forall|k: int| 0 <= k < a.len() implies (#[trigger] a[k]).1.hash == b[k].1.hash by {
            if k < n {
                assert(ar[k] == a[k] && br[k] == b[k]);
            }
        }
    }
}

/// Whether a file was found in one way only: stats of one path are the same.
pub open spec fn found_once(stats: Seq<StatView>) -> bool {
    forall|i: int, j: int|
        #![trigger stats[i], stats[j]]
        0 <= i < stats.len() && 0 <= j < stats.len() && path_rank(stats[i].path) == path_rank(
            stats[j].path,
        ) ==> stats[i] == stats[j]
}

/// Whether one of the first `n` files found has this path.
pub open spec fn is_found(stats: Seq<StatView>, n: int, path: Seq<u8>) -> bool {
    exists|j: int| 0 <= j < n && (#[trigger] stats[j]).path == path
}

/// Whether two walks found the same files with the same sizes and times.
pub open spec fn same_files(a: Seq<StatView>, b: Seq<StatView>) -> bool {
    a.len() == b.len() && forall|i: int|
        0 <= i < a.len() ==> (#[trigger] a[i]).path == b[i].path && a[i].size == b[i].size
            && a[i].mtime_ns == b[i].mtime_ns
}

proof fn lemma_entries_read(
    prev: Seq<(Seq<u8>, IndexEntryView)>,
    stats: Seq<StatView>,
    i: int,
    done: Seq<(Seq<u8>, IndexEntryView)>,
    j: int,
)
    requires
        found_once(stats),
        keys_ascend::<TreePath, IndexEntryView>(done),
        0 <= i <= stats.len(),
        0 <= j < stats.len(),
        j < i ==> lookup::<TreePath, IndexEntryView>(done, path_rank(stats[j].path)) == Some(
            entry_for(prev, stats[j]),
        ),
    ensures
        keys_ascend::<TreePath, IndexEntryView>(entries_from(prev, stats, i, done)),
        lookup::<TreePath, IndexEntryView>(
            entries_from(prev, stats, i, done),
            path_rank(stats[j].path),
        ) == Some(entry_for(prev, stats[j])),
    decreases stats.len() - i,
{
    if i < stats.len() {
        let e = entry_for(prev, stats[i]);
        law_stored_reads_back::<TreePath, IndexEntryView>(
            done,
            stats[i].path,
            e,
            path_rank(stats[j].path),
        );
        lemma_entries_read(
            prev,
            stats,
            i + 1,
            stored::<TreePath, IndexEntryView>(done, stats[i].path, e),
            j,
        );
    }
}

/// Whether every key is the path of one of the first `n` files found.
pub open spec fn keys_found(
    stats: Seq<StatView>,
    n: int,
    entries: Seq<(Seq<u8>, IndexEntryView)>,
) -> bool {
    forall|k: int| 0 <= k < entries.len() ==> is_found(stats, n, (#[trigger] entries[k]).0)
}

proof fn lemma_found_later(stats: Seq<StatView>, n: int, path: Seq<u8>)
    requires
        is_found(stats, n, path),
    ensures
        is_found(stats, n + 1, path),
{
    let j = choose|j: int| 0 <= j < n && (#[trigger] stats[j]).path == path;
    assert(0 <= j < n + 1 && stats[j].path == path);
}

/// Storing the entry of a file adds no other key.
proof fn lemma_stored_keys(
    stats: Seq<StatView>,
    i: int,
    done: Seq<(Seq<u8>, IndexEntryView)>,
    e: IndexEntryView,
)
    requires
        keys_ascend::<TreePath, IndexEntryView>(done),
        0 <= i < stats.len(),
        keys_found(stats, i, done),
    ensures
        keys_found(
            stats,
            i + 1,
            stored::<TreePath, IndexEntryView>(done, stats[i].path, e),
        ),
{
    let r = path_rank(stats[i].path);
    let next = stored::<TreePath, IndexEntryView>(done, stats[i].path, e);
    let at = slot::<TreePath, IndexEntryView>(done, r) as int;
    lemma_slot::<TreePath, IndexEntryView>(done, r);
    assert forall|k: int| 0 <= k < next.len() implies is_found(
        stats,
        i + 1,
        (#[trigger] next[k]).0,
    ) by {
        if next.len() != done.len() && k == at {
            assert(stats[i].path == next[k].0);
        } else {
            let old_k = if next.len() == done.len() || k < at {
                k
            } else {
                k - 1
            };
            assert(next[k].0 == done[old_k].0);
            lemma_found_later(stats, i, done[old_k].0);
        }
    }
}

proof fn lemma_entries_keys(
    prev: Seq<(Seq<u8>, IndexEntryView)>,
    stats: Seq<StatView>,
    i: int,
    done: Seq<(Seq<u8>, IndexEntryView)>,
)
    requires
        keys_ascend::<TreePath, IndexEntryView>(done),
        0 <= i <= stats.len(),
        keys_found(stats, i, done),
    ensures
        keys_ascend::<TreePath, IndexEntryView>(entries_from(prev, stats, i, done)),
        keys_found(stats, stats.len() as int, entries_from(prev, stats, i, done)),
    decreases stats.len() - i,
{
    if i < stats.len() {
        let path = stats[i].path;
        let e = entry_for(prev, stats[i]);
        law_stored_reads_back::<TreePath, IndexEntryView>(done, path, e, path_rank(path));
        lemma_stored_keys(stats, i, done, e);
        lemma_entries_keys(
            prev,
            stats,
            i + 1,
            stored::<TreePath, IndexEntryView>(done, path, e),
        );
    }
}

proof fn lemma_entries_again(
    prev: Seq<(Seq<u8>, IndexEntryView)>,
    stats: Seq<StatView>,
    again: Seq<StatView>,
    i: int,
    done: Seq<(Seq<u8>, IndexEntryView)>,
)
    requires
        found_once(stats),
        same_files(stats, again),
        0 <= i <= stats.len(),
    ensures
        entries_from(entries_from(prev, stats, 0, seq![]), again, i, done) == entries_from(
            prev,
            stats,
            i,
            done,
        ),
    decreases stats.len() - i,
{
    if i < stats.len() {
        let ix = entries_from(prev, stats, 0, seq![]);
        lemma_entries_read(prev, stats, 0, seq![], i);
        assert(stats[i].path == again[i].path);
        assert(entry_for(ix, again[i]) == entry_for(prev, stats[i]));
        lemma_entries_again(
            prev,
            stats,
            again,
            i + 1,
            stored::<TreePath, IndexEntryView>(done, stats[i].path, entry_for(prev, stats[i])),
        );
    }
}

/// Refreshing the index of a tree that did not change since the last refresh gives the same
/// entries and the same epoch, whatever else the second walk says of the contents: files of
/// the same size and time are not read again. The entries are those of the files found, no
/// more and no fewer.
pub proof fn law_a_second_refresh_changes_nothing(
    prev: Seq<(Seq<u8>, IndexEntryView)>,
    stats: Seq<StatView>,
    again: Seq<StatView>,
)
    requires
        found_once(stats),
        same_files(stats, again),
    ensures
        ({
            let first = entries_from(prev, stats, 0, seq![]);
            let second = entries_from(first, again, 0, seq![]);
            &&& second == first
            &&& epoch_of(second) == epoch_of(first)
            &&& forall|j: int|
                0 <= j < stats.len() ==> lookup::<TreePath, IndexEntryView>(
                    first,
                    path_rank((#[trigger] stats[j]).path),
                ) == Some(entry_for(prev, stats[j]))
            &&& keys_found(stats, stats.len() as int, first)
        }),
{
    lemma_entries_again(prev, stats, again, 0, seq![]);
    lemma_entries_keys(prev, stats, 0, seq![]);
    assert forall|j: int| 0 <= j < stats.len() implies lookup::<TreePath, IndexEntryView>(
        entries_from(prev, stats, 0, seq![]),
        path_rank((#[trigger] stats[j]).path),
    ) == Some(entry_for(prev, stats[j])) by {
        lemma_entries_read(prev, stats, 0, seq![], j);
    }
}

/// The short form of an epoch.
pub fn epoch8(epoch: &str) -> (short: &str)
    requires
        can_cut(epoch@),
    ensures
        short@ == short_epoch(epoch@),
{
    let total: usize = epoch.as_bytes().len();
    let cut: usize = if total < 8 {
        total
    } else {
        8
    };
    let (short, _) = epoch.split_at(cut);
    proof {
        encode_utf8_decode_utf8(short@);
        assert(encode_utf8(epoch@).subrange(0, cut as int) =~= encode_utf8(epoch@).take(
            cut as int,
        ));
    }
    short
}

/// The epoch is the digest of every file's path and digest, in order.
pub proof fn law_the_epoch_covers_every_file(entries: Seq<(Seq<u8>, IndexEntryView)>)
    ensures
        epoch_input(entries) == entries.map_values(
            |e: (Seq<u8>, IndexEntryView)|
                encode_utf8(lossy_text(e.0)) + seq![0u8] + encode_utf8(e.1.hash) + seq![10u8],
        ).flatten(),
    decreases entries.len(),
{
    let f = |e: (Seq<u8>, IndexEntryView)|
        encode_utf8(lossy_text(e.0)) + seq![0u8] + encode_utf8(e.1.hash) + seq![10u8];
    let all = entries.map_values(f);
    all.lemma_flatten_and_flatten_alt_are_equivalent();
    if entries.len() > 0 {
        law_the_epoch_covers_every_file(entries.drop_last());
        all.drop_last().lemma_flatten_and_flatten_alt_are_equivalent();
        assert(all.drop_last() =~= entries.drop_last().map_values(f));
        assert(epoch_input(entries) =~= all.drop_last().flatten() + f(entries.last()));
    }
}

/// A digest is taken anew for every file that the index does not know by both its size and
/// its time, and kept for every other; either way the entry has the file's size and time.
pub proof fn law_a_changed_file_is_digested_anew(
    prev: Seq<(Seq<u8>, IndexEntryView)>,
    s: StatView,
)
    ensures
        entry_for(prev, s).size == s.size,
        entry_for(prev, s).mtime_ns == s.mtime_ns,
        match lookup::<TreePath, IndexEntryView>(prev, path_rank(s.path)) {
            Some(e) => entry_for(prev, s).hash == if e.size == s.size && e.mtime_ns == s.mtime_ns {
                e.hash
            } else {
                s.hash
            },
            None => entry_for(prev, s).hash == s.hash && entry_for(prev, s).lang == lang_of(s.path),
        },
{
}

/// The short form of an epoch is its first eight characters, or all of a shorter one.
pub proof fn law_a_short_epoch_is_the_first_eight_characters(epoch: Seq<char>)
    requires
        is_ascii_chars(epoch),
    ensures
        short_epoch(epoch) == epoch.take(
            if epoch.len() < 8 {
                epoch.len() as int
            } else {
                8
            },
        ),
{
    lemma_ascii_epoch(epoch);
}

} // verus!
