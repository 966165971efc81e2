//! The log-structured storage engine.
//!
//! The store keeps every segment's bytes in memory and reports the file
//! operations a caller must mirror onto disk; `open` takes the mirrored
//! files back and replays them.  The well-formedness invariant ties the
//! index to the segment bytes: replaying the segments in order rebuilds
//! exactly the live index and the stale-byte counter, and every index
//! entry points at the well-formed `Put` record that wrote its value.

use crate::codec::{
    copy_range, decode_entry, encode_entry, encoded, encoded_len_fits, lemma_encoded_parse,
    lemma_parse_entry_local, parse_entry, string_from_utf8,
};
use crate::entry::{Entry, EntryOffset, EntryView};
use crate::error::Error;
use crate::index::{
    index_entries, index_entries_vec, index_get, index_insert, index_new, index_remove, IndexMap,
};
use crate::log::{
    add_sat, init_rstate, lemma_parse_log_append, lemma_replay_files_concat,
    lemma_replay_files_origin, lemma_replay_records_push, live_entry_in, model_of, parse_log,
    replay_files, replay_records, rstep, LiveEntry, LogRecord, RState,
};
use crate::numeral::lemma_pow10_20;
use vstd::prelude::*;
use vstd::string::StringExecFns;
use vstd::utf8::{
    encode_utf8, encode_utf8_decode_utf8, decode_utf8, is_ascii_chars, is_ascii_chars_encode_utf8,
    is_leading_byte_width_1, partial_valid_utf8, partial_valid_utf8_extend_ascii_block,
    valid_utf8,
};

verus! {

/// Stale bytes past this threshold trigger an inline compaction.
pub const COMPACTION_THRESHOLD: u64 = 1024 * 1024;

/// One segment: its id and the bytes of its log file `<id>.log`.
#[derive(Clone)]
pub struct Segment {
    pub id: u32,
    pub data: Vec<u8>,
}

/// A file operation for the caller to mirror onto disk, in order.
pub enum FileOp {
    Create { id: u32 },
    Append { id: u32, bytes: Vec<u8> },
    Delete { id: u32 },
}

/// The mathematical shape of a file operation.
pub enum FileOpView {
    Create { id: u32 },
    Append { id: u32, bytes: Seq<u8> },
    Delete { id: u32 },
}

impl View for FileOp {
    type V = FileOpView;

    open spec fn view(&self) -> FileOpView {
        match self {
            FileOp::Create { id } => FileOpView::Create { id: *id },
            FileOp::Append { id, bytes } => FileOpView::Append { id: *id, bytes: bytes@ },
            FileOp::Delete { id } => FileOpView::Delete { id: *id },
        }
    }
}

/// The view of a segment list: `(id, bytes)` pairs in order.
pub open spec fn views_of(segs: Seq<Segment>) -> Seq<(u32, Seq<u8>)> {
    segs.map_values(|s: Segment| (s.id, s.data@))
}

/// The offsets of a live index, as the in-memory index stores them.
pub open spec fn offs_of(live: Map<Seq<char>, LiveEntry>) -> Map<Seq<char>, (u32, u64, u64)> {
    live.map_values(|e: LiveEntry| (e.fid, e.start as u64, e.end as u64))
}

/// Live offsets fit the index's 64-bit fields.
pub open spec fn live_bounds(live: Map<Seq<char>, LiveEntry>) -> bool {
    forall|k: Seq<char>|
        #[trigger] live.dom().contains(k) ==> 0 <= live[k].start <= live[k].end <= u64::MAX
}

/// The storage engine over in-memory segment images.
pub struct KvStore {
    segments: Vec<Segment>,
    index: IndexMap,
    active_id: u32,
    uncompacted: u64,
    last_retired: u32,
    pending: Vec<FileOp>,
    live: Ghost<Map<Seq<char>, LiveEntry>>,
}

impl KvStore {
    /// The store's segments as `(id, bytes)` pairs, oldest first.
    pub closed spec fn files(&self) -> Seq<(u32, Seq<u8>)> {
        views_of(self.segments@)
    }

    /// The observable contents: each present key to its current value.
    pub closed spec fn model(&self) -> Map<Seq<char>, Seq<char>> {
        model_of(self.live@)
    }

    /// The id of the active segment, the sole target of appends.
    pub closed spec fn spec_active_id(&self) -> u32 {
        self.active_id
    }

    /// The stale-byte counter.
    pub closed spec fn spec_uncompacted(&self) -> u64 {
        self.uncompacted
    }

    /// The watermark: every segment with a smaller id has been retired.
    pub closed spec fn spec_last_retired(&self) -> u32 {
        self.last_retired
    }

    /// The byte length of the record that holds `key`'s current value.
    pub closed spec fn record_len(&self, key: Seq<char>) -> int {
        self.live@[key].end - self.live@[key].start
    }

    /// Where `key`'s current record lies: its segment id and the byte
    /// range `[start, end)` within that segment.
    pub closed spec fn spec_offset(&self, key: Seq<char>) -> (u32, int, int) {
        (self.live@[key].fid, self.live@[key].start, self.live@[key].end)
    }

    /// File operations not yet handed to the caller.
    pub closed spec fn pending_ops(&self) -> Seq<FileOpView> {
        self.pending@.map_values(|op: FileOp| op@)
    }

    /// Well-formedness: segment ids ascend and end at the active id; no
    /// segment predates the watermark; replaying the segments in order
    /// rebuilds exactly the live index and the stale counter; the
    /// in-memory index mirrors the live index; and every live entry
    /// points at the well-formed `Put` record that wrote it.
    pub closed spec fn wf(&self) -> bool {
        let n = self.segments@.len() as int;
        &&& n >= 1
        &&& (forall|i: int, j: int|
            0 <= i < j < n ==> (#[trigger] self.segments@[i]).id < (
            #[trigger] self.segments@[j]).id)
        &&& (forall|i: int| 0 <= i < n ==> 1 <= (#[trigger] self.segments@[i]).id)
        &&& (forall|i: int|
            0 <= i < n ==> self.last_retired <= (#[trigger] self.segments@[i]).id)
        &&& self.segments@[n - 1].id == self.active_id
        &&& self.live@.dom().finite()
        &&& live_bounds(self.live@)
        &&& replay_files(init_rstate(), self.files()) == Some(
            RState { live: self.live@, stale: self.uncompacted },
        )
        &&& index_entries(self.index) == offs_of(self.live@)
        &&& (forall|k: Seq<char>|
            #[trigger] self.live@.dom().contains(k) ==> live_entry_in(
                self.files(),
                k,
                self.live@[k],
            ))
    }
}

/// What one compaction run leaves behind, stated from the state it ran
/// on: `pre_files`, `pre_pending` and `pre_active` name that state's
/// files, queued operations and active id, and `m` its contents.  The
/// output segment `C = pre_active + 1` holds one record per key of `m`,
/// each lying at exactly the range the index now names for its key; the
/// new active segment `N = C + 1` is empty; the counter is reset;
/// and the queued operations grow by the creation of `C`, its bytes, the
/// creation of `N`, and one deletion per pre-compaction file, in that
/// order.
pub open spec fn compaction_outcome(
    pre_files: Seq<(u32, Seq<u8>)>,
    pre_pending: Seq<FileOpView>,
    pre_active: u32,
    m: Map<Seq<char>, Seq<char>>,
    post: KvStore,
) -> bool {
    let recs = parse_log(post.files()[0].1, 0);
    &&& post.spec_last_retired() == pre_active + 1
    &&& post.spec_active_id() == pre_active + 2
    &&& post.spec_uncompacted() == 0
    &&& post.files().len() == 2
    &&& post.files()[0].0 == pre_active + 1
    &&& post.files()[1].0 == pre_active + 2
    &&& post.files()[1].1.len() == 0
    &&& recs is Some
    &&& (forall|j: int|
        0 <= j < recs->Some_0.len() ==> ((#[trigger] recs->Some_0[j].rec) matches EntryView::Put {
            key,
            val,
        } && m.dom().contains(key) && m[key] == val))
    &&& (forall|j1: int, j2: int|
        0 <= j1 < j2 < recs->Some_0.len() ==> (#[trigger] recs->Some_0[j1].rec)->Put_key != (
        #[trigger] recs->Some_0[j2].rec)->Put_key)
    &&& (forall|k: Seq<char>|
        #[trigger] m.dom().contains(k) ==> exists|j: int|
            0 <= j < recs->Some_0.len() && (#[trigger] recs->Some_0[j].rec) == (EntryView::Put {
                key: k,
                val: m[k],
            }) && recs->Some_0[j].start == post.spec_offset(k).1 && recs->Some_0[j].end
                == post.spec_offset(k).2)
    &&& post.pending_ops() == pre_pending + seq![
        FileOpView::Create { id: (pre_active + 1) as u32 },
        FileOpView::Append { id: (pre_active + 1) as u32, bytes: post.files()[0].1 },
        FileOpView::Create { id: (pre_active + 2) as u32 },
    ] + pre_files.map_values(|f: (u32, Seq<u8>)| FileOpView::Delete { id: f.0 })
}

/// Saturating add on the stale counter.
fn add_sat_u64(a: u64, b: u64) -> (r: u64)
    ensures
        r == add_sat(a, b as int),
{
    if a <= u64::MAX - b {
        a + b
    } else {
        u64::MAX
    }
}

/// Replays one segment's records into the index, returning the updated
/// stale count and live index; `CorruptLog` when the segment is not a
/// well-formed log.
fn replay_segment(
    seg: &Segment,
    index: &mut IndexMap,
    stale: u64,
    live: Ghost<Map<Seq<char>, LiveEntry>>,
) -> (r: Result<(u64, Ghost<Map<Seq<char>, LiveEntry>>), Error>)
    requires
        index_entries(*old(index)) == offs_of(live@),
        live_bounds(live@),
        live@.dom().finite(),
    ensures
        match r {
            Ok((stale2, live2)) => {
                &&& parse_log(seg.data@, 0) is Some
                &&& replay_records(
                    RState { live: live@, stale },
                    seg.id,
                    parse_log(seg.data@, 0)->Some_0,
                ) == (RState { live: live2@, stale: stale2 })
                &&& index_entries(*final(index)) == offs_of(live2@)
                &&& live_bounds(live2@)
                &&& live2@.dom().finite()
            },
            Err(e) => e == Error::CorruptLog && parse_log(seg.data@, 0) is None,
        },
{
    let data = &seg.data;
    let n = data.len();
    let mut stale2 = stale;
    let ghost mut live2 = live@;
    let ghost mut done: Seq<LogRecord> = Seq::empty();
    let mut pos: usize = 0;
    while pos < n
        invariant
            pos <= n,
            n == data@.len(),
            data@ == seg.data@,
            index_entries(*index) == offs_of(live2),
            live_bounds(live2),
            live2.dom().finite(),
            replay_records(RState { live: live@, stale }, seg.id, done) == (RState {
                live: live2,
                stale: stale2,
            }),
            match parse_log(data@, pos as int) {
                None => parse_log(data@, 0) is None,
                Some(rest) => parse_log(data@, 0) == Some(done + rest),
            },
        decreases n - pos,
    {
        match decode_entry(data, pos) {
            Err(e) => {
                return Err(e);
            },
            Ok((entry, len_e)) => {
                let start = pos;
                let end = pos + len_e;
                let ghost rec = LogRecord { rec: entry@, start: start as int, end: end as int };
                let ghost done0 = done;
                let ghost live0 = live2;
                let ghost stale0 = stale2;
                match &entry {
                    Entry::Put { key, val } => {
                        let old_off = index_get(index, key);
                        if let Some(off) = old_off {
                            stale2 = add_sat_u64(stale2, off.2 - off.1);
                        }
                        index_insert(index, key.clone(), (seg.id, start as u64, end as u64));
                        proof {
                            live2 = live2.insert(
                                key@,
                                LiveEntry {
                                    fid: seg.id,
                                    start: start as int,
                                    end: end as int,
                                    val: val@,
                                },
                            );
                            assert(index_entries(*index) =~= offs_of(live2));
                        }
                    },
                    Entry::Rm { key } => {
                        let old_off = index_remove(index, key);
                        if let Some(off) = old_off {
                            stale2 = add_sat_u64(stale2, off.2 - off.1);
                        }
                        stale2 = add_sat_u64(stale2, len_e as u64);
                        proof {
                            live2 = live2.remove(key@);
                            assert(index_entries(*index) =~= offs_of(live2));
                        }
                    },
                }
                proof {
                    done = done0.push(rec);
                    assert(rstep(RState { live: live0, stale: stale0 }, seg.id, rec) == (RState {
                        live: live2,
                        stale: stale2,
                    }));
                    lemma_replay_records_push(RState { live: live@, stale }, seg.id, done0, rec);
                    match parse_log(data@, end as int) {
                        None => {
                            assert(parse_log(data@, pos as int) is None);
                        },
                        Some(rest2) => {
                            assert(parse_log(data@, pos as int) == Some(seq![rec] + rest2));
                            assert(done0 + (seq![rec] + rest2) =~= done + rest2);
                        },
                    }
                }
                pos = end;
            },
        }
    }
    proof {
        assert(parse_log(data@, pos as int) == Some(Seq::<LogRecord>::empty()));
        assert(done + Seq::<LogRecord>::empty() =~= done);
    }
    Ok((stale2, Ghost(live2)))
}

impl KvStore {
    /// Opens a store over the given segment files, replaying them in
    /// ascending id order into a fresh index and starting a new active
    /// segment with the next id.
    pub fn open(files: Vec<Segment>) -> (r: Result<KvStore, Error>)
        requires
            forall|i: int, j: int|
                0 <= i < j < files@.len() ==> (#[trigger] files@[i]).id < (
                #[trigger] files@[j]).id,
            forall|i: int| 0 <= i < files@.len() ==> 1 <= (#[trigger] files@[i]).id < u32::MAX,
        ensures
            match r {
                Ok(st) => {
                    &&& st.wf()
                    &&& replay_files(init_rstate(), views_of(files@)) is Some
                    &&& st.model() == model_of(
                        replay_files(init_rstate(), views_of(files@))->Some_0.live,
                    )
                    &&& st.spec_uncompacted() == replay_files(
                        init_rstate(),
                        views_of(files@),
                    )->Some_0.stale
                    &&& st.spec_active_id() == if files@.len() == 0 {
                        1u32
                    } else {
                        (files@[files@.len() - 1].id + 1) as u32
                    }
                    &&& (forall|i: int|
                        0 <= i < files@.len() ==> (#[trigger] files@[i]).id
                            < st.spec_active_id())
                    &&& st.files() == views_of(files@).push(
                        (st.spec_active_id(), Seq::<u8>::empty()),
                    )
                    &&& st.pending_ops() == seq![FileOpView::Create { id: st.spec_active_id() }]
                    &&& st.spec_last_retired() == 0
                },
                Err(e) => e == Error::CorruptLog && replay_files(
                    init_rstate(),
                    views_of(files@),
                ) is None,
            },
    {
        let ghost files0 = files@;
        let mut index = index_new();
        let ghost mut live: Map<Seq<char>, LiveEntry> = Map::empty();
        let mut stale: u64 = 0;
        let flen = files.len();
        let mut i: usize = 0;
        proof {
            assert(index_entries(index) =~= offs_of(live));
            assert(views_of(files0.take(0)) =~= Seq::<(u32, Seq<u8>)>::empty());
        }
        while i < flen
            invariant
                i <= flen,
                flen == files@.len(),
                files@ == files0,
                forall|i2: int, j2: int|
                    0 <= i2 < j2 < files0.len() ==> (#[trigger] files0[i2]).id < (
                    #[trigger] files0[j2]).id,
                forall|i2: int| 0 <= i2 < files0.len() ==> 1 <= (#[trigger] files0[i2]).id
                    < u32::MAX,
                index_entries(index) == offs_of(live),
                live_bounds(live),
                live.dom().finite(),
                replay_files(init_rstate(), views_of(files0.take(i as int))) == Some(
                    RState { live, stale },
                ),
            decreases flen - i,
        {
            let seg = &files[i];
            let res = replay_segment(seg, &mut index, stale, Ghost(live));
            match res {
                Err(e) => {
                    proof {
                        let pre = views_of(files0.take(i as int));
                        let post = views_of(files0.skip(i as int));
                        assert(views_of(files0) =~= pre + post);
                        lemma_replay_files_concat(init_rstate(), pre, post);
                        assert(post[0].1 == files0[i as int].data@);
                        assert(parse_log(post[0].1, 0) is None);
                        assert(replay_files(RState { live, stale }, post) is None);
                    }
                    return Err(e);
                },
                Ok((stale2, live2)) => {
                    proof {
                        let pre = views_of(files0.take(i as int));
                        let one = views_of(files0.take(i + 1));
                        assert(one =~= pre.push((files0[i as int].id, files0[i as int].data@)));
                        lemma_replay_files_concat(
                            init_rstate(),
                            pre,
                            seq![(files0[i as int].id, files0[i as int].data@)],
                        );
                        assert(pre + seq![(files0[i as int].id, files0[i as int].data@)] =~= one);
                        let f = (files0[i as int].id, files0[i as int].data@);
                        assert(replay_files(RState { live, stale }, seq![f]) == Some(
                            RState { live: live2@, stale: stale2 },
                        )) by {
                            assert(seq![f][0] == f);
                            assert(seq![f].drop_first() =~= Seq::<(u32, Seq<u8>)>::empty());
                            assert(f.1 == seg.data@);
                            assert(replay_records(
                                RState { live, stale },
                                f.0,
                                parse_log(f.1, 0)->Some_0,
                            ) == (RState { live: live2@, stale: stale2 }));
                            assert(replay_files(
                                RState { live: live2@, stale: stale2 },
                                Seq::<(u32, Seq<u8>)>::empty(),
                            ) == Some(RState { live: live2@, stale: stale2 }));
                        }
                    }
                    stale = stale2;
                    proof {
                        live = live2@;
                    }
                    i += 1;
                },
            }
        }
        proof {
            assert(files0.take(flen as int) =~= files0);
        }
        let new_id = if flen == 0 {
            1
        } else {
            files[flen - 1].id + 1
        };
        let mut segments = files;
        segments.push(Segment { id: new_id, data: Vec::new() });
        let mut pending: Vec<FileOp> = Vec::new();
        pending.push(FileOp::Create { id: new_id });
        let st = KvStore {
            segments,
            index,
            active_id: new_id,
            uncompacted: stale,
            last_retired: 0,
            pending,
            live: Ghost(live),
        };
        proof {
            let full = views_of(st.segments@);
            assert(full =~= views_of(files0).push((new_id, Seq::<u8>::empty())));
            lemma_replay_files_concat(
                init_rstate(),
                views_of(files0),
                seq![(new_id, Seq::<u8>::empty())],
            );
            assert(views_of(files0) + seq![(new_id, Seq::<u8>::empty())] =~= full);
            assert(replay_files(RState { live, stale }, seq![(new_id, Seq::<u8>::empty())])
                == Some(RState { live, stale })) by {
                let f = (new_id, Seq::<u8>::empty());
                assert(seq![f][0] == f);
                assert(parse_log(f.1, 0) == Some(Seq::<LogRecord>::empty()));
                assert(seq![f].drop_first() =~= Seq::<(u32, Seq<u8>)>::empty());
                assert(replay_records(RState { live, stale }, f.0, Seq::<LogRecord>::empty())
                    == (RState { live, stale }));
                assert(replay_files(RState { live, stale }, Seq::<(u32, Seq<u8>)>::empty())
                    == Some(RState { live, stale }));
            }
            lemma_replay_files_origin(init_rstate(), views_of(files0));
            assert forall|k: Seq<char>| #[trigger] st.live@.dom().contains(k) implies live_entry_in(
                st.files(),
                k,
                st.live@[k],
            ) by {
                let e = st.live@[k];
                assert(replay_files(init_rstate(), views_of(files0))->Some_0.live.dom().contains(
                    k,
                ));
                assert(live_entry_in(views_of(files0), k, e));
                let ix = choose|ix: int|
                    0 <= ix < views_of(files0).len() && (#[trigger] views_of(files0)[ix]).0
                        == e.fid && 0 <= e.start < e.end <= views_of(files0)[ix].1.len()
                        && parse_entry(views_of(files0)[ix].1.subrange(e.start, e.end)) == Some(
                        (EntryView::Put { key: k, val: e.val }, e.end - e.start),
                    );
                assert(st.files()[ix] == views_of(files0)[ix]);
            }
            assert(st.pending_ops() =~= seq![FileOpView::Create { id: new_id }]);
            assert(st.model() == model_of(
                replay_files(init_rstate(), views_of(files0))->Some_0.live,
            ));
        }
        Ok(st)
    }
}


impl KvStore {
    /// Position of the segment with id `fid` in the segment list.
    fn find_segment(&self, fid: u32) -> (r: usize)
        requires
            exists|i: int|
                0 <= i < self.segments@.len() && (#[trigger] self.segments@[i]).id == fid,
        ensures
            r < self.segments@.len(),
            self.segments@[r as int].id == fid,
    {
        let n = self.segments.len();
        let mut i: usize = 0;
        while i < n
            invariant
                i <= n,
                n == self.segments@.len(),
                exists|j: int|
                    0 <= j < self.segments@.len() && (#[trigger] self.segments@[j]).id == fid,
                forall|j: int| 0 <= j < i ==> (#[trigger] self.segments@[j]).id != fid,
            decreases n - i,
        {
            if self.segments[i].id == fid {
                return i;
            }
            i += 1;
        }
        proof {
            assert(false);
        }
        0
    }

    /// Looks `key` up: the value its latest `Put` wrote, or `None` when
    /// the key is absent or removed.
    pub fn get(&self, key: String) -> (r: Result<Option<String>, Error>)
        requires
            self.wf(),
        ensures
            r is Ok,
            match r->Ok_0 {
                Some(v) => self.model().dom().contains(key@) && v@ == self.model()[key@],
                None => !self.model().dom().contains(key@),
            },
    {
        match index_get(&self.index, &key) {
            None => {
                proof {
                    assert(!self.live@.dom().contains(key@));
                    assert(!self.model().dom().contains(key@));
                }
                Ok(None)
            },
            Some(off) => {
                proof {
                    assert(self.live@.dom().contains(key@));
                    assert(self.model().dom().contains(key@));
                    assert(self.model()[key@] == self.live@[key@].val);
                }
                let ghost e = self.live@[key@];
                proof {
                    assert(off == (e.fid, e.start as u64, e.end as u64));
                    assert(off.1 as int == e.start && off.2 as int == e.end);
                    assert(live_entry_in(self.files(), key@, e));
                }
                let si = self.find_segment(off.0);
                let seg = &self.segments[si];
                proof {
                    let ix = choose|ix: int|
                        0 <= ix < self.files().len() && (#[trigger] self.files()[ix]).0 == e.fid
                            && 0 <= e.start < e.end <= self.files()[ix].1.len() && parse_entry(
                            self.files()[ix].1.subrange(e.start, e.end),
                        ) == Some((EntryView::Put { key: key@, val: e.val }, e.end - e.start));
                    if ix != si as int {
                        assert(self.segments@[ix].id != self.segments@[si as int].id);
                        assert(false);
                    }
                    assert(seg.data@ == self.files()[si as int].1);
                    let exact = seg.data@.subrange(e.start, e.end);
                    let tail = seg.data@.subrange(e.start, seg.data@.len() as int);
                    assert(exact.subrange(0, e.end - e.start) =~= tail.subrange(
                        0,
                        e.end - e.start,
                    ));
                    lemma_parse_entry_local(exact, tail);
                    assert(seg.data@.len() <= usize::MAX) by {
                        assert(seg.data.len() == seg.data@.len());
                    }
                }
                let start = off.1 as usize;
                proof {
                    assert(start as int == e.start);
                }
                match decode_entry(&seg.data, start) {
                    Err(err) => {
                        proof {
                            assert(false);
                        }
                        Err(err)
                    },
                    Ok((entry, _n)) => {
                        match entry {
                            Entry::Put { key: _k2, val } => Ok(Some(val)),
                            Entry::Rm { key: _k2 } => {
                                proof {
                                    assert(false);
                                }
                                Ok(None)
                            },
                        }
                    },
                }
            },
        }
    }

    /// Appends one encoded record to the active segment and queues the
    /// mirroring file operation; the caller accounts for the record in
    /// the index, the live map, and the stale counter.
    #[verifier::rlimit(80)]
    fn append_active(&mut self, entry: &Entry) -> (r: (u64, u64))
        requires
            old(self).wf(),
        ensures
            ({
                let n = old(self).segments@.len() as int;
                let oldlast = old(self).segments@[n - 1];
                let enc = encoded(entry@);
                let rec = LogRecord {
                    rec: entry@,
                    start: oldlast.data@.len() as int,
                    end: oldlast.data@.len() + enc.len() as int,
                };
                &&& final(self).segments@.len() == n
                &&& (forall|i: int|
                    0 <= i < n - 1 ==> final(self).segments@[i] == old(self).segments@[i])
                &&& final(self).segments@[n - 1].id == oldlast.id
                &&& final(self).segments@[n - 1].data@ == oldlast.data@ + enc
                &&& final(self).index == old(self).index
                &&& final(self).live == old(self).live
                &&& final(self).active_id == old(self).active_id
                &&& final(self).uncompacted == old(self).uncompacted
                &&& final(self).last_retired == old(self).last_retired
                &&& final(self).pending_ops() == old(self).pending_ops().push(
                    FileOpView::Append { id: old(self).active_id, bytes: enc },
                )
                &&& r.0 == oldlast.data@.len() && r.1 == oldlast.data@.len() + enc.len()
                &&& encoded_len_fits(entry@)
                &&& 24 <= enc.len() <= u64::MAX
                &&& replay_files(init_rstate(), final(self).files()) == Some(
                    rstep(
                        RState { live: old(self).live@, stale: old(self).uncompacted },
                        old(self).active_id,
                        rec,
                    ),
                )
                &&& (forall|k: Seq<char>|
                    #[trigger] old(self).live@.dom().contains(k) ==> live_entry_in(
                        final(self).files(),
                        k,
                        old(self).live@[k],
                    ))
                &&& parse_entry(final(self).segments@[n - 1].data@.subrange(rec.start, rec.end))
                    == Some((entry@, rec.end - rec.start))
            }),
    {
        let ghost old_files = self.files();
        let ghost n = self.segments@.len() as int;
        let mut enc = encode_entry(entry);
        let enc_len = enc.len();
        proof {
            lemma_pow10_20();
            match entry@ {
                EntryView::Put { key, val } => {
                    assert(vstd::utf8::encode_utf8(key).len() <= enc@.len());
                    assert(vstd::utf8::encode_utf8(val).len() <= enc@.len());
                },
                EntryView::Rm { key } => {
                    assert(vstd::utf8::encode_utf8(key).len() <= enc@.len());
                },
            }
            assert(encoded_len_fits(entry@));
            lemma_encoded_parse(entry@);
        }
        let enc_pend = copy_range(&enc, 0, enc_len);
        let mut seg = match self.segments.pop() {
            Some(s) => s,
            None => {
                proof {
                    assert(false);
                }
                Segment { id: 0, data: Vec::new() }
            },
        };
        let ghost oldlast = old(self).segments@[n - 1];
        let start = seg.data.len();
        proof {
            assert(seg == oldlast);
        }
        seg.data.append(&mut enc);
        self.segments.push(seg);
        self.pending.push(FileOp::Append { id: self.active_id, bytes: enc_pend });
        let ghost encs = encoded(entry@);
        let ghost rec = LogRecord {
            rec: entry@,
            start: oldlast.data@.len() as int,
            end: oldlast.data@.len() + encs.len() as int,
        };
        proof {
            assert(self.segments@ =~= old(self).segments@.update(
                n - 1,
                self.segments@[n - 1],
            ));
            assert(self.segments@[n - 1].data@ == oldlast.data@ + encs);
            assert(enc_pend@ =~= encs);
            assert(self.pending_ops() =~= old(self).pending_ops().push(
                FileOpView::Append { id: old(self).active_id, bytes: encs },
            ));
            let front = views_of(old(self).segments@.take(n - 1));
            assert(old_files =~= front + seq![(oldlast.id, oldlast.data@)]);
            assert(self.files() =~= front + seq![(oldlast.id, oldlast.data@ + encs)]);
            lemma_replay_files_concat(init_rstate(), front, seq![(oldlast.id, oldlast.data@)]);
            let m = replay_files(init_rstate(), front)->Some_0;
            let oldst = RState { live: old(self).live@, stale: old(self).uncompacted };
            assert(replay_files(m, seq![(oldlast.id, oldlast.data@)]) == Some(oldst));
            let recs = parse_log(oldlast.data@, 0)->Some_0;
            assert(seq![(oldlast.id, oldlast.data@)][0] == (oldlast.id, oldlast.data@));
            assert(seq![(oldlast.id, oldlast.data@)].drop_first() =~= Seq::<(
                u32,
                Seq<u8>,
            )>::empty());
            assert(replay_files(replay_records(m, oldlast.id, recs), Seq::<(
                u32,
                Seq<u8>,
            )>::empty()) == Some(replay_records(m, oldlast.id, recs)));
            assert(replay_records(m, oldlast.id, recs) == oldst);
            lemma_parse_log_append(oldlast.data@, 0, encs, entry@);
            assert(parse_log(oldlast.data@ + encs, 0) == Some(recs.push(rec)));
            lemma_replay_records_push(m, oldlast.id, recs, rec);
            let newst = rstep(oldst, oldlast.id, rec);
            assert(replay_files(m, seq![(oldlast.id, oldlast.data@ + encs)]) == Some(newst)) by {
                let f2 = (oldlast.id, oldlast.data@ + encs);
                assert(seq![f2][0] == f2);
                assert(seq![f2].drop_first() =~= Seq::<(u32, Seq<u8>)>::empty());
                assert(replay_records(m, oldlast.id, recs.push(rec)) == newst);
                assert(replay_files(newst, Seq::<(u32, Seq<u8>)>::empty()) == Some(newst));
            }
            lemma_replay_files_concat(
                init_rstate(),
                front,
                seq![(oldlast.id, oldlast.data@ + encs)],
            );
            assert(replay_files(init_rstate(), self.files()) == Some(newst));
            assert forall|k: Seq<char>| #[trigger] old(self).live@.dom().contains(k) implies
                live_entry_in(self.files(), k, old(self).live@[k]) by {
                let e = old(self).live@[k];
                assert(live_entry_in(old_files, k, e));
                let ix = choose|ix: int|
                    0 <= ix < old_files.len() && (#[trigger] old_files[ix]).0 == e.fid && 0
                        <= e.start < e.end <= old_files[ix].1.len() && parse_entry(
                        old_files[ix].1.subrange(e.start, e.end),
                    ) == Some((EntryView::Put { key: k, val: e.val }, e.end - e.start));
                if ix == n - 1 {
                    assert((oldlast.data@ + encs).subrange(e.start, e.end) =~= oldlast.data@
                        .subrange(e.start, e.end));
                    assert(self.files()[ix].0 == e.fid);
                    assert(self.files()[ix].1 == oldlast.data@ + encs);
                } else {
                    assert(self.files()[ix] == old_files[ix]);
                }
            }
            assert((oldlast.data@ + encs).subrange(rec.start, rec.end) =~= encs);
            assert(start + enc_len <= usize::MAX) by {
                let lastseg = self.segments@[self.segments@.len() - 1];
                assert(lastseg.data.len() == lastseg.data@.len());
            }
        }
        (start as u64, start as u64 + enc_len as u64)
    }
}


impl KvStore {
    /// Appends a `Put` record for `key` to the active segment and
    /// points the index at it, accounting the displaced record as
    /// stale; compaction is the caller's step.  Fails only when the
    /// 32-bit segment id space is exhausted, leaving the store
    /// unchanged.
    #[verifier::rlimit(100)]
    fn put_record(&mut self, key: String, val: String) -> (r: Result<(), Error>)
        requires
            old(self).wf(),
        ensures
            match r {
                Ok(_) => {
                    &&& old(self).spec_active_id() <= u32::MAX - 2
                    &&& final(self).wf()
                    &&& final(self).model() == old(self).model().insert(key@, val@)
                    &&& final(self).spec_active_id() == old(self).spec_active_id()
                    &&& final(self).spec_last_retired() == old(self).spec_last_retired()
                    &&& final(self).files() == old(self).files().update(
                        old(self).files().len() - 1,
                        (
                            old(self).spec_active_id(),
                            old(self).files().last().1 + encoded(
                                EntryView::Put { key: key@, val: val@ },
                            ),
                        ),
                    )
                    &&& final(self).spec_uncompacted() == add_sat(
                        old(self).spec_uncompacted(),
                        if old(self).model().dom().contains(key@) {
                            old(self).record_len(key@)
                        } else {
                            0
                        },
                    )
                    &&& final(self).pending_ops() == old(self).pending_ops().push(
                        FileOpView::Append {
                            id: old(self).spec_active_id(),
                            bytes: encoded(EntryView::Put { key: key@, val: val@ }),
                        },
                    )
                    &&& final(self).record_len(key@) == encoded(
                        EntryView::Put { key: key@, val: val@ },
                    ).len()
                    &&& final(self).spec_offset(key@) == (
                        old(self).spec_active_id(),
                        old(self).files().last().1.len() as int,
                        old(self).files().last().1.len() + encoded(
                            EntryView::Put { key: key@, val: val@ },
                        ).len() as int,
                    )
                },
                Err(e) => {
                    &&& e matches Error::UnhandledError(_)
                    &&& old(self).spec_active_id() > u32::MAX - 2
                    &&& *final(self) == *old(self)
                },
            },
    {
        if self.active_id > u32::MAX - 2 {
            return Err(Error::UnhandledError(String::from_str("no segment ids left")));
        }
        let entry = Entry::Put { key: key.clone(), val };
        let (start, end) = self.append_active(&entry);
        let ghost live0 = self.live@;
        let ghost stale0 = self.uncompacted;
        let ghost rec = LogRecord { rec: entry@, start: start as int, end: end as int };
        let old_off = index_get(&self.index, &key);
        if let Some(off) = old_off {
            proof {
                let e0 = live0[key@];
                assert(off == (e0.fid, e0.start as u64, e0.end as u64));
            }
            self.uncompacted = add_sat_u64(self.uncompacted, off.2 - off.1);
        }
        index_insert(&mut self.index, key, (self.active_id, start, end));
        proof {
            let newent = LiveEntry {
                fid: self.active_id,
                start: rec.start,
                end: rec.end,
                val: entry@->Put_val,
            };
            self.live = Ghost(live0.insert(key@, newent));
            assert(rstep(RState { live: live0, stale: stale0 }, self.active_id, rec) == (RState {
                live: self.live@,
                stale: self.uncompacted,
            }));
            assert(index_entries(self.index) =~= offs_of(self.live@));
            let n = self.segments@.len() as int;
            assert forall|k: Seq<char>| #[trigger] self.live@.dom().contains(k) implies
                live_entry_in(self.files(), k, self.live@[k]) by {
                if k != key@ {
                    assert(live_entry_in(self.files(), k, live0[k]));
                } else {
                    assert(self.files()[n - 1].0 == self.active_id);
                    assert(self.files()[n - 1].1 == self.segments@[n - 1].data@);
                    assert(live_entry_in(self.files(), key@, newent));
                }
            }
            assert(self.model() =~= old(self).model().insert(key@, val@));
            assert(self.wf());
            assert(self.files() =~= old(self).files().update(
                old(self).files().len() - 1,
                (
                    old(self).spec_active_id(),
                    old(self).files().last().1 + encoded(
                        EntryView::Put { key: key@, val: val@ },
                    ),
                ),
            ));
            assert(old(self).model().dom() =~= live0.dom());
            if !live0.dom().contains(key@) {
                assert(add_sat(stale0, 0) == stale0);
            }
            assert(self.spec_uncompacted() == add_sat(
                old(self).spec_uncompacted(),
                if old(self).model().dom().contains(key@) {
                    old(self).record_len(key@)
                } else {
                    0
                },
            ));
        }
        Ok(())
    }

    /// Writes `key` to `val`: appends a `Put` record, points the index
    /// at it, and accounts the displaced record as stale; a write that
    /// pushes the stale counter past the threshold compacts inline.
    /// Fails only when the 32-bit segment id space is exhausted, leaving
    /// the store unchanged.
    #[verifier::rlimit(100)]
    #[verifier::spinoff_prover]
    pub fn set(&mut self, key: String, val: String) -> (r: Result<(), Error>)
        requires
            old(self).wf(),
        ensures
            match r {
                Ok(_) => {
                    &&& old(self).spec_active_id() <= u32::MAX - 2
                    &&& final(self).wf()
                    &&& final(self).model() == old(self).model().insert(key@, val@)
                    &&& final(self).spec_active_id() >= old(self).spec_active_id()
                    &&& final(self).spec_uncompacted() <= COMPACTION_THRESHOLD
                    &&& final(self).spec_last_retired() >= old(self).spec_last_retired()
                    &&& final(self).spec_active_id() <= old(self).spec_active_id() + 2
                    &&& old(self).pending_ops().push(
                        FileOpView::Append {
                            id: old(self).spec_active_id(),
                            bytes: encoded(EntryView::Put { key: key@, val: val@ }),
                        },
                    ).is_prefix_of(final(self).pending_ops())
                    &&& (final(self).spec_last_retired() == old(self).spec_last_retired()
                        ==> final(self).pending_ops() == old(self).pending_ops().push(
                        FileOpView::Append {
                            id: old(self).spec_active_id(),
                            bytes: encoded(EntryView::Put { key: key@, val: val@ }),
                        },
                    ))
                    &&& (final(self).spec_last_retired() == old(self).spec_last_retired()
                        ==> final(self).spec_active_id() == old(self).spec_active_id())
                    &&& (final(self).spec_last_retired() == old(self).spec_last_retired()
                        ==> final(self).files() == old(self).files().update(
                        old(self).files().len() - 1,
                        (
                            old(self).spec_active_id(),
                            old(self).files().last().1 + encoded(
                                EntryView::Put { key: key@, val: val@ },
                            ),
                        ),
                    ))
                    &&& (final(self).spec_last_retired() == old(self).spec_last_retired()
                        ==> final(self).spec_uncompacted() == add_sat(
                        old(self).spec_uncompacted(),
                        if old(self).model().dom().contains(key@) {
                            old(self).record_len(key@)
                        } else {
                            0
                        },
                    ))
                    &&& (add_sat(
                        old(self).spec_uncompacted(),
                        if old(self).model().dom().contains(key@) {
                            old(self).record_len(key@)
                        } else {
                            0
                        },
                    ) <= COMPACTION_THRESHOLD ==> final(self).spec_last_retired() == old(
                        self,
                    ).spec_last_retired())
                    &&& final(self).record_len(key@) == encoded(
                        EntryView::Put { key: key@, val: val@ },
                    ).len()
                    &&& (final(self).spec_last_retired() == old(self).spec_last_retired()
                        ==> final(self).spec_offset(key@) == (
                        old(self).spec_active_id(),
                        old(self).files().last().1.len() as int,
                        old(self).files().last().1.len() + encoded(
                            EntryView::Put { key: key@, val: val@ },
                        ).len() as int,
                    ))
                    &&& (final(self).spec_last_retired() != old(self).spec_last_retired()
                        ==> compaction_outcome(
                        old(self).files().update(
                            old(self).files().len() - 1,
                            (
                                old(self).spec_active_id(),
                                old(self).files().last().1 + encoded(
                                    EntryView::Put { key: key@, val: val@ },
                                ),
                            ),
                        ),
                        old(self).pending_ops().push(
                            FileOpView::Append {
                                id: old(self).spec_active_id(),
                                bytes: encoded(EntryView::Put { key: key@, val: val@ }),
                            },
                        ),
                        old(self).spec_active_id(),
                        old(self).model().insert(key@, val@),
                        *final(self),
                    ))
                },
                Err(e) => {
                    &&& e matches Error::UnhandledError(_)
                    &&& old(self).spec_active_id() > u32::MAX - 2
                    &&& *final(self) == *old(self)
                },
            },
    {
        let r = self.put_record(key, val);
        if r.is_err() {
            return r;
        }
        if self.uncompacted > COMPACTION_THRESHOLD {
            let ghost mid = self.pending_ops();
            let ghost mid_files = self.files();
            let ghost mid_model = self.model();
            proof {
                let n0 = self.segments@.len() as int;
                assert(self.last_retired <= self.segments@[n0 - 1].id);
            }
            let _ = self.compact();
            proof {
                assert(mid.is_prefix_of(self.pending_ops())) by {
                    assert(self.pending_ops().subrange(0, mid.len() as int) =~= mid);
                }
                assert(self.model().dom().contains(key@));
                assert(self.record_len(key@) == encoded(
                    EntryView::Put { key: key@, val: val@ },
                ).len());
                assert(self.spec_last_retired() > old(self).spec_last_retired());
                assert(compaction_outcome(
                    mid_files,
                    mid,
                    old(self).spec_active_id(),
                    mid_model,
                    *self,
                ));
                assert(mid_files == old(self).files().update(
                    old(self).files().len() - 1,
                    (
                        old(self).spec_active_id(),
                        old(self).files().last().1 + encoded(
                            EntryView::Put { key: key@, val: val@ },
                        ),
                    ),
                ));
                assert(mid == old(self).pending_ops().push(
                    FileOpView::Append {
                        id: old(self).spec_active_id(),
                        bytes: encoded(EntryView::Put { key: key@, val: val@ }),
                    },
                ));
                assert(mid_model == old(self).model().insert(key@, val@));
            }
        }
        proof {
            let ap = old(self).pending_ops().push(
                FileOpView::Append {
                    id: old(self).spec_active_id(),
                    bytes: encoded(EntryView::Put { key: key@, val: val@ }),
                },
            );
            assert(ap.is_prefix_of(self.pending_ops())) by {
                assert(self.pending_ops().subrange(0, ap.len() as int) =~= ap);
            }
        }
        Ok(())
    }

    /// Removes `key`: appends a `Rm` record, deletes the index entry, and
    /// accounts both the displaced record and the `Rm` record itself as
    /// stale; past the threshold it compacts inline.  Fails with
    /// `DoesNotExist` when the key is absent, or when the segment id
    /// space is exhausted, leaving the store unchanged either way.
    #[verifier::rlimit(100)]
    pub fn remove(&mut self, key: String) -> (r: Result<String, Error>)
        requires
            old(self).wf(),
        ensures
            match r {
                Ok(k) => {
                    &&& old(self).model().dom().contains(key@)
                    &&& old(self).spec_active_id() <= u32::MAX - 2
                    &&& k@ == key@
                    &&& final(self).wf()
                    &&& final(self).model() == old(self).model().remove(key@)
                    &&& final(self).spec_active_id() >= old(self).spec_active_id()
                    &&& final(self).spec_uncompacted() <= COMPACTION_THRESHOLD
                    &&& final(self).spec_last_retired() >= old(self).spec_last_retired()
                    &&& final(self).spec_active_id() <= old(self).spec_active_id() + 2
                    &&& old(self).pending_ops().push(
                        FileOpView::Append {
                            id: old(self).spec_active_id(),
                            bytes: encoded(EntryView::Rm { key: key@ }),
                        },
                    ).is_prefix_of(final(self).pending_ops())
                    &&& (final(self).spec_last_retired() == old(self).spec_last_retired()
                        ==> final(self).pending_ops() == old(self).pending_ops().push(
                        FileOpView::Append { id: old(self).spec_active_id(), bytes: encoded(
                            EntryView::Rm { key: key@ },
                        ) },
                    ))
                    &&& (final(self).spec_last_retired() == old(self).spec_last_retired()
                        ==> final(self).spec_active_id() == old(self).spec_active_id())
                    &&& (final(self).spec_last_retired() == old(self).spec_last_retired()
                        ==> final(self).files() == old(self).files().update(
                        old(self).files().len() - 1,
                        (
                            old(self).spec_active_id(),
                            old(self).files().last().1 + encoded(EntryView::Rm { key: key@ }),
                        ),
                    ))
                    &&& (final(self).spec_last_retired() == old(self).spec_last_retired()
                        ==> final(self).spec_uncompacted() == add_sat(
                        add_sat(old(self).spec_uncompacted(), old(self).record_len(key@)),
                        encoded(EntryView::Rm { key: key@ }).len() as int,
                    ))
                    &&& (add_sat(
                        add_sat(old(self).spec_uncompacted(), old(self).record_len(key@)),
                        encoded(EntryView::Rm { key: key@ }).len() as int,
                    ) <= COMPACTION_THRESHOLD ==> final(self).spec_last_retired() == old(
                        self,
                    ).spec_last_retired())
                    &&& (final(self).spec_last_retired() != old(self).spec_last_retired()
                        ==> compaction_outcome(
                        old(self).files().update(
                            old(self).files().len() - 1,
                            (
                                old(self).spec_active_id(),
                                old(self).files().last().1 + encoded(
                                    EntryView::Rm { key: key@ },
                                ),
                            ),
                        ),
                        old(self).pending_ops().push(
                            FileOpView::Append {
                                id: old(self).spec_active_id(),
                                bytes: encoded(EntryView::Rm { key: key@ }),
                            },
                        ),
                        old(self).spec_active_id(),
                        old(self).model().remove(key@),
                        *final(self),
                    ))
                },
                Err(e) => {
                    &&& *final(self) == *old(self)
                    &&& (e matches Error::DoesNotExist { .. } <==> !old(self).model().dom()
                        .contains(key@))
                    &&& (match e {
                        Error::DoesNotExist { key: k2 } => k2@ == key@,
                        _ => true,
                    })
                    &&& (e matches Error::UnhandledError(_) ==> old(self).spec_active_id()
                        > u32::MAX - 2)
                    &&& (e matches Error::DoesNotExist { .. } || e matches Error::UnhandledError(
                        _,
                    ))
                },
            },
    {
        let present = index_get(&self.index, &key);
        if present.is_none() {
            proof {
                assert(!self.live@.dom().contains(key@));
                assert(!self.model().dom().contains(key@));
            }
            return Err(Error::DoesNotExist { key });
        }
        if self.active_id > u32::MAX - 2 {
            return Err(Error::UnhandledError(String::from_str("no segment ids left")));
        }
        proof {
            assert(self.live@.dom().contains(key@));
            assert(self.model().dom().contains(key@));
        }
        let entry = Entry::Rm { key: key.clone() };
        let (start, end) = self.append_active(&entry);
        let ghost live0 = self.live@;
        let ghost stale0 = self.uncompacted;
        let ghost rec = LogRecord { rec: entry@, start: start as int, end: end as int };
        let old_off = index_remove(&mut self.index, &key);
        let off = match old_off {
            Some(o) => o,
            None => {
                proof {
                    assert(false);
                }
                (0u32, 0u64, 0u64)
            },
        };
        proof {
            let e0 = live0[key@];
            assert(off == (e0.fid, e0.start as u64, e0.end as u64));
        }
        self.uncompacted = add_sat_u64(self.uncompacted, off.2 - off.1);
        self.uncompacted = add_sat_u64(self.uncompacted, end - start);
        proof {
            self.live = Ghost(live0.remove(key@));
            assert(rstep(RState { live: live0, stale: stale0 }, self.active_id, rec) == (RState {
                live: self.live@,
                stale: self.uncompacted,
            }));
            assert(index_entries(self.index) =~= offs_of(self.live@));
            assert forall|k: Seq<char>| #[trigger] self.live@.dom().contains(k) implies
                live_entry_in(self.files(), k, self.live@[k]) by {
                assert(live_entry_in(self.files(), k, live0[k]));
            }
            assert(self.model() =~= old(self).model().remove(key@));
            assert(self.wf());
            assert(self.files() =~= old(self).files().update(
                old(self).files().len() - 1,
                (
                    old(self).spec_active_id(),
                    old(self).files().last().1 + encoded(EntryView::Rm { key: key@ }),
                ),
            ));
            assert(self.spec_uncompacted() == add_sat(
                add_sat(old(self).spec_uncompacted(), old(self).record_len(key@)),
                encoded(EntryView::Rm { key: key@ }).len() as int,
            ));
        }
        if self.uncompacted > COMPACTION_THRESHOLD {
            let ghost mid = self.pending_ops();
            let ghost mid_files = self.files();
            let ghost mid_model = self.model();
            proof {
                let n0 = old(self).segments@.len() as int;
                assert(old(self).last_retired <= old(self).segments@[n0 - 1].id);
            }
            let _ = self.compact();
            proof {
                assert(mid.is_prefix_of(self.pending_ops())) by {
                    assert(self.pending_ops().subrange(0, mid.len() as int) =~= mid);
                }
                assert(self.spec_last_retired() > old(self).spec_last_retired());
                assert(compaction_outcome(
                    mid_files,
                    mid,
                    old(self).spec_active_id(),
                    mid_model,
                    *self,
                ));
                assert(mid_files == old(self).files().update(
                    old(self).files().len() - 1,
                    (
                        old(self).spec_active_id(),
                        old(self).files().last().1 + encoded(EntryView::Rm { key: key@ }),
                    ),
                ));
                assert(mid == old(self).pending_ops().push(
                    FileOpView::Append {
                        id: old(self).spec_active_id(),
                        bytes: encoded(EntryView::Rm { key: key@ }),
                    },
                ));
                assert(mid_model == old(self).model().remove(key@));
            }
        }
        Ok(key)
    }

    /// Compaction: copies each live record into a fresh segment `C`, one
    /// past the active id; opens a new empty active segment `N = C + 1`;
    /// retires every older segment; and resets the stale counter.  The
    /// mirroring operations are ordered so that `C` and `N` exist on disk
    /// before any older file is deleted.
    #[verifier::rlimit(80)]
    pub fn compact(&mut self) -> (r: Result<(), Error>)
        requires
            old(self).wf(),
            old(self).spec_active_id() <= u32::MAX - 2,
        ensures
            r is Ok,
            final(self).wf(),
            final(self).model() == old(self).model(),
            forall|k: Seq<char>|
                #[trigger] old(self).model().dom().contains(k) ==> final(self).record_len(k)
                    == old(self).record_len(k) && final(self).spec_offset(k).0 == old(
                    self,
                ).spec_active_id() + 1,
            compaction_outcome(
                old(self).files(),
                old(self).pending_ops(),
                old(self).spec_active_id(),
                old(self).model(),
                *final(self),
            ),
    {
        let cid = self.active_id + 1;
        let nid = self.active_id + 2;
        let entries = index_entries_vec(&self.index);
        let elen = entries.len();
        let mut out: Vec<u8> = Vec::new();
        let mut index2 = index_new();
        let ghost mut newlive: Map<Seq<char>, LiveEntry> = Map::empty();
        let ghost mut recs: Seq<LogRecord> = Seq::empty();
        let mut i: usize = 0;
        proof {
            assert(index_entries(index2) =~= offs_of(newlive));
            assert(parse_log(out@, 0) == Some(Seq::<LogRecord>::empty()));
        }
        while i < elen
            invariant
                i <= elen,
                elen == entries@.len(),
                self.wf(),
                self == old(self),
                cid == self.active_id + 1,
                forall|i2: int|
                    0 <= i2 < entries@.len() ==> index_entries(self.index).dom().contains(
                        (#[trigger] entries@[i2]).0@,
                    ) && index_entries(self.index)[entries@[i2].0@] == entries@[i2].1,
                forall|i2: int, j2: int|
                    0 <= i2 < j2 < entries@.len() ==> (#[trigger] entries@[i2]).0@ != (
                    #[trigger] entries@[j2]).0@,
                parse_log(out@, 0) == Some(recs),
                recs.len() == i,
                index_entries(index2) == offs_of(newlive),
                newlive.dom().finite(),
                replay_records(init_rstate(), cid, recs) == (RState { live: newlive, stale: 0 }),
                forall|j: int|
                    0 <= j < i ==> newlive.dom().contains((#[trigger] entries@[j]).0@),
                forall|k: Seq<char>|
                    #[trigger] newlive.dom().contains(k) ==> exists|j: int|
                        0 <= j < i && (entries@[j]).0@ == k,
                forall|k: Seq<char>|
                    #[trigger] newlive.dom().contains(k) ==> {
                        let e = newlive[k];
                        &&& self.live@.dom().contains(k)
                        &&& e.val == self.live@[k].val
                        &&& e.end - e.start == self.live@[k].end - self.live@[k].start
                        &&& e.fid == cid
                        &&& 0 <= e.start < e.end <= out@.len()
                        &&& e.end <= u64::MAX
                        &&& parse_entry(out@.subrange(e.start, e.end)) == Some(
                            (EntryView::Put { key: k, val: e.val }, e.end - e.start),
                        )
                    },
                forall|j: int|
                    0 <= j < i ==> (#[trigger] recs[j]).rec == (EntryView::Put {
                        key: entries@[j].0@,
                        val: self.live@[entries@[j].0@].val,
                    }),
                forall|j: int|
                    0 <= j < i ==> (#[trigger] recs[j]).start == newlive[entries@[j].0@].start
                        && recs[j].end == newlive[entries@[j].0@].end,
            decreases elen - i,
        {
            let kv = &entries[i];
            let off = kv.1;
            proof {
                assert(index_entries(self.index).dom().contains(kv.0@));
                assert(self.live@.dom().contains(kv.0@));
            }
            let ghost e = self.live@[kv.0@];
            proof {
                assert(off == (e.fid, e.start as u64, e.end as u64));
                assert(live_entry_in(self.files(), kv.0@, e));
            }
            let si = self.find_segment(off.0);
            let seg = &self.segments[si];
            proof {
                let ix = choose|ix: int|
                    0 <= ix < self.files().len() && (#[trigger] self.files()[ix]).0 == e.fid
                        && 0 <= e.start < e.end <= self.files()[ix].1.len() && parse_entry(
                        self.files()[ix].1.subrange(e.start, e.end),
                    ) == Some((EntryView::Put { key: kv.0@, val: e.val }, e.end - e.start));
                if ix != si as int {
                    assert(self.segments@[ix].id != self.segments@[si as int].id);
                    assert(false);
                }
                assert(seg.data@ == self.files()[si as int].1);
                assert(seg.data@.len() <= usize::MAX) by {
                    assert(seg.data.len() == seg.data@.len());
                }
            }
            let s_us = off.1 as usize;
            let e_us = off.2 as usize;
            let mut chunk = copy_range(&seg.data, s_us, e_us);
            let clen = chunk.len();
            let p = out.len();
            let ghost out0 = out@;
            let ghost recs0 = recs;
            let ghost newlive0 = newlive;
            let ghost chunkv = chunk@;
            let ghost newrec = LogRecord {
                rec: EntryView::Put { key: kv.0@, val: e.val },
                start: p as int,
                end: p + clen,
            };
            proof {
                assert(chunk@ == seg.data@.subrange(e.start, e.end));
                assert(parse_entry(chunk@) == Some(
                    (EntryView::Put { key: kv.0@, val: e.val }, chunk@.len() as int),
                ));
                lemma_parse_log_append(out0, 0, chunk@, EntryView::Put { key: kv.0@, val: e.val });
                lemma_replay_records_push(init_rstate(), cid, recs0, newrec);
            }
            out.append(&mut chunk);
            proof {
                assert(p + clen <= usize::MAX) by {
                    assert(out.len() == out@.len());
                }
            }
            let key2 = kv.0.clone();
            index_insert(&mut index2, key2, (cid, p as u64, (p + clen) as u64));
            proof {
                newlive = newlive0.insert(
                    kv.0@,
                    LiveEntry { fid: cid, start: p as int, end: p + clen, val: e.val },
                );
                recs = recs0.push(newrec);
                assert(!newlive0.dom().contains(kv.0@)) by {
                    if newlive0.dom().contains(kv.0@) {
                        let j = choose|j: int| 0 <= j < i && (entries@[j]).0@ == kv.0@;
                        assert(entries@[j].0@ != entries@[i as int].0@);
                    }
                }
                assert(rstep(RState { live: newlive0, stale: 0 }, cid, newrec) == (RState {
                    live: newlive,
                    stale: 0,
                }));
                assert(index_entries(index2) =~= offs_of(newlive));
                assert(out@ == out0 + chunkv);
                assert forall|k: Seq<char>| #[trigger] newlive.dom().contains(k) implies {
                    let e2 = newlive[k];
                    &&& self.live@.dom().contains(k)
                    &&& e2.val == self.live@[k].val
                    &&& e2.end - e2.start == self.live@[k].end - self.live@[k].start
                    &&& e2.fid == cid
                    &&& 0 <= e2.start < e2.end <= out@.len()
                    &&& e2.end <= u64::MAX
                    &&& parse_entry(out@.subrange(e2.start, e2.end)) == Some(
                        (EntryView::Put { key: k, val: e2.val }, e2.end - e2.start),
                    )
                } by {
                    let e2 = newlive[k];
                    if k == kv.0@ {
                        assert(out@.subrange(e2.start, e2.end) =~= chunkv);
                    } else {
                        assert(newlive0.dom().contains(k));
                        assert(out@.subrange(e2.start, e2.end) =~= out0.subrange(
                            e2.start,
                            e2.end,
                        ));
                    }
                }
                assert((p + clen) as u64 as int == p + clen);
                assert forall|j: int| 0 <= j < i + 1 implies (#[trigger] recs[j]).start
                    == newlive[entries@[j].0@].start && recs[j].end
                    == newlive[entries@[j].0@].end by {
                    if j < i {
                        assert(recs[j] == recs0[j]);
                        assert(entries@[j].0@ != entries@[i as int].0@);
                        assert(newlive[entries@[j].0@] == newlive0[entries@[j].0@]);
                    } else {
                        assert(recs[j] == newrec);
                    }
                }
            }
            i += 1;
        }
        let ghost live0 = self.live@;
        let ghost files0 = self.files();
        let ghost pend0 = self.pending_ops();
        proof {
            assert forall|k: Seq<char>| #[trigger] live0.dom().contains(k) implies newlive.dom()
                .contains(k) by {
                assert(index_entries(self.index).dom().contains(k));
                let j = choose|j: int|
                    0 <= j < entries@.len() && (#[trigger] entries@[j]).0@ == k;
                assert(newlive.dom().contains(entries@[j].0@));
            }
            assert(newlive.dom() =~= live0.dom());
            assert(model_of(newlive) =~= model_of(live0));
        }
        let out_len = out.len();
        let out_pend = copy_range(&out, 0, out_len);
        let ghost outv = out@;
        let mut segments2: Vec<Segment> = Vec::new();
        segments2.push(Segment { id: cid, data: out });
        segments2.push(Segment { id: nid, data: Vec::new() });
        let mut dels: Vec<FileOp> = Vec::new();
        let nsegs = self.segments.len();
        let mut di: usize = 0;
        while di < nsegs
            invariant
                di <= nsegs,
                nsegs == self.segments@.len(),
                self == old(self),
                dels@.len() == di,
                forall|j: int|
                    0 <= j < di ==> (#[trigger] dels@[j])@ == (FileOpView::Delete {
                        id: self.segments@[j].id,
                    }),
            decreases nsegs - di,
        {
            let id = self.segments[di].id;
            dels.push(FileOp::Delete { id });
            di += 1;
        }
        self.pending.push(FileOp::Create { id: cid });
        self.pending.push(FileOp::Append { id: cid, bytes: out_pend });
        self.pending.push(FileOp::Create { id: nid });
        self.pending.append(&mut dels);
        self.index = index2;
        self.segments = segments2;
        self.active_id = nid;
        self.uncompacted = 0;
        self.last_retired = cid;
        proof {
            self.live = Ghost(newlive);
            assert(out_pend@ =~= outv);
            assert(old(self).segments@[old(self).segments@.len() - 1].id >= 1);
            assert(self.files() =~= seq![(cid, outv), (nid, Seq::<u8>::empty())]);
            let f0 = (cid, outv);
            let f1 = (nid, Seq::<u8>::empty());
            assert(replay_files(init_rstate(), self.files()) == Some(
                RState { live: newlive, stale: 0 },
            )) by {
                assert(self.files()[0] == f0);
                assert(self.files().drop_first() =~= seq![f1]);
                assert(parse_log(outv, 0) == Some(recs));
                assert(replay_records(init_rstate(), cid, recs) == (RState {
                    live: newlive,
                    stale: 0,
                }));
                assert(seq![f1][0] == f1);
                assert(parse_log(f1.1, 0) == Some(Seq::<LogRecord>::empty()));
                assert(seq![f1].drop_first() =~= Seq::<(u32, Seq<u8>)>::empty());
                assert(replay_records(RState { live: newlive, stale: 0 }, nid, Seq::<
                    LogRecord,
                >::empty()) == (RState { live: newlive, stale: 0 }));
                assert(replay_files(RState { live: newlive, stale: 0 }, Seq::<(
                    u32,
                    Seq<u8>,
                )>::empty()) == Some(RState { live: newlive, stale: 0 }));
                assert(replay_files(RState { live: newlive, stale: 0 }, seq![f1]) == Some(
                    RState { live: newlive, stale: 0 },
                ));
            }
            assert forall|k: Seq<char>| #[trigger] self.live@.dom().contains(k) implies
                live_entry_in(self.files(), k, self.live@[k]) by {
                let e2 = newlive[k];
                assert(self.files()[0].0 == cid);
                assert(self.files()[0].1 == outv);
                assert(live_entry_in(self.files(), k, e2));
            }
            assert(self.model() =~= model_of(newlive));
            assert(self.wf());
            assert(self.pending_ops() =~= pend0 + seq![
                FileOpView::Create { id: cid },
                FileOpView::Append { id: cid, bytes: outv },
                FileOpView::Create { id: nid },
            ] + files0.map_values(|f: (u32, Seq<u8>)| FileOpView::Delete { id: f.0 }));
            assert forall|k: Seq<char>| #[trigger] old(self).model().dom().contains(k) implies
                exists|j: int|
                    0 <= j < recs.len() && (#[trigger] recs[j]).rec == (EntryView::Put {
                        key: k,
                        val: old(self).model()[k],
                    }) && recs[j].start == self.spec_offset(k).1 && recs[j].end
                    == self.spec_offset(k).2 by {
                assert(live0.dom().contains(k));
                assert(index_entries(old(self).index).dom().contains(k));
                let j = choose|j: int|
                    0 <= j < entries@.len() && (#[trigger] entries@[j]).0@ == k;
                assert(recs[j].rec == (EntryView::Put { key: k, val: live0[k].val }));
                assert(recs[j].start == newlive[k].start && recs[j].end == newlive[k].end);
            }
            assert(parse_log(self.files()[0].1, 0) == Some(recs));
            assert(compaction_outcome(
                files0,
                pend0,
                old(self).spec_active_id(),
                model_of(live0),
                *self,
            ));
        }
        Ok(())
    }
}


impl KvStore {
    /// The id of the active segment.
    pub fn active_segment_id(&self) -> (r: u32)
        ensures
            r == self.spec_active_id(),
    {
        self.active_id
    }

    /// The stale-byte counter: a conservative count of bytes that the
    /// next compaction would reclaim.
    pub fn uncompacted_bytes(&self) -> (r: u64)
        ensures
            r == self.spec_uncompacted(),
    {
        self.uncompacted
    }

    /// The watermark: every segment with a smaller id has been retired.
    pub fn last_retired_id(&self) -> (r: u32)
        ensures
            r == self.spec_last_retired(),
    {
        self.last_retired
    }

    /// The segment images, oldest first; they equal the mirrored files.
    pub fn segment_files(&self) -> (r: &Vec<Segment>)
        requires
            self.wf(),
        ensures
            views_of(r@) == self.files(),
            r@.len() >= 1,
            r@[r@.len() - 1].id == self.spec_active_id(),
            forall|i: int, j: int|
                0 <= i < j < r@.len() ==> (#[trigger] r@[i]).id < (#[trigger] r@[j]).id,
            forall|i: int|
                0 <= i < r@.len() ==> 1 <= (#[trigger] r@[i]).id <= self.spec_active_id(),
    {
        proof {
            lemma_ids_bounded(self);
            assert forall|i: int| 0 <= i < self.segments@.len() implies (
            #[trigger] self.segments@[i]).id <= self.spec_active_id() by {
                assert(self.files()[i].0 == self.segments@[i].id);
            }
        }
        &self.segments
    }

    /// Hands over the queued file operations, leaving the queue empty.
    pub fn take_pending(&mut self) -> (r: Vec<FileOp>)
        ensures
            r@.map_values(|op: FileOp| op@) == old(self).pending_ops(),
            final(self).pending_ops() == Seq::<FileOpView>::empty(),
            final(self).wf() == old(self).wf(),
            final(self).model() == old(self).model(),
            final(self).files() == old(self).files(),
            final(self).spec_active_id() == old(self).spec_active_id(),
            final(self).spec_uncompacted() == old(self).spec_uncompacted(),
            final(self).spec_last_retired() == old(self).spec_last_retired(),
    {
        let mut r: Vec<FileOp> = Vec::new();
        std::mem::swap(&mut r, &mut self.pending);
        proof {
            assert(self.pending_ops() =~= Seq::<FileOpView>::empty());
        }
        r
    }
}

/// Monotone ids: no segment of a well-formed store outranks its active
/// segment, and `open` chooses one past the largest id it is given, so
/// the maximum observed segment id never decreases across opens and
/// closes.
pub proof fn lemma_ids_bounded(s: &KvStore)
    requires
        s.wf(),
    ensures
        forall|i: int|
            0 <= i < s.files().len() ==> (#[trigger] s.files()[i]).0 <= s.spec_active_id(),
{
    let n = s.segments@.len() as int;
    assert forall|i: int| 0 <= i < s.files().len() implies (#[trigger] s.files()[i]).0
        <= s.spec_active_id() by {
        assert(s.files()[i].0 == s.segments@[i].id);
        if i < n - 1 {
            assert(s.segments@[i].id < s.segments@[n - 1].id);
        }
    }
}

/// Persistence: replaying a well-formed store's segment files recovers
/// exactly its live index and stale counter, so a store reopened on the
/// files it mirrored reads every key as before.
pub proof fn lemma_recovery(s: &KvStore)
    requires
        s.wf(),
    ensures
        replay_files(init_rstate(), s.files()) is Some,
        model_of(replay_files(init_rstate(), s.files())->Some_0.live) == s.model(),
        replay_files(init_rstate(), s.files())->Some_0.stale == s.spec_uncompacted(),
{
}


/// The decimal digits of `n`, most significant first, without padding.
pub open spec fn dec_bytes(n: nat) -> Seq<u8>
    decreases n,
{
    if n < 10 {
        seq![(48 + n) as u8]
    } else {
        dec_bytes(n / 10).push((48 + (n % 10)) as u8)
    }
}

/// Every byte of a decimal numeral is an ASCII digit.
proof fn lemma_dec_bytes_digits(n: nat)
    ensures
        forall|i: int| 0 <= i < dec_bytes(n).len() ==> 48 <= #[trigger] dec_bytes(n)[i] <= 57,
    decreases n,
{
    if n >= 10 {
        lemma_dec_bytes_digits(n / 10);
        assert forall|i: int| 0 <= i < dec_bytes(n).len() implies 48 <= #[trigger] dec_bytes(
            n,
        )[i] <= 57 by {
            if i < dec_bytes(n).len() - 1 {
                assert(dec_bytes(n)[i] == dec_bytes(n / 10)[i]);
            } else {
                assert(dec_bytes(n)[i] == (48 + (n % 10)) as u8);
            }
        }
    }
}

/// Appends the decimal digits of `n`.
fn push_dec_u32(out: &mut Vec<u8>, n: u32)
    ensures
        final(out)@ == old(out)@ + dec_bytes(n as nat),
    decreases n,
{
    if n >= 10 {
        push_dec_u32(out, n / 10);
    }
    out.push(48 + (n % 10) as u8);
    proof {
        assert(out@ =~= old(out)@ + dec_bytes(n as nat));
    }
}

/// The file name of segment `file_id`: its decimal id followed by
/// `.log`, as the segment is laid down in the store's directory.
pub fn log_file_name(file_id: u32) -> (r: String)
    ensures
        encode_utf8(r@) == dec_bytes(file_id as nat) + encode_utf8(".log"@),
{
    let mut b: Vec<u8> = Vec::new();
    push_dec_u32(&mut b, file_id);
    b.push(46);
    b.push(108);
    b.push(111);
    b.push(103);
    proof {
        reveal_strlit(".log");
        assert(is_ascii_chars(".log"@));
        is_ascii_chars_encode_utf8(".log"@);
        assert(encode_utf8(".log"@) =~= seq![46u8, 108u8, 111u8, 103u8]);
        lemma_dec_bytes_digits(file_id as nat);
        assert(b@ =~= dec_bytes(file_id as nat) + encode_utf8(".log"@));
        assert forall|i: int| 0 <= 0 <= i < b@.len() <= b@.len() implies is_leading_byte_width_1(
            #[trigger] b@[i],
        ) by {
            if i < dec_bytes(file_id as nat).len() {
                assert(b@[i] == dec_bytes(file_id as nat)[i]);
            }
        }
        assert(b@.subrange(0, 0) =~= Seq::<u8>::empty());
        assert(partial_valid_utf8(b@, 0));
        partial_valid_utf8_extend_ascii_block(b@, 0, b@.len() as int);
        assert(b@.subrange(0, b@.len() as int) =~= b@);
        assert(valid_utf8(b@));
    }
    match string_from_utf8(b) {
        Some(s) => s,
        None => {
            proof {
                assert(false);
            }
            String::new()
        },
    }
}


impl KvStore {
    /// Where `key`'s latest `Put` record lives, if the key is present:
    /// a nonempty byte range of an existing segment whose bytes decode
    /// to exactly one `Put` of this key and its current value.
    pub fn offset_of(&self, key: &String) -> (r: Option<EntryOffset>)
        requires
            self.wf(),
        ensures
            match r {
                Some(off) => {
                    &&& self.model().dom().contains(key@)
                    &&& off.start < off.end
                    &&& off.end - off.start == self.record_len(key@)
                    &&& self.spec_offset(key@) == (off.file_id, off.start as int, off.end as int)
                    &&& exists|i: int|
                        0 <= i < self.files().len() && (#[trigger] self.files()[i]).0
                            == off.file_id && off.end <= self.files()[i].1.len() && parse_entry(
                            self.files()[i].1.subrange(off.start as int, off.end as int),
                        ) == Some(
                            (
                                EntryView::Put { key: key@, val: self.model()[key@] },
                                off.end - off.start,
                            ),
                        )
                },
                None => !self.model().dom().contains(key@),
            },
    {
        match index_get(&self.index, key) {
            None => None,
            Some(off) => {
                proof {
                    let e = self.live@[key@];
                    assert(live_entry_in(self.files(), key@, e));
                    let ix = choose|ix: int|
                        0 <= ix < self.files().len() && (#[trigger] self.files()[ix]).0 == e.fid
                            && 0 <= e.start < e.end <= self.files()[ix].1.len() && parse_entry(
                            self.files()[ix].1.subrange(e.start, e.end),
                        ) == Some((EntryView::Put { key: key@, val: e.val }, e.end - e.start));
                    assert(self.files()[ix].0 == off.0);
                }
                Some(EntryOffset { file_id: off.0, start: off.1, end: off.2 })
            },
        }
    }
}


/// Does `s` hold a segment with this id and these bytes?
pub open spec fn holds_segment(s: Seq<Segment>, id: u32, data: Seq<u8>) -> bool {
    exists|i: int| 0 <= i < s.len() && (#[trigger] s[i]).id == id && s[i].data@ == data
}

/// Sorts segment files ascending by id, the order recovery replays them
/// in.  With the distinct ids a log directory carries, the result is
/// strictly ascending — ready for `open` — and holds exactly the given
/// segments, each identified by its id and bytes.
#[verifier::rlimit(100)]
pub fn sort_segments(files: Vec<Segment>) -> (r: Vec<Segment>)
    requires
        forall|i: int, j: int|
            0 <= i < j < files@.len() ==> (#[trigger] files@[i]).id != (#[trigger] files@[j]).id,
    ensures
        r@.len() == files@.len(),
        forall|i: int, j: int|
            0 <= i < j < r@.len() ==> (#[trigger] r@[i]).id < (#[trigger] r@[j]).id,
        forall|i: int|
            0 <= i < r@.len() ==> holds_segment(files@, (#[trigger] r@[i]).id, r@[i].data@),
        forall|j: int|
            0 <= j < files@.len() ==> holds_segment(
                r@,
                (#[trigger] files@[j]).id,
                files@[j].data@,
            ),
{
    let ghost files0 = files@;
    let mut rest = files;
    let mut out: Vec<Segment> = Vec::new();
    while rest.len() > 0
        invariant
            out@.len() + rest@.len() == files0.len(),
            forall|i: int, j: int|
                0 <= i < j < out@.len() ==> (#[trigger] out@[i]).id < (#[trigger] out@[j]).id,
            forall|i: int, j: int|
                0 <= i < out@.len() && 0 <= j < rest@.len() ==> (#[trigger] out@[i]).id < (
                #[trigger] rest@[j]).id,
            forall|i: int, j: int|
                0 <= i < j < rest@.len() ==> (#[trigger] rest@[i]).id != (
                #[trigger] rest@[j]).id,
            forall|i: int|
                0 <= i < out@.len() ==> holds_segment(
                    files0,
                    (#[trigger] out@[i]).id,
                    out@[i].data@,
                ),
            forall|i: int|
                0 <= i < rest@.len() ==> holds_segment(
                    files0,
                    (#[trigger] rest@[i]).id,
                    rest@[i].data@,
                ),
            forall|j: int|
                0 <= j < files0.len() ==> holds_segment(
                    out@,
                    (#[trigger] files0[j]).id,
                    files0[j].data@,
                ) || holds_segment(rest@, files0[j].id, files0[j].data@),
        decreases rest@.len(),
    {
        let mut m: usize = 0;
        let mut idx: usize = 1;
        while idx < rest.len()
            invariant
                rest@.len() > 0,
                m < idx <= rest@.len(),
                forall|q: int| 0 <= q < idx ==> (#[trigger] rest@[q]).id >= rest@[m as int].id,
            decreases rest@.len() - idx,
        {
            if rest[idx].id < rest[m].id {
                m = idx;
            }
            idx += 1;
        }
        let ghost rest0 = rest@;
        let ghost mi = m as int;
        proof {
            assert forall|q: int| 0 <= q < rest0.len() && q != mi implies (
            #[trigger] rest0[q]).id > rest0[mi].id by {
                if q < mi {
                    assert(rest0[q].id != rest0[mi].id);
                } else {
                    assert(rest0[mi].id != rest0[q].id);
                }
            }
        }
        let seg = rest.remove(m);
        let ghost out0 = out@;
        out.push(seg);
        proof {
            assert(seg == rest0[mi]);
            assert forall|q: int| 0 <= q < rest@.len() implies #[trigger] rest@[q] == (if q < mi {
                rest0[q]
            } else {
                rest0[q + 1]
            }) by {
                assert(rest@ == rest0.remove(mi));
            }
            assert forall|i: int, j: int|
                0 <= i < out@.len() && 0 <= j < rest@.len() implies (#[trigger] out@[i]).id < (
            #[trigger] rest@[j]).id by {
                if i < out0.len() {
                    assert(out@[i] == out0[i]);
                } else {
                    assert(out@[i] == seg);
                }
            }
            assert forall|j: int|
                0 <= j < files0.len() implies holds_segment(
                out@,
                (#[trigger] files0[j]).id,
                files0[j].data@,
            ) || holds_segment(rest@, files0[j].id, files0[j].data@) by {
                if holds_segment(out0, files0[j].id, files0[j].data@) {
                    let i = choose|i: int|
                        0 <= i < out0.len() && (#[trigger] out0[i]).id == files0[j].id
                            && out0[i].data@ == files0[j].data@;
                    assert(out@[i] == out0[i]);
                } else {
                    let i = choose|i: int|
                        0 <= i < rest0.len() && (#[trigger] rest0[i]).id == files0[j].id
                            && rest0[i].data@ == files0[j].data@;
                    if i == mi {
                        assert(out@[out@.len() - 1] == seg);
                    } else if i < mi {
                        assert(rest@[i] == rest0[i]);
                    } else {
                        assert(rest@[i - 1] == rest0[i]);
                    }
                }
            }
        }
    }
    out
}

} // verus!