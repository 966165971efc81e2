//! Whole-log parsing and replay.
//!
//! A segment is well formed when it is a gap-free concatenation of encoded
//! records.  Replaying segments in order folds their records into a live
//! index (key to latest `Put` range and value) and a stale-byte count: the
//! bytes that a compaction run would reclaim.

use crate::codec::{lemma_parse_entry_bounds, lemma_parse_entry_local, parse_entry};
use crate::entry::EntryView;
use vstd::prelude::*;

verus! {

/// One record as it lies in a log: the record and the byte range
/// `[start, end)` that its encoding occupies.
pub struct LogRecord {
    pub rec: EntryView,
    pub start: int,
    pub end: int,
}

/// Parses the whole suffix of `s` that starts at byte `i` into records,
/// or `None` when that suffix is not a concatenation of well-formed
/// records.
pub open spec fn parse_log(s: Seq<u8>, i: int) -> Option<Seq<LogRecord>>
    decreases s.len() - i,
{
    if i < 0 || i > s.len() {
        None
    } else if i == s.len() {
        Some(Seq::empty())
    } else {
        match parse_entry(s.subrange(i, s.len() as int)) {
            None => None,
            Some((ev, n)) => {
                if 1 <= n && i + n <= s.len() {
                    match parse_log(s, i + n) {
                        None => None,
                        Some(rest) => Some(
                            seq![LogRecord { rec: ev, start: i, end: i + n }] + rest,
                        ),
                    }
                } else {
                    None
                }
            },
        }
    }
}

/// The records of a parsed log are contiguous, cover `[i, s.len())`, and
/// each parses on exactly its own byte range.
pub proof fn lemma_parse_log_entries(s: Seq<u8>, i: int)
    requires
        0 <= i <= s.len(),
        parse_log(s, i) is Some,
    ensures
        ({
            let recs = parse_log(s, i)->Some_0;
            &&& forall|j: int|
                0 <= j < recs.len() ==> {
                    let r = #[trigger] recs[j];
                    &&& i <= r.start < r.end <= s.len()
                    &&& r.end - r.start >= 24
                    &&& parse_entry(s.subrange(r.start, r.end)) == Some(
                        (r.rec, r.end - r.start),
                    )
                }
            &&& forall|j: int|
                1 <= j < recs.len() ==> (#[trigger] recs[j]).start == recs[j - 1].end
            &&& (recs.len() > 0 ==> recs[0].start == i && recs[recs.len() - 1].end == s.len())
            &&& (recs.len() == 0 ==> i == s.len())
        }),
    decreases s.len() - i,
{
    let recs = parse_log(s, i)->Some_0;
    if i < s.len() {
        let suffix = s.subrange(i, s.len() as int);
        let (ev, n) = parse_entry(suffix)->Some_0;
        lemma_parse_entry_bounds(suffix);
        let head = LogRecord { rec: ev, start: i, end: i + n };
        let rest = parse_log(s, i + n)->Some_0;
        assert(recs == seq![head] + rest);
        lemma_parse_log_entries(s, i + n);
        assert(parse_entry(s.subrange(i, i + n)) == Some((ev, n))) by {
            assert(s.subrange(i, i + n).subrange(0, n) =~= suffix.subrange(0, n));
            lemma_parse_entry_local(suffix, s.subrange(i, i + n));
        }
        assert forall|j: int| 0 <= j < recs.len() implies {
            let r = #[trigger] recs[j];
            &&& i <= r.start < r.end <= s.len()
            &&& r.end - r.start >= 24
            &&& parse_entry(s.subrange(r.start, r.end)) == Some((r.rec, r.end - r.start))
        } by {
            if j > 0 {
                assert(recs[j] == rest[j - 1]);
            }
        }
        assert forall|j: int| 1 <= j < recs.len() implies (#[trigger] recs[j]).start == recs[j
            - 1].end by {
            assert(recs.len() == 1 + rest.len());
            assert(recs[j] == rest[j - 1]);
            if j == 1 {
                assert(recs[0] == head);
                assert(rest[0].start == i + n);
            } else {
                assert(recs[j - 1] == rest[j - 2]);
                assert(rest[j - 1].start == rest[j - 1 - 1].end);
            }
        }
        if rest.len() == 0 {
            assert(recs[recs.len() - 1] == head);
        } else {
            assert(recs[recs.len() - 1] == rest[rest.len() - 1]);
        }
    }
}

/// Appending one whole encoded record to a fully parsed log extends the
/// parse by exactly that record.
pub proof fn lemma_parse_log_append(s: Seq<u8>, i: int, t: Seq<u8>, ev: EntryView)
    requires
        0 <= i <= s.len(),
        parse_log(s, i) is Some,
        parse_entry(t) == Some((ev, t.len() as int)),
    ensures
        parse_log(s + t, i) == Some(
            parse_log(s, i)->Some_0.push(
                LogRecord { rec: ev, start: s.len() as int, end: s.len() + t.len() as int },
            ),
        ),
    decreases s.len() - i,
{
    let st = s + t;
    let r = LogRecord { rec: ev, start: s.len() as int, end: s.len() + t.len() as int };
    lemma_parse_entry_bounds(t);
    if i == s.len() {
        assert(st.subrange(i, st.len() as int) =~= t);
        assert(parse_log(st, i + t.len()) == Some(Seq::<LogRecord>::empty()));
        assert(parse_log(st, i) == Some(seq![r] + Seq::<LogRecord>::empty()));
        assert(seq![r] + Seq::<LogRecord>::empty() =~= parse_log(s, i)->Some_0.push(r));
    } else {
        let suffix = s.subrange(i, s.len() as int);
        let (ev0, n0) = parse_entry(suffix)->Some_0;
        lemma_parse_entry_bounds(suffix);
        let stsuffix = st.subrange(i, st.len() as int);
        assert(parse_entry(stsuffix) == Some((ev0, n0))) by {
            assert(stsuffix.subrange(0, n0) =~= suffix.subrange(0, n0));
            lemma_parse_entry_local(suffix, stsuffix);
        }
        lemma_parse_log_append(s, i + n0, t, ev);
        let head = LogRecord { rec: ev0, start: i, end: i + n0 };
        let rest2 = parse_log(st, i + n0)->Some_0;
        assert(parse_log(st, i) == Some(seq![head] + rest2));
        assert(seq![head] + parse_log(s, i + n0)->Some_0.push(r) =~= (seq![head] + parse_log(
            s,
            i + n0,
        )->Some_0).push(r));
    }
}

/// A key's live entry: the segment, byte range, and value of its latest
/// `Put` record.
pub struct LiveEntry {
    pub fid: u32,
    pub start: int,
    pub end: int,
    pub val: Seq<char>,
}

/// Replay state: the live index and the stale-byte count.
pub struct RState {
    pub live: Map<Seq<char>, LiveEntry>,
    pub stale: u64,
}

/// The state replay starts from: nothing live, nothing stale.
pub open spec fn init_rstate() -> RState {
    RState { live: Map::empty(), stale: 0 }
}

/// `x` clamped into a 64-bit counter.
pub open spec fn clamp64(x: int) -> u64 {
    if x < 0 {
        0
    } else if x > u64::MAX {
        u64::MAX
    } else {
        x as u64
    }
}

/// Saturating add on the stale counter: the counter is a conservative
/// upper bound, so it pins at the maximum rather than wrapping.
pub open spec fn add_sat(a: u64, b: int) -> u64 {
    clamp64(a + b)
}

/// One record of segment `fid` replayed into the state.  A `Put` makes the
/// displaced record (if any) stale; a `Rm` makes both the displaced record
/// and itself stale.
pub open spec fn rstep(st: RState, fid: u32, r: LogRecord) -> RState {
    match r.rec {
        EntryView::Put { key, val } => RState {
            live: st.live.insert(key, LiveEntry { fid, start: r.start, end: r.end, val }),
            stale: if st.live.dom().contains(key) {
                add_sat(st.stale, st.live[key].end - st.live[key].start)
            } else {
                st.stale
            },
        },
        EntryView::Rm { key } => RState {
            live: st.live.remove(key),
            stale: add_sat(
                if st.live.dom().contains(key) {
                    add_sat(st.stale, st.live[key].end - st.live[key].start)
                } else {
                    st.stale
                },
                r.end - r.start,
            ),
        },
    }
}

/// All records of segment `fid` replayed in order.
pub open spec fn replay_records(st: RState, fid: u32, recs: Seq<LogRecord>) -> RState
    decreases recs.len(),
{
    if recs.len() == 0 {
        st
    } else {
        replay_records(rstep(st, fid, recs[0]), fid, recs.drop_first())
    }
}

/// The given segments replayed in the order given, or `None` when some
/// segment is not a well-formed log.
pub open spec fn replay_files(st: RState, files: Seq<(u32, Seq<u8>)>) -> Option<RState>
    decreases files.len(),
{
    if files.len() == 0 {
        Some(st)
    } else {
        match parse_log(files[0].1, 0) {
            None => None,
            Some(recs) => replay_files(replay_records(st, files[0].0, recs), files.drop_first()),
        }
    }
}

/// The key-to-value map that a live index denotes.
pub open spec fn model_of(live: Map<Seq<char>, LiveEntry>) -> Map<Seq<char>, Seq<char>> {
    live.map_values(|e: LiveEntry| e.val)
}

/// Replaying one more record at the tail of a segment.
pub proof fn lemma_replay_records_push(st: RState, fid: u32, recs: Seq<LogRecord>, r: LogRecord)
    ensures
        replay_records(st, fid, recs.push(r)) == rstep(replay_records(st, fid, recs), fid, r),
    decreases recs.len(),
{
    if recs.len() == 0 {
        assert(recs.push(r)[0] == r);
        assert(recs.push(r).drop_first() =~= Seq::<LogRecord>::empty());
        assert(replay_records(rstep(st, fid, r), fid, Seq::<LogRecord>::empty()) == rstep(
            st,
            fid,
            r,
        ));
        assert(replay_records(st, fid, recs.push(r)) == replay_records(
            rstep(st, fid, r),
            fid,
            Seq::<LogRecord>::empty(),
        ));
    } else {
        assert(recs.push(r)[0] == recs[0]);
        assert(recs.push(r).drop_first() =~= recs.drop_first().push(r));
        lemma_replay_records_push(rstep(st, fid, recs[0]), fid, recs.drop_first(), r);
        assert(replay_records(st, fid, recs.push(r)) == replay_records(
            rstep(st, fid, recs[0]),
            fid,
            recs.drop_first().push(r),
        ));
        assert(replay_records(st, fid, recs) == replay_records(
            rstep(st, fid, recs[0]),
            fid,
            recs.drop_first(),
        ));
    }
}

/// Replay distributes over concatenation of the segment list.
pub proof fn lemma_replay_files_concat(st: RState, a: Seq<(u32, Seq<u8>)>, b: Seq<(u32, Seq<u8>)>)
    ensures
        replay_files(st, a + b) == match replay_files(st, a) {
            None => None::<RState>,
            Some(st2) => replay_files(st2, b),
        },
    decreases a.len(),
{
    if a.len() == 0 {
        assert(a + b =~= b);
    } else {
        assert((a + b)[0] == a[0]);
        match parse_log(a[0].1, 0) {
            None => {
                assert((a + b).len() > 0);
            },
            Some(recs) => {
                assert((a + b).drop_first() =~= a.drop_first() + b);
                lemma_replay_files_concat(replay_records(st, a[0].0, recs), a.drop_first(), b);
            },
        }
    }
}


/// `e` is a live entry that points at a well-formed `Put` record for key
/// `k` inside one of `files`.
pub open spec fn live_entry_in(files: Seq<(u32, Seq<u8>)>, k: Seq<char>, e: LiveEntry) -> bool {
    exists|i: int|
        0 <= i < files.len() && (#[trigger] files[i]).0 == e.fid && 0 <= e.start < e.end
            <= files[i].1.len() && parse_entry(files[i].1.subrange(e.start, e.end)) == Some(
            (EntryView::Put { key: k, val: e.val }, e.end - e.start),
        )
}

/// Every live entry after replaying one segment's records either survives
/// from the starting state or points at one of those records.
pub proof fn lemma_replay_records_origin(st: RState, fid: u32, recs: Seq<LogRecord>)
    ensures
        forall|k: Seq<char>|
            #[trigger] replay_records(st, fid, recs).live.dom().contains(k) ==> {
                let e = replay_records(st, fid, recs).live[k];
                (st.live.dom().contains(k) && st.live[k] == e) || (e.fid == fid && exists|j: int|
                    0 <= j < recs.len() && (#[trigger] recs[j]).start == e.start && recs[j].end
                        == e.end && recs[j].rec == (EntryView::Put { key: k, val: e.val }))
            },
    decreases recs.len(),
{
    if recs.len() > 0 {
        let mid = rstep(st, fid, recs[0]);
        lemma_replay_records_origin(mid, fid, recs.drop_first());
        let fin = replay_records(st, fid, recs);
        assert(fin == replay_records(mid, fid, recs.drop_first()));
        assert forall|k: Seq<char>| #[trigger] fin.live.dom().contains(k) implies {
            let e = fin.live[k];
            (st.live.dom().contains(k) && st.live[k] == e) || (e.fid == fid && exists|j: int|
                0 <= j < recs.len() && (#[trigger] recs[j]).start == e.start && recs[j].end
                    == e.end && recs[j].rec == (EntryView::Put { key: k, val: e.val }))
        } by {
            let e = fin.live[k];
            if mid.live.dom().contains(k) && mid.live[k] == e {
                if !(st.live.dom().contains(k) && st.live[k] == e) {
                    assert(recs[0].start == e.start && recs[0].end == e.end && recs[0].rec
                        == (EntryView::Put { key: k, val: e.val }));
                }
            } else {
                let j = choose|j: int|
                    0 <= j < recs.drop_first().len() && (#[trigger] recs.drop_first()[j]).start
                        == e.start && recs.drop_first()[j].end == e.end
                        && recs.drop_first()[j].rec == (EntryView::Put { key: k, val: e.val });
                assert(recs[j + 1] == recs.drop_first()[j]);
            }
        }
    }
}

/// Every live entry after a replay either survives from the starting
/// state or points at a record of one of the replayed segments.
pub proof fn lemma_replay_files_origin(st: RState, files: Seq<(u32, Seq<u8>)>)
    requires
        replay_files(st, files) is Some,
    ensures
        forall|k: Seq<char>|
            #[trigger] replay_files(st, files)->Some_0.live.dom().contains(k) ==> {
                let e = replay_files(st, files)->Some_0.live[k];
                (st.live.dom().contains(k) && st.live[k] == e) || live_entry_in(files, k, e)
            },
    decreases files.len(),
{
    if files.len() > 0 {
        let recs = parse_log(files[0].1, 0)->Some_0;
        let mid = replay_records(st, files[0].0, recs);
        lemma_parse_log_entries(files[0].1, 0);
        lemma_replay_records_origin(st, files[0].0, recs);
        lemma_replay_files_origin(mid, files.drop_first());
        let fin = replay_files(st, files)->Some_0;
        assert forall|k: Seq<char>| #[trigger] fin.live.dom().contains(k) implies {
            let e = fin.live[k];
            (st.live.dom().contains(k) && st.live[k] == e) || live_entry_in(files, k, e)
        } by {
            let e = fin.live[k];
            if mid.live.dom().contains(k) && mid.live[k] == e {
                if !(st.live.dom().contains(k) && st.live[k] == e) {
                    let j = choose|j: int|
                        0 <= j < recs.len() && (#[trigger] recs[j]).start == e.start
                            && recs[j].end == e.end && recs[j].rec == (EntryView::Put {
                            key: k,
                            val: e.val,
                        });
                    assert(0 <= e.start < e.end <= files[0].1.len());
                    assert(files[0].0 == e.fid);
                    assert(live_entry_in(files, k, e));
                }
            } else {
                let i = choose|i: int|
                    0 <= i < files.drop_first().len() && (#[trigger] files.drop_first()[i]).0
                        == e.fid && 0 <= e.start < e.end <= files.drop_first()[i].1.len()
                        && parse_entry(files.drop_first()[i].1.subrange(e.start, e.end)) == Some(
                        (EntryView::Put { key: k, val: e.val }, e.end - e.start),
                    );
                assert(files[i + 1] == files.drop_first()[i]);
                assert(live_entry_in(files, k, e));
            }
        }
    }
}

/// The observable effect of one record on a key-value map.
pub open spec fn apply_entry(
    m: Map<Seq<char>, Seq<char>>,
    e: EntryView,
) -> Map<Seq<char>, Seq<char>> {
    match e {
        EntryView::Put { key, val } => m.insert(key, val),
        EntryView::Rm { key } => m.remove(key),
    }
}

/// The observable effect of a record sequence, applied in order.
pub open spec fn apply_log(m: Map<Seq<char>, Seq<char>>, es: Seq<EntryView>) -> Map<
    Seq<char>,
    Seq<char>,
> {
    es.fold_left(m, |acc: Map<Seq<char>, Seq<char>>, e: EntryView| apply_entry(acc, e))
}

/// Does the record write or remove `key`?
pub open spec fn touches(e: EntryView, key: Seq<char>) -> bool {
    match e {
        EntryView::Put { key: k, val: _ } => k == key,
        EntryView::Rm { key: k } => k == key,
    }
}

/// Records that do not touch a key do not change what a read of it sees.
pub proof fn lemma_apply_log_frame(m: Map<Seq<char>, Seq<char>>, es: Seq<EntryView>, key: Seq<char>)
    requires
        forall|j: int| 0 <= j < es.len() ==> !touches(#[trigger] es[j], key),
    ensures
        apply_log(m, es).dom().contains(key) == m.dom().contains(key),
        m.dom().contains(key) ==> apply_log(m, es)[key] == m[key],
    decreases es.len(),
{
    if es.len() > 0 {
        assert(es.drop_last() =~= es.subrange(0, es.len() - 1));
        lemma_apply_log_frame(m, es.drop_last(), key);
        assert(apply_log(m, es) == apply_entry(apply_log(m, es.drop_last()), es.last()));
        assert(!touches(es[es.len() - 1], key));
    }
}

/// Read-your-writes: after the last `Put` of a key, with no later record
/// touching that key, the map holds exactly the value that `Put` wrote.
pub proof fn lemma_read_your_writes(
    m: Map<Seq<char>, Seq<char>>,
    es: Seq<EntryView>,
    i: int,
    key: Seq<char>,
    val: Seq<char>,
)
    requires
        0 <= i < es.len(),
        es[i] == (EntryView::Put { key, val }),
        forall|j: int| i < j < es.len() ==> !touches(#[trigger] es[j], key),
    ensures
        apply_log(m, es).dom().contains(key),
        apply_log(m, es)[key] == val,
{
    let front = es.subrange(0, i + 1);
    let back = es.subrange(i + 1, es.len() as int);
    assert(es =~= front + back);
    lemma_apply_log_concat(m, front, back);
    assert(front.drop_last() =~= es.subrange(0, i));
    assert(apply_log(m, front) == apply_entry(apply_log(m, front.drop_last()), front.last()));
    assert(front.last() == es[i]);
    assert forall|j: int| 0 <= j < back.len() implies !touches(#[trigger] back[j], key) by {
        assert(back[j] == es[i + 1 + j]);
    }
    lemma_apply_log_frame(apply_log(m, front), back, key);
}

/// Removal masks reads: after the last `Rm` of a key, with no later record
/// touching that key, the map does not hold the key.
pub proof fn lemma_removal_masks(
    m: Map<Seq<char>, Seq<char>>,
    es: Seq<EntryView>,
    i: int,
    key: Seq<char>,
)
    requires
        0 <= i < es.len(),
        es[i] == (EntryView::Rm { key }),
        forall|j: int| i < j < es.len() ==> !touches(#[trigger] es[j], key),
    ensures
        !apply_log(m, es).dom().contains(key),
{
    let front = es.subrange(0, i + 1);
    let back = es.subrange(i + 1, es.len() as int);
    assert(es =~= front + back);
    lemma_apply_log_concat(m, front, back);
    assert(front.drop_last() =~= es.subrange(0, i));
    assert(apply_log(m, front) == apply_entry(apply_log(m, front.drop_last()), front.last()));
    assert(front.last() == es[i]);
    assert forall|j: int| 0 <= j < back.len() implies !touches(#[trigger] back[j], key) by {
        assert(back[j] == es[i + 1 + j]);
    }
    lemma_apply_log_frame(apply_log(m, front), back, key);
}

/// Applying a concatenation applies the parts in order.
pub proof fn lemma_apply_log_concat(
    m: Map<Seq<char>, Seq<char>>,
    a: Seq<EntryView>,
    b: Seq<EntryView>,
)
    ensures
        apply_log(m, a + b) == apply_log(apply_log(m, a), b),
    decreases b.len(),
{
    if b.len() == 0 {
        assert(a + b =~= a);
        assert(apply_log(apply_log(m, a), b) == apply_log(m, a));
    } else {
        lemma_apply_log_concat(m, a, b.drop_last());
        assert((a + b).drop_last() =~= a + b.drop_last());
        assert(apply_log(m, a + b) == apply_entry(apply_log(m, (a + b).drop_last()), (a
            + b).last()));
        assert(apply_log(apply_log(m, a), b) == apply_entry(
            apply_log(apply_log(m, a), b.drop_last()),
            b.last(),
        ));
        assert((a + b).last() == b.last());
    }
}


/// Recovery over an interrupted compaction: a segment holding one `Put`
/// per live key, each carrying that key's current value, replays to the
/// very model it was computed from.  So when a crash leaves a compaction
/// output beside the older segments, replaying the older segments first
/// and the output last keeps every key at its last written value.
pub proof fn lemma_replay_live_set(
    st: RState,
    fid: u32,
    recs: Seq<LogRecord>,
    m: Map<Seq<char>, Seq<char>>,
)
    requires
        model_of(st.live) == m,
        forall|j: int|
            0 <= j < recs.len() ==> ((#[trigger] recs[j]).rec matches EntryView::Put { key, val }
                && m.dom().contains(key) && m[key] == val),
    ensures
        model_of(replay_records(st, fid, recs).live) == m,
    decreases recs.len(),
{
    if recs.len() > 0 {
        let r0 = recs[0];
        let st2 = rstep(st, fid, r0);
        let key = r0.rec->Put_key;
        assert(r0.rec matches EntryView::Put { .. });
        assert(model_of(st2.live) =~= m);
        assert forall|j: int| 0 <= j < recs.drop_first().len() implies ((
        #[trigger] recs.drop_first()[j]).rec matches EntryView::Put { key, val } && m.dom()
            .contains(key) && m[key] == val) by {
            assert(recs.drop_first()[j] == recs[j + 1]);
        }
        lemma_replay_live_set(st2, fid, recs.drop_first(), m);
    }
}

} // verus!
