//! The log store: an ordered map from log id to entry whose keys are dense
//! and monotonic after the earliest retained id, together with its durable
//! file image. Ids form a contiguous range, so the store keeps the first
//! retained id, the term of the entry just before it, and the entries in
//! order.
use crate::codec::{
    dec_u64, enc_bytes, enc_u64, lemma_dec_enc_bytes, lemma_dec_enc_u64, lemma_spec_le_len,
    sdec_bytes, sdec_u64, spec_enc_bytes, spec_enc_u64,
};
use vstd::prelude::*;

verus! {

/// One log entry: a strictly increasing positive id assigned by the leader
/// (id 0 denotes "no log"), the leader's term at append time, the sub
/// state machine and command selectors, and opaque serialized arguments.
#[derive(Debug, PartialEq, Eq)]
pub struct LogEntry {
    pub id: u64,
    pub term: u64,
    pub sm_id: u64,
    pub fn_id: u64,
    pub data: Vec<u8>,
}

/// The mathematical image of a log entry.
pub struct LogEntryView {
    pub id: u64,
    pub term: u64,
    pub sm_id: u64,
    pub fn_id: u64,
    pub data: Seq<u8>,
}

impl View for LogEntry {
    type V = LogEntryView;

    open spec fn view(&self) -> LogEntryView {
        LogEntryView {
            id: self.id,
            term: self.term,
            sm_id: self.sm_id,
            fn_id: self.fn_id,
            data: self.data@,
        }
    }
}

impl Clone for LogEntry {
    fn clone(&self) -> (r: Self)
        ensures
            r@ == self@,
    {
        let data = self.data.clone();
        proof {
            assert(data@ =~= self.data@);
        }
        LogEntry { id: self.id, term: self.term, sm_id: self.sm_id, fn_id: self.fn_id, data }
    }
}

/// The images of a row of entries.
pub open spec fn entry_views(s: Seq<LogEntry>) -> Seq<LogEntryView> {
    s.map_values(|e: LogEntry| e@)
}

/// The mathematical image of the store: the first retained id, the term of
/// the entry that once stood just before it, and the retained entries in
/// id order.
pub struct LogStoreView {
    pub first: u64,
    pub base_term: u64,
    pub entries: Seq<LogEntryView>,
}

impl LogStoreView {
    /// Dense, monotonic keys: the entry at offset i has id first + i.
    pub open spec fn wf(self) -> bool {
        &&& 1 <= self.first
        &&& self.first + self.entries.len() - 1 <= u64::MAX
        &&& forall|i: int|
            0 <= i < self.entries.len() ==> (#[trigger] self.entries[i]).id == self.first + i
    }

    /// The id of the newest entry; when nothing is retained this is the id
    /// the snapshot covers, one below `first` (0 on a fresh node).
    pub open spec fn last_id(self) -> u64 {
        (self.first + self.entries.len() - 1) as u64
    }

    /// The term of the newest entry, or of the snapshot boundary when the
    /// store is empty.
    pub open spec fn last_term(self) -> u64 {
        if self.entries.len() == 0 {
            self.base_term
        } else {
            self.entries.last().term
        }
    }

    pub open spec fn contains_id(self, id: u64) -> bool {
        self.first <= id < self.first + self.entries.len()
    }

    pub open spec fn entry_at(self, id: u64) -> LogEntryView
        recommends
            self.contains_id(id),
    {
        self.entries[id - self.first]
    }

    /// The term that the consistency check compares at `prev_id`: the term
    /// stored there, or the snapshot boundary term just below `first`.
    pub open spec fn term_at(self, id: u64) -> u64 {
        if id + 1 == self.first {
            self.base_term
        } else {
            self.entry_at(id).term
        }
    }
}

#[derive(Debug)]
pub struct LogStore {
    pub first: u64,
    pub base_term: u64,
    pub entries: Vec<LogEntry>,
}

impl View for LogStore {
    type V = LogStoreView;

    open spec fn view(&self) -> LogStoreView {
        LogStoreView {
            first: self.first,
            base_term: self.base_term,
            entries: entry_views(self.entries@),
        }
    }
}

impl LogStore {
    pub open spec fn wf(self) -> bool {
        self@.wf()
    }

    /// A fresh, empty store: ids will start at 1.
    pub fn new() -> (r: LogStore)
        ensures
            r.wf(),
            r@.first == 1,
            r@.base_term == 0,
            r@.entries == Seq::<LogEntryView>::empty(),
    {
        let r = LogStore { first: 1, base_term: 0, entries: Vec::new() };
        proof {
            assert(r@.entries =~= Seq::<LogEntryView>::empty());
        }
        r
    }

    /// A store that resumes just after a snapshot covering everything
    /// through `last_included` at `last_included_term`.
    pub fn after_snapshot(last_included: u64, last_included_term: u64) -> (r: LogStore)
        requires
            last_included < u64::MAX,
        ensures
            r.wf(),
            r@.first == last_included + 1,
            r@.base_term == last_included_term,
            r@.entries == Seq::<LogEntryView>::empty(),
            r@.last_id() == last_included,
            r@.last_term() == last_included_term,
    {
        let r = LogStore {
            first: last_included + 1,
            base_term: last_included_term,
            entries: Vec::new(),
        };
        proof {
            assert(r@.entries =~= Seq::<LogEntryView>::empty());
        }
        r
    }

    pub fn len(&self) -> (n: usize)
        ensures
            n == self@.entries.len(),
    {
        self.entries.len()
    }

    /// The id of the earliest retained entry, when one is retained.
    pub fn first_id(&self) -> (r: Option<u64>)
        ensures
            self@.entries.len() == 0 ==> r is None,
            self@.entries.len() > 0 ==> r == Some(self@.first),
    {
        if self.entries.len() == 0 {
            None
        } else {
            Some(self.first)
        }
    }

    /// The id of the newest entry, when one is retained.
    pub fn newest_id(&self) -> (r: Option<u64>)
        requires
            self.wf(),
        ensures
            self@.entries.len() == 0 ==> r is None,
            self@.entries.len() > 0 ==> r == Some(self@.last_id()),
    {
        if self.entries.len() == 0 {
            None
        } else {
            Some(self.first + (self.entries.len() - 1) as u64)
        }
    }

    /// The (last id, last term) pair the consensus paths compare against;
    /// (0, 0) on a fresh node.
    pub fn last_info(&self) -> (r: (u64, u64))
        requires
            self.wf(),
        ensures
            r.0 == self@.last_id(),
            r.1 == self@.last_term(),
    {
        let n = self.entries.len();
        if n == 0 {
            (self.first - 1, self.base_term)
        } else {
            let e = &self.entries[n - 1];
            proof {
                assert(self@.entries[n - 1] == self.entries@[n - 1]@);
            }
            (e.id, e.term)
        }
    }

    pub fn contains(&self, id: u64) -> (r: bool)
        requires
            self.wf(),
        ensures
            r == self@.contains_id(id),
    {
        self.entries.len() > 0 && self.first <= id && id <= self.first + (self.entries.len() - 1) as u64
    }

    /// A copy of the entry at `id`.
    pub fn entry(&self, id: u64) -> (r: LogEntry)
        requires
            self.wf(),
            self@.contains_id(id),
        ensures
            r@ == self@.entry_at(id),
    {
        let n = self.entries.len();
        let idx: usize = (id - self.first) as usize;
        let r = self.entries[idx].clone();
        proof {
            assert(self@.entries[id - self@.first] == self.entries@[idx as int]@);
        }
        r
    }

    /// The term standing at `id`: the stored entry's term, or the snapshot
    /// boundary term when `id` is just below the first retained id.
    pub fn term_of(&self, id: u64) -> (r: u64)
        requires
            self.wf(),
            self@.contains_id(id) || id + 1 == self@.first,
        ensures
            r == self@.term_at(id),
    {
        let n = self.entries.len();
        if id < self.first {
            self.base_term
        } else {
            let idx: usize = (id - self.first) as usize;
            proof {
                assert(self@.entries[id - self@.first] == self.entries@[idx as int]@);
            }
            self.entries[idx].term
        }
    }

    /// Insert-if-absent at the entry's own id; overwrite is forbidden. Only
    /// the id one past the newest attaches; an id at or below the newest is
    /// already present (or already snapshotted) and is left alone.
    pub fn append(&mut self, entry: LogEntry) -> (inserted: bool)
        requires
            old(self).wf(),
        ensures
            final(self).wf(),
            final(self)@.first == old(self)@.first,
            final(self)@.base_term == old(self)@.base_term,
            inserted == (entry.id == old(self)@.last_id() + 1 && old(self)@.last_id() < u64::MAX),
            inserted ==> final(self)@.entries == old(self)@.entries.push(entry@),
            !inserted ==> final(self)@ == old(self)@,
    {
        let (last, _) = self.last_info();
        if last < u64::MAX && entry.id == last + 1 {
            self.entries.push(entry);
            proof {
                assert(self@.entries =~= old(self)@.entries.push(entry@));
            }
            true
        } else {
            false
        }
    }

    /// Removes `id` and everything greater; ids below the first retained id
    /// are not touched.
    pub fn truncate_from(&mut self, id: u64)
        requires
            old(self).wf(),
        ensures
            final(self).wf(),
            final(self)@.first == old(self)@.first,
            final(self)@.base_term == old(self)@.base_term,
            id <= old(self)@.first ==> final(self)@.entries == Seq::<LogEntryView>::empty(),
            id > old(self)@.first ==> final(self)@.entries == old(self)@.entries.subrange(
                0,
                if id - old(self)@.first <= old(self)@.entries.len() {
                    id - old(self)@.first
                } else {
                    old(self)@.entries.len() as int
                },
            ),
    {
        if id <= self.first {
            self.entries.clear();
            proof {
                assert(self@.entries =~= Seq::<LogEntryView>::empty());
            }
        } else if id - self.first < self.entries.len() as u64 {
            self.entries.truncate((id - self.first) as usize);
            proof {
                assert(self@.entries =~= old(self)@.entries.subrange(0, id - old(self)@.first));
            }
        } else {
            proof {
                assert(self@.entries =~= old(self)@.entries.subrange(
                    0,
                    old(self)@.entries.len() as int,
                ));
            }
        }
    }

    /// Copies of all entries with id at or above `from` (at or above the
    /// first retained id), in order: the lazy ordered view of the tail.
    pub fn range_from(&self, from: u64) -> (r: Vec<LogEntry>)
        requires
            self.wf(),
        ensures
            entry_views(r@) == self@.entries.skip(
                if from <= self@.first {
                    0
                } else if from - self@.first <= self@.entries.len() {
                    from - self@.first
                } else {
                    self@.entries.len() as int
                },
            ),
    {
        let start: usize = if from <= self.first {
            0
        } else if from - self.first <= self.entries.len() as u64 {
            (from - self.first) as usize
        } else {
            self.entries.len()
        };
        let mut r: Vec<LogEntry> = Vec::new();
        let mut i: usize = start;
        while i < self.entries.len()
            invariant
                start <= i <= self.entries@.len(),
                self.wf(),
                entry_views(r@) == self@.entries.subrange(start as int, i as int),
            decreases self.entries@.len() - i,
        {
            let e = self.entries[i].clone();
            proof {
                assert(e@ == self@.entries[i as int]);
            }
            let ghost r0 = r@;
            r.push(e);
            proof {
                r0.lemma_push_map_commute(|x: LogEntry| x@, e);
                assert(entry_views(r@) =~= self@.entries.subrange(
                    start as int,
                    i + 1,
                ));
            }
            i = i + 1;
        }
        proof {
            assert(self@.entries.subrange(start as int, self@.entries.len() as int)
                =~= self@.entries.skip(start as int));
        }
        r
    }

    /// Drops the oldest entries until `target_len` remain; the boundary term
    /// becomes the term of the last entry removed.
    pub fn trim_oldest(&mut self, target_len: usize)
        requires
            old(self).wf(),
            0 < target_len < old(self)@.entries.len(),
        ensures
            final(self).wf(),
            final(self)@.entries.len() == target_len,
            final(self)@.entries == old(self)@.entries.skip(
                old(self)@.entries.len() - target_len,
            ),
            final(self)@.first == old(self)@.first + (old(self)@.entries.len() - target_len),
            final(self)@.last_id() == old(self)@.last_id(),
            final(self)@.last_term() == old(self)@.last_term(),
            final(self)@.base_term == old(self)@.entries[old(self)@.entries.len() - target_len - 1].term,
    {
        let drop_count: usize = self.entries.len() - target_len;
        let boundary_term = self.entries[drop_count - 1].term;
        let tail = self.entries.split_off(drop_count);
        self.entries = tail;
        self.first = self.first + drop_count as u64;
        self.base_term = boundary_term;
        proof {
            assert(self@.entries =~= old(self)@.entries.skip(
                old(self)@.entries.len() - target_len,
            ));
        }
    }
}

/// The encoding of one entry inside the durable image.
pub open spec fn spec_enc_entry(e: LogEntryView) -> Seq<u8> {
    spec_enc_u64(e.id) + spec_enc_u64(e.term) + spec_enc_u64(e.sm_id) + spec_enc_u64(e.fn_id)
        + spec_enc_bytes(e.data)
}

/// What reading one entry at `pos` yields.
pub open spec fn sdec_entry(buf: Seq<u8>, pos: int) -> Option<(LogEntryView, int)> {
    match sdec_u64(buf, pos) {
        Some((id, p1)) => match sdec_u64(buf, p1) {
            Some((term, p2)) => match sdec_u64(buf, p2) {
                Some((sm_id, p3)) => match sdec_u64(buf, p3) {
                    Some((fn_id, p4)) => match sdec_bytes(buf, p4) {
                        Some((data, p5)) => Some(
                            (LogEntryView { id, term, sm_id, fn_id, data }, p5),
                        ),
                        _ => Option::<(LogEntryView, int)>::None,
                    },
                    _ => Option::<(LogEntryView, int)>::None,
                },
                _ => Option::<(LogEntryView, int)>::None,
            },
            _ => Option::<(LogEntryView, int)>::None,
        },
        _ => Option::<(LogEntryView, int)>::None,
    }
}

/// Reading at the front of an encoded entry yields that entry.
#[verifier::rlimit(60)]
pub proof fn lemma_dec_enc_entry(pre: Seq<u8>, e: LogEntryView, suf: Seq<u8>)
    requires
        e.data.len() < 0x10000000000000000,
    ensures
        sdec_entry(pre + spec_enc_entry(e) + suf, pre.len() as int) == Some(
            (e, (pre.len() + spec_enc_entry(e).len()) as int),
        ),
{
    let buf = pre + spec_enc_entry(e) + suf;
    let r1 = spec_enc_u64(e.term) + spec_enc_u64(e.sm_id) + spec_enc_u64(e.fn_id)
        + spec_enc_bytes(e.data) + suf;
    assert(buf =~= pre + spec_enc_u64(e.id) + r1);
    lemma_dec_enc_u64(pre, e.id, r1);
    let pre1 = pre + spec_enc_u64(e.id);
    let r2 = spec_enc_u64(e.sm_id) + spec_enc_u64(e.fn_id) + spec_enc_bytes(e.data) + suf;
    assert(buf =~= pre1 + spec_enc_u64(e.term) + r2);
    lemma_dec_enc_u64(pre1, e.term, r2);
    let pre2 = pre1 + spec_enc_u64(e.term);
    let r3 = spec_enc_u64(e.fn_id) + spec_enc_bytes(e.data) + suf;
    assert(buf =~= pre2 + spec_enc_u64(e.sm_id) + r3);
    lemma_dec_enc_u64(pre2, e.sm_id, r3);
    let pre3 = pre2 + spec_enc_u64(e.sm_id);
    let r4 = spec_enc_bytes(e.data) + suf;
    assert(buf =~= pre3 + spec_enc_u64(e.fn_id) + r4);
    lemma_dec_enc_u64(pre3, e.fn_id, r4);
    let pre4 = pre3 + spec_enc_u64(e.fn_id);
    assert(buf =~= pre4 + spec_enc_bytes(e.data) + suf);
    lemma_dec_enc_bytes(pre4, e.data, suf);
    lemma_spec_le_len(e.id as nat, 8);
    lemma_spec_le_len(e.term as nat, 8);
    lemma_spec_le_len(e.sm_id as nat, 8);
    lemma_spec_le_len(e.fn_id as nat, 8);
    lemma_spec_le_len(e.data.len() as u64 as nat, 8);
}

/// Appends the image of one entry.
pub fn enc_entry(out: &mut Vec<u8>, e: &LogEntry)
    ensures
        final(out)@ == old(out)@ + spec_enc_entry(e@),
{
    enc_u64(out, e.id);
    enc_u64(out, e.term);
    enc_u64(out, e.sm_id);
    enc_u64(out, e.fn_id);
    enc_bytes(out, &e.data);
    proof {
        assert(out@ =~= old(out)@ + spec_enc_entry(e@));
    }
}

/// Reads one entry at `pos`, as `sdec_entry` describes.
pub fn dec_entry(buf: &Vec<u8>, pos: usize) -> (r: Option<(LogEntry, usize)>)
    ensures
        r matches Some((e, end)) ==> sdec_entry(buf@, pos as int) == Some((e@, end as int)),
        r is None ==> sdec_entry(buf@, pos as int) is None,
{
    let s1 = dec_u64(buf, pos);
    match s1 {
        Some((id, p1)) => match dec_u64(buf, p1) {
            Some((term, p2)) => match dec_u64(buf, p2) {
                Some((sm_id, p3)) => match dec_u64(buf, p3) {
                    Some((fn_id, p4)) => match crate::codec::dec_bytes(buf, p4) {
                        Some((data, p5)) => Some((LogEntry { id, term, sm_id, fn_id, data }, p5)),
                        _ => None,
                    },
                    _ => None,
                },
                _ => None,
            },
            _ => None,
        },
        _ => None,
    }
}

/// The image of a row of entries, in order.
pub open spec fn spec_enc_entries(s: Seq<LogEntryView>) -> Seq<u8>
    decreases s.len(),
{
    if s.len() == 0 {
        Seq::empty()
    } else {
        spec_enc_entry(s[0]) + spec_enc_entries(s.drop_first())
    }
}

/// Encoding distributes over appending one entry at the back.
pub proof fn lemma_enc_entries_snoc(s: Seq<LogEntryView>, e: LogEntryView)
    ensures
        spec_enc_entries(s.push(e)) == spec_enc_entries(s) + spec_enc_entry(e),
    decreases s.len(),
{
    if s.len() == 0 {
        assert(s.push(e)[0] == e);
        assert(s.push(e).drop_first() =~= Seq::<LogEntryView>::empty());
        assert(spec_enc_entries(Seq::<LogEntryView>::empty()) == Seq::<u8>::empty());
        assert(spec_enc_entries(s.push(e)) =~= spec_enc_entries(s) + spec_enc_entry(e));
    } else {
        assert(s.push(e).drop_first() =~= s.drop_first().push(e));
        lemma_enc_entries_snoc(s.drop_first(), e);
        assert(spec_enc_entries(s.push(e)) == spec_enc_entry(s[0]) + (spec_enc_entries(
            s.drop_first(),
        ) + spec_enc_entry(e)));
        assert(spec_enc_entry(s[0]) + (spec_enc_entries(s.drop_first()) + spec_enc_entry(e))
            =~= (spec_enc_entry(s[0]) + spec_enc_entries(s.drop_first())) + spec_enc_entry(e));
    }
}

/// What reading `n` entries from `pos` yields.
pub open spec fn sdec_entries(buf: Seq<u8>, pos: int, n: nat) -> Option<(Seq<LogEntryView>, int)>
    decreases n,
{
    if n == 0 {
        Some((Seq::<LogEntryView>::empty(), pos))
    } else {
        match sdec_entry(buf, pos) {
            Some((e, p)) => match sdec_entries(buf, p, (n - 1) as nat) {
                Some((s, p2)) => Some((seq![e] + s, p2)),
                _ => Option::<(Seq<LogEntryView>, int)>::None,
            },
            _ => Option::<(Seq<LogEntryView>, int)>::None,
        }
    }
}

/// Reading at the front of an encoded row of entries yields that row.
pub proof fn lemma_dec_enc_entries(pre: Seq<u8>, s: Seq<LogEntryView>, suf: Seq<u8>)
    requires
        forall|i: int| 0 <= i < s.len() ==> (#[trigger] s[i]).data.len() < 0x10000000000000000,
    ensures
        sdec_entries(pre + spec_enc_entries(s) + suf, pre.len() as int, s.len()) == Some(
            (s, (pre.len() + spec_enc_entries(s).len()) as int),
        ),
    decreases s.len(),
{
    if s.len() == 0 {
        assert(pre + spec_enc_entries(s) + suf =~= pre + suf);
    } else {
        let buf = pre + spec_enc_entries(s) + suf;
        let rest = spec_enc_entries(s.drop_first()) + suf;
        assert(buf =~= pre + spec_enc_entry(s[0]) + rest);
        lemma_dec_enc_entry(pre, s[0], rest);
        let pre1 = pre + spec_enc_entry(s[0]);
        assert(buf =~= pre1 + spec_enc_entries(s.drop_first()) + suf);
        lemma_dec_enc_entries(pre1, s.drop_first(), suf);
        assert(seq![s[0]] + s.drop_first() =~= s);
    }
}

/// The durable image of the whole store: the first retained id, the boundary
/// term, the entry count, then the entries.
pub open spec fn spec_log_image(v: LogStoreView) -> Seq<u8> {
    spec_enc_u64(v.first) + spec_enc_u64(v.base_term) + spec_enc_u64(v.entries.len() as u64)
        + spec_enc_entries(v.entries)
}

/// What reading a whole image yields; the image must be consumed exactly.
pub open spec fn sdec_log_image(buf: Seq<u8>) -> Option<LogStoreView> {
    match sdec_u64(buf, 0) {
        Some((first, p1)) => match sdec_u64(buf, p1) {
            Some((base_term, p2)) => match sdec_u64(buf, p2) {
                Some((n, p3)) => match sdec_entries(buf, p3, n as nat) {
                    Some((entries, p4)) => {
                        if p4 == buf.len() {
                            Some(LogStoreView { first, base_term, entries })
                        } else {
                            Option::<LogStoreView>::None
                        }
                    },
                    _ => Option::<LogStoreView>::None,
                },
                _ => Option::<LogStoreView>::None,
            },
            _ => Option::<LogStoreView>::None,
        },
        _ => Option::<LogStoreView>::None,
    }
}

/// Serialize then deserialize of a log map yields an equal map: reading the
/// image of any well-formed store gives that store back, entry for entry.
pub proof fn lemma_log_image_round_trip(v: LogStoreView)
    requires
        v.wf(),
        forall|i: int| 0 <= i < v.entries.len() ==> (#[trigger] v.entries[i]).data.len()
            < 0x10000000000000000,
    ensures
        sdec_log_image(spec_log_image(v)) == Some(v),
{
    let buf = spec_log_image(v);
    let r1 = spec_enc_u64(v.base_term) + spec_enc_u64(v.entries.len() as u64) + spec_enc_entries(
        v.entries,
    );
    assert(buf =~= Seq::<u8>::empty() + spec_enc_u64(v.first) + r1);
    lemma_dec_enc_u64(Seq::<u8>::empty(), v.first, r1);
    let pre1 = Seq::<u8>::empty() + spec_enc_u64(v.first);
    let r2 = spec_enc_u64(v.entries.len() as u64) + spec_enc_entries(v.entries);
    assert(buf =~= pre1 + spec_enc_u64(v.base_term) + r2);
    lemma_dec_enc_u64(pre1, v.base_term, r2);
    let pre2 = pre1 + spec_enc_u64(v.base_term);
    assert(buf =~= pre2 + spec_enc_u64(v.entries.len() as u64) + spec_enc_entries(v.entries));
    lemma_dec_enc_u64(pre2, v.entries.len() as u64, spec_enc_entries(v.entries));
    let pre3 = pre2 + spec_enc_u64(v.entries.len() as u64);
    assert(buf =~= pre3 + spec_enc_entries(v.entries) + Seq::<u8>::empty());
    lemma_dec_enc_entries(pre3, v.entries, Seq::<u8>::empty());
    lemma_spec_le_len(v.first as nat, 8);
    lemma_spec_le_len(v.base_term as nat, 8);
    lemma_spec_le_len(v.entries.len() as u64 as nat, 8);
    assert((pre3 + spec_enc_entries(v.entries) + Seq::<u8>::empty()).len() == buf.len());
}

impl LogStore {
    /// The serialized image of the full store, written to the log file in
    /// bulk after each mutation in the leader path.
    pub fn to_bytes(&self) -> (r: Vec<u8>)
        requires
            self.wf(),
        ensures
            r@ == spec_log_image(self@),
    {
        let mut out: Vec<u8> = Vec::new();
        enc_u64(&mut out, self.first);
        enc_u64(&mut out, self.base_term);
        enc_u64(&mut out, self.entries.len() as u64);
        let ghost head = out@;
        let mut i: usize = 0;
        while i < self.entries.len()
            invariant
                i <= self.entries@.len(),
                self.wf(),
                out@ == head + spec_enc_entries(self@.entries.subrange(0, i as int)),
            decreases self.entries@.len() - i,
        {
            proof {
                assert(spec_enc_entries(self@.entries.subrange(0, 0int)) =~= Seq::<u8>::empty());
            }
            enc_entry(&mut out, &self.entries[i]);
            proof {
                assert(self@.entries.subrange(0, i + 1) =~= self@.entries.subrange(
                    0,
                    i as int,
                ).push(self@.entries[i as int]));
                lemma_enc_entries_snoc(self@.entries.subrange(0, i as int), self@.entries[i as int]);
            }
            i = i + 1;
        }
        proof {
            assert(spec_enc_entries(self@.entries.subrange(0, 0int)) =~= Seq::<u8>::empty());
            assert(self@.entries.subrange(0, self@.entries.len() as int) =~= self@.entries);
            assert(out@ =~= spec_log_image(self@));
        }
        out
    }

    /// Rebuilds a store from its serialized image; the image must parse
    /// exactly and describe a well-formed store.
    pub fn from_bytes(bytes: &Vec<u8>) -> (r: Option<LogStore>)
        ensures
            r matches Some(s) ==> {
                &&& s.wf()
                &&& sdec_log_image(bytes@) == Some(s@)
            },
            r is None ==> (sdec_log_image(bytes@) matches Some(v) ==> !v.wf()),
    {
        let s1 = dec_u64(bytes, 0);
        let (first, p1) = match s1 {
            Some(x) => x,
            _ => {
                return None;
            },
        };
        let s2 = dec_u64(bytes, p1);
        let (base_term, p2) = match s2 {
            Some(x) => x,
            _ => {
                return None;
            },
        };
        let s3 = dec_u64(bytes, p2);
        let (n, p3) = match s3 {
            Some(x) => x,
            _ => {
                return None;
            },
        };
        let mut entries: Vec<LogEntry> = Vec::new();
        let mut pos: usize = p3;
        let mut k: u64 = 0;
        proof {
            assert(entry_views(entries@) =~= Seq::<LogEntryView>::empty());
        }
        while k < n
            invariant
                0 <= k <= n,
                entries@.len() == k,
                forall|j: int|
                    0 <= j < entries@.len() ==> (#[trigger] entries@[j])@.id == first + j,
                first >= 1 || k == 0,
                first + k - 1 <= u64::MAX,
                sdec_entries(bytes@, p3 as int, n as nat) == (match sdec_entries(
                    bytes@,
                    pos as int,
                    (n - k) as nat,
                ) {
                    Some((s, p)) => Some((entry_views(entries@) + s, p)),
                    _ => Option::<(Seq<LogEntryView>, int)>::None,
                }),
                sdec_log_image(bytes@) == (match sdec_entries(bytes@, p3 as int, n as nat) {
                    Some((s, p)) => {
                        if p == bytes@.len() {
                            Some(LogStoreView { first, base_term, entries: s })
                        } else {
                            Option::<LogStoreView>::None
                        }
                    },
                    _ => Option::<LogStoreView>::None,
                }),
            decreases n - k,
        {
            let step = dec_entry(bytes, pos);
            let (e, p) = match step {
                Some(x) => x,
                _ => {
                    proof {
                        assert(sdec_entries(bytes@, pos as int, (n - k) as nat) is None);
                    }
                    return None;
                },
            };
            if first == 0 || first > u64::MAX - k || e.id != first + k {
                proof {
                    let tail = sdec_entries(bytes@, p as int, (n - k - 1) as nat);
                    match sdec_log_image(bytes@) {
                        Some(v) => {
                            let s2v = tail->Some_0.0;
                            assert(v.entries == entry_views(entries@) + (seq![e@] + s2v));
                            assert(v.entries[k as int] == e@);
                            assert(!v.wf());
                        },
                        _ => {},
                    }
                }
                return None;
            }
            let ghost entries0 = entries@;
            entries.push(e);
            pos = p;
            k = k + 1;
            proof {
                entries0.lemma_push_map_commute(|x: LogEntry| x@, e);
                let tail = sdec_entries(bytes@, pos as int, (n - k) as nat);
                match tail {
                    Some((s2v, p2v)) => {
                        assert(entry_views(entries0) + (seq![e@] + s2v) =~= entry_views(entries@)
                            + s2v);
                    },
                    _ => {},
                }
            }
        }
        if pos != bytes.len() {
            return None;
        }
        if first == 0 {
            return None;
        }
        let store = LogStore { first, base_term, entries };
        proof {
            assert(entry_views(store.entries@) + Seq::<LogEntryView>::empty() =~= entry_views(
                store.entries@,
            ));
            assert(store@.wf());
        }
        Some(store)
    }
}

} // verus!
