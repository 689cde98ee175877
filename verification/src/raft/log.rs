//! The Raft log: an in-memory sequence of entries that follows the most
//! recent snapshot.
//!
//! Log indices are 1-based; index 0 is the empty sentinel. The entry stored at
//! position `i` of the log has index `snapshot_index + 1 + i`.
use vstd::prelude::*;

verus! {

/// A command that can be applied to the key-value state machine.
#[derive(Debug, Clone)]
pub enum KvCommand {
    Put { key: String, value: Vec<u8> },
    Delete { key: String },
    /// A no-op entry. Leaders append this on election to commit previous entries.
    Noop,
}

/// The mathematical value of a [`KvCommand`].
pub enum KvCommandView {
    Put { key: Seq<char>, value: Seq<u8> },
    Delete { key: Seq<char> },
    Noop,
}

impl View for KvCommand {
    type V = KvCommandView;

    open spec fn view(&self) -> KvCommandView {
        match self {
            KvCommand::Put { key, value } => KvCommandView::Put { key: key@, value: value@ },
            KvCommand::Delete { key } => KvCommandView::Delete { key: key@ },
            KvCommand::Noop => KvCommandView::Noop,
        }
    }
}

impl KvCommand {
    /// A copy of this command with the same key and value.
    pub fn duplicate(&self) -> (r: KvCommand)
        ensures
            r@ == self@,
    {
        match self {
            KvCommand::Put { key, value } => KvCommand::Put { key: key.clone(), value: value.clone() },
            KvCommand::Delete { key } => KvCommand::Delete { key: key.clone() },
            KvCommand::Noop => KvCommand::Noop,
        }
    }
}

/// A single entry in the replicated log.
#[derive(Debug, Clone)]
pub struct LogEntry {
    /// The term in which this entry was created.
    pub term: u64,
    /// 1-based position in the log.
    pub index: u64,
    /// The command to apply when this entry is committed.
    pub command: KvCommand,
}

/// The mathematical value of a [`LogEntry`].
pub struct LogEntryView {
    pub term: u64,
    pub index: u64,
    pub command: KvCommandView,
}

impl View for LogEntry {
    type V = LogEntryView;

    open spec fn view(&self) -> LogEntryView {
        LogEntryView { term: self.term, index: self.index, command: self.command@ }
    }
}

impl LogEntry {
    /// A copy of this entry.
    pub fn duplicate(&self) -> (r: LogEntry)
        ensures
            r@ == self@,
    {
        LogEntry { term: self.term, index: self.index, command: self.command.duplicate() }
    }
}

/// The abstract state of a [`RaftLog`]: the snapshot point and the entries after it.
pub struct RaftLogView {
    pub entries: Seq<LogEntry>,
    pub snapshot_index: u64,
    pub snapshot_term: u64,
}

impl RaftLogView {
    /// Entry `i` of the log carries index `snapshot_index + 1 + i`.
    pub open spec fn well_indexed(self) -> bool {
        forall|i: int|
            0 <= i < self.entries.len() ==> #[trigger] self.entries[i].index == self.snapshot_index
                + 1 + i
    }

    /// The index of the last entry, or the snapshot index when no entry follows it.
    pub open spec fn last_index(self) -> u64 {
        if self.entries.len() == 0 {
            self.snapshot_index
        } else {
            self.entries.last().index
        }
    }

    /// The term of the last entry, or the snapshot term when no entry follows it.
    pub open spec fn last_term(self) -> u64 {
        if self.entries.len() == 0 {
            self.snapshot_term
        } else {
            self.entries.last().term
        }
    }

    /// Whether an entry with this index is held in memory.
    pub open spec fn holds(self, index: u64) -> bool {
        self.snapshot_index < index && index - self.snapshot_index <= self.entries.len()
    }

    /// The entry with this index, if it is held in memory.
    pub open spec fn entry_at(self, index: u64) -> Option<LogEntry> {
        if self.holds(index) {
            Some(self.entries[index - self.snapshot_index - 1])
        } else {
            None
        }
    }

    /// The term of the entry with this index: the snapshot term at the snapshot
    /// index, the entry's term for an entry held in memory, and nothing otherwise.
    pub open spec fn term_at(self, index: u64) -> Option<u64> {
        if index == self.snapshot_index {
            Some(self.snapshot_term)
        } else if self.holds(index) {
            Some(self.entries[index - self.snapshot_index - 1].term)
        } else {
            None
        }
    }

    /// The entries with an index greater than `after_index`.
    pub open spec fn entries_after(self, after_index: u64) -> Seq<LogEntry> {
        if after_index >= self.last_index() {
            Seq::empty()
        } else if after_index <= self.snapshot_index {
            self.entries
        } else {
            self.entries.skip(after_index - self.snapshot_index)
        }
    }

    /// A batch received from a leader can be merged into this log: its indices
    /// are consecutive and it starts no later than just after our last entry.
    pub open spec fn accepts_batch(self, batch: Seq<LogEntry>) -> bool {
        batch.len() > 0 ==> {
            &&& batch[0].index <= self.last_index() + 1
            &&& forall|i: int| 0 <= i < batch.len() ==> #[trigger] batch[i].index == batch[0].index + i
        }
    }

    /// The batch entry is not already in the log: it lies after the snapshot
    /// and is either beyond our last entry or conflicts with ours in term.
    pub open spec fn diverges(self, e: LogEntry) -> bool {
        &&& e.index > self.snapshot_index
        &&& (e.index > self.last_index() || self.entries[e.index - self.snapshot_index - 1].term
            != e.term)
    }

    /// The position of the first batch entry at or after `j` that is not already in the log,
    /// or the batch length when there is none.
    pub open spec fn first_divergence_from(self, batch: Seq<LogEntry>, j: int) -> int
        decreases batch.len() - j,
    {
        if j < 0 || j >= batch.len() {
            batch.len() as int
        } else if self.diverges(batch[j]) {
            j
        } else {
            self.first_divergence_from(batch, j + 1)
        }
    }

    /// The entries after merging `batch`: entries that match are kept, and from
    /// the first entry that does not match, our log is cut and the rest of the
    /// batch takes its place.
    pub open spec fn reconcile(self, batch: Seq<LogEntry>) -> Seq<LogEntry> {
        let j = self.first_divergence_from(batch, 0);
        if j >= batch.len() {
            self.entries
        } else {
            self.entries.take(batch[j].index - self.snapshot_index - 1) + batch.skip(j)
        }
    }

    /// The entries after discarding everything up to and including `up_to_index`.
    pub open spec fn compacted(self, up_to_index: u64) -> Seq<LogEntry> {
        if up_to_index - self.snapshot_index >= self.entries.len() {
            Seq::empty()
        } else {
            self.entries.skip(up_to_index - self.snapshot_index)
        }
    }

    /// The entries whose index is below `from`.
    pub open spec fn before(self, from: u64) -> Seq<LogEntry> {
        if from <= self.snapshot_index {
            Seq::empty()
        } else if from - self.snapshot_index - 1 >= self.entries.len() {
            self.entries
        } else {
            self.entries.take(from - self.snapshot_index - 1)
        }
    }
}

/// The replicated log: entries since the last snapshot, kept in memory.
pub struct RaftLog {
    /// entries[0] corresponds to log index (snapshot_index + 1).
    entries: Vec<LogEntry>,
    /// The index of the last entry included in the most recent snapshot.
    /// 0 if no snapshot has been taken yet.
    snapshot_index: u64,
    /// The term of the entry at snapshot_index.
    snapshot_term: u64,
}

impl View for RaftLog {
    type V = RaftLogView;

    closed spec fn view(&self) -> RaftLogView {
        RaftLogView {
            entries: self.entries@,
            snapshot_index: self.snapshot_index,
            snapshot_term: self.snapshot_term,
        }
    }
}

impl RaftLog {
    /// The log's invariant: its abstract state agrees with its public fields and
    /// every entry sits at the position its index names.
    pub closed spec fn wf(&self) -> bool {
        &&& self@.snapshot_index == self.snapshot_index
        &&& self@.snapshot_term == self.snapshot_term
        &&& self@.well_indexed()
    }

    proof fn lemma_view(&self)
        ensures
            self@.entries == self.entries@,
            self@.snapshot_index == self.snapshot_index,
            self@.snapshot_term == self.snapshot_term,
    {
    }

    /// A well-formed log's entries sit at the positions their indices name.
    pub proof fn lemma_well_indexed(&self)
        requires
            self.wf(),
        ensures
            self@.well_indexed(),
    {
    }

    /// The index of the last entry covered by the most recent snapshot.
    pub fn snapshot_index(&self) -> (r: u64)
        ensures
            r == self@.snapshot_index,
    {
        self.snapshot_index
    }

    /// The term of the last entry covered by the most recent snapshot.
    pub fn snapshot_term(&self) -> (r: u64)
        ensures
            r == self@.snapshot_term,
    {
        self.snapshot_term
    }

    /// An empty log with no snapshot.
    pub fn new() -> (log: RaftLog)
        ensures
            log.wf(),
            log@.entries == Seq::<LogEntry>::empty(),
            log@.snapshot_index == 0,
            log@.snapshot_term == 0,
    {
        RaftLog { entries: Vec::new(), snapshot_index: 0, snapshot_term: 0 }
    }

    /// Rebuild the log after a restart from the stored snapshot point and the
    /// entries read from storage in index order, starting at `snapshot_index + 1`.
    ///
    /// The log takes the longest run of stored entries whose indices follow the
    /// snapshot point one by one; reading stops at the first gap.
    pub fn from_storage(snapshot_index: u64, snapshot_term: u64, stored: Vec<LogEntry>) -> (log: RaftLog)
        ensures
            log.wf(),
            log@.well_indexed(),
            log@.snapshot_index == snapshot_index,
            log@.snapshot_term == snapshot_term,
            log@.entries.len() <= stored@.len(),
            log@.entries == stored@.take(log@.entries.len() as int),
            log@.entries.len() < stored@.len() ==> stored@[log@.entries.len() as int].index
                != snapshot_index + 1 + log@.entries.len(),
    {
        let mut i: usize = 0;
        while i < stored.len() && stored[i].index > snapshot_index && stored[i].index
            - snapshot_index - 1 == i as u64
            invariant
                0 <= i <= stored@.len(),
                forall|k: int| 0 <= k < i ==> #[trigger] stored@[k].index == snapshot_index + 1 + k,
            decreases stored@.len() - i,
        {
            i = i + 1;
        }
        let mut entries = stored;
        entries.truncate(i);
        let log = RaftLog { entries, snapshot_index, snapshot_term };
        assert(log@.entries =~= stored@.take(i as int));
        log
    }

    /// The index of the last entry in the log (or snapshot_index if empty).
    pub fn last_index(&self) -> (r: u64)
        requires
            self.wf(),
        ensures
            r == self@.last_index(),
            r == self@.snapshot_index + self@.entries.len(),
    {
        let n = self.entries.len();
        if n == 0 {
            self.snapshot_index
        } else {
            self.entries[n - 1].index
        }
    }

    /// The term of the last entry (or snapshot_term if empty).
    pub fn last_term(&self) -> (r: u64)
        requires
            self.wf(),
        ensures
            r == self@.last_term(),
    {
        let n = self.entries.len();
        if n == 0 {
            self.snapshot_term
        } else {
            self.entries[n - 1].term
        }
    }

    /// Get the term of the entry at `index`, or None if not in our log.
    pub fn term_at(&self, index: u64) -> (r: Option<u64>)
        requires
            self.wf(),
        ensures
            r == self@.term_at(index),
    {
        if index == self.snapshot_index {
            return Some(self.snapshot_term);
        }
        match self.get(index) {
            Some(e) => Some(e.term),
            None => None,
        }
    }

    /// Get a reference to the entry at `index`, or None.
    pub fn get(&self, index: u64) -> (r: Option<&LogEntry>)
        requires
            self.wf(),
        ensures
            match r {
                Some(e) => self@.entry_at(index) == Some(*e),
                None => self@.entry_at(index) is None,
            },
    {
        if index <= self.snapshot_index || self.entries.len() == 0 {
            return None;
        }
        let offset: u64 = index - self.snapshot_index - 1;
        if offset >= self.entries.len() as u64 {
            return None;
        }
        Some(&self.entries[offset as usize])
    }

    /// Return all entries with index > `after_index`.
    pub fn entries_from(&self, after_index: u64) -> (r: &[LogEntry])
        requires
            self.wf(),
        ensures
            r@ == self@.entries_after(after_index),
    {
        if after_index >= self.last_index() {
            return vstd::slice::slice_subrange(self.entries.as_slice(), 0, 0);
        }
        let start: u64 = if after_index > self.snapshot_index {
            after_index - self.snapshot_index
        } else {
            0
        };
        let n = self.entries.len();
        let r = vstd::slice::slice_subrange(self.entries.as_slice(), start as usize, n);
        assert(r@ =~= self@.entries_after(after_index));
        r
    }

    /// Append a new entry to the log (leader path), assigning the next index.
    pub fn append(&mut self, term: u64, command: KvCommand) -> (r: LogEntry)
        requires
            old(self).wf(),
            old(self)@.last_index() < u64::MAX,
        ensures
            final(self).wf(),
            final(self)@.snapshot_index == old(self)@.snapshot_index,
            final(self)@.snapshot_term == old(self)@.snapshot_term,
            final(self)@.entries.len() == old(self)@.entries.len() + 1,
            final(self)@.entries.take(old(self)@.entries.len() as int) == old(self)@.entries,
            final(self)@.entries.last()@ == (LogEntryView {
                term,
                index: (old(self)@.last_index() + 1) as u64,
                command: command@,
            }),
            r@ == final(self)@.entries.last()@,
            final(self)@.last_index() == old(self)@.last_index() + 1,
    {
        let index = self.last_index() + 1;
        let entry = LogEntry { term, index, command };
        let copy = entry.duplicate();
        self.entries.push(entry);
        assert(self@.entries.take(old(self)@.entries.len() as int) =~= old(self)@.entries);
        copy
    }

    /// Append a batch of entries received from the leader (follower path).
    ///
    /// Entries at or below the snapshot index are skipped, entries that match
    /// ours in index and term are skipped, and at the first entry that is
    /// new or conflicts in term, our log is cut there and the rest of the batch
    /// is appended. Returns the index of the last new entry: the index of the
    /// batch's last entry (the leader's previous index plus the batch length).
    /// An empty batch names no entry; the log's last index is returned then.
    pub fn append_entries(&mut self, entries: Vec<LogEntry>) -> (r: u64)
        requires
            old(self).wf(),
            old(self)@.accepts_batch(entries@),
        ensures
            final(self).wf(),
            final(self)@.snapshot_index == old(self)@.snapshot_index,
            final(self)@.snapshot_term == old(self)@.snapshot_term,
            final(self)@.entries == old(self)@.reconcile(entries@),
            final(self)@ == merged(old(self)@, entries@),
            final(self)@.accepts_batch(entries@),
            forall|k: int|
                0 <= k < entries@.len() && entries@[k].index > old(self)@.snapshot_index
                    ==> final(self)@.term_at(#[trigger] entries@[k].index) == Some(entries@[k].term),
            r == if entries@.len() > 0 {
                entries@.last().index
            } else {
                final(self)@.last_index()
            },
    {
        let ghost batch = entries@;
        let mut entries = entries;
        let len = entries.len();
        let batch_last: u64 = if len > 0 {
            entries[len - 1].index
        } else {
            0
        };
        let last = self.last_index();
        let snap = self.snapshot_index;
        let ghost v = self@;
        proof {
            self.lemma_view();
        }
        let n: usize = self.entries.len();
        let mut j: usize = 0;
        while j < len
            invariant
                n == v.entries.len(),
                self.wf(),
                self@ == v,
                v.entries == self.entries@,
                last == snap + v.entries.len(),
                len == entries@.len(),
                last == v.last_index(),
                snap == v.snapshot_index,
                0 <= j <= len,
                v.first_divergence_from(entries@, 0) == v.first_divergence_from(entries@, j as int),
            ensures
                j <= len,
                v.first_divergence_from(entries@, 0) == j as int,
            decreases len - j,
        {
            let e_index = entries[j].index;
            let e_term = entries[j].term;
            assert(v.first_divergence_from(entries@, j as int) == if v.diverges(entries@[j as int]) {
                j as int
            } else {
                v.first_divergence_from(entries@, j as int + 1)
            });
            if e_index > snap {
                if e_index > last {
                    break;
                }
                let off: u64 = e_index - snap - 1;
                assert(off < n);
                let pos: usize = off as usize;
                if self.entries[pos].term != e_term {
                    break;
                }
            }
            j = j + 1;
        }
        if j < len {
            let e_index = entries[j].index;
            proof {
                self.lemma_divergence_position(entries@, j as int);
            }
            let keep: u64 = e_index - snap - 1;
            assert(keep <= n);
            self.truncate_from(e_index);
            let mut tail = entries.split_off(j);
            self.entries.append(&mut tail);
            assert(self@.entries =~= v.reconcile(batch));
        }
        proof {
            lemma_reconcile_holds_batch(v, batch);
            assert(self@ == merged(v, batch));
            lemma_append_entries_idempotent(v, batch);
        }
        if len > 0 {
            batch_last
        } else {
            self.last_index()
        }
    }

    /// Where the first divergent batch entry lands: right after the snapshot, or
    /// on one of our entries, or just past our last one.
    proof fn lemma_divergence_position(&self, batch: Seq<LogEntry>, j: int)
        requires
            self.wf(),
            self@.accepts_batch(batch),
            0 <= j < batch.len(),
            self@.first_divergence_from(batch, 0) == j,
        ensures
            self.snapshot_index < batch[j].index <= self@.last_index() + 1,
    {
        let v = self@;
        v.lemma_first_divergence_diverges(batch, 0);
        if j > 0 {
            v.lemma_before_first_divergence(batch, 0, j - 1);
            assert(batch[j].index == batch[j - 1].index + 1) by {
                assert(batch[j].index == batch[0].index + j);
                assert(batch[j - 1].index == batch[0].index + (j - 1));
            }
        }
    }

    /// Truncate all entries with index >= `from`.
    fn truncate_from(&mut self, from: u64)
        requires
            old(self).wf(),
        ensures
            final(self).wf(),
            final(self)@.snapshot_index == old(self)@.snapshot_index,
            final(self)@.snapshot_term == old(self)@.snapshot_term,
            final(self)@.entries == old(self)@.before(from),
    {
        if from <= self.snapshot_index {
            self.entries.clear();
        } else {
            let keep: u64 = from - self.snapshot_index - 1;
            if keep < self.entries.len() as u64 {
                self.entries.truncate(keep as usize);
            }
        }
        assert(self@.entries =~= old(self)@.before(from));
    }

    /// Discard log entries up to and including `up_to_index` after a snapshot,
    /// and record the snapshot point.
    pub fn compact_to(&mut self, up_to_index: u64, up_to_term: u64)
        requires
            old(self).wf(),
            old(self)@.snapshot_index <= up_to_index,
        ensures
            final(self).wf(),
            final(self)@.snapshot_index == up_to_index,
            final(self)@.snapshot_term == up_to_term,
            final(self)@.entries == old(self)@.compacted(up_to_index),
    {
        let drop: u64 = up_to_index - self.snapshot_index;
        if drop >= self.entries.len() as u64 {
            self.entries.clear();
        } else {
            let tail = self.entries.split_off(drop as usize);
            self.entries = tail;
        }
        self.snapshot_index = up_to_index;
        self.snapshot_term = up_to_term;
        assert(self@.entries =~= old(self)@.compacted(up_to_index));
    }
}

impl RaftLogView {
    proof fn lemma_no_divergence(self, batch: Seq<LogEntry>, j: int)
        requires
            0 <= j,
            forall|k: int| j <= k < batch.len() ==> !self.diverges(#[trigger] batch[k]),
        ensures
            self.first_divergence_from(batch, j) == batch.len(),
        decreases batch.len() - j,
    {
        if j < batch.len() {
            self.lemma_no_divergence(batch, j + 1);
        }
    }

    proof fn lemma_first_divergence_bounds(self, batch: Seq<LogEntry>, j: int)
        requires
            0 <= j,
        ensures
            j <= self.first_divergence_from(batch, j) <= batch.len() || self.first_divergence_from(
                batch,
                j,
            ) == batch.len(),
            self.first_divergence_from(batch, j) <= batch.len(),
            self.first_divergence_from(batch, j) >= 0,
        decreases batch.len() - j,
    {
        if j < batch.len() && !self.diverges(batch[j]) {
            self.lemma_first_divergence_bounds(batch, j + 1);
        }
    }

    proof fn lemma_first_divergence_diverges(self, batch: Seq<LogEntry>, j: int)
        requires
            0 <= j,
            self.first_divergence_from(batch, j) < batch.len(),
        ensures
            self.diverges(batch[self.first_divergence_from(batch, j)]),
            j <= self.first_divergence_from(batch, j),
        decreases batch.len() - j,
    {
        if j < batch.len() && !self.diverges(batch[j]) {
            self.lemma_first_divergence_diverges(batch, j + 1);
        }
    }

    proof fn lemma_before_first_divergence(self, batch: Seq<LogEntry>, j: int, k: int)
        requires
            0 <= j <= k < self.first_divergence_from(batch, j),
            self.first_divergence_from(batch, j) <= batch.len(),
        ensures
            !self.diverges(batch[k]),
        decreases k - j,
    {
        if j < batch.len() && !self.diverges(batch[j]) {
            if j < k {
                self.lemma_before_first_divergence(batch, j + 1, k);
            }
        }
    }
}

/// The log after merging `batch` into `v`.
pub open spec fn merged(v: RaftLogView, batch: Seq<LogEntry>) -> RaftLogView {
    RaftLogView { entries: v.reconcile(batch), ..v }
}

/// After a batch is merged, every batch entry past the snapshot is in the log
/// at its own index and with its own term.
pub proof fn lemma_reconcile_holds_batch(v: RaftLogView, batch: Seq<LogEntry>)
    requires
        v.well_indexed(),
        v.accepts_batch(batch),
    ensures
        merged(v, batch).well_indexed(),
        forall|k: int|
            0 <= k < batch.len() && batch[k].index > v.snapshot_index ==> {
                &&& #[trigger] merged(v, batch).holds(batch[k].index)
                &&& merged(v, batch).entries[batch[k].index - v.snapshot_index - 1].term
                    == batch[k].term
                &&& merged(v, batch).term_at(batch[k].index) == Some(batch[k].term)
            },
{
    let w = merged(v, batch);
    let j = v.first_divergence_from(batch, 0);
    v.lemma_first_divergence_bounds(batch, 0);
    if j < batch.len() {
        v.lemma_first_divergence_diverges(batch, 0);
        if j > 0 {
            v.lemma_before_first_divergence(batch, 0, j - 1);
            assert(batch[j].index == batch[j - 1].index + 1) by {
                assert(batch[j].index == batch[0].index + j);
                assert(batch[j - 1].index == batch[0].index + (j - 1));
            }
        }
    }
    assert(w.well_indexed()) by {
        if j < batch.len() {
            let kk = batch[j].index - v.snapshot_index - 1;
            assert forall|i: int| 0 <= i < w.entries.len() implies #[trigger] w.entries[i].index
                == w.snapshot_index + 1 + i by {
                if i < kk {
                    assert(w.entries[i] == v.entries[i]);
                } else {
                    assert(w.entries[i] == batch[j + (i - kk)]);
                    assert(batch[j + (i - kk)].index == batch[0].index + j + (i - kk));
                    assert(batch[j].index == batch[0].index + j);
                }
            }
        }
    }
    assert forall|k: int| 0 <= k < batch.len() && batch[k].index > v.snapshot_index implies {
        &&& #[trigger] w.holds(batch[k].index)
        &&& w.entries[batch[k].index - v.snapshot_index - 1].term == batch[k].term
        &&& w.term_at(batch[k].index) == Some(batch[k].term)
    } by {
        assert(batch[k].index == batch[0].index + k);
        if k < j {
            v.lemma_before_first_divergence(batch, 0, k);
            if j < batch.len() {
                assert(batch[j].index == batch[0].index + j);
                assert(w.entries[batch[k].index - v.snapshot_index - 1] == v.entries[batch[k].index
                    - v.snapshot_index - 1]);
            }
        } else {
            let kk = batch[j].index - v.snapshot_index - 1;
            assert(batch[j].index == batch[0].index + j);
            assert(w.entries[kk + (k - j)] == batch[k]);
        }
    }
}

/// Merging the same batch a second time changes nothing: AppendEntries is idempotent,
/// so a follower may safely receive a retransmitted request. The merged log still
/// accepts the batch, so the second merge is always allowed, and it leaves the
/// snapshot point, the entries and the last index as the first merge left them.
pub proof fn lemma_append_entries_idempotent(v: RaftLogView, batch: Seq<LogEntry>)
    requires
        v.well_indexed(),
        v.accepts_batch(batch),
    ensures
        merged(v, batch).accepts_batch(batch),
        merged(merged(v, batch), batch) == merged(v, batch),
        merged(merged(v, batch), batch).last_index() == merged(v, batch).last_index(),
{
    let w = merged(v, batch);
    lemma_reconcile_holds_batch(v, batch);
    lemma_last_index_counts(v);
    lemma_last_index_counts(w);
    if batch.len() > 0 {
        let k = batch.len() - 1;
        assert(batch[k].index == batch[0].index + k);
        if batch[k].index > v.snapshot_index {
            assert(w.holds(batch[k].index));
        }
    }
    assert forall|k: int| 0 <= k < batch.len() implies !w.diverges(#[trigger] batch[k]) by {
        if batch[k].index > w.snapshot_index {
            assert(w.holds(batch[k].index));
        }
    }
    w.lemma_no_divergence(batch, 0);
    assert(w.reconcile(batch) =~= w.entries);
}

/// In a well-indexed log the last index counts the entries after the snapshot point.
proof fn lemma_last_index_counts(v: RaftLogView)
    requires
        v.well_indexed(),
    ensures
        v.last_index() == v.snapshot_index + v.entries.len(),
{
    if v.entries.len() > 0 {
        assert(v.entries[v.entries.len() - 1].index == v.snapshot_index + 1 + (v.entries.len() - 1));
    }
}

/// The log after compacting `v` up to a snapshot at `up_to_index` with `up_to_term`.
pub open spec fn compacted_log(v: RaftLogView, up_to_index: u64, up_to_term: u64) -> RaftLogView {
    RaftLogView {
        entries: v.compacted(up_to_index),
        snapshot_index: up_to_index,
        snapshot_term: up_to_term,
    }
}

/// Compacting the log up to a snapshot point leaves every later entry at its
/// index, and the last index unchanged unless the snapshot reaches past it.
pub proof fn lemma_compaction_keeps_later_entries(
    v: RaftLogView,
    up_to_index: u64,
    up_to_term: u64,
    index: u64,
)
    requires
        v.well_indexed(),
        v.snapshot_index <= up_to_index,
        up_to_index < index,
    ensures
        compacted_log(v, up_to_index, up_to_term).well_indexed(),
        compacted_log(v, up_to_index, up_to_term).entry_at(index) == v.entry_at(index),
        up_to_index <= v.last_index() ==> compacted_log(v, up_to_index, up_to_term).last_index()
            == v.last_index(),
{
    let w = compacted_log(v, up_to_index, up_to_term);
    let d = up_to_index - v.snapshot_index;
    if d < v.entries.len() {
        assert forall|i: int| 0 <= i < w.entries.len() implies #[trigger] w.entries[i].index
            == w.snapshot_index + 1 + i by {
            assert(w.entries[i] == v.entries[i + d]);
        }
        if w.holds(index) {
            assert(w.entries[index - up_to_index - 1] == v.entries[index - v.snapshot_index - 1]);
        }
    }
}

/// Merging a batch never touches the entries before the batch's first index:
/// whatever a follower held before the leader's previous entry stays as it was.
pub proof fn lemma_merge_keeps_prefix(v: RaftLogView, batch: Seq<LogEntry>, index: u64)
    requires
        v.well_indexed(),
        v.accepts_batch(batch),
        batch.len() > 0 ==> index < batch[0].index,
    ensures
        merged(v, batch).entry_at(index) == v.entry_at(index),
{
    let j = v.first_divergence_from(batch, 0);
    v.lemma_first_divergence_bounds(batch, 0);
    lemma_reconcile_holds_batch(v, batch);
    if j < batch.len() {
        v.lemma_first_divergence_diverges(batch, 0);
        if j > 0 {
            v.lemma_before_first_divergence(batch, 0, j - 1);
            assert(batch[j].index == batch[j - 1].index + 1) by {
                assert(batch[j].index == batch[0].index + j);
                assert(batch[j - 1].index == batch[0].index + (j - 1));
            }
        }
        assert(batch[j].index == batch[0].index + j);
        let w = merged(v, batch);
        if v.holds(index) {
            assert(w.entries[index - v.snapshot_index - 1] == v.entries[index - v.snapshot_index
                - 1]);
        }
    }
}

} // verus!
