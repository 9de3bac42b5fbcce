//! The log-structured engine: an in-memory index from each key to the place
//! in the log files where its latest `SET` command lies, the bookkeeping of
//! the current log file and of the bytes that a compaction would reclaim, the
//! replay of the log files when the store is opened, and the plan of a
//! compaction.
//!
//! The files themselves are read and written by the caller.  Each operation
//! is split where it would perform I/O: the store says which bytes to
//! append or where to read, the caller does it and reports the outcome.  The
//! store keeps a ghost model of the bytes of every log file (a byte that the
//! store cannot vouch for, such as one left by a failed write, is `None`) and
//! of the `SET` record of every live key; its invariant ties the index to that
//! model.
use vstd::hash_map::StringHashMap;
use vstd::prelude::*;

use crate::engine::command::{
    lemma_parse_command_end, lemma_parse_exact_of_extent, parse_command, parse_command_exec,
    parse_exact, serialize, skip_ws, skip_ws_exec, Command, CommandView,
};
use crate::errors::KVStoreError;

verus! {

/// A compaction runs once this many bytes of the log may be reclaimed.
pub const MAX_COMPACTION_SIZE: u64 = 1024;

/// Where a command lies in the log: in file `file_id`, `length` bytes from
/// `offset` on.
#[derive(Clone, Copy, Debug, PartialEq, Eq)]
pub struct CommandPos {
    pub offset: u64,
    pub length: u64,
    pub file_id: u64,
}

/// An entry of the index: where the key's record lies, and the key's place
/// in the list of keys.
#[derive(Clone, Copy)]
struct IndexEntry {
    pos: CommandPos,
    slot: usize,
}

/// An append to the current log file that the store has asked for and that
/// has not been reported yet: the key that it sets (none for a removal), its
/// length, and its bytes.
struct PendingAppend {
    key: Option<String>,
    length: u64,
    record: Ghost<Seq<u8>>,
}

/// The in-memory state of the log-structured engine.
pub struct KvStore {
    index: StringHashMap<IndexEntry>,
    keys: Vec<String>,
    current_file_id: u64,
    position: u64,
    size_for_compaction: u64,
    pending: Option<PendingAppend>,
    compacted: Option<usize>,
    disk: Ghost<Map<u64, Seq<Option<u8>>>>,
    records: Ghost<Map<Seq<char>, Seq<u8>>>,
}

/// Bytes that are known.
pub open spec fn known(bytes: Seq<u8>) -> Seq<Option<u8>> {
    bytes.map_values(|b: u8| Some(b))
}

/// `n` bytes that are not known.
pub open spec fn unknown(n: nat) -> Seq<Option<u8>> {
    Seq::new(n, |i: int| None::<u8>)
}

/// The value that a `SET` record holds.
pub open spec fn record_value(r: Seq<u8>) -> Seq<char> {
    match parse_exact(r) {
        Some(CommandView::Put(_, v)) => v,
        _ => Seq::empty(),
    }
}

/// `r` is a `SET` record for key `k`: reading it gives a `SET` of `k` and
/// consumes it all.
pub open spec fn is_set_record(r: Seq<u8>, k: Seq<char>) -> bool {
    parse_command(r, 0) matches Some((CommandView::Put(k2, _), e)) && k2 == k && e == r.len()
}

/// The bytes of the log that `p` designates, in the model `disk`.
pub open spec fn extent(disk: Map<u64, Seq<Option<u8>>>, p: CommandPos) -> Seq<Option<u8>> {
    disk[p.file_id].subrange(p.offset as int, p.offset + p.length)
}

/// `p` lies inside a file of `disk`.
pub open spec fn in_disk(disk: Map<u64, Seq<Option<u8>>>, p: CommandPos) -> bool {
    disk.contains_key(p.file_id) && p.offset + p.length <= disk[p.file_id].len()
}

/// `a + b`, or `u64::MAX` where that is larger.
pub open spec fn sat_add(a: int, b: int) -> int {
    if a + b > u64::MAX {
        u64::MAX as int
    } else {
        a + b
    }
}

/// What replaying the log gives: the index, the `SET` record of each key, and
/// the count of reclaimable bytes.
pub struct ReplayState {
    pub index: Map<Seq<char>, CommandPos>,
    pub records: Map<Seq<char>, Seq<u8>>,
    pub size: int,
}

impl ReplayState {
    /// Nothing replayed yet.
    pub open spec fn empty() -> ReplayState {
        ReplayState { index: Map::empty(), records: Map::empty(), size: 0 }
    }

    /// The contents of the store: each key with the value of its record.
    pub open spec fn contents(self) -> Map<Seq<char>, Seq<char>> {
        self.records.map_values(|r: Seq<u8>| record_value(r))
    }
}

/// The effect of the command `c`, found in bytes `start..end` of file `f`
/// whose bytes are `s`: a `SET` points its key there and counts its bytes; an
/// `RM` drops its key and counts its own bytes and those of the dropped entry.
pub open spec fn apply_entry(
    st: ReplayState,
    c: CommandView,
    s: Seq<u8>,
    start: int,
    end: int,
    f: u64,
) -> ReplayState {
    let len = end - start;
    match c {
        CommandView::Put(k, _) => ReplayState {
            index: st.index.insert(
                k,
                CommandPos { offset: start as u64, length: len as u64, file_id: f },
            ),
            records: st.records.insert(k, s.subrange(start, end)),
            size: sat_add(st.size, len),
        },
        CommandView::Del(k) => ReplayState {
            index: st.index.remove(k),
            records: st.records.remove(k),
            size: sat_add(
                sat_add(
                    st.size,
                    if st.index.contains_key(k) {
                        st.index[k].length as int
                    } else {
                        0
                    },
                ),
                len,
            ),
        },
    }
}

/// Replays the commands of file `f`, whose bytes are `s`, from position `i`
/// on; `None` where the bytes are not a sequence of commands separated by
/// whitespace.
pub open spec fn replay_from(s: Seq<u8>, i: int, f: u64, st: ReplayState) -> Option<ReplayState>
    decreases s.len() - i,
{
    if i < 0 || i > s.len() {
        None
    } else if skip_ws(s, i) >= s.len() {
        Some(st)
    } else {
        match parse_command(s, i) {
            None => None,
            Some((c, e)) => if e <= i || e > s.len() {
                None
            } else {
                replay_from(s, e, f, apply_entry(st, c, s, i, e, f))
            },
        }
    }
}

/// Replays the first `n` log files, in order.
pub open spec fn replay_logs(ids: Seq<u64>, logs: Seq<Seq<u8>>, n: int) -> Option<ReplayState>
    decreases n,
{
    if n <= 0 {
        Some(ReplayState::empty())
    } else {
        match replay_logs(ids, logs, n - 1) {
            None => None,
            Some(st) => replay_from(logs[n - 1], 0, ids[n - 1], st),
        }
    }
}

/// Every byte of a file of the model is known.
pub open spec fn all_known(x: Seq<Option<u8>>) -> bool {
    forall|j: int| 0 <= j < x.len() ==> (#[trigger] x[j]) is Some
}

/// The bytes of a file of the model whose bytes are all known.
pub open spec fn bytes_of(x: Seq<Option<u8>>) -> Seq<u8> {
    x.map_values(|o: Option<u8>| match o {
        Some(b) => b,
        None => 0u8,
    })
}

/// Replays the files of the model `disk` whose ids are below `n`, in the
/// order of their ids, as opening the store does; `None` where a file holds
/// a byte that is not known, or does not replay.
pub open spec fn replay_files(disk: Map<u64, Seq<Option<u8>>>, n: nat) -> Option<ReplayState>
    decreases n,
{
    if n == 0 {
        Some(ReplayState::empty())
    } else {
        match replay_files(disk, (n - 1) as nat) {
            None => None,
            Some(st) => {
                let f = (n - 1) as u64;
                if !disk.contains_key(f) {
                    Some(st)
                } else if !all_known(disk[f]) {
                    None
                } else {
                    replay_from(bytes_of(disk[f]), 0, f, st)
                }
            },
        }
    }
}

impl View for KvStore {
    type V = Map<Seq<char>, Seq<char>>;

    /// The contents of the store.
    closed spec fn view(&self) -> Map<Seq<char>, Seq<char>> {
        self.state().contents()
    }
}

impl KvStore {
    /// The index: where the record of each key lies.
    pub closed spec fn index_view(&self) -> Map<Seq<char>, CommandPos> {
        self.index@.map_values(|e: IndexEntry| e.pos)
    }

    /// The `SET` record of each key.
    pub closed spec fn records(&self) -> Map<Seq<char>, Seq<u8>> {
        self.records@
    }

    /// The model of the log files.
    pub closed spec fn disk(&self) -> Map<u64, Seq<Option<u8>>> {
        self.disk@
    }

    /// The file that appends go to.
    pub closed spec fn file_id(&self) -> u64 {
        self.current_file_id
    }

    /// The write position in the current file.
    pub closed spec fn write_position(&self) -> u64 {
        self.position
    }

    /// The count of bytes that a compaction would reclaim.
    pub closed spec fn reclaimable(&self) -> u64 {
        self.size_for_compaction
    }

    /// The append that waits to be reported: its key (none for a removal)
    /// and its bytes.
    pub closed spec fn pending(&self) -> Option<(Option<Seq<char>>, Seq<u8>)> {
        match self.pending {
            Some(p) => Some(
                (
                    match p.key {
                        Some(k) => Some(k@),
                        None => None,
                    },
                    p.record@,
                ),
            ),
            None => None,
        }
    }

    /// What reopening the store from the files of its model reads back: the
    /// contents that replaying every file, oldest first, gives.
    pub open spec fn files_contents(&self) -> Option<Map<Seq<char>, Seq<char>>> {
        match replay_files(self.disk(), (self.file_id() + 1) as nat) {
            Some(st) => Some(st.contents()),
            None => None,
        }
    }

    /// The files hold the store: reopening it reads back its contents.  While
    /// a removal waits to be appended, the files still hold the removed key,
    /// and reading back the removal as well gives the contents.
    pub open spec fn persisted(&self) -> bool {
        self.files_contents() matches Some(m) && match self.pending() {
            Some((None, rec)) => parse_command(rec, 0) matches Some((CommandView::Del(k), _))
                && m.remove(k) == self@,
            _ => m == self@,
        }
    }

    /// The number of entries of the index.
    pub closed spec fn entry_slots(&self) -> nat {
        self.keys@.len()
    }

    /// The key of the entry at `slot`.
    pub closed spec fn key_at(&self, slot: int) -> Seq<char> {
        self.keys@[slot]@
    }

    /// The replay state that the store holds.
    pub closed spec fn state(&self) -> ReplayState {
        ReplayState {
            index: self.index_view(),
            records: self.records@,
            size: self.size_for_compaction as int,
        }
    }

    /// The list of keys and the index agree: each key of the list has its
    /// place in the index, and each key of the index is in the list at the
    /// place the index gives.
    closed spec fn slots_ok(&self) -> bool {
        &&& forall|i: int|
            0 <= i < self.keys@.len() ==> self.index@.contains_key(#[trigger] self.keys@[i]@)
                && self.index@[self.keys@[i]@].slot == i
        &&& forall|k: Seq<char>| #[trigger]
            self.index@.contains_key(k) ==> self.index@[k].slot < self.keys@.len()
                && self.keys@[self.index@[k].slot as int]@ == k
    }

    /// The records and the model of the files agree with the index.
    closed spec fn records_ok(&self) -> bool {
        &&& self.index@.dom() == self.records@.dom()
        &&& forall|k: Seq<char>| #[trigger]
            self.records@.contains_key(k) ==> {
                let p = self.index@[k].pos;
                &&& is_set_record(self.records@[k], k)
                &&& in_disk(self.disk@, p)
                &&& extent(self.disk@, p) == known(self.records@[k])
            }
    }

    /// The count of entries that a compaction in progress has copied, one
    /// after another, into the current file, which it started empty.
    pub closed spec fn compacted(&self) -> Option<nat> {
        match self.compacted {
            Some(c) => Some(c as nat),
            None => None,
        }
    }

    /// A compaction in progress: the current file holds exactly the records
    /// of the entries copied so far, and those entries point into it.
    closed spec fn compaction_ok(&self) -> bool {
        match self.compacted {
            Some(c) => {
                &&& c <= self.keys@.len()
                &&& self.pending is None
                &&& self.disk@[self.current_file_id] == known(
                    concat(self.live_records().take(c as int)),
                )
                &&& forall|i: int|
                    0 <= i < c ==> (#[trigger] self.index@[self.keys@[i]@]).pos.file_id
                        == self.current_file_id
            },
            None => true,
        }
    }

    /// The invariant of the store.
    pub closed spec fn wf(&self) -> bool {
        &&& self.slots_ok()
        &&& self.records_ok()
        &&& self.disk@.contains_key(self.current_file_id)
        &&& self.disk@[self.current_file_id].len() == self.position
        &&& forall|f: u64| #[trigger] self.disk@.contains_key(f) ==> f <= self.current_file_id
        &&& match self.pending {
            Some(p) => {
                &&& p.length == p.record@.len()
                &&& match p.key {
                    Some(k) => is_set_record(p.record@, k@),
                    None => parse_command(p.record@, 0) matches Some((CommandView::Del(_), e))
                        && e == p.record@.len(),
                }
            },
            None => true,
        }
        &&& self.compaction_ok()
    }

    /// The contents of a well-formed store are those of its replay state, and
    /// its keys are those of its index.
    pub proof fn lemma_view_of_state(&self)
        requires
            self.wf(),
        ensures
            self@ == self.state().contents(),
            self.index_view() == self.state().index,
            self.records() == self.state().records,
            self@.dom() == self.index_view().dom(),
            forall|k: Seq<char>| #[trigger] self@.contains_key(k) ==> self@[k] == record_value(self.records()[k]),
    {
        assert(self@.dom() =~= self.index_view().dom());
    }

    /// Points `key` at `pos`, keeping the list of keys in step.
    fn index_put(&mut self, key: String, pos: CommandPos)
        requires
            old(self).slots_ok(),
        ensures
            final(self).slots_ok(),
            final(self).index@ == old(self).index@.insert(
                key@,
                IndexEntry {
                    pos,
                    slot: if old(self).index@.contains_key(key@) {
                        old(self).index@[key@].slot
                    } else {
                        old(self).keys@.len() as usize
                    },
                },
            ),
            old(self).index@.contains_key(key@) ==> final(self).keys@ == old(self).keys@,
            final(self).current_file_id == old(self).current_file_id,
            final(self).position == old(self).position,
            final(self).size_for_compaction == old(self).size_for_compaction,
            final(self).pending == old(self).pending,
            final(self).disk == old(self).disk,
            final(self).records == old(self).records,
            final(self).compacted == old(self).compacted,
    {
        let found = match self.index.get(key.as_str()) {
            Some(e) => Some(e.slot),
            None => None,
        };
        match found {
            Some(slot) => {
                self.index.insert(key, IndexEntry { pos, slot });
            },
            None => {
                let slot = self.keys.len();
                self.keys.push(key.clone());
                self.index.insert(key, IndexEntry { pos, slot });
                assert forall|i: int| 0 <= i < self.keys@.len() implies self.index@.contains_key(
                    #[trigger] self.keys@[i]@,
                ) && self.index@[self.keys@[i]@].slot == i by {
                    if i < slot {
                        assert(self.keys@[i] == old(self).keys@[i]);
                        assert(old(self).keys@[i]@ != key@);
                    }
                }
            },
        }
    }

    /// Drops `key` from the index, keeping the list of keys in step; returns
    /// where its record lay.
    fn index_take(&mut self, key: &str) -> (r: Option<CommandPos>)
        requires
            old(self).slots_ok(),
        ensures
            final(self).slots_ok(),
            final(self).index_view() == old(self).index_view().remove(key@),
            final(self).index@.dom() == old(self).index@.dom().remove(key@),
            forall|k: Seq<char>| #[trigger]
                final(self).index@.contains_key(k) ==> final(self).index@[k].pos == old(
                    self,
                ).index@[k].pos,
            match r {
                Some(p) => old(self).index@.contains_key(key@) && p == old(self).index@[key@].pos,
                None => !old(self).index@.contains_key(key@),
            },
            final(self).current_file_id == old(self).current_file_id,
            final(self).position == old(self).position,
            final(self).size_for_compaction == old(self).size_for_compaction,
            final(self).pending == old(self).pending,
            final(self).disk == old(self).disk,
            final(self).records == old(self).records,
            final(self).compacted == old(self).compacted,
    {
        let found = match self.index.get(key) {
            Some(e) => Some(*e),
            None => None,
        };
        match found {
            None => {
                assert(self.index_view() =~= old(self).index_view().remove(key@));
                None
            },
            Some(e) => {
                let ghost keys0 = self.keys@;
                let ghost index0 = self.index@;
                let slot = e.slot;
                let last = self.keys.len() - 1;
                self.index.remove(key);
                if slot != last {
                    let moved_key = self.keys[last].clone();
                    assert(moved_key@ != key@);
                    let moved = match self.index.get(moved_key.as_str()) {
                        Some(m) => *m,
                        None => {
                            assert(false);
                            e
                        },
                    };
                    self.index.insert(moved_key, IndexEntry { pos: moved.pos, slot });
                }
                self.keys.swap_remove(slot);
                assert(self.keys@.len() == keys0.len() - 1);
                assert forall|i: int| 0 <= i < self.keys@.len() implies self.index@.contains_key(
                    #[trigger] self.keys@[i]@,
                ) && self.index@[self.keys@[i]@].slot == i by {
                    if i == slot {
                        assert(self.keys@[i] == keys0[last as int]);
                    } else {
                        assert(self.keys@[i] == keys0[i]);
                        assert(keys0[i]@ != key@);
                        assert(keys0[i]@ != keys0[last as int]@);
                    }
                }
                assert forall|k: Seq<char>| #[trigger]
                    self.index@.contains_key(k) implies self.index@[k].slot < self.keys@.len()
                    && self.keys@[self.index@[k].slot as int]@ == k by {
                    assert(index0.contains_key(k));
                    if k != keys0[last as int]@ {
                        assert(index0[k].slot != last);
                        assert(index0[k].slot != slot);
                    }
                }
                assert(self.index_view() =~= old(self).index_view().remove(key@));
                Some(e.pos)
            },
        }
    }
}


/// An empty record is no command.
proof fn lemma_empty_is_no_record(k: Seq<char>)
    ensures
        !is_set_record(Seq::empty(), k),
{
    assert(parse_command(Seq::<u8>::empty(), 0) is None);
}

/// The known bytes of a cut are the cut of the known bytes.
proof fn lemma_known_subrange(s: Seq<u8>, i: int, j: int)
    requires
        0 <= i <= j <= s.len(),
    ensures
        known(s).subrange(i, j) == known(s.subrange(i, j)),
{
    assert(known(s).subrange(i, j) =~= known(s.subrange(i, j)));
}

impl KvStore {
    /// Applies the command `c`, found at `start..end` of the current file.
    fn apply_command(&mut self, c: Command, start: usize, end: usize, Ghost(s): Ghost<Seq<u8>>)
        requires
            old(self).wf(),
            old(self).pending is None,
            old(self).compacted is None,
            old(self).disk@[old(self).current_file_id] == known(s),
            0 <= start < end <= s.len(),
            parse_command(s, start as int) == Some((c@, end as int)),
        ensures
            final(self).wf(),
            final(self).pending is None,
            final(self).compacted is None,
            final(self).current_file_id == old(self).current_file_id,
            final(self).position == old(self).position,
            final(self).disk == old(self).disk,
            final(self).state() == apply_entry(
                old(self).state(),
                c@,
                s,
                start as int,
                end as int,
                old(self).current_file_id,
            ),
    {
        let f = self.current_file_id;
        let len = (end - start) as u64;
        proof {
            lemma_parse_exact_of_extent(s, start as int, c@, end as int);
            lemma_known_subrange(s, start as int, end as int);
        }
        match c {
            Command::SET(k, v) => {
                let ghost key = k@;
                let pos = CommandPos { offset: start as u64, length: len, file_id: f };
                self.index_put(k, pos);
                self.records = Ghost(self.records@.insert(key, s.subrange(start as int, end as int)));
                self.size_for_compaction = self.size_for_compaction.saturating_add(len);
                assert(self.index_view() =~= old(self).index_view().insert(key, pos));
                assert(self.index@.dom() =~= self.records@.dom());
            },
            Command::RM(k) => {
                let ghost key = k@;
                let taken = self.index_take(k.as_str());
                let dropped = match taken {
                    Some(p) => p.length,
                    None => 0,
                };
                self.records = Ghost(self.records@.remove(key));
                self.size_for_compaction = self.size_for_compaction.saturating_add(dropped);
                self.size_for_compaction = self.size_for_compaction.saturating_add(len);
                assert(self.index@.dom() =~= self.records@.dom());
            },
        }
    }

    /// Replays the log file `f`, whose bytes are `s`, and makes it the current
    /// file.
    fn load_file(&mut self, f: u64, s: &Vec<u8>) -> (r: Result<(), KVStoreError>)
        requires
            old(self).wf(),
            old(self).pending is None,
            old(self).compacted is None,
            f >= old(self).current_file_id,
            f == old(self).current_file_id ==> old(self).disk@[f] == known(s@)
                || old(self).disk@[f].len() == 0,
        ensures
            match r {
                Ok(()) => {
                    &&& final(self).wf()
                    &&& final(self).pending is None
                    &&& final(self).compacted is None
                    &&& final(self).current_file_id == f
                    &&& final(self).position == s@.len()
                    &&& final(self).disk@ == old(self).disk@.insert(f, known(s@))
                    &&& replay_from(s@, 0, f, old(self).state()) == Some(final(self).state())
                },
                Err(e) => replay_from(s@, 0, f, old(self).state()) is None && e is SerdeError,
            },
    {
        let ghost st0 = self.state();
        let ghost disk0 = self.disk@;
        proof {
            assert forall|k: Seq<char>| #[trigger]
                self.records@.contains_key(k) implies self.index@[k].pos.file_id != f
                || disk0[f] == known(s@) by {
                let p = self.index@[k].pos;
                if p.file_id == f && disk0[f] != known(s@) {
                    assert(disk0[f].len() == 0);
                    assert(known(self.records@[k]) =~= Seq::<Option<u8>>::empty());
                    assert(self.records@[k] =~= Seq::<u8>::empty());
                    lemma_empty_is_no_record(k);
                }
            }
        }
        self.current_file_id = f;
        self.position = s.len() as u64;
        self.disk = Ghost(self.disk@.insert(f, known(s@)));
        assert(self.wf()) by {
            assert forall|k: Seq<char>| #[trigger]
                self.records@.contains_key(k) implies extent(self.disk@, self.index@[k].pos)
                == extent(disk0, self.index@[k].pos) by {}
        }
        let mut i: usize = 0;
        loop
            invariant
                i <= s@.len(),
                self.wf(),
                self.pending is None,
                self.compacted is None,
                self.current_file_id == f,
                self.position == s@.len(),
                self.disk@ == disk0.insert(f, known(s@)),
                disk0 == old(self).disk@,
                st0 == old(self).state(),
                replay_from(s@, 0, f, st0) == replay_from(s@, i as int, f, self.state()),
            decreases s@.len() - i,
        {
            let p = skip_ws_exec(s.as_slice(), i);
            if p >= s.len() {
                return Ok(());
            }
            let (c, e) = match parse_command_exec(s.as_slice(), i) {
                Ok(x) => x,
                Err(err) => return Err(KVStoreError::SerdeError(err)),
            };
            self.apply_command(c, i, e, Ghost(s@));
            i = e;
        }
    }

    /// Rebuilds the store from its log files: `file_ids[n]` names the file
    /// whose bytes are `logs[n]`, in increasing order.  The last file becomes
    /// the current one (file 0, empty, if there is none).
    pub fn open_from_logs(file_ids: &Vec<u64>, logs: &Vec<Vec<u8>>) -> (r: Result<
        KvStore,
        KVStoreError,
    >)
        requires
            file_ids@.len() == logs@.len(),
            forall|i: int, j: int|
                0 <= i < j < file_ids@.len() ==> file_ids@[i] <= file_ids@[j],
            forall|i: int, j: int|
                0 <= i < file_ids@.len() && 0 <= j < file_ids@.len() && file_ids@[i]
                    == file_ids@[j] ==> logs@[i]@ == logs@[j]@,
        ensures
            match r {
                Ok(store) => {
                    &&& store.wf()
                    &&& store.pending() is None
                    &&& replay_logs(file_ids@, logs.deep_view(), file_ids@.len() as int) == Some(
                        store.state(),
                    )
                    &&& store@ == store.state().contents()
                    &&& store@.dom() == store.index_view().dom()
                    &&& (forall|i: int, j: int|
                        0 <= i < j < file_ids@.len() ==> file_ids@[i] < file_ids@[j])
                        ==> store.persisted()
                    &&& store.file_id() == if file_ids@.len() == 0 {
                        0
                    } else {
                        file_ids@.last()
                    }
                    &&& store.write_position() == if file_ids@.len() == 0 {
                        0
                    } else {
                        logs@.last()@.len()
                    }
                    &&& forall|i: int|
                        0 <= i < file_ids@.len() ==> #[trigger] store.disk()[file_ids@[i]] == known(
                            logs@[i]@,
                        )
                },
                Err(e) => replay_logs(file_ids@, logs.deep_view(), file_ids@.len() as int) is None
                    && e is SerdeError,
            },
    {
        let mut store = KvStore {
            index: StringHashMap::new(),
            keys: Vec::new(),
            current_file_id: 0,
            position: 0,
            size_for_compaction: 0,
            pending: None,
            compacted: None,
            disk: Ghost(Map::empty().insert(0u64, Seq::empty())),
            records: Ghost(Map::empty()),
        };
        assert(store.index_view() =~= Map::empty());
        assert(store.state() == ReplayState::empty());
        let ghost dv = logs.deep_view();
        let ghost strict = forall|i: int, j: int|
            0 <= i < j < file_ids@.len() ==> file_ids@[i] < file_ids@[j];
        proof {
            assert(bytes_of(Seq::<Option<u8>>::empty()) =~= Seq::<u8>::empty());
            lemma_skip_ws_at_end(Seq::<u8>::empty());
            reveal_with_fuel(replay_files, 2);
            assert(store.disk@[0] == Seq::<Option<u8>>::empty());
            assert(all_known(store.disk@[0]));
            assert(replay_from(Seq::<u8>::empty(), 0, 0, ReplayState::empty()) == Some(ReplayState::empty()));
            assert(replay_files(store.disk@, 1) == Some(store.state()));
        }
        let mut n: usize = 0;
        while n < file_ids.len()
            invariant
                file_ids@.len() == logs@.len(),
                dv == logs.deep_view(),
                forall|i: int, j: int|
                    0 <= i < j < file_ids@.len() ==> file_ids@[i] <= file_ids@[j],
                forall|i: int, j: int|
                    0 <= i < file_ids@.len() && 0 <= j < file_ids@.len() && file_ids@[i]
                        == file_ids@[j] ==> logs@[i]@ == logs@[j]@,
                n <= file_ids@.len(),
                store.wf(),
                store.pending is None,
                store.compacted is None,
                replay_logs(file_ids@, dv, n as int) == Some(store.state()),
                n == 0 ==> store.current_file_id == 0 && store.disk@[0] == Seq::<Option<u8>>::empty()
                    && store.position == 0,
                n > 0 ==> store.current_file_id == file_ids@[n - 1] && store.position == logs@[n
                    - 1]@.len(),
                forall|i: int| 0 <= i < n ==> #[trigger] store.disk@[file_ids@[i]] == known(logs@[i]@),
                strict == forall|i: int, j: int|
                    0 <= i < j < file_ids@.len() ==> file_ids@[i] < file_ids@[j],
                strict ==> replay_files(store.disk@, (store.current_file_id + 1) as nat) == Some(
                    store.state(),
                ),
            decreases file_ids@.len() - n,
        {
            let f = file_ids[n];
            proof {
                if n > 0 {
                    assert(file_ids@[n - 1] <= file_ids@[n as int]);
                    if f == store.current_file_id {
                        assert(store.disk@[file_ids@[n - 1]] == known(logs@[n - 1]@));
                    }
                }
                assert(dv[n as int] == logs@[n as int]@);
            }
            let ghost before = store.state();
            let ghost disk_before = store.disk@;
            let ghost cur_before = store.current_file_id;
            match store.load_file(f, &logs[n]) {
                Ok(()) => {},
                Err(e) => {
                    assert(replay_logs(file_ids@, dv, n + 1) is None);
                    assert(forall|m: int|
                        n + 1 <= m <= file_ids@.len() ==> replay_logs(file_ids@, dv, m) is None) by {
                        assert forall|m: int| n + 1 <= m <= file_ids@.len() implies replay_logs(
                            file_ids@,
                            dv,
                            m,
                        ) is None by {
                            lemma_replay_logs_stays_none(file_ids@, dv, n + 1, m);
                        }
                    }
                    return Err(e);
                },
            }
            proof {
                if strict {
                    if n > 0 {
                        assert(file_ids@[n - 1] < file_ids@[n as int]);
                    }
                    lemma_files_load(disk_before, cur_before, f, logs@[n as int]@);
                }
                assert forall|i: int| 0 <= i < n + 1 implies #[trigger] store.disk@[file_ids@[i]]
                    == known(logs@[i]@) by {
                    if file_ids@[i] == f {
                        assert(logs@[i]@ == logs@[n as int]@);
                    } else {
                        assert(store.disk@[file_ids@[i]] == disk_before[file_ids@[i]]);
                    }
                }
            }
            n = n + 1;
        }
        Ok(store)
    }
}

/// Once a file fails to replay, so does every longer list.
proof fn lemma_replay_logs_stays_none(ids: Seq<u64>, logs: Seq<Seq<u8>>, n: int, m: int)
    requires
        n <= m,
        replay_logs(ids, logs, n) is None,
    ensures
        replay_logs(ids, logs, m) is None,
    decreases m - n,
{
    if n < m {
        lemma_replay_logs_stays_none(ids, logs, n, m - 1);
    }
}


/// Replaying files depends only on the files below the bound.
proof fn lemma_replay_files_same(d1: Map<u64, Seq<Option<u8>>>, d2: Map<u64, Seq<Option<u8>>>, n: nat)
    requires
        n <= u64::MAX + 1,
        forall|f: u64|
            #![trigger d1.contains_key(f)]
            #![trigger d2.contains_key(f)]
            f < n ==> d1.contains_key(f) == d2.contains_key(f) && (d1.contains_key(f) ==> d1[f]
                == d2[f]),
    ensures
        replay_files(d1, n) == replay_files(d2, n),
    decreases n,
{
    if n > 0 {
        assert forall|f: u64| f < (n - 1) as nat implies d1.contains_key(f) == d2.contains_key(f)
            && (d1.contains_key(f) ==> d1[f] == d2[f]) by {}
        lemma_replay_files_same(d1, d2, (n - 1) as nat);
        if n - 1 <= u64::MAX {
            let f = (n - 1) as u64;
            assert(f < n);
        }
    }
}

/// Ids without a file replay nothing.
proof fn lemma_replay_files_absent(d: Map<u64, Seq<Option<u8>>>, a: nat, b: nat)
    requires
        a <= b <= u64::MAX + 1,
        forall|f: u64| a <= f < b ==> !d.contains_key(f),
    ensures
        replay_files(d, b) == replay_files(d, a),
    decreases b - a,
{
    if a < b {
        lemma_replay_files_absent(d, a, (b - 1) as nat);
        if b - 1 <= u64::MAX {
            let f = (b - 1) as u64;
            assert(a <= f < b);
            assert(!d.contains_key(f));
        }
    }
}

/// Known bytes are all known, and are the bytes they were made of.
proof fn lemma_known_bytes(s: Seq<u8>)
    ensures
        all_known(known(s)),
        bytes_of(known(s)) == s,
{
    assert(bytes_of(known(s)) =~= s);
}

/// The last file of the model, replayed with a record appended: the contents
/// change as the record's command says.
proof fn lemma_files_append(d: Map<u64, Seq<Option<u8>>>, cur: u64, r: Seq<u8>, c: CommandView)
    requires
        forall|f: u64| #[trigger] d.contains_key(f) ==> f <= cur,
        d.contains_key(cur),
        replay_files(d, (cur + 1) as nat) is Some,
        is_record_of(r, c),
    ensures
        replay_files(d.insert(cur, d[cur] + known(r)), (cur + 1) as nat) matches Some(st2)
            && st2.contents() == apply_command(replay_files(d, (cur + 1) as nat)->0.contents(), c),
{
    let d2 = d.insert(cur, d[cur] + known(r));
    lemma_replay_files_same(d, d2, cur as nat);
    let x = d[cur];
    assert(all_known(x));
    assert(all_known(x + known(r)));
    assert(bytes_of(x + known(r)) =~= bytes_of(x) + r);
    let st0 = replay_files(d, cur as nat)->0;
    lemma_replay_extend(bytes_of(x), r, c, 0, cur, st0);
}

/// A file added after the last one, and empty, replays nothing.
proof fn lemma_files_new_empty(d: Map<u64, Seq<Option<u8>>>, cur: u64)
    requires
        forall|f: u64| #[trigger] d.contains_key(f) ==> f <= cur,
        cur < u64::MAX,
        replay_files(d, (cur + 1) as nat) is Some,
    ensures
        replay_files(d.insert((cur + 1) as u64, unknown(0)), (cur + 2) as nat) == replay_files(
            d,
            (cur + 1) as nat,
        ),
{
    let d2 = d.insert((cur + 1) as u64, unknown(0));
    lemma_replay_files_same(d, d2, (cur + 1) as nat);
    assert(bytes_of(unknown(0)) =~= Seq::<u8>::empty());
    lemma_skip_ws_at_end(Seq::<u8>::empty());
}

/// A file added after the last one, and replayed last.
proof fn lemma_files_load(d: Map<u64, Seq<Option<u8>>>, cur: u64, f: u64, s: Seq<u8>)
    requires
        forall|g: u64| #[trigger] d.contains_key(g) ==> g <= cur,
        cur < f || (cur == f && f == 0 && d.contains_key(0) && d[0].len() == 0),
    ensures
        replay_files(d.insert(f, known(s)), (f + 1) as nat) == match replay_files(
            d,
            (cur + 1) as nat,
        ) {
            Some(st) => replay_from(s, 0, f, st),
            None => None,
        },
{
    let d2 = d.insert(f, known(s));
    lemma_known_bytes(s);
    lemma_replay_files_same(d, d2, f as nat);
    if cur < f {
        lemma_replay_files_absent(d, (cur + 1) as nat, f as nat);
    } else {
        assert(all_known(d[0]));
        assert(bytes_of(d[0]) =~= Seq::<u8>::empty());
        lemma_skip_ws_at_end(Seq::<u8>::empty());
    }
}

/// A model file extended by known bytes: its old bytes stay where they were.
proof fn lemma_extent_after_append(
    disk: Map<u64, Seq<Option<u8>>>,
    f: u64,
    more: Seq<Option<u8>>,
    p: CommandPos,
)
    requires
        in_disk(disk, p),
        disk.contains_key(f),
    ensures
        in_disk(disk.insert(f, disk[f] + more), p),
        extent(disk.insert(f, disk[f] + more), p) == extent(disk, p),
{
    if p.file_id == f {
        assert(extent(disk.insert(f, disk[f] + more), p) =~= extent(disk, p));
    }
}

impl KvStore {
    /// Where the record of `key` lies, if the key is in the store.
    pub fn lookup(&self, key: &str) -> (r: Option<CommandPos>)
        requires
            self.wf(),
        ensures
            match r {
                Some(p) => self.index_view().contains_key(key@) && p == self.index_view()[key@]
                    && self@.contains_key(key@),
                None => !self.index_view().contains_key(key@) && !self@.contains_key(key@),
            },
    {
        match self.index.get(key) {
            Some(e) => Some(e.pos),
            None => None,
        }
    }

    /// The value of a record read back from the log: a `SET` gives its value,
    /// an `RM` is an `UnknownCommandType`, anything else a `SerdeError`.
    pub fn read_value(bytes: &[u8]) -> (r: Result<String, KVStoreError>)
        ensures
            match parse_exact(bytes@) {
                Some(CommandView::Put(_, v)) => r matches Ok(x) && x@ == v,
                Some(CommandView::Del(_)) => r matches Err(KVStoreError::UnknownCommandType),
                None => r matches Err(KVStoreError::SerdeError(_)),
            },
    {
        match Command::parse(bytes) {
            Ok(Command::SET(_, v)) => Ok(v),
            Ok(Command::RM(_)) => Err(KVStoreError::UnknownCommandType),
            Err(e) => Err(e),
        }
    }

    /// The record that writes `value` under `key`, to be appended to the
    /// current file; the store remembers it until the append is reported.
    pub fn prepare_set(&mut self, key: String, value: String) -> (r: Vec<u8>)
        requires
            old(self).wf(),
        ensures
            final(self).wf(),
            r@ == serialize(CommandView::Put(key@, value@)),
            parse_exact(r@) == Some(CommandView::Put(key@, value@)),
            final(self).pending() == Some((Some(key@), r@)),
            record_value(r@) == value@,
            old(self).persisted() && old(self).pending() is None ==> final(self).persisted(),
            final(self).state() == old(self).state(),
            final(self)@ == old(self)@,
            final(self).disk() == old(self).disk(),
            final(self).file_id() == old(self).file_id(),
            final(self).write_position() == old(self).write_position(),
    {
        let cmd = Command::SET(key.clone(), value);
        let bytes = cmd.serialize();
        self.pending = Some(
            PendingAppend { key: Some(key), length: bytes.len() as u64, record: Ghost(bytes@) },
        );
        self.compacted = None;
        bytes
    }

    /// Drops `key` from the index and returns the record that removes it, to
    /// be appended to the current file; the bytes of the dropped entry count
    /// as reclaimable.  A key that is not in the store is `KeyNotFound`, and
    /// nothing changes.
    pub fn prepare_remove(&mut self, key: String) -> (r: Result<Vec<u8>, KVStoreError>)
        requires
            old(self).wf(),
        ensures
            final(self).wf(),
            final(self).disk() == old(self).disk(),
            final(self).file_id() == old(self).file_id(),
            final(self).write_position() == old(self).write_position(),
            old(self).index_view().contains_key(key@) <==> r is Ok,
            old(self)@.contains_key(key@) <==> r is Ok,
            old(self).persisted() && old(self).pending() is None ==> final(self).persisted(),
            match r {
                Ok(bytes) => {
                    &&& bytes@ == serialize(CommandView::Del(key@))
                    &&& parse_exact(bytes@) == Some(CommandView::Del(key@))
                    &&& final(self).pending() == Some((None::<Seq<char>>, bytes@))
                    &&& final(self)@ == old(self)@.remove(key@)
                    &&& final(self).state() == ReplayState {
                        index: old(self).index_view().remove(key@),
                        records: old(self).records().remove(key@),
                        size: sat_add(
                            old(self).reclaimable() as int,
                            old(self).index_view()[key@].length as int,
                        ),
                    }
                },
                Err(e) => {
                    &&& e is KeyNotFound
                    &&& final(self).pending() == old(self).pending()
                    &&& final(self).state() == old(self).state()
                },
            },
    {
        if !self.index.contains_key(key.as_str()) {
            return Err(KVStoreError::KeyNotFound);
        }
        let ghost key_view = key@;
        let taken = self.index_take(key.as_str());
        let dropped = match taken {
            Some(p) => p.length,
            None => 0,
        };
        self.records = Ghost(self.records@.remove(key_view));
        self.size_for_compaction = self.size_for_compaction.saturating_add(dropped);
        let cmd = Command::RM(key);
        let bytes = cmd.serialize();
        self.pending = Some(
            PendingAppend { key: None, length: bytes.len() as u64, record: Ghost(bytes@) },
        );
        self.compacted = None;
        assert(self.index@.dom() =~= self.records@.dom());
        assert(self@ =~= old(self)@.remove(key_view));
        Ok(bytes)
    }

    /// Whether the pending append fits before the largest position.
    pub fn can_commit(&self) -> (r: bool)
        requires
            self.wf(),
        ensures
            r == (self.pending() matches Some((_, rec)) && self.write_position() + rec.len()
                <= u64::MAX),
    {
        match &self.pending {
            Some(p) => self.position.checked_add(p.length).is_some(),
            None => false,
        }
    }

    /// The pending record was appended to the current file: a `SET` now
    /// points its key at it, and its bytes count as reclaimable.  Returns
    /// whether a compaction is due.
    pub fn commit_append(&mut self) -> (compact: bool)
        requires
            old(self).wf(),
            old(self).pending() matches Some((_, rec)) && old(self).write_position() + rec.len()
                <= u64::MAX,
        ensures
            final(self).wf(),
            final(self).pending() is None,
            final(self).file_id() == old(self).file_id(),
            ({
                let (key, rec) = old(self).pending()->0;
                let pos = CommandPos {
                    offset: old(self).write_position(),
                    length: rec.len() as u64,
                    file_id: old(self).file_id(),
                };
                &&& final(self).write_position() == old(self).write_position() + rec.len()
                &&& final(self).disk() == old(self).disk().insert(
                    old(self).file_id(),
                    old(self).disk()[old(self).file_id()] + known(rec),
                )
                &&& final(self).state() == match key {
                    Some(k) => ReplayState {
                        index: old(self).index_view().insert(k, pos),
                        records: old(self).records().insert(k, rec),
                        size: sat_add(old(self).reclaimable() as int, rec.len() as int),
                    },
                    None => ReplayState {
                        index: old(self).index_view(),
                        records: old(self).records(),
                        size: sat_add(old(self).reclaimable() as int, rec.len() as int),
                    },
                }
            }),
            compact == (final(self).reclaimable() > MAX_COMPACTION_SIZE),
            old(self).persisted() ==> final(self).persisted(),
            ({
                let (pk, prec) = old(self).pending()->0;
                match pk {
                    Some(k) => final(self)@ == old(self)@.insert(k, record_value(prec)),
                    None => final(self)@ == old(self)@,
                }
            }),
    {
        let ghost disk0 = self.disk@;
        let p = self.pending.take().unwrap();
        self.compacted = None;
        let f = self.current_file_id;
        let offset = self.position;
        let pos = CommandPos { offset, length: p.length, file_id: f };
        self.position = offset + p.length;
        self.disk = Ghost(self.disk@.insert(f, self.disk@[f] + known(p.record@)));
        proof {
            assert forall|k: Seq<char>| #[trigger]
                self.records@.contains_key(k) implies in_disk(self.disk@, self.index@[k].pos)
                && extent(self.disk@, self.index@[k].pos) == extent(disk0, self.index@[k].pos) by {
                lemma_extent_after_append(disk0, f, known(p.record@), self.index@[k].pos);
            }
            assert(extent(self.disk@, pos) =~= known(p.record@));
        }
        match p.key {
            Some(k) => {
                let ghost key = k@;
                self.index_put(k, pos);
                self.records = Ghost(self.records@.insert(key, p.record@));
                assert(self.index_view() =~= old(self).index_view().insert(key, pos));
                assert(self.index@.dom() =~= self.records@.dom());
            },
            None => {},
        }
        self.size_for_compaction = self.size_for_compaction.saturating_add(p.length);
        proof {
            let (pk, prec) = old(self).pending()->0;
            match pk {
                Some(k) => {
                    assert(self@ =~= old(self)@.insert(k, record_value(prec)));
                },
                None => {
                    assert(self@ =~= old(self)@);
                },
            }
        }
        proof {
            if old(self).persisted() {
                let (pk, prec) = old(self).pending()->0;
                lemma_skip_ws_at_end(prec);
                let (c0, _e0) = parse_command(prec, 0)->0;
                let c = match pk {
                    Some(k) => CommandView::Put(k, record_value(prec)),
                    None => c0,
                };
                assert(is_record_of(prec, c));
                lemma_files_append(disk0, f, prec, c);
                assert(self.disk@ == disk0.insert(f, disk0[f] + known(prec)));
                let m = old(self).files_contents()->0;
                match pk {
                    Some(k) => {
                        assert(self.files_contents() == Some(m.insert(k, record_value(prec))));
                    },
                    None => {},
                }
            }
        }
        self.size_for_compaction > MAX_COMPACTION_SIZE
    }

    /// The pending append failed after the writer reached `position`: the
    /// bytes up to there are unknown, and the index is left as it was.
    pub fn abort_append(&mut self, position: u64)
        requires
            old(self).wf(),
            position >= old(self).write_position(),
        ensures
            final(self).wf(),
            final(self).pending() is None,
            final(self).state() == old(self).state(),
            final(self)@ == old(self)@,
            final(self).index_view() == old(self).index_view(),
            final(self).file_id() == old(self).file_id(),
            final(self).write_position() == position,
            final(self).disk() == old(self).disk().insert(
                old(self).file_id(),
                old(self).disk()[old(self).file_id()] + unknown(
                    (position - old(self).write_position()) as nat,
                ),
            ),
            old(self).persisted() && position == old(self).write_position() && !(old(
                self,
            ).pending() matches Some((None, _))) ==> final(self).persisted(),
    {
        let ghost disk0 = self.disk@;
        let f = self.current_file_id;
        let ghost more = unknown((position - self.position) as nat);
        self.pending = None;
        self.compacted = None;
        self.position = position;
        self.disk = Ghost(self.disk@.insert(f, self.disk@[f] + more));
        proof {
            assert forall|k: Seq<char>| #[trigger]
                self.records@.contains_key(k) implies in_disk(self.disk@, self.index@[k].pos)
                && extent(self.disk@, self.index@[k].pos) == extent(disk0, self.index@[k].pos) by {
                lemma_extent_after_append(disk0, f, more, self.index@[k].pos);
            }
            if position == old(self).position {
                assert(disk0[f] + more =~= disk0[f]);
                assert(self.disk@ =~= disk0);
            }
        }
    }

    /// The id of the next log file, if there is one.
    pub fn next_file_id(&self) -> (r: Option<u64>)
        ensures
            r == (if self.file_id() < u64::MAX {
                Some((self.file_id() + 1) as u64)
            } else {
                None
            }),
    {
        self.current_file_id.checked_add(1)
    }

    /// Appends now go to the next log file, whose writer starts at
    /// `end_position`; what that file held before is unknown.
    pub fn switch_to_new_file(&mut self, end_position: u64)
        requires
            old(self).wf(),
            old(self).file_id() < u64::MAX,
        ensures
            final(self).wf(),
            final(self).pending() is None,
            final(self).state() == old(self).state(),
            final(self)@ == old(self)@,
            final(self).index_view() == old(self).index_view(),
            final(self).file_id() == old(self).file_id() + 1,
            final(self).write_position() == end_position,
            final(self).disk() == old(self).disk().insert(
                (old(self).file_id() + 1) as u64,
                unknown(end_position as nat),
            ),
            old(self).persisted() && old(self).pending() is None && end_position == 0
                ==> final(self).persisted(),
            final(self).compacted() is None,
            final(self).live_records() == old(self).live_records(),
    {
        let ghost disk0 = self.disk@;
        let f = self.current_file_id + 1;
        self.pending = None;
        self.compacted = None;
        self.current_file_id = f;
        self.position = end_position;
        self.disk = Ghost(self.disk@.insert(f, unknown(end_position as nat)));
        proof {
            assert(!disk0.contains_key(f));
            assert forall|k: Seq<char>| #[trigger]
                self.records@.contains_key(k) implies in_disk(self.disk@, self.index@[k].pos)
                && extent(self.disk@, self.index@[k].pos) == extent(disk0, self.index@[k].pos) by {}
            if old(self).persisted() && old(self).pending() is None && end_position == 0 {
                lemma_files_new_empty(disk0, old(self).current_file_id);
            }
            assert(self.live_records() =~= old(self).live_records());
        }
    }

    /// Starts a compaction: appends now go to the next log file, whose
    /// writer starts at `end_position`.  Where that file starts empty, the
    /// store follows the compaction: the entries are to be copied into it in
    /// order, each with `relocate_entry`.
    pub fn begin_compaction(&mut self, end_position: u64)
        requires
            old(self).wf(),
            old(self).file_id() < u64::MAX,
        ensures
            final(self).wf(),
            final(self).pending() is None,
            final(self).state() == old(self).state(),
            final(self)@ == old(self)@,
            final(self).index_view() == old(self).index_view(),
            final(self).file_id() == old(self).file_id() + 1,
            final(self).write_position() == end_position,
            final(self).disk() == old(self).disk().insert(
                (old(self).file_id() + 1) as u64,
                unknown(end_position as nat),
            ),
            final(self).live_records() == old(self).live_records(),
            old(self).persisted() && old(self).pending() is None && end_position == 0
                ==> final(self).persisted(),
            final(self).compacted() == if end_position == 0 {
                Some(0nat)
            } else {
                None::<nat>
            },
    {
        self.switch_to_new_file(end_position);
        if end_position == 0 {
            self.compacted = Some(0);
            proof {
                let lr = self.live_records();
                assert(lr.take(0) =~= Seq::<Seq<u8>>::empty());
                assert(concat(Seq::<Seq<u8>>::empty()) == Seq::<u8>::empty());
                assert(known(Seq::<u8>::empty()) =~= unknown(0));
            }
        }
    }

    /// The number of entries of the index.
    pub fn entry_count(&self) -> (r: usize)
        ensures
            r == self.entry_slots(),
    {
        self.keys.len()
    }

    /// Where the record of the entry at `slot` lies.
    pub fn entry_at(&self, slot: usize) -> (r: CommandPos)
        requires
            self.wf(),
            slot < self.entry_slots(),
        ensures
            self.index_view().contains_key(self.key_at(slot as int)),
            r == self.index_view()[self.key_at(slot as int)],
    {
        let key = &self.keys[slot];
        match self.index.get(key.as_str()) {
            Some(e) => e.pos,
            None => {
                assert(false);
                CommandPos { offset: 0, length: 0, file_id: 0 }
            },
        }
    }

    /// Whether the record of the entry at `slot` fits before the largest
    /// position of the current file.
    pub fn can_relocate(&self, slot: usize) -> (r: bool)
        requires
            self.wf(),
            slot < self.entry_slots(),
        ensures
            r == (self.write_position() + self.index_view()[self.key_at(slot as int)].length
                <= u64::MAX),
    {
        let p = self.entry_at(slot);
        self.position.checked_add(p.length).is_some()
    }

    /// The record of the entry at `slot` was copied to the end of the current
    /// file: the entry now points at the copy.  The contents do not change.
    pub fn relocate_entry(&mut self, slot: usize)
        requires
            old(self).wf(),
            slot < old(self).entry_slots(),
            old(self).write_position() + old(self).index_view()[old(self).key_at(
                slot as int,
            )].length <= u64::MAX,
        ensures
            final(self).wf(),
            final(self).pending() is None,
            final(self).file_id() == old(self).file_id(),
            final(self).entry_slots() == old(self).entry_slots(),
            forall|i: int| 0 <= i < old(self).entry_slots() ==> final(self).key_at(i) == old(self).key_at(i),
            ({
                let k = old(self).key_at(slot as int);
                let p = old(self).index_view()[k];
                &&& final(self).state() == ReplayState {
                    index: old(self).index_view().insert(
                        k,
                        CommandPos {
                            offset: old(self).write_position(),
                            length: p.length,
                            file_id: old(self).file_id(),
                        },
                    ),
                    records: old(self).records(),
                    size: old(self).reclaimable() as int,
                }
                &&& final(self).write_position() == old(self).write_position() + p.length
                &&& final(self).disk() == old(self).disk().insert(
                    old(self).file_id(),
                    old(self).disk()[old(self).file_id()] + extent(old(self).disk(), p),
                )
            }),
            final(self)@ == old(self)@,
            old(self).persisted() && old(self).pending() is None ==> final(self).persisted(),
            final(self).compacted() == if old(self).compacted() == Some(slot as nat) {
                Some((slot + 1) as nat)
            } else {
                None::<nat>
            },
            final(self).live_records() == old(self).live_records(),
    {
        let ghost disk0 = self.disk@;
        let src = self.entry_at(slot);
        let key = self.keys[slot].clone();
        let ghost k = key@;
        let ghost rec = self.records@[k];
        let f = self.current_file_id;
        let pos = CommandPos { offset: self.position, length: src.length, file_id: f };
        self.pending = None;
        let ghost old_compacted = self.compacted;
        let nkeys = self.keys.len();
        self.compacted = match self.compacted {
            Some(c) => if c == slot && slot < nkeys {
                Some(slot + 1)
            } else {
                None
            },
            None => None,
        };
        self.position = self.position + src.length;
        self.disk = Ghost(self.disk@.insert(f, self.disk@[f] + extent(disk0, src)));
        proof {
            assert forall|k2: Seq<char>| #[trigger]
                self.records@.contains_key(k2) implies in_disk(self.disk@, self.index@[k2].pos)
                && extent(self.disk@, self.index@[k2].pos) == extent(disk0, self.index@[k2].pos) by {
                lemma_extent_after_append(disk0, f, extent(disk0, src), self.index@[k2].pos);
            }
            assert(extent(self.disk@, pos) =~= extent(disk0, src));
        }
        self.index_put(key, pos);
        assert(self.index_view() =~= old(self).index_view().insert(k, pos));
        assert(self.index@.dom() =~= self.records@.dom());
        assert(self.live_records() =~= old(self).live_records());
        proof {
            if old_compacted == Some(slot) {
                let lr = old(self).live_records();
                assert(lr[slot as int] == rec);
                assert(extent(disk0, src) == known(rec));
                lemma_concat_push(lr.take(slot as int), rec);
                assert(lr.take(slot + 1) =~= lr.take(slot as int).push(rec));
                assert(known(concat(lr.take(slot as int))) + known(rec) =~= known(
                    concat(lr.take(slot as int)) + rec,
                ));
                assert forall|i: int| 0 <= i < slot + 1 implies (#[trigger] self.index@[
                    self.keys@[i]@
                ]).pos.file_id == self.current_file_id by {
                    if i < slot {
                        assert(old(self).index@[old(self).keys@[i]@].slot == i);
                        assert(old(self).index@[k].slot == slot);
                    }
                }
            }
            if old(self).persisted() && old(self).pending() is None {
                old(self).lemma_view_of_state();
                lemma_skip_ws_at_end(rec);
                let c = CommandView::Put(k, record_value(rec));
                assert(is_record_of(rec, c));
                assert(extent(disk0, src) == known(rec));
                lemma_files_append(disk0, f, rec, c);
                let m = old(self).files_contents()->0;
                assert(m.insert(k, record_value(rec)) =~= m);
            }
        }
    }

    /// The files among `file_ids` that come before the current one, in the
    /// same order: after a compaction, those that hold no live record.
    pub fn stale_file_ids(&self, file_ids: &Vec<u64>) -> (r: Vec<u64>)
        ensures
            r@ == file_ids@.filter(|id: u64| id < self.file_id()),
    {
        let mut r: Vec<u64> = Vec::new();
        let mut i: usize = 0;
        while i < file_ids.len()
            invariant
                i <= file_ids@.len(),
                r@ == file_ids@.subrange(0, i as int).filter(|id: u64| id < self.file_id()),
            decreases file_ids@.len() - i,
        {
            let id = file_ids[i];
            proof {
                reveal_with_fuel(Seq::filter, 1);
                assert(file_ids@.subrange(0, i + 1).drop_last() =~= file_ids@.subrange(0, i as int));
            }
            if id < self.current_file_id {
                r.push(id);
            }
            i = i + 1;
        }
        assert(file_ids@.subrange(0, i as int) =~= file_ids@);
        r
    }

    /// Ends a compaction: nothing is reclaimable any more.  Where the
    /// compaction began on an empty file and copied every entry into it in
    /// order, the current file holds the live records one after another, and
    /// the older files are dropped from the model: the caller deletes them.
    /// Returns whether that is so.
    pub fn finish_compaction(&mut self) -> (done: bool)
        requires
            old(self).wf(),
        ensures
            final(self).wf(),
            done == (old(self).compacted() == Some(old(self).entry_slots())),
            final(self).state() == (ReplayState { size: 0, ..old(self).state() }),
            final(self)@ == old(self)@,
            final(self).index_view() == old(self).index_view(),
            final(self).reclaimable() == 0,
            final(self).pending() == old(self).pending(),
            final(self).file_id() == old(self).file_id(),
            final(self).write_position() == old(self).write_position(),
            final(self).compacted() is None,
            done ==> {
                &&& old(self).disk()[old(self).file_id()] == known(concat(old(self).live_records()))
                &&& final(self).disk() == Map::<u64, Seq<Option<u8>>>::empty().insert(
                    old(self).file_id(),
                    old(self).disk()[old(self).file_id()],
                )
                &&& final(self).persisted()
            },
            !done ==> final(self).disk() == old(self).disk() && final(self).persisted() == old(
                self,
            ).persisted(),
    {
        let done = match self.compacted {
            Some(c) => c == self.keys.len(),
            None => false,
        };
        self.size_for_compaction = 0;
        self.compacted = None;
        if done {
            let ghost d0 = self.disk@;
            let f = self.current_file_id;
            self.disk = Ghost(Map::empty().insert(f, d0[f]));
            proof {
                let lr = old(self).live_records();
                assert(lr.take(lr.len() as int) =~= lr);
                assert forall|k: Seq<char>| #[trigger]
                    self.records@.contains_key(k) implies self.index@[k].pos.file_id == f by {
                    let slot = self.index@[k].slot as int;
                    assert(self.keys@[slot]@ == k);
                    assert(old(self).index@[old(self).keys@[slot]@].pos.file_id == f);
                }
                assert forall|g: u64| #[trigger] self.disk@.contains_key(g) implies g <= f by {}
                lemma_replay_files_absent(self.disk@, 0, f as nat);
                lemma_known_bytes(concat(lr));
                law_compacted_log_replays_contents(*old(self), f);
                assert(self@ == old(self)@);
            }
        }
        done
    }

    /// Whether enough bytes are reclaimable for a compaction.
    pub fn needs_compaction(&self) -> (r: bool)
        ensures
            r == (self.reclaimable() > MAX_COMPACTION_SIZE),
    {
        self.size_for_compaction > MAX_COMPACTION_SIZE
    }

    /// The write position in the current file.
    pub fn get_position(&self) -> (r: u64)
        ensures
            r == self.write_position(),
    {
        self.position
    }

    /// The id of the current file.
    pub fn current_file_id(&self) -> (r: u64)
        ensures
            r == self.file_id(),
    {
        self.current_file_id
    }

    /// The count of bytes that a compaction would reclaim.
    pub fn size_for_compaction(&self) -> (r: u64)
        ensures
            r == self.reclaimable(),
    {
        self.size_for_compaction
    }
}


// ---------------------------------------------------------------------------
// Laws.
/// The contents after one command: a `SET` stores its value, an `RM` drops
/// its key.
pub open spec fn apply_command(m: Map<Seq<char>, Seq<char>>, c: CommandView) -> Map<
    Seq<char>,
    Seq<char>,
> {
    match c {
        CommandView::Put(k, v) => m.insert(k, v),
        CommandView::Del(k) => m.remove(k),
    }
}

/// The contents that applying commands in order gives.
pub open spec fn apply_commands(m: Map<Seq<char>, Seq<char>>, cs: Seq<CommandView>) -> Map<
    Seq<char>,
    Seq<char>,
>
    decreases cs.len(),
{
    if cs.len() == 0 {
        m
    } else {
        apply_commands(apply_command(m, cs[0]), cs.skip(1))
    }
}

/// Records written one after another.
pub open spec fn concat(rs: Seq<Seq<u8>>) -> Seq<u8>
    decreases rs.len(),
{
    if rs.len() == 0 {
        Seq::empty()
    } else {
        rs[0] + concat(rs.skip(1))
    }
}

/// Records written one after another, and one more after them.
proof fn lemma_concat_push(rs: Seq<Seq<u8>>, r: Seq<u8>)
    ensures
        concat(rs.push(r)) == concat(rs) + r,
    decreases rs.len(),
{
    if rs.len() == 0 {
        assert(rs.push(r).skip(1) =~= Seq::<Seq<u8>>::empty());
        assert(concat(Seq::<Seq<u8>>::empty()) == Seq::<u8>::empty());
        assert(rs.push(r)[0] == r);
        assert(concat(rs.push(r)) =~= r);
        assert(rs =~= Seq::<Seq<u8>>::empty());
    } else {
        assert(rs.push(r).skip(1) =~= rs.skip(1).push(r));
        lemma_concat_push(rs.skip(1), r);
        assert(concat(rs.push(r)) =~= concat(rs) + r);
    }
}

/// `r` is the record of command `c`: reading `r` gives `c` and consumes it
/// all.  What `Command::serialize` prints is the record of its command.
pub open spec fn is_record_of(r: Seq<u8>, c: CommandView) -> bool {
    parse_command(r, 0) == Some((c, r.len() as int))
}

#[verifier::spinoff_prover]
#[verifier::rlimit(40)]
proof fn lemma_replay_concat(p: Seq<u8>, rs: Seq<Seq<u8>>, cs: Seq<CommandView>, f: u64, st: ReplayState)
    requires
        rs.len() == cs.len(),
        forall|i: int| 0 <= i < rs.len() ==> is_record_of(#[trigger] rs[i], cs[i]),
    ensures
        replay_from(p + concat(rs), p.len() as int, f, st) matches Some(st2)
            && st2.contents() == apply_commands(st.contents(), cs),
    decreases rs.len(),
{
    let s = p + concat(rs);
    if rs.len() == 0 {
        assert(s =~= p);
        lemma_skip_ws_at_end(s);
    } else {
        let r0 = rs[0];
        let c0 = cs[0];
        assert(is_record_of(r0, c0));
        let o = p.len() as int;
        assert(s =~= (p + r0) + concat(rs.skip(1)));
        assert(s.subrange(o, o + r0.len()) =~= r0);
        crate::engine::command::lemma_parse_command_extend(s, o, r0, 0);
        lemma_parse_command_starts(s, o);
        let e = o + r0.len();
        lemma_parse_command_end(r0, 0);
        let st1 = apply_entry(st, c0, s, o, e, f);
        assert forall|i: int| 0 <= i < rs.skip(1).len() implies is_record_of(
            #[trigger] rs.skip(1)[i],
            cs.skip(1)[i],
        ) by {
            assert(rs.skip(1)[i] == rs[i + 1]);
        }
        lemma_replay_concat(p + r0, rs.skip(1), cs.skip(1), f, st1);
        assert(s.subrange(o, e) =~= r0);
        lemma_record_exact(r0, c0);
        match c0 {
            CommandView::Put(k, v) => {
                assert(st1.contents() =~= st.contents().insert(k, v));
            },
            CommandView::Del(k) => {
                assert(st1.contents() =~= st.contents().remove(k));
            },
        }
    }
}

proof fn lemma_skip_ws_at_end(s: Seq<u8>)
    ensures
        skip_ws(s, s.len() as int) == s.len(),
{
}

/// Where only whitespace is left of `s` from `i` on, skipping whitespace in
/// `s + r` from `i` goes on into `r`.
proof fn lemma_skip_ws_through(s: Seq<u8>, r: Seq<u8>, i: int)
    requires
        0 <= i <= s.len(),
        skip_ws(s, i) >= s.len(),
    ensures
        skip_ws(s + r, i) == skip_ws(s + r, s.len() as int),
    decreases s.len() - i,
{
    if i < s.len() {
        assert((s + r)[i] == s[i]);
        lemma_skip_ws_through(s, r, i + 1);
    }
}

/// One replayed command changes the contents as the command says.
proof fn lemma_apply_entry_contents(
    st: ReplayState,
    c: CommandView,
    s: Seq<u8>,
    i: int,
    e: int,
    f: u64,
)
    requires
        0 <= i,
        parse_command(s, i) == Some((c, e)),
    ensures
        apply_entry(st, c, s, i, e, f).contents() == apply_command(st.contents(), c),
{
    crate::engine::command::lemma_parse_exact_of_extent(s, i, c, e);
    match c {
        CommandView::Put(k, v) => {
            assert(apply_entry(st, c, s, i, e, f).contents() =~= st.contents().insert(k, v));
        },
        CommandView::Del(k) => {
            assert(apply_entry(st, c, s, i, e, f).contents() =~= st.contents().remove(k));
        },
    }
}

/// A record appended to bytes that replay is replayed after them: the
/// contents change as its command says.
#[verifier::spinoff_prover]
#[verifier::rlimit(40)]
proof fn lemma_replay_extend(s: Seq<u8>, r: Seq<u8>, c: CommandView, i: int, f: u64, st: ReplayState)
    requires
        0 <= i <= s.len(),
        replay_from(s, i, f, st) is Some,
        is_record_of(r, c),
    ensures
        replay_from(s + r, i, f, st) matches Some(st2) && st2.contents() == apply_command(
            replay_from(s, i, f, st)->0.contents(),
            c,
        ),
    decreases s.len() - i,
{
    let t = s + r;
    assert(t.subrange(0, s.len() as int) =~= s);
    assert(t.subrange(s.len() as int, (s.len() + r.len()) as int) =~= r);
    if skip_ws(s, i) >= s.len() {
        lemma_skip_ws_through(s, r, i);
        crate::engine::command::lemma_parse_command_extend(t, s.len() as int, r, 0);
        lemma_parse_command_end(r, 0);
        lemma_parse_command_starts(t, s.len() as int);
        let e = t.len() as int;
        assert(parse_command(t, i) == parse_command(t, s.len() as int));
        assert(parse_command(t, i) == Some((c, e)));
        lemma_apply_entry_contents(st, c, t, i, e, f);
        lemma_skip_ws_at_end(t);
        assert(replay_from(s, i, f, st) == Some(st));
        let st2 = apply_entry(st, c, t, i, e, f);
        assert(replay_from(t, e, f, st2) == Some(st2));
        assert(skip_ws(t, i) < t.len());
        assert(replay_from(t, i, f, st) == replay_from(t, e, f, st2));
    } else {
        let (c0, e0) = parse_command(s, i)->0;
        lemma_parse_command_starts(s, i);
        crate::engine::command::lemma_parse_command_extend(t, 0, s, i);
        lemma_parse_command_starts(t, i);
        let st1 = apply_entry(st, c0, s, i, e0, f);
        assert(t.subrange(i, e0) =~= s.subrange(i, e0));
        assert(apply_entry(st, c0, t, i, e0, f) == st1);
        assert(replay_from(s, i, f, st) == replay_from(s, e0, f, st1));
        lemma_replay_extend(s, r, c, e0, f, st1);
        assert(replay_from(t, i, f, st) == replay_from(t, e0, f, st1));
    }
}

/// Where a command is read, whitespace skipping stops inside the bytes.
proof fn lemma_parse_command_starts(s: Seq<u8>, i: int)
    requires
        parse_command(s, i) is Some,
    ensures
        skip_ws(s, i) < s.len(),
{
}

/// A record holds its command alone.
proof fn lemma_record_exact(r: Seq<u8>, c: CommandView)
    requires
        is_record_of(r, c),
    ensures
        parse_exact(r) == Some(c),
{
    lemma_skip_ws_at_end(r);
}

/// Replaying a log made of records written one after another gives the
/// contents that applying their commands in order gives: what the store
/// writes, it reads back when it is opened again.
pub proof fn law_replay_applies_commands(
    rs: Seq<Seq<u8>>,
    cs: Seq<CommandView>,
    f: u64,
    st: ReplayState,
)
    requires
        rs.len() == cs.len(),
        forall|i: int| 0 <= i < rs.len() ==> is_record_of(#[trigger] rs[i], cs[i]),
    ensures
        replay_from(concat(rs), 0, f, st) matches Some(st2) && st2.contents() == apply_commands(
            st.contents(),
            cs,
        ),
{
    lemma_replay_concat(Seq::empty(), rs, cs, f, st);
    assert(Seq::<u8>::empty() + concat(rs) =~= concat(rs));
}

/// Applying two lists of commands one after the other applies their
/// concatenation.
proof fn lemma_apply_commands_append(
    m: Map<Seq<char>, Seq<char>>,
    a: Seq<CommandView>,
    b: Seq<CommandView>,
)
    ensures
        apply_commands(m, a + b) == apply_commands(apply_commands(m, a), b),
    decreases b.len(),
{
    if b.len() == 0 {
        assert(a + b =~= a);
    } else {
        let b0 = b.drop_last();
        let c = b.last();
        lemma_apply_commands_append(m, a, b0);
        assert(a + b =~= (a + b0).push(c));
        assert(b =~= b0.push(c));
        lemma_apply_commands_push(m, a + b0, c);
        lemma_apply_commands_push(apply_commands(m, a), b0, c);
    }
}

/// The log files `logs`, named by `ids`, are each made of records: file `i`
/// is the records `rss[i]`, one after another, of the commands `css[i]`.
pub open spec fn logs_of_records(
    ids: Seq<u64>,
    logs: Seq<Seq<u8>>,
    rss: Seq<Seq<Seq<u8>>>,
    css: Seq<Seq<CommandView>>,
) -> bool {
    &&& logs.len() == ids.len()
    &&& rss.len() == ids.len()
    &&& css.len() == ids.len()
    &&& forall|i: int|
        0 <= i < ids.len() ==> {
            &&& #[trigger] logs[i] == concat(rss[i])
            &&& rss[i].len() == css[i].len()
            &&& forall|j: int| 0 <= j < rss[i].len() ==> is_record_of(#[trigger] rss[i][j], css[i][j])
        }
}

proof fn lemma_replay_logs_fold(
    ids: Seq<u64>,
    logs: Seq<Seq<u8>>,
    rss: Seq<Seq<Seq<u8>>>,
    css: Seq<Seq<CommandView>>,
    n: int,
)
    requires
        logs_of_records(ids, logs, rss, css),
        0 <= n <= ids.len(),
    ensures
        replay_logs(ids, logs, n) matches Some(st) && st.contents() == apply_commands(
            Map::empty(),
            css.take(n).flatten_alt(),
        ),
    decreases n,
{
    if n == 0 {
        assert(css.take(0).flatten_alt() =~= Seq::<CommandView>::empty());
        assert(ReplayState::empty().contents() =~= Map::<Seq<char>, Seq<char>>::empty());
    } else {
        lemma_replay_logs_fold(ids, logs, rss, css, n - 1);
        let st = replay_logs(ids, logs, n - 1)->0;
        assert(logs[n - 1] == concat(rss[n - 1]));
        assert forall|j: int| 0 <= j < rss[n - 1].len() implies is_record_of(
            #[trigger] rss[n - 1][j],
            css[n - 1][j],
        ) by {}
        law_replay_applies_commands(rss[n - 1], css[n - 1], ids[n - 1], st);
        assert(css.take(n).drop_last() =~= css.take(n - 1));
        assert(css.take(n).last() == css[n - 1]);
        assert(css.take(n).flatten_alt() == css.take(n - 1).flatten_alt() + css[n - 1]);
        lemma_apply_commands_append(Map::empty(), css.take(n - 1).flatten_alt(), css[n - 1]);
    }
}

/// Opening log files made of records reads back every command they hold,
/// the files in the order of their ids and the records in file order: the
/// contents are those that applying all the commands in turn to nothing
/// gives.  With `KvStore::open_from_logs`, a reopened store holds what was
/// written to its files.
pub proof fn law_logs_replay_commands(
    ids: Seq<u64>,
    logs: Seq<Seq<u8>>,
    rss: Seq<Seq<Seq<u8>>>,
    css: Seq<Seq<CommandView>>,
)
    requires
        logs_of_records(ids, logs, rss, css),
    ensures
        replay_logs(ids, logs, ids.len() as int) matches Some(st) && st.contents()
            == apply_commands(Map::empty(), css.flatten()),
{
    lemma_replay_logs_fold(ids, logs, rss, css, ids.len() as int);
    assert(css.take(ids.len() as int) =~= css);
    css.lemma_flatten_and_flatten_alt_are_equivalent();
}

/// Where the files of `disk` are exactly those named by `ids`, in increasing
/// order, holding `logs`, replaying the logs is replaying the files.
proof fn lemma_replay_logs_files(
    disk: Map<u64, Seq<Option<u8>>>,
    ids: Seq<u64>,
    logs: Seq<Seq<u8>>,
    n: int,
)
    requires
        ids.len() == logs.len(),
        forall|i: int, j: int| 0 <= i < j < ids.len() ==> ids[i] < ids[j],
        forall|i: int|
            0 <= i < ids.len() ==> disk.contains_key(#[trigger] ids[i]) && disk[ids[i]] == known(
                logs[i],
            ),
        forall|g: u64| #[trigger] disk.contains_key(g) ==> exists|i: int| 0 <= i < ids.len() && ids[i] == g,
        0 <= n <= ids.len(),
    ensures
        replay_logs(ids, logs, n) == replay_files(
            disk,
            if n == 0 {
                0nat
            } else {
                (ids[n - 1] + 1) as nat
            },
        ),
    decreases n,
{
    if n > 0 {
        lemma_replay_logs_files(disk, ids, logs, n - 1);
        let lo: nat = if n - 1 == 0 {
            0nat
        } else {
            (ids[n - 2] + 1) as nat
        };
        let f = ids[n - 1];
        if n >= 2 {
            assert(ids[n - 2] < ids[n - 1]);
        }
        assert forall|g: u64| lo <= g < f implies !disk.contains_key(g) by {
            if disk.contains_key(g) {
                let i = choose|i: int| 0 <= i < ids.len() && ids[i] == g;
                if i < n - 1 {
                    if i < n - 2 {
                        assert(ids[i] < ids[n - 2]);
                    }
                } else if i > n - 1 {
                    assert(ids[n - 1] < ids[i]);
                }
            }
        }
        lemma_replay_files_absent(disk, lo, f as nat);
        lemma_known_bytes(logs[n - 1]);
        assert(disk[f] == known(logs[n - 1]));
    }
}

/// The files hold the store: reopening it from files that hold exactly what
/// the model says, named in increasing order, reads back its contents.  With
/// `KvStore::open_from_logs`, whose contents are what the logs replay to, a
/// reopened store holds what the store held, compaction or not.
pub proof fn law_reopen_reads_contents(store: KvStore, ids: Seq<u64>, logs: Seq<Seq<u8>>)
    requires
        store.wf(),
        store.persisted(),
        store.pending() is None,
        ids.len() == logs.len(),
        forall|i: int, j: int| 0 <= i < j < ids.len() ==> ids[i] < ids[j],
        forall|i: int|
            0 <= i < ids.len() ==> store.disk().contains_key(#[trigger] ids[i]) && store.disk()[ids[i]]
                == known(logs[i]),
        forall|g: u64| #[trigger]
            store.disk().contains_key(g) ==> exists|i: int| 0 <= i < ids.len() && ids[i] == g,
    ensures
        replay_logs(ids, logs, ids.len() as int) matches Some(st) && st.contents() == store@,
{
    let disk = store.disk();
    let cur = store.file_id();
    lemma_replay_logs_files(disk, ids, logs, ids.len() as int);
    assert(disk.contains_key(cur));
    let j = choose|i: int| 0 <= i < ids.len() && ids[i] == cur;
    let last = ids.len() - 1;
    if j < last {
        assert(ids[j] < ids[last]);
        assert(disk.contains_key(ids[last]));
    }
    assert(ids[last] == cur);
}

/// The index points at the value: for each key of the store, the bytes at
/// the place the index gives hold a `SET` of that key to its value.  With
/// `read_value`, reading back a key gives what was last written for it.
pub proof fn law_index_reads_contents(store: KvStore, key: Seq<char>, bytes: Seq<u8>)
    requires
        store.wf(),
        store.index_view().contains_key(key),
        known(bytes) == extent(store.disk(), store.index_view()[key]),
    ensures
        store@.contains_key(key),
        parse_exact(bytes) == Some(CommandView::Put(key, store@[key])),
{
    assert(store.records@.contains_key(key));
    let rec = store.records@[key];
    lemma_skip_ws_at_end(rec);
    assert(known(bytes) == known(rec));
    assert(bytes =~= rec) by {
        assert forall|i: int| 0 <= i < bytes.len() implies bytes[i] == rec[i] by {
            assert(known(bytes)[i] == known(rec)[i]);
        }
    }
}


/// Applying commands one more at the end applies it last.
proof fn lemma_apply_commands_push(m: Map<Seq<char>, Seq<char>>, cs: Seq<CommandView>, c: CommandView)
    ensures
        apply_commands(m, cs.push(c)) == apply_command(apply_commands(m, cs), c),
    decreases cs.len(),
{
    if cs.len() == 0 {
        assert(cs.push(c).skip(1) =~= Seq::<CommandView>::empty());
        assert(cs.push(c)[0] == c);
        assert(apply_commands(apply_command(m, c), Seq::<CommandView>::empty()) == apply_command(
            m,
            c,
        ));
        assert(apply_commands(m, cs.push(c)) == apply_commands(
            apply_command(m, c),
            cs.push(c).skip(1),
        ));
    } else {
        let m1 = apply_command(m, cs[0]);
        assert(cs.push(c)[0] == cs[0]);
        assert(cs.push(c).skip(1) =~= cs.skip(1).push(c));
        lemma_apply_commands_push(m1, cs.skip(1), c);
        assert(apply_commands(m, cs.push(c)) == apply_commands(m1, cs.push(c).skip(1)));
        assert(apply_commands(m, cs) == apply_commands(m1, cs.skip(1)));
    }
}

/// `SET`s of distinct keys, applied to nothing, give each key its value and
/// nothing else.
#[verifier::spinoff_prover]
#[verifier::rlimit(40)]
proof fn lemma_apply_distinct_puts(
    cs: Seq<CommandView>,
    ks: Seq<Seq<char>>,
    vs: Seq<Seq<char>>,
    n: int,
)
    requires
        ks.len() == vs.len(),
        cs.len() == ks.len(),
        forall|i: int| 0 <= i < cs.len() ==> #[trigger] cs[i] == CommandView::Put(ks[i], vs[i]),
        0 <= n <= ks.len(),
        forall|i: int, j: int| 0 <= i < ks.len() && 0 <= j < ks.len() && i != j ==> ks[i] != ks[j],
    ensures
        forall|i: int|
            0 <= i < n ==> #[trigger] apply_commands(Map::empty(), cs.take(n)).contains_key(ks[i])
                && apply_commands(Map::empty(), cs.take(n))[ks[i]] == vs[i],
        forall|k: Seq<char>| #[trigger]
            apply_commands(Map::empty(), cs.take(n)).contains_key(k) ==> exists|i: int|
                0 <= i < n && ks[i] == k,
    decreases n,
{
    let m = apply_commands(Map::empty(), cs.take(n));
    if n == 0 {
        assert(cs.take(0) =~= Seq::<CommandView>::empty());
        assert(m == Map::<Seq<char>, Seq<char>>::empty());
    } else {
        lemma_apply_distinct_puts(cs, ks, vs, n - 1);
        assert(cs.take(n) =~= cs.take(n - 1).push(cs[n - 1]));
        lemma_apply_commands_push(Map::empty(), cs.take(n - 1), cs[n - 1]);
        let pm = apply_commands(Map::empty(), cs.take(n - 1));
        assert(cs[n - 1] == CommandView::Put(ks[n - 1], vs[n - 1]));
        assert(m == pm.insert(ks[n - 1], vs[n - 1]));
        assert forall|i: int| 0 <= i < n implies #[trigger] m.contains_key(ks[i]) && m[ks[i]]
            == vs[i] by {
            if i < n - 1 {
                assert(pm.contains_key(ks[i]));
            }
        }
        assert forall|k: Seq<char>| #[trigger] m.contains_key(k) implies exists|i: int|
            0 <= i < n && ks[i] == k by {
            if k != ks[n - 1] {
                assert(pm.contains_key(k));
            }
        }
    }
}

impl KvStore {
    /// The record of each live key, in the order of the entries: what a
    /// compaction copies, one after another, into the compacted file.
    pub closed spec fn live_records(&self) -> Seq<Seq<u8>> {
        Seq::new(self.keys@.len(), |i: int| self.records@[self.keys@[i]@])
    }
}

/// A compaction keeps what a reopening of the store reads: the live records,
/// written one after another, replay to the contents of the store.
pub proof fn law_compacted_log_replays_contents(store: KvStore, f: u64)
    requires
        store.wf(),
    ensures
        replay_from(concat(store.live_records()), 0, f, ReplayState::empty()) matches Some(st)
            && st.contents() == store@,
{
    let n = store.keys@.len();
    let ks = Seq::new(n, |i: int| store.keys@[i]@);
    let rs = store.live_records();
    let vs = Seq::new(n, |i: int| record_value(rs[i]));
    let cs = Seq::new(n, |i: int| CommandView::Put(ks[i], vs[i]));
    assert forall|i: int| 0 <= i < rs.len() implies is_record_of(#[trigger] rs[i], cs[i]) by {
        let k = store.keys@[i]@;
        assert(store.index@.contains_key(k));
        assert(store.records@.contains_key(k));
        lemma_skip_ws_at_end(rs[i]);
    }
    law_replay_applies_commands(rs, cs, f, ReplayState::empty());
    assert(ReplayState::empty().contents() =~= Map::<Seq<char>, Seq<char>>::empty());
    assert forall|i: int, j: int| 0 <= i < ks.len() && 0 <= j < ks.len() && i != j implies ks[i]
        != ks[j] by {
        assert(store.index@[store.keys@[i]@].slot == i);
        assert(store.index@[store.keys@[j]@].slot == j);
    }
    lemma_apply_distinct_puts(cs, ks, vs, n as int);
    assert(cs.take(n as int) =~= cs);
    let m = apply_commands(Map::empty(), cs);
    assert forall|k: Seq<char>| #[trigger] m.contains_key(k) == store@.contains_key(k) by {
        if m.contains_key(k) {
            let i = choose|i: int| 0 <= i < n && ks[i] == k;
            assert(store.index@.contains_key(store.keys@[i]@));
        }
        if store@.contains_key(k) {
            assert(store.records@.contains_key(k));
            let slot = store.index@[k].slot as int;
            assert(ks[slot] == k);
        }
    }
    assert forall|k: Seq<char>| #[trigger] m.contains_key(k) implies m[k] == store@[k] by {
        assert(store@.contains_key(k));
        assert(store.index@.contains_key(k));
        let slot = store.index@[k].slot as int;
        assert(ks[slot] == k);
        assert(m.contains_key(ks[slot]));
    }
    assert(m =~= store@);
}

} // verus!
