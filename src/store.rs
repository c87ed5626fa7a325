//! The store: the log bytes, the index into them, and the operations.

use vstd::prelude::*;
use crate::codec::{
    append_bytes, decode_at, encode, fits_field, parse_record, record_bytes, Command, CommandView,
};
use crate::error::KvError;
use crate::log::{
    lemma_record_end, lemma_record_extend, lemma_record_round_trip, lemma_replay_append,
    lemma_offsets_append, lemma_record_fits, live_log, log_offsets, log_state, lookup, put_bytes,
    replay_from, replay_offsets, Contents, Offsets,
};
use crate::laws::law_compaction_preserves_state;

verus! {

/// Log size above which a write compacts the log: 1 MiB.
pub const MAX_LOG_SIZE: u64 = 1048576;

/// What the log file must undergo after a change, so that it holds the same
/// bytes as the store's log.
pub enum Persist {
    /// Append these bytes to the file.
    Append(Vec<u8>),
    /// The log was compacted: write the whole log (`KvStore::log_bytes`) to a
    /// fresh file and put it in place of the old one.
    Rewrite,
}

/// An index entry: a key and the offset of its latest `Put` record.
pub open spec fn entry_ok(log: Seq<u8>, e: (String, u64), m: Contents, om: Offsets) -> bool {
    &&& m.contains_key(e.0@)
    &&& om.contains_key(e.0@) && om[e.0@] == e.1
    &&& match parse_record(log, e.1 as int) {
        Some((CommandView::Put { key, value }, _)) => key == e.0@ && value == m[e.0@],
        _ => false,
    }
}

/// The index covers exactly the live keys, once each, points each at a
/// `Put` record of its current value, and holds the offsets `om`.
pub open spec fn index_ok(log: Seq<u8>, idx: Seq<(String, u64)>, m: Contents, om: Offsets) -> bool {
    &&& om.dom() == m.dom()
    &&& forall|i: int, j: int| 0 <= i < j < idx.len() ==> idx[i].0@ != idx[j].0@
    &&& forall|k: Seq<char>| #[trigger] m.contains_key(k) ==> exists|i: int| 0 <= i < idx.len() && idx[i].0@ == k
    &&& forall|i: int| 0 <= i < idx.len() ==> entry_ok(log, #[trigger] idx[i], m, om)
}

/// Bytes appended to the log leave every index entry valid.
proof fn lemma_index_extend(
    log: Seq<u8>,
    x: Seq<u8>,
    idx: Seq<(String, u64)>,
    m: Contents,
    om: Offsets,
)
    requires
        index_ok(log, idx, m, om),
    ensures
        index_ok(log + x, idx, m, om),
{
    assert forall|i: int| 0 <= i < idx.len() implies entry_ok(log + x, #[trigger] idx[i], m, om) by {
        assert(entry_ok(log, idx[i], m, om));
        lemma_record_extend(log, x, idx[i].1 as int);
    }
}

/// The position of `key` in the index, if it is there.
fn find(index: &Vec<(String, u64)>, key: &String) -> (r: Option<usize>)
    ensures
        match r {
            Some(i) => i < index@.len() && index@[i as int].0@ == key@,
            None => forall|i: int| 0 <= i < index@.len() ==> index@[i].0@ != key@,
        },
{
    let mut i: usize = 0;
    while i < index.len()
        invariant
            i <= index@.len(),
            forall|j: int| 0 <= j < i ==> index@[j].0@ != key@,
        decreases index@.len() - i,
    {
        if index[i].0 == *key {
            return Some(i);
        }
        i = i + 1;
    }
    None
}

/// A new key, with its `Put` record, can be added at the end of the index.
proof fn lemma_index_push(
    log: Seq<u8>,
    idx: Seq<(String, u64)>,
    m: Contents,
    om: Offsets,
    e: (String, u64),
    v: Seq<char>,
)
    requires
        index_ok(log, idx, m, om),
        !m.contains_key(e.0@),
        parse_record(log, e.1 as int) matches Some((CommandView::Put { key: k, value: w }, _)) && k
            == e.0@ && w == v,
    ensures
        index_ok(log, idx.push(e), m.insert(e.0@, v), om.insert(e.0@, e.1)),
{
    let k = e.0@;
    let m2 = m.insert(k, v);
    let om2 = om.insert(k, e.1);
    assert(om2.dom() =~= m2.dom());
    let idx2 = idx.push(e);
    let n = idx.len();
    assert forall|j: int| 0 <= j < idx2.len() implies entry_ok(log, #[trigger] idx2[j], m2, om2) by {
        if j < n {
            assert(idx2[j] == idx[j]);
            assert(entry_ok(log, idx[j], m, om));
        }
    }
    assert forall|k2: Seq<char>| #[trigger] m2.contains_key(k2) implies exists|j: int|
        0 <= j < idx2.len() && idx2[j].0@ == k2 by {
        if k2 != k {
            let j = choose|j: int| 0 <= j < idx.len() && idx[j].0@ == k2;
            assert(idx2[j].0@ == k2);
        } else {
            assert(idx2[n as int].0@ == k2);
        }
    }
    assert forall|a: int, b: int| 0 <= a < b < idx2.len() implies idx2[a].0@ != idx2[b].0@ by {
        if b == n {
            assert(entry_ok(log, idx[a], m, om));
        }
    }
}

/// Points `key` at the `Put` record at `off`, which holds `v`.
fn index_put(
    index: &mut Vec<(String, u64)>,
    key: String,
    off: u64,
    Ghost(log): Ghost<Seq<u8>>,
    Ghost(m): Ghost<Contents>,
    Ghost(om): Ghost<Offsets>,
    Ghost(v): Ghost<Seq<char>>,
)
    requires
        index_ok(log, old(index)@, m, om),
        parse_record(log, off as int) matches Some((CommandView::Put { key: k, value: w }, _)) && k
            == key@ && w == v,
    ensures
        index_ok(log, final(index)@, m.insert(key@, v), om.insert(key@, off)),
        final(index)@.len() == old(index)@.len() || final(index)@.len() == old(index)@.len() + 1,
        forall|i: int| 0 <= i < old(index)@.len() ==> (#[trigger] final(index)@[i]).0@ == old(
            index,
        )@[i].0@,
        final(index)@.len() == old(index)@.len() + 1 ==> final(index)@.last().0@ == key@,
{
    let ghost k = key@;
    let ghost m2 = m.insert(k, v);
    let ghost om2 = om.insert(k, off);
    assert(om2.dom() =~= m2.dom());
    match find(index, &key) {
        Some(i) => {
            index[i] = (key, off);
            let ghost idx = index@;
            assert forall|j: int| 0 <= j < idx.len() implies entry_ok(log, #[trigger] idx[j], m2, om2) by {
                if j != i {
                    assert(entry_ok(log, old(index)@[j], m, om));
                    assert(old(index)@[j].0@ != k);
                }
            }
            assert forall|k2: Seq<char>| #[trigger] m2.contains_key(k2) implies exists|j: int|
                0 <= j < idx.len() && idx[j].0@ == k2 by {
                if k2 != k {
                    let j = choose|j: int| 0 <= j < old(index)@.len() && old(index)@[j].0@ == k2;
                    assert(idx[j].0@ == k2);
                } else {
                    assert(idx[i as int].0@ == k2);
                }
            }
        },
        None => {
            proof {
                if m.contains_key(k) {
                    let j = choose|j: int| 0 <= j < old(index)@.len() && old(index)@[j].0@ == k;
                    assert(false);
                }
                lemma_index_push(log, old(index)@, m, om, (key, off), v);
            }
            index.push((key, off));
        },
    }
}

/// Takes `key` out of the index; returns whether it was there.
fn index_remove(
    index: &mut Vec<(String, u64)>,
    key: &String,
    Ghost(log): Ghost<Seq<u8>>,
    Ghost(m): Ghost<Contents>,
    Ghost(om): Ghost<Offsets>,
) -> (r: bool)
    requires
        index_ok(log, old(index)@, m, om),
    ensures
        r == m.contains_key(key@),
        r ==> index_ok(log, final(index)@, m.remove(key@), om.remove(key@)),
        !r ==> *final(index) == *old(index),
{
    let ghost k = key@;
    let ghost m2 = m.remove(k);
    let ghost om2 = om.remove(k);
    assert(om2.dom() =~= m2.dom());
    match find(index, key) {
        Some(i) => {
            assert(entry_ok(log, old(index)@[i as int], m, om));
            index.remove(i);
            let ghost idx = index@;
            let ghost old_idx = old(index)@;
            assert forall|j: int| 0 <= j < idx.len() implies entry_ok(log, #[trigger] idx[j], m2, om2) by {
                if j < i {
                    assert(entry_ok(log, old_idx[j], m, om));
                    assert(old_idx[j].0@ != k);
                } else {
                    assert(idx[j] == old_idx[j + 1]);
                    assert(entry_ok(log, old_idx[j + 1], m, om));
                    assert(old_idx[j + 1].0@ != k);
                }
            }
            assert forall|k2: Seq<char>| #[trigger] m2.contains_key(k2) implies exists|j: int|
                0 <= j < idx.len() && idx[j].0@ == k2 by {
                let j = choose|j: int| 0 <= j < old_idx.len() && old_idx[j].0@ == k2;
                assert(j != i);
                if j < i {
                    assert(idx[j].0@ == k2);
                } else {
                    assert(idx[j - 1].0@ == k2);
                }
            }
            assert forall|a: int, b: int| 0 <= a < b < idx.len() implies idx[a].0@ != idx[b].0@ by {
                let oa = if a < i { a } else { a + 1 };
                let ob = if b < i { b } else { b + 1 };
                assert(idx[a] == old_idx[oa]);
                assert(idx[b] == old_idx[ob]);
            }
            true
        },
        None => {
            proof {
                if m.contains_key(k) {
                    let j = choose|j: int| 0 <= j < old(index)@.len() && old(index)@[j].0@ == k;
                    assert(false);
                }
            }
            false
        },
    }
}

/// The value of the `Put` record at `off`.
fn value_at(log: &Vec<u8>, off: u64, Ghost(k): Ghost<Seq<char>>, Ghost(v): Ghost<Seq<char>>) -> (r:
    String)
    requires
        parse_record(log@, off as int) matches Some((CommandView::Put { key, value }, _)) && key == k
            && value == v,
    ensures
        r@ == v,
{
    let n = log.len();
    proof {
        lemma_record_end(log@, off as int);
    }
    assert(off < n);
    match decode_at(log, off as usize) {
        Some((Command::Put { key: _, value }, _)) => value,
        _ => {
            proof {
                assert(false);
            }
            String::new()
        },
    }
}

/// A key-value store over an append-only log of commands.
pub struct KvStore {
    log: Vec<u8>,
    index: Vec<(String, u64)>,
    threshold: u64,
    contents: Ghost<Contents>,
    offsets: Ghost<Offsets>,
}

impl View for KvStore {
    type V = Contents;

    closed spec fn view(&self) -> Contents {
        self.contents@
    }
}

impl KvStore {
    /// The log replays to the visible state, and the index is valid for both.
    pub closed spec fn wf(&self) -> bool {
        &&& log_state(self.log@) == Some(self.contents@)
        &&& index_ok(self.log@, self.index@, self.contents@, self.offsets@)
        &&& log_offsets(self.log@) == Some(self.offsets@)
    }

    /// The index: each live key with the offset of the `Put` record it
    /// points at.
    pub closed spec fn offsets(&self) -> Offsets {
        self.offsets@
    }

    /// The bytes of the log.
    pub closed spec fn log_view(&self) -> Seq<u8> {
        self.log@
    }

    /// The log size above which a write compacts the log.
    pub closed spec fn threshold_view(&self) -> u64 {
        self.threshold
    }

    /// The live keys in the order in which a compaction writes them.
    pub closed spec fn key_order(&self) -> Seq<Seq<char>> {
        self.index@.map_values(|e: (String, u64)| e.0@)
    }

    /// Replays `log` from its first byte and builds the index, with the
    /// default compaction threshold.
    pub fn open(log: Vec<u8>) -> (r: Result<KvStore, KvError>)
        ensures
            match r {
                Ok(s) => s.wf() && s.log_view() == log@ && log_state(log@) == Some(s@)
                    && log_offsets(log@) == Some(s.offsets()) && s.threshold_view() == MAX_LOG_SIZE,
                Err(e) => log_state(log@) is None && e is Corruption,
            },
    {
        Self::open_with_threshold(log, MAX_LOG_SIZE)
    }

    /// Replays `log` from its first byte and builds the index; a write that
    /// leaves the log longer than `threshold` bytes compacts it.
    pub fn open_with_threshold(log: Vec<u8>, threshold: u64) -> (r: Result<KvStore, KvError>)
        ensures
            match r {
                Ok(s) => s.wf() && s.log_view() == log@ && log_state(log@) == Some(s@)
                    && log_offsets(log@) == Some(s.offsets()) && s.threshold_view() == threshold,
                Err(e) => log_state(log@) is None && e is Corruption,
            },
    {
        let mut index: Vec<(String, u64)> = Vec::new();
        let ghost mut m: Contents = Map::empty();
        let ghost mut om: Offsets = Map::empty();
        let mut pos: usize = 0;
        while pos < log.len()
            invariant
                pos <= log@.len(),
                replay_from(log@, pos as int, m) == log_state(log@),
                replay_offsets(log@, pos as int, om) == log_offsets(log@),
                index_ok(log@, index@, m, om),
            decreases log@.len() - pos,
        {
            match decode_at(&log, pos) {
                None => {
                    return Err(KvError::Corruption);
                },
                Some((cmd, end)) => {
                    proof {
                        lemma_record_end(log@, pos as int);
                    }
                    let ghost c = cmd@;
                    match cmd {
                        Command::Put { key, value } => {
                            let ghost k = key@;
                            let ghost v = value@;
                            index_put(
                                &mut index,
                                key,
                                pos as u64,
                                Ghost(log@),
                                Ghost(m),
                                Ghost(om),
                                Ghost(v),
                            );
                            proof {
                                m = m.insert(k, v);
                                om = om.insert(k, pos as u64);
                            }
                        },
                        Command::Remove { key } => {
                            let ghost k = key@;
                            let found = index_remove(
                                &mut index,
                                &key,
                                Ghost(log@),
                                Ghost(m),
                                Ghost(om),
                            );
                            proof {
                                if !found {
                                    assert(m.remove(k) =~= m);
                                    assert(om.remove(k) =~= om);
                                }
                                m = m.remove(k);
                                om = om.remove(k);
                            }
                        },
                    }
                    pos = end;
                },
            }
        }
        Ok(KvStore { log, index, threshold, contents: Ghost(m), offsets: Ghost(om) })
    }

    /// The bytes of the log, as the log file must hold them.
    pub fn log_bytes(&self) -> (r: &Vec<u8>)
        ensures
            r@ == self.log_view(),
    {
        &self.log
    }

    /// Where the index points `key`: the start of its latest `Put` record.
    pub fn offset_of(&self, key: &String) -> (r: Option<u64>)
        requires
            self.wf(),
        ensures
            r == (if self.offsets().contains_key(key@) {
                Some(self.offsets()[key@])
            } else {
                None
            }),
    {
        match find(&self.index, key) {
            None => {
                assert(!self.contents@.contains_key(key@));
                None
            },
            Some(i) => {
                assert(entry_ok(self.log@, self.index@[i as int], self.contents@, self.offsets@));
                Some(self.index[i].1)
            },
        }
    }

    /// The current value of `key`, if it has one. The record the index points
    /// at is decoded and checked to be a `Put`; anything else is reported as
    /// `Corruption`, which the contract shows cannot happen on a well-formed
    /// store.
    pub fn get(&self, key: String) -> (r: Result<Option<String>, KvError>)
        requires
            self.wf(),
        ensures
            match r {
                Ok(Some(v)) => lookup(self@, key@) == Some(v@),
                Ok(None) => lookup(self@, key@) is None,
                Err(_) => false,
            },
    {
        match find(&self.index, &key) {
            None => {
                assert(!self.contents@.contains_key(key@));
                Ok(None)
            },
            Some(i) => {
                let off = self.index[i].1;
                proof {
                    assert(entry_ok(self.log@, self.index@[i as int], self.contents@, self.offsets@));
                    lemma_record_end(self.log@, off as int);
                }
                if off >= self.log.len() as u64 {
                    return Err(KvError::Corruption);
                }
                match decode_at(&self.log, off as usize) {
                    Some((Command::Put { key: _, value }, _)) => Ok(Some(value)),
                    _ => Err(KvError::Corruption),
                }
            },
        }
    }

    /// Sets `key` to `value`: appends a `Put` record, points the index at
    /// it, then compacts the log if it has grown past the threshold.
    pub fn set(&mut self, key: String, value: String) -> (r: Persist)
        requires
            old(self).wf(),
        ensures
            final(self).wf(),
            final(self)@ == old(self)@.insert(key@, value@),
            final(self).threshold_view() == old(self).threshold_view(),
            log_offsets(final(self).log_view()) == Some(final(self).offsets()),
            match r {
                Persist::Append(bytes) => bytes@ == put_bytes(key@, value@) && final(self).log_view()
                    == old(self).log_view() + bytes@ && final(self).log_view().len()
                    <= final(self).threshold_view() && final(self).offsets() == old(
                    self,
                ).offsets().insert(key@, old(self).log_view().len() as u64),
                Persist::Rewrite => old(self).log_view().len() + put_bytes(key@, value@).len()
                    > old(self).threshold_view() && final(self).log_view() == live_log(
                    final(self).key_order(),
                    final(self)@,
                ),
            },
    {
        let ghost k = key@;
        let ghost v = value@;
        let cmd = Command::Put { key: key.clone(), value };
        let rec = encode(&cmd);
        let pos = self.log.len() as u64;
        let ghost old_log = self.log@;
        append_bytes(&mut self.log, rec.as_slice());
        proof {
            lemma_replay_append(old_log, 0, Map::empty(), cmd@);
            lemma_offsets_append(old_log, 0, Map::empty(), cmd@);
            lemma_index_extend(old_log, rec@, self.index@, self.contents@, self.offsets@);
            lemma_record_round_trip(old_log, cmd@, Seq::empty());
            assert(old_log + rec@ + Seq::empty() =~= old_log + rec@);
        }
        index_put(
            &mut self.index,
            key,
            pos,
            Ghost(self.log@),
            Ghost(self.contents@),
            Ghost(self.offsets@),
            Ghost(v),
        );
        self.contents = Ghost(self.contents@.insert(k, v));
        self.offsets = Ghost(self.offsets@.insert(k, pos));
        if self.check_compact() {
            Persist::Rewrite
        } else {
            Persist::Append(rec)
        }
    }

    /// Removes `key`: fails with `KeyNotFound`, changing nothing, where it
    /// has no value; otherwise drops it from the index, appends a `Remove`
    /// record, then compacts the log if it has grown past the threshold.
    pub fn remove(&mut self, key: String) -> (r: Result<Persist, KvError>)
        requires
            old(self).wf(),
        ensures
            final(self).wf(),
            final(self).threshold_view() == old(self).threshold_view(),
            log_offsets(final(self).log_view()) == Some(final(self).offsets()),
            r is Ok <==> old(self)@.contains_key(key@),
            match r {
                Err(e) => e is KeyNotFound && *final(self) == *old(self),
                Ok(p) => final(self)@ == old(self)@.remove(key@) && match p {
                    Persist::Append(bytes) => bytes@ == record_bytes(CommandView::Remove { key: key@ })
                        && final(self).log_view() == old(self).log_view() + bytes@
                        && final(self).log_view().len() <= final(self).threshold_view()
                        && final(self).offsets() == old(self).offsets().remove(key@),
                    Persist::Rewrite => old(self).log_view().len() + record_bytes(
                        CommandView::Remove { key: key@ },
                    ).len() > old(self).threshold_view() && final(self).log_view() == live_log(
                        final(self).key_order(),
                        final(self)@,
                    ),
                },
            },
    {
        let ghost old_log = self.log@;
        let ghost k = key@;
        if !index_remove(
            &mut self.index,
            &key,
            Ghost(self.log@),
            Ghost(self.contents@),
            Ghost(self.offsets@),
        ) {
            return Err(KvError::KeyNotFound);
        }
        self.contents = Ghost(self.contents@.remove(k));
        self.offsets = Ghost(self.offsets@.remove(k));
        let cmd = Command::Remove { key };
        let rec = encode(&cmd);
        append_bytes(&mut self.log, rec.as_slice());
        proof {
            lemma_replay_append(old_log, 0, Map::empty(), cmd@);
            lemma_offsets_append(old_log, 0, Map::empty(), cmd@);
            lemma_index_extend(old_log, rec@, self.index@, self.contents@, self.offsets@);
        }
        if self.check_compact() {
            Ok(Persist::Rewrite)
        } else {
            Ok(Persist::Append(rec))
        }
    }

    /// Compacts the log where it is longer than the threshold; returns
    /// whether it did.
    fn check_compact(&mut self) -> (compacted: bool)
        requires
            old(self).wf(),
        ensures
            final(self).wf(),
            final(self)@ == old(self)@,
            final(self).threshold == old(self).threshold,
            compacted == (old(self).log@.len() > old(self).threshold),
            !compacted ==> *final(self) == *old(self),
            compacted ==> final(self).log@ == live_log(final(self).key_order(), final(self)@),
    {
        if self.log.len() as u64 > self.threshold {
            self.compact();
            true
        } else {
            false
        }
    }

    /// Rewrites the log as one `Put` record per live key, in index order,
    /// and points the index into the new log. The caller persists the result
    /// as for `Persist::Rewrite`.
    pub fn compact(&mut self)
        requires
            old(self).wf(),
        ensures
            final(self).wf(),
            final(self)@ == old(self)@,
            final(self).threshold_view() == old(self).threshold_view(),
            final(self).key_order() == old(self).key_order(),
            final(self).log_view() == live_log(final(self).key_order(), final(self)@),
            log_offsets(final(self).log_view()) == Some(final(self).offsets()),
    {
        let ghost m = self.contents@;
        let ghost om = self.offsets@;
        let ghost keys = self.key_order();
        let mut new_log: Vec<u8> = Vec::new();
        let mut new_index: Vec<(String, u64)> = Vec::new();
        let ghost mut acc: Contents = Map::empty();
        let ghost mut acc_om: Offsets = Map::empty();
        let mut i: usize = 0;
        while i < self.index.len()
            invariant
                self.wf(),
                self.contents@ == m,
                self.offsets@ == om,
                keys == self.key_order(),
                i <= self.index@.len(),
                new_index@.len() == i,
                forall|j: int| 0 <= j < i ==> (#[trigger] new_index@[j]).0@ == self.index@[j].0@,
                index_ok(new_log@, new_index@, acc, acc_om),
                log_state(new_log@) == Some(acc),
                log_offsets(new_log@) == Some(acc_om),
                forall|k: Seq<char>| #[trigger]
                    acc.contains_key(k) <==> exists|j: int| 0 <= j < i && self.index@[j].0@ == k,
                forall|k: Seq<char>| #[trigger] acc.contains_key(k) ==> acc[k] == m[k],
                new_log@ == live_log(keys.subrange(0, i as int), m),
            decreases self.index@.len() - i,
        {
            let ghost k = self.index@[i as int].0@;
            proof {
                assert(entry_ok(self.log@, self.index@[i as int], m, om));
            }
            let key = self.index[i].0.clone();
            let value = value_at(&self.log, self.index[i].1, Ghost(k), Ghost(m[k]));
            let cmd = Command::Put { key: key.clone(), value };
            let rec = encode(&cmd);
            let pos = new_log.len() as u64;
            let ghost before = new_log@;
            append_bytes(&mut new_log, rec.as_slice());
            proof {
                if acc.contains_key(k) {
                    let j = choose|j: int| 0 <= j < i && self.index@[j].0@ == k;
                    assert(false);
                }
                lemma_replay_append(before, 0, Map::empty(), cmd@);
                lemma_offsets_append(before, 0, Map::empty(), cmd@);
                lemma_index_extend(before, rec@, new_index@, acc, acc_om);
                lemma_record_round_trip(before, cmd@, Seq::empty());
                assert(before + rec@ + Seq::empty() =~= before + rec@);
                lemma_index_push(new_log@, new_index@, acc, acc_om, (key, pos), m[k]);
                assert(keys.subrange(0, i + 1).drop_last() =~= keys.subrange(0, i as int));
            }
            new_index.push((key, pos));
            proof {
                acc = acc.insert(k, m[k]);
                acc_om = acc_om.insert(k, pos);
                assert forall|k2: Seq<char>| #[trigger]
                    acc.contains_key(k2) implies exists|j: int| 0 <= j < i + 1 && self.index@[j].0@ == k2 by {
                    if k2 == k {
                        assert(self.index@[i as int].0@ == k2);
                    }
                }
            }
            i = i + 1;
        }
        proof {
            assert(acc =~= m);
            assert(keys.subrange(0, i as int) =~= keys);
            assert(new_index@.map_values(|e: (String, u64)| e.0@) =~= keys);
        }
        self.log = new_log;
        self.index = new_index;
        self.offsets = Ghost(acc_om);
    }
}

/// The bytes a store asks to persist replay, on reopening, to exactly the
/// state that the store shows.
pub proof fn law_reopen(s: &KvStore)
    requires
        s.wf(),
    ensures
        log_state(s.log_view()) == Some(s@),
        log_offsets(s.log_view()) == Some(s.offsets()),
{
}

/// The index holds exactly the live keys, and points each at a `Put` record
/// of that key with its current value.
pub proof fn law_index_points_at_current_values(s: &KvStore, k: Seq<char>)
    requires
        s.wf(),
    ensures
        s.offsets().contains_key(k) <==> s@.contains_key(k),
        s.offsets().contains_key(k) ==> (parse_record(s.log_view(), s.offsets()[k] as int) matches Some(
            (CommandView::Put { key, value }, _),
        ) && key == k && value == s@[k]),
{
    if s@.contains_key(k) {
        let i = choose|i: int| 0 <= i < s.index@.len() && s.index@[i].0@ == k;
        assert(entry_ok(s.log@, s.index@[i], s.contents@, s.offsets@));
    }
}

/// Compacting a store's log, as its writes do past the threshold, gives a
/// log that replays to the same state.
pub proof fn law_compaction_keeps_state(s: &KvStore)
    requires
        s.wf(),
    ensures
        log_state(live_log(s.key_order(), s@)) == Some(s@),
{
    let keys = s.key_order();
    let m = s@;
    let om = s.offsets@;
    assert forall|i: int| 0 <= i < keys.len() implies m.contains_key(#[trigger] keys[i])
        && fits_field(keys[i]) && fits_field(m[keys[i]]) by {
        assert(entry_ok(s.log@, s.index@[i], m, om));
        lemma_record_fits(s.log@, s.index@[i].1 as int);
    }
    assert forall|k: Seq<char>| #[trigger] m.contains_key(k) implies keys.contains(k) by {
        let i = choose|i: int| 0 <= i < s.index@.len() && s.index@[i].0@ == k;
        assert(keys[i] == k);
    }
    law_compaction_preserves_state(keys, m);
}

} // verus!
