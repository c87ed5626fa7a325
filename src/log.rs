//! What a log means: replaying its records from the start gives the map from
//! each live key to its current value.

use vstd::prelude::*;
use crate::codec::{fits_field, fits_record, parse_field, parse_record, record_bytes, CommandView, TAG_PUT, TAG_REMOVE, field_bytes};
use vstd::bytes::{lemma_auto_spec_u64_to_from_le_bytes, spec_u64_to_le_bytes};
use vstd::utf8::{encode_utf8, encode_utf8_decode_utf8, encode_utf8_valid_utf8};

verus! {

/// The visible state of a store: each live key with its current value.
pub type Contents = Map<Seq<char>, Seq<char>>;

/// The effect of one command on the visible state.
pub open spec fn apply(m: Contents, c: CommandView) -> Contents {
    match c {
        CommandView::Put { key, value } => m.insert(key, value),
        CommandView::Remove { key } => m.remove(key),
    }
}

/// What a lookup of `k` in `m` returns.
pub open spec fn lookup(m: Contents, k: Seq<char>) -> Option<Seq<char>> {
    if m.contains_key(k) {
        Some(m[k])
    } else {
        None
    }
}

/// Replays the records of `b` from offset `pos` on, starting from state `m`;
/// `None` where the bytes from `pos` on are not a sequence of whole records.
pub open spec fn replay_from(b: Seq<u8>, pos: int, m: Contents) -> Option<Contents>
    decreases b.len() - pos,
{
    if pos == b.len() {
        Some(m)
    } else if 0 <= pos < b.len() {
        match parse_record(b, pos) {
            Some((c, end)) => if pos < end <= b.len() {
                replay_from(b, end, apply(m, c))
            } else {
                None
            },
            None => None,
        }
    } else {
        None
    }
}

/// The state that a log replays to from its first byte, if it is well formed.
pub open spec fn log_state(b: Seq<u8>) -> Option<Contents> {
    replay_from(b, 0, Map::empty())
}

/// Where each live key's latest `Put` record starts.
pub type Offsets = Map<Seq<char>, u64>;

/// The effect on the index of one command whose record starts at `at`: a
/// `Put` points its key there, a `Remove` drops its key.
pub open spec fn step_offsets(om: Offsets, c: CommandView, at: int) -> Offsets {
    match c {
        CommandView::Put { key, .. } => om.insert(key, at as u64),
        CommandView::Remove { key } => om.remove(key),
    }
}

/// Replays the records of `b` from offset `pos` on into the index, starting
/// from `om`; `None` where `replay_from` fails too.
pub open spec fn replay_offsets(b: Seq<u8>, pos: int, om: Offsets) -> Option<Offsets>
    decreases b.len() - pos,
{
    if pos == b.len() {
        Some(om)
    } else if 0 <= pos < b.len() {
        match parse_record(b, pos) {
            Some((c, end)) => if pos < end <= b.len() {
                replay_offsets(b, end, step_offsets(om, c, pos))
            } else {
                None
            },
            None => None,
        }
    } else {
        None
    }
}

/// The index that a replay of the whole log builds: each live key with the
/// start of its latest `Put` record.
pub open spec fn log_offsets(b: Seq<u8>) -> Option<Offsets> {
    replay_offsets(b, 0, Map::empty())
}

/// The bytes of a `Put` record.
pub open spec fn put_bytes(k: Seq<char>, v: Seq<char>) -> Seq<u8> {
    record_bytes(CommandView::Put { key: k, value: v })
}

/// A compacted log: one `Put` record for each of `keys`, in that order, with
/// its value in `m`.
pub open spec fn live_log(keys: Seq<Seq<char>>, m: Contents) -> Seq<u8>
    decreases keys.len(),
{
    if keys.len() == 0 {
        Seq::empty()
    } else {
        live_log(keys.drop_last(), m) + put_bytes(keys.last(), m[keys.last()])
    }
}

/// A field written after any prefix and before any suffix reads back whole.
pub proof fn lemma_field_round_trip(p: Seq<u8>, s: Seq<char>, q: Seq<u8>)
    requires
        fits_field(s),
    ensures
        parse_field(p + field_bytes(s) + q, p.len() as int) == Some(
            (s, (p.len() + field_bytes(s).len()) as int),
        ),
{
    lemma_auto_spec_u64_to_from_le_bytes();
    encode_utf8_valid_utf8(s);
    encode_utf8_decode_utf8(s);
    let b = p + field_bytes(s) + q;
    let pos = p.len() as int;
    let n = encode_utf8(s).len();
    assert(spec_u64_to_le_bytes(n as u64).len() == 8);
    assert(b.subrange(pos, pos + 8) =~= spec_u64_to_le_bytes(n as u64));
    assert(b.subrange(pos + 8, pos + 8 + n) =~= encode_utf8(s));
}

/// A record written after any prefix and before any suffix decodes to the
/// command it was written from, ending just past its own bytes.
pub proof fn lemma_record_round_trip(p: Seq<u8>, c: CommandView, q: Seq<u8>)
    requires
        fits_record(c),
    ensures
        parse_record(p + record_bytes(c) + q, p.len() as int) == Some(
            (c, (p.len() + record_bytes(c).len()) as int),
        ),
{
    let b = p + record_bytes(c) + q;
    match c {
        CommandView::Put { key, value } => {
            let p1 = p + seq![TAG_PUT];
            lemma_field_round_trip(p1, key, field_bytes(value) + q);
            assert(b =~= p1 + field_bytes(key) + (field_bytes(value) + q));
            let p2 = p1 + field_bytes(key);
            lemma_field_round_trip(p2, value, q);
            assert(b =~= p2 + field_bytes(value) + q);
            assert(b[p.len() as int] == TAG_PUT);
        },
        CommandView::Remove { key } => {
            let p1 = p + seq![TAG_REMOVE];
            lemma_field_round_trip(p1, key, q);
            assert(b =~= p1 + field_bytes(key) + q);
            assert(b[p.len() as int] == TAG_REMOVE);
        },
    }
}

/// Bytes added after a field do not change how it reads.
proof fn lemma_field_extend(b: Seq<u8>, x: Seq<u8>, pos: int)
    requires
        parse_field(b, pos) is Some,
    ensures
        parse_field(b + x, pos) == parse_field(b, pos),
{
    let n = vstd::bytes::spec_u64_from_le_bytes(b.subrange(pos, pos + 8)) as int;
    assert((b + x).subrange(pos, pos + 8) =~= b.subrange(pos, pos + 8));
    assert((b + x).subrange(pos + 8, pos + 8 + n) =~= b.subrange(pos + 8, pos + 8 + n));
}

/// Bytes added after a record do not change how it reads.
pub proof fn lemma_record_extend(b: Seq<u8>, x: Seq<u8>, pos: int)
    requires
        parse_record(b, pos) is Some,
    ensures
        parse_record(b + x, pos) == parse_record(b, pos),
{
    assert((b + x)[pos] == b[pos]);
    lemma_field_extend(b, x, pos + 1);
    if b[pos] == TAG_PUT {
        let mid = parse_field(b, pos + 1).unwrap().1;
        lemma_field_extend(b, x, mid);
    }
}

/// A record never ends past the bytes it was read from.
pub proof fn lemma_record_end(b: Seq<u8>, pos: int)
    requires
        parse_record(b, pos) is Some,
    ensures
        pos < parse_record(b, pos).unwrap().1 <= b.len(),
{
}

/// Replaying a log with one more record applies that record to the result.
pub proof fn lemma_replay_append(b: Seq<u8>, pos: int, m: Contents, c: CommandView)
    requires
        replay_from(b, pos, m) is Some,
        fits_record(c),
    ensures
        replay_from(b + record_bytes(c), pos, m) == Some(
            apply(replay_from(b, pos, m).unwrap(), c),
        ),
    decreases b.len() - pos,
{
    let r = record_bytes(c);
    if pos == b.len() {
        lemma_record_round_trip(b, c, Seq::empty());
        assert(b + r + Seq::empty() =~= b + r);
        let end = (b.len() + r.len()) as int;
        assert(replay_from(b + r, end, apply(m, c)) == Some(apply(m, c)));
    } else {
        let (c1, end) = parse_record(b, pos).unwrap();
        lemma_record_end(b, pos);
        lemma_record_extend(b, r, pos);
        lemma_replay_append(b, end, apply(m, c1), c);
    }
}

/// Replaying the index of a log with one more record applies that record,
/// at the offset where it starts, to the result.
pub proof fn lemma_offsets_append(b: Seq<u8>, pos: int, om: Offsets, c: CommandView)
    requires
        replay_offsets(b, pos, om) is Some,
        fits_record(c),
    ensures
        replay_offsets(b + record_bytes(c), pos, om) == Some(
            step_offsets(replay_offsets(b, pos, om).unwrap(), c, b.len() as int),
        ),
    decreases b.len() - pos,
{
    let r = record_bytes(c);
    if pos == b.len() {
        lemma_record_round_trip(b, c, Seq::empty());
        assert(b + r + Seq::empty() =~= b + r);
        let end = (b.len() + r.len()) as int;
        assert(replay_offsets(b + r, end, step_offsets(om, c, pos)) == Some(step_offsets(om, c, pos)));
    } else {
        let (c1, end) = parse_record(b, pos).unwrap();
        lemma_record_end(b, pos);
        lemma_record_extend(b, r, pos);
        lemma_offsets_append(b, end, step_offsets(om, c1, pos), c);
    }
}

/// The state after applying `ops` in order to `m`.
pub open spec fn apply_all(m: Contents, ops: Seq<CommandView>) -> Contents
    decreases ops.len(),
{
    if ops.len() == 0 {
        m
    } else {
        apply(apply_all(m, ops.drop_last()), ops.last())
    }
}

/// Every string read from a field fits a field again.
pub proof fn lemma_field_fits(b: Seq<u8>, pos: int)
    requires
        parse_field(b, pos) is Some,
    ensures
        fits_field(parse_field(b, pos).unwrap().0),
{
    let n = vstd::bytes::spec_u64_from_le_bytes(b.subrange(pos, pos + 8)) as int;
    vstd::utf8::decode_utf8_encode_utf8(b.subrange(pos + 8, pos + 8 + n));
}

/// Every command read from a record can be written as a record again.
pub proof fn lemma_record_fits(b: Seq<u8>, pos: int)
    requires
        parse_record(b, pos) is Some,
    ensures
        fits_record(parse_record(b, pos).unwrap().0),
{
    lemma_field_fits(b, pos + 1);
    if b[pos] == TAG_PUT {
        lemma_field_fits(b, parse_field(b, pos + 1).unwrap().1);
    }
}

/// The part of `m` whose keys occur in `keys`.
pub open spec fn restrict_to(m: Contents, keys: Seq<Seq<char>>) -> Contents {
    Map::new(|k: Seq<char>| keys.contains(k), |k: Seq<char>| m[k])
}

/// Each of `keys` has a value in `m`, and both fit a field.
pub open spec fn keys_fit(keys: Seq<Seq<char>>, m: Contents) -> bool {
    forall|i: int|
        0 <= i < keys.len() ==> m.contains_key(#[trigger] keys[i]) && fits_field(keys[i])
            && fits_field(m[keys[i]])
}

/// A compacted log replays to the values of the keys it was written for.
pub proof fn lemma_live_log_state(keys: Seq<Seq<char>>, m: Contents)
    requires
        keys_fit(keys, m),
    ensures
        log_state(live_log(keys, m)) == Some(restrict_to(m, keys)),
    decreases keys.len(),
{
    if keys.len() == 0 {
        assert(restrict_to(m, keys) =~= Map::empty());
    } else {
        let ks = keys.drop_last();
        let last = keys.last();
        assert forall|i: int| 0 <= i < ks.len() implies m.contains_key(#[trigger] ks[i])
            && fits_field(ks[i]) && fits_field(m[ks[i]]) by {
            assert(ks[i] == keys[i]);
        }
        lemma_live_log_state(ks, m);
        assert(keys[keys.len() - 1] == last);
        lemma_replay_append(live_log(ks, m), 0, Map::empty(), CommandView::Put { key: last, value: m[last] });
        assert forall|k: Seq<char>| keys.contains(k) <==> ks.contains(k) || k == last by {
            if keys.contains(k) {
                let i = choose|i: int| 0 <= i < keys.len() && keys[i] == k;
                if i < ks.len() {
                    assert(ks[i] == k);
                }
            }
            if ks.contains(k) {
                let i = choose|i: int| 0 <= i < ks.len() && ks[i] == k;
                assert(keys[i] == k);
            }
            if k == last {
                assert(keys[keys.len() - 1] == k);
            }
        }
        assert(restrict_to(m, ks).insert(last, m[last]) =~= restrict_to(m, keys));
    }
}

} // verus!
