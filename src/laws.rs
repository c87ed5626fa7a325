//! Properties that hold across calls of the store, stated over the models
//! that the operations' contracts use.

use vstd::prelude::*;
use crate::codec::{fits_field, fits_record, parse_record, record_bytes, CommandView};
use crate::log::{
    apply, apply_all, keys_fit, lemma_live_log_state, lemma_record_extend, lemma_record_round_trip,
    lemma_replay_append, live_log, log_state, lookup, put_bytes, restrict_to, Contents,
};

verus! {

/// Reading a key right after setting it gives the value that was set.
pub proof fn law_set_then_get(m: Contents, k: Seq<char>, v: Seq<char>)
    ensures
        lookup(m.insert(k, v), k) == Some(v),
{
}

/// Setting a key twice leaves the second value visible, and both writes in
/// the log: each makes it strictly longer, and each record stays readable
/// where it was written.
pub proof fn law_overwrite(log: Seq<u8>, k: Seq<char>, v1: Seq<char>, v2: Seq<char>)
    requires
        log_state(log) is Some,
        fits_field(k),
        fits_field(v1),
        fits_field(v2),
    ensures
        ({
            let l1 = log + put_bytes(k, v1);
            let l2 = l1 + put_bytes(k, v2);
            &&& log.len() < l1.len() < l2.len()
            &&& parse_record(l2, log.len() as int) == Some(
                (CommandView::Put { key: k, value: v1 }, l1.len() as int),
            )
            &&& parse_record(l2, l1.len() as int) == Some(
                (CommandView::Put { key: k, value: v2 }, l2.len() as int),
            )
            &&& lookup(log_state(l2).unwrap(), k) == Some(v2)
        }),
{
    let c1 = CommandView::Put { key: k, value: v1 };
    let c2 = CommandView::Put { key: k, value: v2 };
    let l1 = log + put_bytes(k, v1);
    let l2 = l1 + put_bytes(k, v2);
    lemma_record_round_trip(log, c1, Seq::empty());
    assert(log + put_bytes(k, v1) + Seq::empty() =~= l1);
    lemma_record_extend(l1, put_bytes(k, v2), log.len() as int);
    lemma_record_round_trip(l1, c2, Seq::empty());
    assert(l1 + put_bytes(k, v2) + Seq::empty() =~= l2);
    lemma_replay_append(log, 0, Map::empty(), c1);
    lemma_replay_append(l1, 0, Map::empty(), c2);
}

/// After a key is set and then removed, reading it finds nothing, and a
/// second removal finds no value to remove.
pub proof fn law_delete(m: Contents, k: Seq<char>, v: Seq<char>)
    ensures
        lookup(m.insert(k, v).remove(k), k) is None,
        !m.insert(k, v).remove(k).contains_key(k),
{
}

/// A fresh store, over an empty log, holds no key: removing any key fails.
pub proof fn law_fresh_store_is_empty(k: Seq<char>)
    ensures
        log_state(Seq::empty()) == Some(Map::<Seq<char>, Seq<char>>::empty()),
        !log_state(Seq::empty()).unwrap().contains_key(k),
{
}

/// Appending a record to a well-formed log moves the state that the log
/// replays to exactly as the command moves the store: reopening after any
/// sequence of writes sees what the store saw.
pub proof fn law_replay_after_append(log: Seq<u8>, m: Contents, c: CommandView)
    requires
        log_state(log) == Some(m),
        fits_record(c),
    ensures
        log_state(log + record_bytes(c)) == Some(apply(m, c)),
{
    lemma_replay_append(log, 0, Map::empty(), c);
}

/// A compacted log, written for the live keys of a state, replays to that
/// same state.
pub proof fn law_compaction_preserves_state(keys: Seq<Seq<char>>, m: Contents)
    requires
        keys_fit(keys, m),
        forall|k: Seq<char>| #[trigger] m.contains_key(k) ==> keys.contains(k),
    ensures
        log_state(live_log(keys, m)) == Some(m),
{
    lemma_live_log_state(keys, m);
    assert forall|k: Seq<char>| keys.contains(k) implies m.contains_key(k) by {
        let i = choose|i: int| 0 <= i < keys.len() && keys[i] == k;
    }
    assert(restrict_to(m, keys) =~= m);
}

/// After any sequence of writes, compactions among them or not, a key whose
/// last write was a `Put` of `v` reads as `v`: each `set` and `remove` moves
/// the visible state by its command alone, and compaction leaves it as it is.
pub proof fn law_latest_write_wins(
    m: Contents,
    ops: Seq<CommandView>,
    i: int,
    k: Seq<char>,
    v: Seq<char>,
)
    requires
        0 <= i < ops.len(),
        ops[i] == (CommandView::Put { key: k, value: v }),
        forall|j: int| i < j < ops.len() ==> (#[trigger] ops[j]).key() != k,
    ensures
        lookup(apply_all(m, ops), k) == Some(v),
    decreases ops.len(),
{
    if i < ops.len() - 1 {
        let rest = ops.drop_last();
        assert forall|j: int| i < j < rest.len() implies (#[trigger] rest[j]).key() != k by {
            assert(rest[j] == ops[j]);
        }
        assert(rest[i] == ops[i]);
        law_latest_write_wins(m, rest, i, k, v);
        assert(ops.last() == ops[ops.len() - 1]);
    }
}

/// After any sequence of writes, a key whose last write was a `Remove` reads
/// as absent.
pub proof fn law_latest_remove_wins(m: Contents, ops: Seq<CommandView>, i: int, k: Seq<char>)
    requires
        0 <= i < ops.len(),
        ops[i] == (CommandView::Remove { key: k }),
        forall|j: int| i < j < ops.len() ==> (#[trigger] ops[j]).key() != k,
    ensures
        lookup(apply_all(m, ops), k) is None,
    decreases ops.len(),
{
    if i < ops.len() - 1 {
        let rest = ops.drop_last();
        assert forall|j: int| i < j < rest.len() implies (#[trigger] rest[j]).key() != k by {
            assert(rest[j] == ops[j]);
        }
        assert(rest[i] == ops[i]);
        law_latest_remove_wins(m, rest, i, k);
        assert(ops.last() == ops[ops.len() - 1]);
    }
}

} // verus!
