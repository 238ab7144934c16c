//! The store's mathematical model: replaying segments in gen order yields a
//! locator map (key to the position and value of its last write) and the
//! count of stale bytes — bytes in the segments that no live locator covers.
//! The in-memory index and the stale-byte counter of the engine are proved
//! equal to this replay at every step.

use vstd::prelude::*;

use crate::records::{
    records_from, log_end, spec_decode, spec_encode_bytes, CommandV, lemma_records_append,
    lemma_records_from_decode,
};

verus! {

/// Where a key's latest `Set` record lies, and what value it carries.
pub struct LocEntry {
    pub gen: u64,
    pub pos: int,
    pub len: int,
    pub value: Seq<char>,
}

/// The state a replay builds: live locators and accounted stale bytes.
pub struct LoadState {
    pub locs: Map<Seq<char>, LocEntry>,
    pub stale: int,
}

pub open spec fn initial_state() -> LoadState {
    LoadState { locs: Map::empty(), stale: 0 }
}

/// One record's effect: a `Set` displaces any previous locator (its bytes go
/// stale); a `Remove` drops the locator and is itself stale from birth.
pub open spec fn apply_record(st: LoadState, gen: u64, pos: int, len: int, c: CommandV) -> LoadState {
    match c {
        CommandV::Put { key, value } => LoadState {
            locs: st.locs.insert(key, LocEntry { gen, pos, len, value }),
            stale: st.stale + if st.locs.contains_key(key) {
                st.locs[key].len
            } else {
                0
            },
        },
        CommandV::Remove { key } => LoadState {
            locs: st.locs.remove(key),
            stale: st.stale + len + if st.locs.contains_key(key) {
                st.locs[key].len
            } else {
                0
            },
        },
    }
}

pub open spec fn replay_records(st: LoadState, gen: u64, rs: Seq<(int, int, CommandV)>) -> LoadState
    decreases rs.len(),
{
    if rs.len() == 0 {
        st
    } else {
        replay_records(apply_record(st, gen, rs[0].0, rs[0].1, rs[0].2), gen, rs.drop_first())
    }
}

pub open spec fn replay_log(st: LoadState, gen: u64, data: Seq<u8>) -> LoadState {
    replay_records(st, gen, records_from(data, 0))
}

/// Replay a directory of segments, in the order given (ascending gens).
pub open spec fn replay_segs(segs: Seq<(u64, Seq<u8>)>) -> LoadState
    decreases segs.len(),
{
    if segs.len() == 0 {
        initial_state()
    } else {
        replay_log(replay_segs(segs.drop_last()), segs.last().0, segs.last().1)
    }
}

/// A locator entry as the index stores it: `(gen, pos, len)`.
pub open spec fn loc_of(e: LocEntry) -> (u64, u64, u64) {
    (e.gen, e.pos as u64, e.len as u64)
}

/// The locator map as the index stores it.
pub open spec fn locs_view(locs: Map<Seq<char>, LocEntry>) -> Map<Seq<char>, (u64, u64, u64)> {
    locs.map_values(|e: LocEntry| loc_of(e))
}

/// The visible key-value mapping of a replay state.
pub open spec fn kv_of(st: LoadState) -> Map<Seq<char>, Seq<char>> {
    st.locs.map_values(|e: LocEntry| e.value)
}

/// The stale counter as a 64-bit register: saturated at the top.
pub open spec fn stale_cap(s: int) -> u64 {
    if s <= u64::MAX {
        s as u64
    } else {
        u64::MAX
    }
}

/// Some segment carries gen `gen` and decodes `c` at `pos..pos+len`.
pub open spec fn seg_has(
    segs: Seq<(u64, Seq<u8>)>,
    gen: u64,
    pos: int,
    len: int,
    c: CommandV,
) -> bool {
    exists|si: int|
        0 <= si < segs.len() && (#[trigger] segs[si]).0 == gen && 0 <= pos && 0 < len && pos + len
            <= segs[si].1.len() && spec_decode(segs[si].1, pos) == Some((c, pos + len))
}

/// Every locator points at a `Set` record of its own key and value.
pub open spec fn locs_valid(segs: Seq<(u64, Seq<u8>)>, locs: Map<Seq<char>, LocEntry>) -> bool {
    forall|k: Seq<char>| #[trigger]
        locs.contains_key(k) ==> seg_has(
            segs,
            locs[k].gen,
            locs[k].pos,
            locs[k].len,
            CommandV::Put { key: k, value: locs[k].value },
        ) && locs[k].len <= u64::MAX && locs[k].pos <= u64::MAX
}

/// A witness for [`seg_has`]: the position of the segment it speaks of.
pub proof fn seg_has_witness(
    segs: Seq<(u64, Seq<u8>)>,
    gen: u64,
    pos: int,
    len: int,
    c: CommandV,
) -> (si: int)
    requires
        seg_has(segs, gen, pos, len, c),
    ensures
        0 <= si < segs.len(),
        segs[si].0 == gen,
        0 <= pos,
        0 < len,
        pos + len <= segs[si].1.len(),
        spec_decode(segs[si].1, pos) == Some((c, pos + len)),
{
    choose|si: int|
        0 <= si < segs.len() && (#[trigger] segs[si]).0 == gen && 0 <= pos && 0 < len && pos + len
            <= segs[si].1.len() && spec_decode(segs[si].1, pos) == Some((c, pos + len))
}

/// Folding one more record equals applying it to the folded state.
pub proof fn lemma_replay_records_snoc(
    st: LoadState,
    gen: u64,
    rs: Seq<(int, int, CommandV)>,
    r: (int, int, CommandV),
)
    ensures
        replay_records(st, gen, rs.push(r)) == apply_record(
            replay_records(st, gen, rs),
            gen,
            r.0,
            r.1,
            r.2,
        ),
    decreases rs.len(),
{
    if rs.len() == 0 {
        assert(rs.push(r)[0] == r);
        assert(rs.push(r).drop_first() =~= Seq::<(int, int, CommandV)>::empty());
        let st1 = apply_record(st, gen, r.0, r.1, r.2);
        assert(replay_records(st, gen, rs) == st);
        assert(replay_records(st1, gen, rs.push(r).drop_first()) == st1);
    } else {
        assert(rs.push(r)[0] == rs[0]);
        assert(rs.push(r).drop_first() =~= rs.drop_first().push(r));
        lemma_replay_records_snoc(
            apply_record(st, gen, rs[0].0, rs[0].1, rs[0].2),
            gen,
            rs.drop_first(),
            r,
        );
    }
}

/// Replaying records of a segment that is in `segs` keeps every locator
/// valid, and never lowers the stale count.
pub proof fn lemma_replay_records_valid(
    segs: Seq<(u64, Seq<u8>)>,
    st: LoadState,
    gen: u64,
    data: Seq<u8>,
    rs: Seq<(int, int, CommandV)>,
)
    requires
        locs_valid(segs, st.locs),
        st.stale >= 0,
        segs.contains((gen, data)),
        data.len() <= u64::MAX,
        forall|n: int|
            0 <= n < rs.len() ==> {
                let (pos, len, c) = #[trigger] rs[n];
                &&& 0 <= pos
                &&& 0 < len
                &&& pos + len <= data.len()
                &&& spec_decode(data, pos) == Some((c, pos + len))
            },
    ensures
        locs_valid(segs, replay_records(st, gen, rs).locs),
        replay_records(st, gen, rs).stale >= st.stale,
    decreases rs.len(),
{
    if rs.len() > 0 {
        let (pos, len, c) = rs[0];
        let st1 = apply_record(st, gen, pos, len, c);
        let si = choose|si: int| 0 <= si < segs.len() && segs[si] == (gen, data);
        assert(segs[si].0 == gen && segs[si].1 == data);
        assert(locs_valid(segs, st1.locs) && st1.stale >= st.stale) by {
            match c {
                CommandV::Put { key, value } => {
                    assert(seg_has(segs, gen, pos, len, CommandV::Put { key, value }));
                    assert(forall|k: Seq<char>| #[trigger]
                        st1.locs.contains_key(k) && k != key ==> st.locs.contains_key(k)
                            && st1.locs[k] == st.locs[k]);
                },
                CommandV::Remove { key } => {
                    assert(forall|k: Seq<char>| #[trigger]
                        st1.locs.contains_key(k) ==> st.locs.contains_key(k) && st1.locs[k]
                            == st.locs[k]);
                },
            }
        };
        assert(forall|n: int|
            0 <= n < rs.drop_first().len() ==> rs.drop_first()[n] == rs[n + 1]);
        lemma_replay_records_valid(segs, st1, gen, data, rs.drop_first());
    }
}

/// The replay of any directory has only valid locators and a non-negative
/// stale count.
pub proof fn lemma_replay_segs_valid(segs: Seq<(u64, Seq<u8>)>)
    requires
        forall|si: int| 0 <= si < segs.len() ==> (#[trigger] segs[si]).1.len() <= u64::MAX,
    ensures
        locs_valid(segs, replay_segs(segs).locs),
        replay_segs(segs).stale >= 0,
    decreases segs.len(),
{
    if segs.len() > 0 {
        let pre = segs.drop_last();
        let (gen, data) = segs.last();
        assert(forall|si: int| 0 <= si < pre.len() ==> pre[si] == segs[si]);
        lemma_replay_segs_valid(pre);
        let st = replay_segs(pre);
        assert(locs_valid(segs, st.locs)) by {
            assert forall|k: Seq<char>| #[trigger] st.locs.contains_key(k) implies seg_has(
                segs,
                st.locs[k].gen,
                st.locs[k].pos,
                st.locs[k].len,
                CommandV::Put { key: k, value: st.locs[k].value },
            ) by {
                let si = choose|si: int|
                    0 <= si < pre.len() && (#[trigger] pre[si]).0 == st.locs[k].gen && 0
                        <= st.locs[k].pos && 0 < st.locs[k].len && st.locs[k].pos + st.locs[k].len
                        <= pre[si].1.len() && spec_decode(pre[si].1, st.locs[k].pos) == Some(
                        (
                            CommandV::Put { key: k, value: st.locs[k].value },
                            st.locs[k].pos + st.locs[k].len,
                        ),
                    );
                assert(segs[si] == pre[si]);
            };
        };
        lemma_records_from_decode(data, 0);
        assert(segs[segs.len() - 1] == (gen, data));
        assert(segs.contains((gen, data)));
        lemma_replay_records_valid(segs, st, gen, data, records_from(data, 0));
    }
}

/// Unfolding the replay of one more segment.
pub proof fn lemma_replay_segs_push(segs: Seq<(u64, Seq<u8>)>, s: (u64, Seq<u8>))
    ensures
        replay_segs(segs.push(s)) == replay_log(replay_segs(segs), s.0, s.1),
{
    assert(segs.push(s).drop_last() =~= segs);
    assert(segs.push(s).last() == s);
}

/// Appending one record's encoding to a fully decodable log applies exactly
/// that record to the log's replay.
pub proof fn lemma_replay_log_append(st: LoadState, gen: u64, d: Seq<u8>, c: CommandV)
    requires
        log_end(d, 0) == d.len(),
    ensures
        replay_log(st, gen, d + spec_encode_bytes(c)) == apply_record(
            replay_log(st, gen, d),
            gen,
            d.len() as int,
            spec_encode_bytes(c).len() as int,
            c,
        ),
        log_end(d + spec_encode_bytes(c), 0) == d.len() + spec_encode_bytes(c).len(),
{
    let entry = (d.len() as int, spec_encode_bytes(c).len() as int, c);
    lemma_records_append(d, c, 0);
    lemma_replay_records_snoc(st, gen, records_from(d, 0), entry);
    assert(records_from(d, 0) + seq![entry] =~= records_from(d, 0).push(entry));
}

/// The total byte length of the live records a locator map names.
pub open spec fn sum_locs(locs: Map<Seq<char>, LocEntry>) -> int
    decreases locs.dom().len(),
    when locs.dom().finite()
{
    if !locs.dom().finite() || locs.dom().len() == 0 {
        0
    } else {
        let k = locs.dom().choose();
        locs[k].len + sum_locs(locs.remove(k))
    }
}

/// Taking one key out of the sum leaves the sum of the rest.
pub proof fn lemma_sum_locs_remove(locs: Map<Seq<char>, LocEntry>, k: Seq<char>)
    requires
        locs.dom().finite(),
        locs.contains_key(k),
    ensures
        sum_locs(locs) == sum_locs(locs.remove(k)) + locs[k].len,
    decreases locs.dom().len(),
{
    broadcast use vstd::set::axiom_set_choose_len;
    broadcast use vstd::set::axiom_set_contains_len;

    let c = locs.dom().choose();
    assert(locs.dom().len() != 0);
    assert(locs.contains_key(c));
    if c == k {
    } else {
        lemma_sum_locs_remove(locs.remove(c), k);
        lemma_sum_locs_remove(locs.remove(k), c);
        assert(locs.remove(c).remove(k) =~= locs.remove(k).remove(c));
        assert(locs.remove(c)[k] == locs[k]);
        assert(locs.remove(k)[c] == locs[c]);
        // sum(locs) unfolds at its own choice `c`; both removals commute
        assert(sum_locs(locs) == locs[c].len + sum_locs(locs.remove(c)));
    }
}

/// Inserting a fresh key adds its length to the sum.
pub proof fn lemma_sum_locs_insert_fresh(locs: Map<Seq<char>, LocEntry>, k: Seq<char>, e: LocEntry)
    requires
        locs.dom().finite(),
        !locs.contains_key(k),
    ensures
        sum_locs(locs.insert(k, e)) == sum_locs(locs) + e.len,
{
    lemma_sum_locs_remove(locs.insert(k, e), k);
    assert(locs.insert(k, e).remove(k) =~= locs);
}

} // verus!
