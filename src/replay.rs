//! Rebuilding the index from the log: each segment is decoded record by record
//! and each command applied as `set` and `remove` apply it.
use vstd::prelude::*;
use vstd::string::*;
use crate::codec::{decode_command, lemma_parse_record, lemma_parse_record_sound, lemma_record_len, lit_at, parse_record, record};
use crate::command::{Command, CommandModel, CommandPos};
use crate::engine::{apply, lemma_records_push, records, replay, saturating_sum};
use crate::error::KvsError;
use crate::live::{lemma_live_insert, lemma_live_remove, live_bytes};
use crate::index::{index_get, index_insert, index_map, index_remove, Index};

verus! {

/// The commands of a segment from `p` on, or `None` where its bytes do not
/// decode as records laid back to back.
pub open spec fn parse_segment(b: Seq<u8>, p: int) -> Option<Seq<CommandModel>>
    decreases b.len() - p,
{
    if p < 0 || p > b.len() {
        None
    } else if p == b.len() {
        Some(seq![])
    } else {
        match parse_record(b, p) {
            Some((c, e)) => if p < e <= b.len() {
                match parse_segment(b, e) {
                    Some(rest) => Some(seq![c] + rest),
                    None => None,
                }
            } else {
                None
            },
            None => None,
        }
    }
}

/// The key-value map after the commands `cs`, starting from `m`.
pub open spec fn replay_onto(m: Map<Seq<char>, Seq<char>>, cs: Seq<CommandModel>) -> Map<Seq<char>, Seq<char>>
    decreases cs.len(),
{
    if cs.len() == 0 {
        m
    } else {
        apply(replay_onto(m, cs.drop_last()), cs.last())
    }
}

/// The index and the count of stale bytes after one more record, at `pos` of
/// segment `gen`: what `set` and `remove` would leave, where a tombstone of a
/// key that is not there only counts as stale.
pub open spec fn load_step(
    st: (Map<Seq<char>, CommandPos>, int),
    gen: u64,
    c: CommandModel,
    pos: int,
) -> (Map<Seq<char>, CommandPos>, int) {
    let len = record(c).len();
    let m = st.0;
    let prev = if m.contains_key(c.key()) {
        m[c.key()].len as int
    } else {
        0
    };
    match c {
        CommandModel::Put { key, .. } => (
            m.insert(key, CommandPos { gen, pos: pos as u64, len: len as u64 }),
            saturating_sum(st.1, prev),
        ),
        CommandModel::Remove { key } => (m.remove(key), saturating_sum(saturating_sum(st.1, prev), len as int)),
    }
}

/// `load_step` over the commands of one segment, in order.
pub open spec fn load_segment(
    st: (Map<Seq<char>, CommandPos>, int),
    gen: u64,
    cs: Seq<CommandModel>,
) -> (Map<Seq<char>, CommandPos>, int)
    decreases cs.len(),
{
    if cs.len() == 0 {
        st
    } else {
        load_step(load_segment(st, gen, cs.drop_last()), gen, cs.last(), records(cs.drop_last()).len() as int)
    }
}

/// Every entry of `index` points at the record that sets its key to its value
/// in `contents`, in the segments `segments`.
pub open spec fn index_ok(
    index: Map<Seq<char>, CommandPos>,
    contents: Map<Seq<char>, Seq<char>>,
    segments: Map<u64, Seq<CommandModel>>,
) -> bool {
    &&& index.dom() == contents.dom()
    &&& forall|k: Seq<char>| #[trigger]
        index.contains_key(k) ==> {
            let p = index[k];
            &&& segments.contains_key(p.gen)
            &&& p.end() <= records(segments[p.gen]).len()
            &&& records(segments[p.gen]).subrange(p.pos as int, p.end()) == record(
                CommandModel::Put { key: k, value: contents[k] },
            )
        }
}

/// The commands of the segment listed at `i`.
pub open spec fn parsed(segs: Seq<(u64, Vec<u8>)>, i: int) -> Seq<CommandModel> {
    parse_segment(segs[i].1@, 0)->0
}

/// Every listed segment decodes.
pub open spec fn all_parse(segs: Seq<(u64, Vec<u8>)>) -> bool {
    forall|i: int| 0 <= i < segs.len() ==> (#[trigger] parse_segment(segs[i].1@, 0)) is Some
}

/// The commands of the listed segments, one segment after the other.
pub open spec fn loaded_history(segs: Seq<(u64, Vec<u8>)>) -> Seq<CommandModel>
    decreases segs.len(),
{
    if segs.len() == 0 {
        seq![]
    } else {
        loaded_history(segs.drop_last()) + parsed(segs, segs.len() - 1)
    }
}

/// The listed segments' commands, by generation.
pub open spec fn loaded_segments(segs: Seq<(u64, Vec<u8>)>) -> Map<u64, Seq<CommandModel>>
    decreases segs.len(),
{
    if segs.len() == 0 {
        Map::empty()
    } else {
        loaded_segments(segs.drop_last()).insert(segs.last().0, parsed(segs, segs.len() - 1))
    }
}

/// The index and the stale bytes after loading the listed segments in order.
pub open spec fn load_all(segs: Seq<(u64, Vec<u8>)>) -> (Map<Seq<char>, CommandPos>, int)
    decreases segs.len(),
{
    if segs.len() == 0 {
        (Map::empty(), 0)
    } else {
        let st = load_all(segs.drop_last());
        let r = load_segment((st.0, 0), segs.last().0, parsed(segs, segs.len() - 1));
        (r.0, saturating_sum(st.1, r.1))
    }
}

pub proof fn lemma_replay_onto(a: Seq<CommandModel>, b: Seq<CommandModel>)
    ensures
        replay_onto(replay(a), b) == replay(a + b),
    decreases b.len(),
{
    if b.len() == 0 {
        assert(a + b =~= a);
    } else {
        lemma_replay_onto(a, b.drop_last());
        assert((a + b).drop_last() =~= a + b.drop_last());
    }
}

pub proof fn lemma_records_front(cs: Seq<CommandModel>)
    requires
        cs.len() > 0,
    ensures
        records(cs) == record(cs[0]) + records(cs.drop_first()),
    decreases cs.len(),
{
    if cs.len() == 1 {
        assert(cs.drop_last() =~= Seq::<CommandModel>::empty());
        assert(cs.drop_first() =~= Seq::<CommandModel>::empty());
        assert(records(cs.drop_last()) == Seq::<u8>::empty());
        assert(cs.last() == cs[0]);
        assert(records(cs) =~= record(cs[0]));
    } else {
        let front = cs.drop_last();
        lemma_records_front(front);
        assert(front.drop_first() =~= cs.drop_first().drop_last());
        assert(cs.drop_first().last() == cs.last());
        assert(records(cs) =~= record(cs[0]) + records(cs.drop_first()));
    }
}

/// The bytes of a segment decode back to its commands.
pub proof fn lemma_parse_segment(b: Seq<u8>, p: int, cs: Seq<CommandModel>)
    requires
        0 <= p <= b.len(),
        b.subrange(p, b.len() as int) == records(cs),
    ensures
        parse_segment(b, p) == Some(cs),
    decreases cs.len(),
{
    if cs.len() == 0 {
        assert(b.subrange(p, b.len() as int).len() == 0);
    } else {
        let c = cs[0];
        let rest = cs.drop_first();
        lemma_records_front(cs);
        lemma_record_len(c);
        let e = p + record(c).len();
        let rc = record(c);
        let rr = records(rest);
        let w = b.subrange(p, b.len() as int);
        assert(w == rc + rr);
        assert(w.subrange(0, rc.len() as int) =~= rc);
        assert(b.subrange(p, e) =~= w.subrange(0, rc.len() as int));
        assert(lit_at(b, p, rc));
        lemma_parse_record(b, p, c);
        assert(w.subrange(rc.len() as int, w.len() as int) =~= rr);
        assert(b.subrange(e, b.len() as int) =~= w.subrange(rc.len() as int, w.len() as int));
        lemma_parse_segment(b, e, rest);
        assert(seq![c] + rest =~= cs);
    }
}

/// Decodes the segment `gen` and applies its commands to `index`, as `set` and
/// `remove` would. Returns the bytes that the segment's stale records hold.
pub(crate) fn load_cmd(
    gen: u64,
    bytes: &[u8],
    index: &mut Index,
    Ghost(contents): Ghost<Map<Seq<char>, Seq<char>>>,
    Ghost(segments): Ghost<Map<u64, Seq<CommandModel>>>,
) -> (r: Result<u64, KvsError>)
    requires
        index_ok(index_map(*old(index)), contents, segments),
        index_map(*old(index)).dom().finite(),
        !segments.contains_key(gen),
    ensures
        r is Ok <==> parse_segment(bytes@, 0) is Some,
        r is Err ==> r->Err_0 is Serde,
        r is Ok ==> ({
            let cs = parse_segment(bytes@, 0)->0;
            &&& records(cs) == bytes@
            &&& (index_map(*final(index)), r->Ok_0 as int) == load_segment((index_map(*old(index)), 0), gen, cs)
            &&& index_ok(index_map(*final(index)), replay_onto(contents, cs), segments.insert(gen, cs))
            &&& index_map(*final(index)).dom().finite()
            &&& live_bytes(index_map(*final(index))) <= live_bytes(index_map(*old(index))) + bytes@.len()
            &&& r->Ok_0 == saturating_sum(
                0,
                live_bytes(index_map(*old(index))) + bytes@.len() - live_bytes(index_map(*final(index))),
            )
        }),
{
    let mut p: usize = 0;
    let mut stale: u64 = 0;
    let ghost mut done: Seq<CommandModel> = seq![];
    let ghost mut exact: int = 0;
    let ghost m0 = index_map(*index);
    proof {
        assert(records(done) =~= bytes@.subrange(0, 0));
        assert(segments.insert(gen, done).contains_key(gen));
        assert forall|k: Seq<char>| #[trigger] index_map(*index).contains_key(k) implies index_map(*index)[k].gen != gen by {}
        assert(index_ok(index_map(*index), replay_onto(contents, done), segments.insert(gen, done))) by {
            assert forall|k: Seq<char>| #[trigger] index_map(*index).contains_key(k) implies segments.insert(gen, done)[index_map(*index)[k].gen] == segments[index_map(*index)[k].gen] by {}
        }
        assert(done + parse_segment(bytes@, 0)->0 =~= parse_segment(bytes@, 0)->0);
    }
    while p < bytes.len()
        invariant
            p <= bytes@.len(),
            records(done) == bytes@.subrange(0, p as int),
            parse_segment(bytes@, 0) is Some <==> parse_segment(bytes@, p as int) is Some,
            parse_segment(bytes@, p as int) is Some ==> parse_segment(bytes@, 0)->0 == done + parse_segment(bytes@, p as int)->0,
            (index_map(*index), stale as int) == load_segment((m0, 0), gen, done),
            index_ok(index_map(*index), replay_onto(contents, done), segments.insert(gen, done)),
            !segments.contains_key(gen),
            index_map(*index).dom().finite(),
            exact >= 0,
            live_bytes(index_map(*index)) + exact == live_bytes(m0) + p,
            stale == saturating_sum(0, exact),
        decreases bytes@.len() - p,
    {
        match decode_command(bytes, p) {
            None => {
                return Err(KvsError::Serde(String::from_str("malformed log record")));
            },
            Some((cmd, e)) => {
                let ghost c = cmd@;
                let ghost before = index_map(*index);
                let ghost prev_done = done;
                let ghost prev_contents = replay_onto(contents, done);
                proof {
                    lemma_parse_record_sound(bytes@, p as int);
                    lemma_record_len(c);
                    lemma_records_push(done, c);
                    done = done.push(c);
                    assert(done.drop_last() =~= prev_done);
                    assert(records(done) =~= bytes@.subrange(0, e as int));
                    if parse_segment(bytes@, e as int) is Some {
                        assert(prev_done + (seq![c] + parse_segment(bytes@, e as int)->0) =~= done
                            + parse_segment(bytes@, e as int)->0);
                    }
                }
                let len = (e - p) as u64;
                match cmd {
                    Command::Put { key, value } => {
                        let prev = index_get(index, &key);
                        proof {
                            lemma_live_insert(before, key@, CommandPos { gen, pos: p as u64, len });
                            exact = exact + (if before.contains_key(key@) { before[key@].len as int } else { 0 });
                        }
                        index_insert(index, key, CommandPos { gen, pos: p as u64, len });
                        stale = stale.saturating_add(
                            match prev {
                                Some(q) => q.len,
                                None => 0,
                            },
                        );
                    },
                    Command::Remove { key } => {
                        let prev = index_remove(index, &key);
                        proof {
                            if before.contains_key(key@) {
                                lemma_live_remove(before, key@);
                            } else {
                                assert(before.remove(key@) =~= before);
                            }
                            exact = exact + (if before.contains_key(key@) { before[key@].len as int } else { 0 }) + len;
                        }
                        stale = stale.saturating_add(
                            match prev {
                                Some(q) => q.len,
                                None => 0,
                            },
                        ).saturating_add(len);
                    },
                }
                proof {
                    let segs = segments.insert(gen, done);
                    let old_segs = segments.insert(gen, prev_done);
                    let now = replay_onto(contents, done);
                    assert(index_map(*index).dom() =~= now.dom());
                    assert forall|k: Seq<char>| #[trigger] index_map(*index).contains_key(k) implies {
                        let q = index_map(*index)[k];
                        &&& segs.contains_key(q.gen)
                        &&& q.end() <= records(segs[q.gen]).len()
                        &&& records(segs[q.gen]).subrange(q.pos as int, q.end()) == record(
                            CommandModel::Put { key: k, value: now[k] },
                        )
                    } by {
                        let q = index_map(*index)[k];
                        if k == c.key() {
                            assert(records(segs[gen]).subrange(p as int, e as int) =~= bytes@.subrange(p as int, e as int));
                        } else {
                            assert(before.contains_key(k));
                            assert(before[k] == q);
                            assert(now[k] == prev_contents[k]);
                            if q.gen == gen {
                                assert(records(segs[gen]).subrange(q.pos as int, q.end()) =~= records(
                                    old_segs[gen],
                                ).subrange(q.pos as int, q.end()));
                            } else {
                                assert(segs[q.gen] == old_segs[q.gen]);
                            }
                        }
                    }
                }
                p = e;
            },
        }
    }
    proof {
        assert(bytes@.subrange(0, p as int) =~= bytes@);
        assert(done + seq![] =~= done);
    }
    Ok(stale)
}

} // verus!
