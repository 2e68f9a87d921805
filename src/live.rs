//! The bytes that the live records of an index take, summed over its keys.
use vstd::prelude::*;
use crate::command::CommandPos;

verus! {

/// The sum of the lengths of the positions in `m`.
pub open spec fn live_bytes(m: Map<Seq<char>, CommandPos>) -> int
    decreases m.dom().len(),
    when m.dom().finite()
{
    if m.dom().len() == 0 {
        0
    } else {
        let k = m.dom().choose();
        m[k].len + live_bytes(m.remove(k))
    }
}

/// The sum of the lengths of the positions of the keys `keys`, in `m`.
pub open spec fn listed_bytes(m: Map<Seq<char>, CommandPos>, keys: Seq<Seq<char>>) -> int
    decreases keys.len(),
{
    if keys.len() == 0 {
        0
    } else {
        listed_bytes(m, keys.drop_last()) + m[keys.last()].len
    }
}

/// Any key can be taken out first.
pub proof fn lemma_live_remove(m: Map<Seq<char>, CommandPos>, k: Seq<char>)
    requires
        m.dom().finite(),
        m.contains_key(k),
    ensures
        live_bytes(m) == m[k].len + live_bytes(m.remove(k)),
        live_bytes(m) >= 0,
    decreases m.dom().len(),
{
    let j = m.dom().choose();
    lemma_live_nonneg(m.remove(k));
    if j != k {
        lemma_live_remove(m.remove(j), k);
        lemma_live_remove(m.remove(k), j);
        assert(m.remove(j).remove(k) =~= m.remove(k).remove(j));
    }
}

pub proof fn lemma_live_nonneg(m: Map<Seq<char>, CommandPos>)
    requires
        m.dom().finite(),
    ensures
        live_bytes(m) >= 0,
    decreases m.dom().len(),
{
    if m.dom().len() > 0 {
        let k = m.dom().choose();
        lemma_live_nonneg(m.remove(k));
    }
}

/// Setting `k` to `p` replaces the length of its old position, if any.
pub proof fn lemma_live_insert(m: Map<Seq<char>, CommandPos>, k: Seq<char>, p: CommandPos)
    requires
        m.dom().finite(),
    ensures
        live_bytes(m.insert(k, p)) == p.len + live_bytes(m) - (if m.contains_key(k) {
            m[k].len as int
        } else {
            0
        }),
{
    lemma_live_remove(m.insert(k, p), k);
    assert(m.insert(k, p).remove(k) =~= m.remove(k));
    if m.contains_key(k) {
        lemma_live_remove(m, k);
    } else {
        assert(m.remove(k) =~= m);
    }
}

/// `listed_bytes` reads `m` only at the listed keys.
proof fn lemma_listed_same(a: Map<Seq<char>, CommandPos>, b: Map<Seq<char>, CommandPos>, keys: Seq<Seq<char>>)
    requires
        forall|j: int| 0 <= j < keys.len() ==> a[#[trigger] keys[j]].len == b[keys[j]].len,
    ensures
        listed_bytes(a, keys) == listed_bytes(b, keys),
    decreases keys.len(),
{
    if keys.len() > 0 {
        lemma_listed_same(a, b, keys.drop_last());
        assert(keys.last() == keys[keys.len() - 1]);
    }
}

/// Summing over a list of the keys, each once, gives `live_bytes`.
pub proof fn lemma_listed_live(m: Map<Seq<char>, CommandPos>, keys: Seq<Seq<char>>)
    requires
        m.dom().finite(),
        keys.no_duplicates(),
        keys.to_set() == m.dom(),
    ensures
        listed_bytes(m, keys) == live_bytes(m),
    decreases keys.len(),
{
    if keys.len() == 0 {
        assert(m.dom() =~= Set::<Seq<char>>::empty());
    } else {
        let k = keys.last();
        let front = keys.drop_last();
        assert(keys.contains(k)) by {
            assert(keys[keys.len() - 1] == k);
        }
        let r = m.remove(k);
        assert(front.to_set() =~= r.dom()) by {
            assert forall|x: Seq<char>| front.contains(x) implies r.dom().contains(x) by {
                let j = choose|j: int| 0 <= j < front.len() && front[j] == x;
                assert(keys[j] == x);
                assert(x != k);
            }
            assert forall|x: Seq<char>| r.dom().contains(x) implies front.contains(x) by {
                assert(keys.contains(x));
                let j = choose|j: int| 0 <= j < keys.len() && keys[j] == x;
                assert(j != keys.len() - 1);
                assert(front[j] == x);
            }
        }
        lemma_listed_live(r, front);
        assert forall|j: int| 0 <= j < front.len() implies m[#[trigger] front[j]].len == r[front[j]].len by {
            assert(front[j] == keys[j]);
            assert(front[j] != k);
        }
        lemma_listed_same(m, r, front);
        lemma_live_remove(m, k);
    }
}

/// Two indexes with the same keys and the same lengths take the same bytes.
pub proof fn lemma_live_same_lens(a: Map<Seq<char>, CommandPos>, b: Map<Seq<char>, CommandPos>)
    requires
        a.dom().finite(),
        a.dom() == b.dom(),
        forall|k: Seq<char>| #[trigger] a.contains_key(k) ==> a[k].len == b[k].len,
    ensures
        live_bytes(a) == live_bytes(b),
    decreases a.dom().len(),
{
    if a.dom().len() > 0 {
        let k = a.dom().choose();
        lemma_live_remove(a, k);
        lemma_live_remove(b, k);
        lemma_live_same_lens(a.remove(k), b.remove(k));
    }
}

/// A prefix of a list sums to no more than the whole list.
pub proof fn lemma_listed_prefix(m: Map<Seq<char>, CommandPos>, keys: Seq<Seq<char>>, n: int)
    requires
        0 <= n <= keys.len(),
    ensures
        listed_bytes(m, keys.take(n)) <= listed_bytes(m, keys),
    decreases keys.len(),
{
    if n < keys.len() {
        let front = keys.drop_last();
        assert(front.take(n) =~= keys.take(n));
        lemma_listed_prefix(m, front, n);
    } else {
        assert(keys.take(n) =~= keys);
    }
}

} // verus!
