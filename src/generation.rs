//! Segment generations: reading them out of file names, listing them in
//! order, and telling which are stale after a compaction.
use vstd::prelude::*;
use vstd::utf8::*;

verus! {

pub open spec fn is_digit(c: u8) -> bool {
    48 <= c <= 57
}

/// The number that the decimal digits `s` write.
pub open spec fn decimal_value(s: Seq<u8>) -> int
    decreases s.len(),
{
    if s.len() == 0 {
        0
    } else {
        decimal_value(s.drop_last()) * 10 + (s.last() - 48)
    }
}

pub open spec fn ends_with_ext(b: Seq<u8>) -> bool {
    b.len() >= 2 && b[b.len() - 2] == 46 && b[b.len() - 1] == 120
}

/// The name without all of its trailing `.x`.
pub open spec fn strip_ext(b: Seq<u8>) -> Seq<u8>
    decreases b.len(),
{
    if ends_with_ext(b) {
        strip_ext(b.subrange(0, b.len() - 2))
    } else {
        b
    }
}

pub open spec fn all_digits(d: Seq<u8>) -> bool {
    forall|i: int| 0 <= i < d.len() ==> is_digit(#[trigger] d[i])
}

/// The value of the decimal digits `d`, if there is at least one, nothing
/// else, and the number fits in a `u64`.
pub open spec fn digits_value(d: Seq<u8>) -> Option<u64> {
    if d.len() > 0 && all_digits(d) && decimal_value(d) <= u64::MAX {
        Some(decimal_value(d) as u64)
    } else {
        None
    }
}

/// The value of an unsigned decimal with an optional leading `+`.
pub open spec fn number_of(t: Seq<u8>) -> Option<u64> {
    if t.len() > 0 && t[0] == 43 {
        digits_value(t.drop_first())
    } else {
        digits_value(t)
    }
}

/// The generation that a segment's file name gives: the name ends in `.x`,
/// and what is left when the trailing `.x` are gone is its number.
pub open spec fn generation_of(name: Seq<char>) -> Option<u64> {
    let b = encode_utf8(name);
    if ends_with_ext(b) {
        number_of(strip_ext(b))
    } else {
        None
    }
}

pub open spec fn strictly_ascending(v: Seq<u64>) -> bool {
    forall|i: int, j: int| 0 <= i < j < v.len() ==> v[i] < v[j]
}

proof fn lemma_decimal_prefix(s: Seq<u8>, i: int)
    requires
        0 <= i <= s.len(),
        forall|j: int| 0 <= j < s.len() ==> is_digit(#[trigger] s[j]),
    ensures
        decimal_value(s) >= decimal_value(s.take(i)) >= 0,
    decreases s.len(),
{
    if s.len() > 0 {
        let f = s.drop_last();
        if i < s.len() {
            assert(f.take(i) =~= s.take(i));
            lemma_decimal_prefix(f, i);
        } else {
            assert(s.take(i) =~= s);
            lemma_decimal_prefix(f, 0);
        }
    } else {
        assert(s.take(i) =~= s);
    }
}

/// The number that the digits `d[from..]` write, or `None` if one is no
/// digit, there is none, or the number does not fit in a `u64`.
fn parse_digits(d: &[u8], from: usize) -> (r: Option<u64>)
    requires
        from <= d@.len(),
    ensures
        r == digits_value(d@.subrange(from as int, d@.len() as int)),
{
    let ghost t = d@.subrange(from as int, d@.len() as int);
    if from == d.len() {
        return None;
    }
    let mut v: u64 = 0;
    let mut i: usize = from;
    while i < d.len()
        invariant
            from <= i <= d@.len(),
            t == d@.subrange(from as int, d@.len() as int),
            forall|j: int| 0 <= j < i - from ==> is_digit(#[trigger] t[j]),
            v == decimal_value(t.take(i - from)),
        decreases d@.len() - i,
    {
        let c = d[i];
        if c < 48 || c > 57 {
            assert(!is_digit(t[i - from]));
            return None;
        }
        let ghost k = i - from;
        assert(t.take(k + 1).drop_last() =~= t.take(k));
        if v > (u64::MAX - (c - 48) as u64) / 10 {
            proof {
                assert(decimal_value(t.take(k + 1)) > u64::MAX);
                if all_digits(t) {
                    lemma_decimal_prefix(t, k + 1);
                }
            }
            return None;
        }
        v = v * 10 + (c - 48) as u64;
        i = i + 1;
    }
    assert(t.take(t.len() as int) =~= t);
    Some(v)
}

/// The generation of a segment file, read out of its name: `Some(7)` for
/// `7.x`, and `None` where the name is no segment's.
pub fn parse_generation(name: &str) -> (r: Option<u64>)
    ensures
        r == generation_of(name@),
{
    let b = name.as_bytes();
    let mut n: usize = b.len();
    if !(n >= 2 && b[n - 2] == 46 && b[n - 1] == 120) {
        return None;
    }
    assert(b@.subrange(0, n as int) =~= b@);
    while n >= 2 && b[n - 2] == 46 && b[n - 1] == 120
        invariant
            n <= b@.len(),
            strip_ext(b@) == strip_ext(b@.subrange(0, n as int)),
        decreases n,
    {
        assert(b@.subrange(0, n as int).subrange(0, n - 2) =~= b@.subrange(0, n - 2));
        n = n - 2;
    }
    let ghost s = b@.subrange(0, n as int);
    assert(strip_ext(s) == s);
    let from: usize = if n > 0 && b[0] == 43 { 1 } else { 0 };
    let head = b.split_at(n).0;
    assert(head@ == s);
    let r = parse_digits(head, from);
    proof {
        assert(b@ == encode_utf8(name@));
        assert(ends_with_ext(b@));
        if n > 0 {
            assert(s[0] == b@[0]);
        }
        let t = s.subrange(from as int, s.len() as int);
        if from == 1 {
            assert(s.drop_first() =~= t);
        } else {
            assert(s =~= t);
        }
    }
    r
}

/// Inserts `g` into a strictly ascending list, where it is not there yet.
fn insert_sorted(v: &mut Vec<u64>, g: u64)
    requires
        strictly_ascending(old(v)@),
    ensures
        strictly_ascending(final(v)@),
        forall|x: u64| final(v)@.contains(x) <==> (old(v)@.contains(x) || x == g),
{
    let mut i: usize = 0;
    while i < v.len() && v[i] < g
        invariant
            0 <= i <= v@.len(),
            v@ == old(v)@,
            forall|j: int| 0 <= j < i ==> v@[j] < g,
        decreases v@.len() - i,
    {
        i = i + 1;
    }
    if i < v.len() && v[i] == g {
        assert forall|x: u64| v@.contains(x) <==> (old(v)@.contains(x) || x == g) by {
            assert(v@[i as int] == g);
        }
        return;
    }
    let ghost before = v@;
    assert(before == old(v)@);
    v.insert(i, g);
    assert(v@ == before.insert(i as int, g));
    assert forall|x: u64| #[trigger] v@.contains(x) <==> (before.contains(x) || x == g) by {
        if v@.contains(x) {
            let j = choose|j: int| 0 <= j < v@.len() && v@[j] == x;
            if j < i {
                assert(before[j] == x);
            } else if j > i {
                assert(before[j - 1] == x);
            }
        }
        if before.contains(x) {
            let j = choose|j: int| 0 <= j < before.len() && before[j] == x;
            if j < i {
                assert(v@[j] == x);
            } else {
                assert(v@[j + 1] == x);
            }
        }
        if x == g {
            assert(v@[i as int] == g);
        }
    }
}

/// The generations of the segment files among `names`, each once, in
/// ascending order.
pub fn sorted_gen_list(names: &Vec<String>) -> (r: Vec<u64>)
    ensures
        strictly_ascending(r@),
        forall|g: u64|
            r@.contains(g) <==> exists|i: int| 0 <= i < names@.len() && generation_of(#[trigger] names@[i]@) == Some(g),
{
    let mut out: Vec<u64> = Vec::new();
    let mut i: usize = 0;
    while i < names.len()
        invariant
            0 <= i <= names@.len(),
            strictly_ascending(out@),
            forall|g: u64|
                out@.contains(g) <==> exists|j: int| 0 <= j < i && generation_of(#[trigger] names@[j]@) == Some(g),
        decreases names@.len() - i,
    {
        match parse_generation(names[i].as_str()) {
            Some(g) => {
                insert_sorted(&mut out, g);
            },
            None => {},
        }
        i = i + 1;
        assert forall|g: u64| out@.contains(g) <==> exists|j: int| 0 <= j < i && generation_of(#[trigger] names@[j]@) == Some(g) by {
            if exists|j: int| 0 <= j < i && generation_of(#[trigger] names@[j]@) == Some(g) {
                let j = choose|j: int| 0 <= j < i && generation_of(#[trigger] names@[j]@) == Some(g);
                if j < i - 1 {
                    assert(exists|j: int| 0 <= j < i - 1 && generation_of(#[trigger] names@[j]@) == Some(g));
                }
            }
        }
    }
    out
}

/// The generations among `gens` below `safe_point`, in their order: the
/// segments that a compaction left stale, or the stale handles of a reader.
pub fn stale_generations(gens: &Vec<u64>, safe_point: u64) -> (r: Vec<u64>)
    ensures
        r@ == gens@.filter(|g: u64| g < safe_point),
{
    let mut out: Vec<u64> = Vec::new();
    let mut i: usize = 0;
    while i < gens.len()
        invariant
            0 <= i <= gens@.len(),
            out@ == gens@.take(i as int).filter(|g: u64| g < safe_point),
        decreases gens@.len() - i,
    {
        let g = gens[i];
        proof {
            reveal(Seq::filter);
            assert(gens@.take(i + 1).drop_last() =~= gens@.take(i as int));
        }
        if g < safe_point {
            out.push(g);
        }
        i = i + 1;
    }
    assert(gens@.take(i as int) =~= gens@);
    out
}

} // verus!
