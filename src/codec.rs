//! The byte format of a command, shared by the log files and the wire.
//!
//! A command is a JSON object written without whitespace:
//! `{"Set":{"key":K,"value":V}}` or `{"Remove":{"key":K}}`, where `K` and `V`
//! are JSON string literals in their one canonical form: `"` and `\` and the
//! control characters are escaped (the usual two-letter escapes where JSON has
//! one, `\u00xx` with lower-case hex digits otherwise) and every other byte of
//! the UTF-8 text stands as it is. Records follow one another with nothing in
//! between, so each one has to delimit itself.
use vstd::prelude::*;
use vstd::utf8::*;
use crate::command::{Command, CommandModel};

verus! {

pub open spec fn set_head() -> Seq<u8> {
    // {"Set":{"key":
    seq![123u8, 34, 83, 101, 116, 34, 58, 123, 34, 107, 101, 121, 34, 58]
}

pub open spec fn remove_head() -> Seq<u8> {
    // {"Remove":{"key":
    seq![123u8, 34, 82, 101, 109, 111, 118, 101, 34, 58, 123, 34, 107, 101, 121, 34, 58]
}

pub open spec fn value_sep() -> Seq<u8> {
    // ,"value":
    seq![44u8, 34, 118, 97, 108, 117, 101, 34, 58]
}

pub open spec fn close() -> Seq<u8> {
    // }}
    seq![125u8, 125]
}

pub open spec fn hex_digit(d: int) -> u8 {
    if d < 10 {
        (48 + d) as u8
    } else {
        (87 + d) as u8
    }
}

/// The escaped form of one byte inside a string literal.
pub open spec fn escape_byte(x: u8) -> Seq<u8> {
    if x == 34 {
        seq![92u8, 34]
    } else if x == 92 {
        seq![92u8, 92]
    } else if x == 8 {
        seq![92u8, 98]
    } else if x == 12 {
        seq![92u8, 102]
    } else if x == 10 {
        seq![92u8, 110]
    } else if x == 13 {
        seq![92u8, 114]
    } else if x == 9 {
        seq![92u8, 116]
    } else if x < 32 {
        seq![92u8, 117, 48, 48, hex_digit(x as int / 16), hex_digit(x as int % 16)]
    } else {
        seq![x]
    }
}

pub open spec fn escape(s: Seq<u8>) -> Seq<u8>
    decreases s.len(),
{
    if s.len() == 0 {
        seq![]
    } else {
        escape_byte(s[0]) + escape(s.drop_first())
    }
}

/// A string literal holding the bytes `s`.
pub open spec fn quoted(s: Seq<u8>) -> Seq<u8> {
    seq![34u8] + escape(s) + seq![34u8]
}

/// The encoded form of a command.
#[verifier::opaque]
pub open spec fn record(c: CommandModel) -> Seq<u8> {
    match c {
        CommandModel::Put { key, value } => set_head() + quoted(encode_utf8(key)) + value_sep()
            + quoted(encode_utf8(value)) + close(),
        CommandModel::Remove { key } => remove_head() + quoted(encode_utf8(key)) + close(),
    }
}

pub proof fn lemma_escape_concat(a: Seq<u8>, b: Seq<u8>)
    ensures
        escape(a + b) == escape(a) + escape(b),
    decreases a.len(),
{
    if a.len() == 0 {
        assert(a + b =~= b);
    } else {
        assert((a + b).drop_first() =~= a.drop_first() + b);
        lemma_escape_concat(a.drop_first(), b);
    }
}

fn push_all(out: &mut Vec<u8>, bytes: &[u8])
    ensures
        final(out)@ == old(out)@ + bytes@,
{
    let mut i: usize = 0;
    while i < bytes.len()
        invariant
            0 <= i <= bytes@.len(),
            out@ == old(out)@ + bytes@.subrange(0, i as int),
        decreases bytes@.len() - i,
    {
        out.push(bytes[i]);
        i = i + 1;
        assert(out@ =~= old(out)@ + bytes@.subrange(0, i as int));
    }
    assert(bytes@.subrange(0, i as int) =~= bytes@);
}

fn hex_digit_exec(d: u8) -> (r: u8)
    requires
        d < 16,
    ensures
        r == hex_digit(d as int),
{
    if d < 10 {
        48 + d
    } else {
        87 + d
    }
}

fn push_escaped(out: &mut Vec<u8>, x: u8)
    ensures
        final(out)@ == old(out)@ + escape_byte(x),
{
    if x == 34 {
        push_all(out, [92u8, 34].as_slice());
    } else if x == 92 {
        push_all(out, [92u8, 92].as_slice());
    } else if x == 8 {
        push_all(out, [92u8, 98].as_slice());
    } else if x == 12 {
        push_all(out, [92u8, 102].as_slice());
    } else if x == 10 {
        push_all(out, [92u8, 110].as_slice());
    } else if x == 13 {
        push_all(out, [92u8, 114].as_slice());
    } else if x == 9 {
        push_all(out, [92u8, 116].as_slice());
    } else if x < 32 {
        let hi = hex_digit_exec(x / 16);
        let lo = hex_digit_exec(x % 16);
        push_all(out, [92u8, 117, 48, 48, hi, lo].as_slice());
    } else {
        out.push(x);
    }
}

/// Appends the string literal that holds `s`.
fn push_quoted(out: &mut Vec<u8>, s: &[u8])
    ensures
        final(out)@ == old(out)@ + quoted(s@),
{
    let ghost start = out@;
    out.push(34u8);
    let mut i: usize = 0;
    while i < s.len()
        invariant
            0 <= i <= s@.len(),
            out@ == start + seq![34u8] + escape(s@.subrange(0, i as int)),
        decreases s@.len() - i,
    {
        proof {
            let a = s@.subrange(0, i as int);
            let one = seq![s@[i as int]];
            lemma_escape_concat(a, one);
            assert(a + one =~= s@.subrange(0, i + 1));
            assert(one.drop_first() =~= Seq::<u8>::empty());
            assert(escape(one.drop_first()) == Seq::<u8>::empty());
            assert(one[0] == s@[i as int]);
            assert(escape(one) =~= escape_byte(s@[i as int]));
        }
        push_escaped(out, s[i]);
        i = i + 1;
    }
    assert(s@.subrange(0, i as int) =~= s@);
    out.push(34u8);
    assert(out@ =~= old(out)@ + quoted(s@));
}

/// The bytes that record `c` in a log segment or on the wire.
pub fn encode_command(c: &Command) -> (r: Vec<u8>)
    ensures
        r@ == record(c@),
{
    let mut out: Vec<u8> = Vec::new();
    match c {
        Command::Put { key, value } => {
            push_all(&mut out, [123u8, 34, 83, 101, 116, 34, 58, 123, 34, 107, 101, 121, 34, 58].as_slice());
            push_quoted(&mut out, key.as_str().as_bytes());
            push_all(&mut out, [44u8, 34, 118, 97, 108, 117, 101, 34, 58].as_slice());
            push_quoted(&mut out, value.as_str().as_bytes());
            push_all(&mut out, [125u8, 125].as_slice());
        },
        Command::Remove { key } => {
            push_all(&mut out, [123u8, 34, 82, 101, 109, 111, 118, 101, 34, 58, 123, 34, 107, 101, 121, 34, 58].as_slice());
            push_quoted(&mut out, key.as_str().as_bytes());
            push_all(&mut out, [125u8, 125].as_slice());
        },
    }
    reveal(record);
    assert(out@ =~= record(c@));
    out
}


pub open spec fn hex_value(c: u8) -> Option<u8> {
    if 48 <= c <= 57 {
        Some((c - 48) as u8)
    } else if 97 <= c <= 102 {
        Some((c - 87) as u8)
    } else {
        None
    }
}

/// The byte that a two-letter escape `\y` stands for.
pub open spec fn short_escape(y: u8) -> Option<u8> {
    if y == 34 {
        Some(34u8)
    } else if y == 92 {
        Some(92u8)
    } else if y == 98 {
        Some(8u8)
    } else if y == 102 {
        Some(12u8)
    } else if y == 110 {
        Some(10u8)
    } else if y == 114 {
        Some(13u8)
    } else if y == 116 {
        Some(9u8)
    } else {
        None
    }
}

pub open spec fn has_short_escape(x: u8) -> bool {
    x == 34 || x == 92 || x == 8 || x == 12 || x == 10 || x == 13 || x == 9
}

/// Reads one (possibly escaped) byte of a string literal at `p`: the byte and
/// where the next one starts. A closing quote is no unit.
pub open spec fn unit_at(b: Seq<u8>, p: int) -> Option<(u8, int)> {
    if p < 0 || p >= b.len() {
        None
    } else if b[p] == 92 {
        if p + 1 >= b.len() {
            None
        } else if short_escape(b[p + 1]) is Some {
            Some((short_escape(b[p + 1])->0, p + 2))
        } else if b[p + 1] == 117 && p + 5 < b.len() && b[p + 2] == 48 && b[p + 3] == 48 && (
        b[p + 4] == 48 || b[p + 4] == 49) && hex_value(b[p + 5]) is Some {
            let v = ((b[p + 4] - 48) * 16 + hex_value(b[p + 5])->0) as u8;
            if has_short_escape(v) {
                None
            } else {
                Some((v, p + 6))
            }
        } else {
            None
        }
    } else if b[p] < 32 || b[p] == 34 {
        None
    } else {
        Some((b[p], p + 1))
    }
}

/// Reads the rest of a string literal from `p` up to its closing quote, after
/// the bytes `acc` already read: the bytes and the position after the quote.
pub open spec fn scan(b: Seq<u8>, p: int, acc: Seq<u8>) -> Option<(Seq<u8>, int)>
    decreases b.len() - p,
{
    if p < 0 || p >= b.len() {
        None
    } else if b[p] == 34 {
        Some((acc, p + 1))
    } else {
        match unit_at(b, p) {
            Some((x, n)) => if p < n && n <= b.len() {
                scan(b, n, acc.push(x))
            } else {
                None
            },
            None => None,
        }
    }
}

/// The text of the string literal that starts at `p`, and where it ends.
pub open spec fn text_at(b: Seq<u8>, p: int) -> Option<(Seq<char>, int)> {
    if 0 <= p < b.len() && b[p] == 34 {
        match scan(b, p + 1, seq![]) {
            Some((s, e)) => if valid_utf8(s) {
                Some((decode_utf8(s), e))
            } else {
                None
            },
            None => None,
        }
    } else {
        None
    }
}

pub open spec fn lit_at(b: Seq<u8>, p: int, lit: Seq<u8>) -> bool {
    0 <= p && p + lit.len() <= b.len() && b.subrange(p, p + lit.len()) == lit
}

/// The command recorded at `p`, and where its record ends.
pub open spec fn parse_record(b: Seq<u8>, p: int) -> Option<(CommandModel, int)> {
    if lit_at(b, p, set_head()) {
        match text_at(b, p + 14) {
            Some((k, key_end)) => if lit_at(b, key_end, value_sep()) {
                match text_at(b, key_end + 9) {
                    Some((v, value_end)) => if lit_at(b, value_end, close()) {
                        Some((CommandModel::Put { key: k, value: v }, value_end + 2))
                    } else {
                        None
                    },
                    None => None,
                }
            } else {
                None
            },
            None => None,
        }
    } else if lit_at(b, p, remove_head()) {
        match text_at(b, p + 17) {
            Some((k, key_end)) => if lit_at(b, key_end, close()) {
                Some((CommandModel::Remove { key: k }, key_end + 2))
            } else {
                None
            },
            None => None,
        }
    } else {
        None
    }
}

proof fn lemma_unit_escape(b: Seq<u8>, p: int, x: u8)
    requires
        lit_at(b, p, escape_byte(x)),
    ensures
        b[p] != 34,
        unit_at(b, p) == Some((x, p + escape_byte(x).len())),
{
    let e = escape_byte(x);
    let w = b.subrange(p, p + e.len());
    assert(b[p] == e[0]) by {
        assert(w[0] == b[p]);
    }
    if e.len() > 1 {
        assert(b[p + 1] == e[1]) by {
            assert(w[1] == b[p + 1]);
        }
    }
    if e.len() == 6 {
        assert(b[p + 2] == e[2] && b[p + 3] == e[3] && b[p + 4] == e[4] && b[p + 5] == e[5]) by {
            assert(w[2] == b[p + 2] && w[3] == b[p + 3] && w[4] == b[p + 4] && w[5] == b[p + 5]);
        }
        assert(hex_value(b[p + 5]) == Some((x % 16) as u8));
    }
}

proof fn lemma_unit_sound(b: Seq<u8>, p: int)
    requires
        unit_at(b, p) is Some,
    ensures
        ({
            let (x, n) = unit_at(b, p)->0;
            p < n <= b.len() && b.subrange(p, n) == escape_byte(x)
        }),
{
    let (x, n) = unit_at(b, p)->0;
    if b[p] == 92 {
        if short_escape(b[p + 1]) is Some {
            assert(b.subrange(p, n) =~= escape_byte(x));
        } else {
            let v = x;
            assert(v < 32);
            assert(hex_digit(v as int / 16) == b[p + 4]);
            assert(hex_digit(v as int % 16) == b[p + 5]);
            assert(b.subrange(p, n) =~= escape_byte(x));
        }
    } else {
        assert(b.subrange(p, n) =~= escape_byte(x));
    }
}

/// A literal made by `quoted` reads back as the bytes it holds, whatever follows it.
pub proof fn lemma_scan_escape(b: Seq<u8>, p: int, acc: Seq<u8>, s: Seq<u8>)
    requires
        lit_at(b, p, escape(s) + seq![34u8]),
    ensures
        scan(b, p, acc) == Some((acc + s, p + escape(s).len() + 1)),
    decreases s.len(),
{
    let w = escape(s) + seq![34u8];
    assert(b[p + escape(s).len()] == w[escape(s).len() as int]) by {
        assert(b.subrange(p, p + w.len())[escape(s).len() as int] == b[p + escape(s).len()]);
    }
    if s.len() == 0 {
        assert(acc + s =~= acc);
    } else {
        let e = escape_byte(s[0]);
        let rest = s.drop_first();
        assert(escape(s) == e + escape(rest));
        assert(b.subrange(p, p + e.len()) =~= e) by {
            assert(b.subrange(p, p + e.len()) =~= b.subrange(p, p + w.len()).subrange(0, e.len() as int));
            assert(w.subrange(0, e.len() as int) =~= e);
        }
        lemma_unit_escape(b, p, s[0]);
        let n = p + e.len();
        assert(lit_at(b, n, escape(rest) + seq![34u8])) by {
            assert(b.subrange(n, n + escape(rest).len() + 1) =~= b.subrange(p, p + w.len()).subrange(
                e.len() as int,
                w.len() as int,
            ));
            assert(w.subrange(e.len() as int, w.len() as int) =~= escape(rest) + seq![34u8]);
        }
        lemma_scan_escape(b, n, acc.push(s[0]), rest);
        assert(acc.push(s[0]) + rest =~= acc + s);
    }
}

/// What `scan` reads back was written by `escape`.
pub proof fn lemma_scan_sound(b: Seq<u8>, p: int, acc: Seq<u8>)
    requires
        scan(b, p, acc) is Some,
    ensures
        ({
            let (r, e) = scan(b, p, acc)->0;
            &&& p < e <= b.len()
            &&& acc.len() <= r.len()
            &&& r.subrange(0, acc.len() as int) == acc
            &&& b.subrange(p, e) == escape(r.subrange(acc.len() as int, r.len() as int)) + seq![
                34u8,
            ]
        }),
    decreases b.len() - p,
{
    let (r, e) = scan(b, p, acc)->0;
    if b[p] == 34 {
        assert(r.subrange(acc.len() as int, r.len() as int) =~= Seq::<u8>::empty());
        assert(b.subrange(p, e) =~= seq![34u8]);
    } else {
        let (x, n) = unit_at(b, p)->0;
        lemma_unit_sound(b, p);
        lemma_scan_sound(b, n, acc.push(x));
        let t = r.subrange(acc.len() as int + 1, r.len() as int);
        assert(r[acc.len() as int] == x) by {
            assert(r.subrange(0, acc.len() as int + 1) == acc.push(x));
            assert(r.subrange(0, acc.len() as int + 1)[acc.len() as int] == r[acc.len() as int]);
        }
        assert(r.subrange(acc.len() as int, r.len() as int) =~= seq![x] + t);
        assert(r.subrange(0, acc.len() as int) =~= acc.push(x).subrange(0, acc.len() as int));
        assert((seq![x] + t).drop_first() =~= t);
        assert(escape(seq![x] + t) == escape_byte(x) + escape(t));
        assert(b.subrange(p, e) =~= b.subrange(p, n) + b.subrange(n, e));
    }
}

proof fn lemma_lit_split(b: Seq<u8>, p: int, x: Seq<u8>, y: Seq<u8>)
    requires
        lit_at(b, p, x + y),
    ensures
        lit_at(b, p, x),
        lit_at(b, p + x.len(), y),
{
    assert(b.subrange(p, p + x.len()) =~= b.subrange(p, p + (x + y).len()).subrange(0, x.len() as int));
    assert(b.subrange(p + x.len(), p + x.len() + y.len()) =~= b.subrange(p, p + (x + y).len()).subrange(
        x.len() as int,
        (x + y).len() as int,
    ));
    assert((x + y).subrange(0, x.len() as int) =~= x);
    assert((x + y).subrange(x.len() as int, (x + y).len() as int) =~= y);
}

proof fn lemma_text_quoted(b: Seq<u8>, p: int, t: Seq<char>)
    requires
        lit_at(b, p, quoted(encode_utf8(t))),
    ensures
        text_at(b, p) == Some((t, p + quoted(encode_utf8(t)).len())),
{
    broadcast use encode_utf8_valid_utf8, encode_utf8_decode_utf8;

    let s = encode_utf8(t);
    assert(quoted(s) =~= seq![34u8] + (escape(s) + seq![34u8]));
    lemma_lit_split(b, p, seq![34u8], escape(s) + seq![34u8]);
    assert(b.subrange(p, p + 1)[0] == b[p]);
    lemma_scan_escape(b, p + 1, seq![], s);
    assert(Seq::<u8>::empty() + s =~= s);
}

/// Decoding finds, at the start of a record, the command it records, whatever follows.
pub proof fn lemma_parse_record(b: Seq<u8>, p: int, c: CommandModel)
    requires
        lit_at(b, p, record(c)),
    ensures
        parse_record(b, p) == Some((c, p + record(c).len())),
{
    reveal(record);
    match c {
        CommandModel::Put { key, value } => {
            let qk = quoted(encode_utf8(key));
            let qv = quoted(encode_utf8(value));
            assert(record(c) =~= set_head() + (qk + (value_sep() + (qv + close()))));
            lemma_lit_split(b, p, set_head(), qk + (value_sep() + (qv + close())));
            lemma_lit_split(b, p + 14, qk, value_sep() + (qv + close()));
            lemma_text_quoted(b, p + 14, key);
            let key_end = p + 14 + qk.len();
            lemma_lit_split(b, key_end, value_sep(), qv + close());
            lemma_lit_split(b, key_end + 9, qv, close());
            lemma_text_quoted(b, key_end + 9, value);
        },
        CommandModel::Remove { key } => {
            let qk = quoted(encode_utf8(key));
            assert(record(c) =~= remove_head() + (qk + close()));
            lemma_lit_split(b, p, remove_head(), qk + close());
            lemma_lit_split(b, p + 17, qk, close());
            lemma_text_quoted(b, p + 17, key);
            assert(!lit_at(b, p, set_head())) by {
                assert(b.subrange(p, p + 17)[2] == b.subrange(p, p + 14)[2]);
            }
        },
    }
}

proof fn lemma_text_sound(b: Seq<u8>, p: int)
    requires
        text_at(b, p) is Some,
    ensures
        ({
            let (t, e) = text_at(b, p)->0;
            e == p + quoted(encode_utf8(t)).len() && lit_at(b, p, quoted(encode_utf8(t)))
        }),
{
    broadcast use decode_utf8_encode_utf8;

    let (r, e) = scan(b, p + 1, seq![])->0;
    lemma_scan_sound(b, p + 1, seq![]);
    assert(r.subrange(0, r.len() as int) =~= r);
    assert(encode_utf8(decode_utf8(r)) == r);
    assert(b.subrange(p, e) =~= seq![b[p]] + b.subrange(p + 1, e));
    assert(b.subrange(p, e) =~= quoted(r));
}

proof fn lemma_lit_join(b: Seq<u8>, p: int, x: Seq<u8>, y: Seq<u8>)
    requires
        lit_at(b, p, x),
        lit_at(b, p + x.len(), y),
    ensures
        lit_at(b, p, x + y),
{
    assert(b.subrange(p, p + (x + y).len()) =~= b.subrange(p, p + x.len()) + b.subrange(
        p + x.len(),
        p + x.len() + y.len(),
    ));
}

/// Whatever decodes was written by the encoder: the bytes read are exactly the
/// record of the command returned.
pub proof fn lemma_parse_record_sound(b: Seq<u8>, p: int)
    requires
        parse_record(b, p) is Some,
    ensures
        ({
            let (c, e) = parse_record(b, p)->0;
            e == p + record(c).len() && lit_at(b, p, record(c))
        }),
{
    reveal(record);
    let (c, e) = parse_record(b, p)->0;
    if lit_at(b, p, set_head()) {
        lemma_text_sound(b, p + 14);
        let (k, key_end) = text_at(b, p + 14)->0;
        lemma_text_sound(b, key_end + 9);
        let (v, value_end) = text_at(b, key_end + 9)->0;
        let qk = quoted(encode_utf8(k));
        let qv = quoted(encode_utf8(v));
        lemma_lit_join(b, value_end - qv.len(), qv, close());
        lemma_lit_join(b, key_end, value_sep(), qv + close());
        lemma_lit_join(b, p + 14, qk, value_sep() + (qv + close()));
        lemma_lit_join(b, p, set_head(), qk + (value_sep() + (qv + close())));
        assert(record(c) =~= set_head() + (qk + (value_sep() + (qv + close()))));
    } else {
        lemma_text_sound(b, p + 17);
        let (k, key_end) = text_at(b, p + 17)->0;
        let qk = quoted(encode_utf8(k));
        lemma_lit_join(b, p + 17, qk, close());
        lemma_lit_join(b, p, remove_head(), qk + close());
        assert(record(c) =~= remove_head() + (qk + close()));
    }
}

/// A record is never empty.
pub proof fn lemma_record_len(c: CommandModel)
    ensures
        record(c).len() > 2,
{
    reveal(record);
}

fn lit_exec(b: &[u8], p: usize, lit: &[u8]) -> (r: bool)
    ensures
        r == lit_at(b@, p as int, lit@),
{
    if p > b.len() || lit.len() > b.len() - p {
        return false;
    }
    let mut i: usize = 0;
    while i < lit.len()
        invariant
            0 <= i <= lit@.len(),
            p + lit@.len() <= b@.len(),
            b@.len() == b.len(),
            forall|j: int| 0 <= j < i ==> b@[p + j] == lit@[j],
        decreases lit@.len() - i,
    {
        if b[p + i] != lit[i] {
            assert(b@.subrange(p as int, p + lit@.len())[i as int] != lit@[i as int]);
            return false;
        }
        i = i + 1;
    }
    assert(b@.subrange(p as int, p + lit@.len()) =~= lit@);
    true
}

fn hex_value_exec(c: u8) -> (r: Option<u8>)
    ensures
        r == hex_value(c),
{
    if 48 <= c && c <= 57 {
        Some(c - 48)
    } else if 97 <= c && c <= 102 {
        Some(c - 87)
    } else {
        None
    }
}

fn short_escape_exec(y: u8) -> (r: Option<u8>)
    ensures
        r == short_escape(y),
{
    if y == 34 {
        Some(34u8)
    } else if y == 92 {
        Some(92u8)
    } else if y == 98 {
        Some(8u8)
    } else if y == 102 {
        Some(12u8)
    } else if y == 110 {
        Some(10u8)
    } else if y == 114 {
        Some(13u8)
    } else if y == 116 {
        Some(9u8)
    } else {
        None
    }
}

fn unit_exec(b: &[u8], p: usize) -> (r: Option<(u8, usize)>)
    requires
        p < b@.len(),
    ensures
        match r {
            Some((x, n)) => unit_at(b@, p as int) == Some((x, n as int)),
            None => unit_at(b@, p as int) is None,
        },
{
    let x = b[p];
    if x == 92 {
        if p + 1 >= b.len() {
            return None;
        }
        let y = b[p + 1];
        match short_escape_exec(y) {
            Some(z) => {
                return Some((z, p + 2));
            },
            None => {},
        }
        if y == 117 && b.len() - p > 5 && b[p + 2] == 48 && b[p + 3] == 48 && (b[p + 4] == 48
            || b[p + 4] == 49) {
            match hex_value_exec(b[p + 5]) {
                Some(lo) => {
                    let v: u8 = (b[p + 4] - 48) * 16 + lo;
                    if v == 34 || v == 92 || v == 8 || v == 12 || v == 10 || v == 13 || v == 9 {
                        None
                    } else {
                        Some((v, p + 6))
                    }
                },
                None => None,
            }
        } else {
            None
        }
    } else if x < 32 || x == 34 {
        None
    } else {
        Some((x, p + 1))
    }
}

/// Reads a string literal's contents from `p` (just after its opening quote).
fn scan_exec(b: &[u8], p: usize) -> (r: Option<(Vec<u8>, usize)>)
    ensures
        match r {
            Some((s, e)) => scan(b@, p as int, seq![]) == Some((s@, e as int)),
            None => scan(b@, p as int, seq![]) is None,
        },
{
    let mut out: Vec<u8> = Vec::new();
    let mut i: usize = p;
    while i < b.len()
        invariant
            p <= i,
            scan(b@, p as int, seq![]) == scan(b@, i as int, out@),
        decreases b@.len() - i,
    {
        if b[i] == 34 {
            return Some((out, i + 1));
        }
        match unit_exec(b, i) {
            Some((x, n)) => {
                if n <= i || n > b.len() {
                    return None;
                }
                out.push(x);
                i = n;
            },
            None => {
                return None;
            },
        }
    }
    None
}

/// Builds a `String` from UTF-8 bytes.
///
/// Relies on `String::from_utf8`: it fails exactly on bytes that are not valid
/// UTF-8, and otherwise holds the characters that they encode.
#[verifier::external_body]
fn string_from_utf8(bytes: Vec<u8>) -> (r: Option<String>)
    ensures
        r is Some <==> valid_utf8(bytes@),
        r is Some ==> r->0@ == decode_utf8(bytes@),
{
    String::from_utf8(bytes).ok()
}

fn text_exec(b: &[u8], p: usize) -> (r: Option<(String, usize)>)
    ensures
        match r {
            Some((t, e)) => text_at(b@, p as int) == Some((t@, e as int)),
            None => text_at(b@, p as int) is None,
        },
{
    if p >= b.len() || b[p] != 34 {
        return None;
    }
    match scan_exec(b, p + 1) {
        Some((s, e)) => match string_from_utf8(s) {
            Some(t) => Some((t, e)),
            None => None,
        },
        None => None,
    }
}

/// Decodes the command whose record starts at `p`; gives it with the position
/// just past its record, or `None` where no record starts there.
pub fn decode_command(b: &[u8], p: usize) -> (r: Option<(Command, usize)>)
    ensures
        match r {
            Some((c, e)) => parse_record(b@, p as int) == Some((c@, e as int)),
            None => parse_record(b@, p as int) is None,
        },
{
    let set_tag: [u8; 14] = [123u8, 34, 83, 101, 116, 34, 58, 123, 34, 107, 101, 121, 34, 58];
    let remove_tag: [u8; 17] = [123u8, 34, 82, 101, 109, 111, 118, 101, 34, 58, 123, 34, 107, 101, 121, 34, 58];
    let sep: [u8; 9] = [44u8, 34, 118, 97, 108, 117, 101, 34, 58];
    let end: [u8; 2] = [125u8, 125];
    assert(set_tag@ == set_head());
    assert(remove_tag@ == remove_head());
    assert(sep@ == value_sep());
    assert(end@ == close());
    let len = b.len();
    assert(len == b@.len());
    if lit_exec(b, p, set_tag.as_slice()) {
        let (key, key_end) = match text_exec(b, p + 14) {
            Some(t) => t,
            None => return None,
        };
        if !lit_exec(b, key_end, sep.as_slice()) {
            return None;
        }
        let (value, value_end) = match text_exec(b, key_end + 9) {
            Some(t) => t,
            None => return None,
        };
        if !lit_exec(b, value_end, end.as_slice()) {
            return None;
        }
        Some((Command::Put { key, value }, value_end + 2))
    } else if lit_exec(b, p, remove_tag.as_slice()) {
        let (key, key_end) = match text_exec(b, p + 17) {
            Some(t) => t,
            None => return None,
        };
        if !lit_exec(b, key_end, end.as_slice()) {
            return None;
        }
        Some((Command::Remove { key }, key_end + 2))
    } else {
        None
    }
}

} // verus!
