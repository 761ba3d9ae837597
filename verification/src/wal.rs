//! The write-ahead log: an append-only sequence of textual records, one
//! per mutation, each a line `SET <key> <value> [<ttl>]` terminated by a
//! newline. Encoding produces the bytes to append; replay applies a log's
//! records to a store in file order, skipping malformed records.
use vstd::prelude::*;

use vstd::utf8::{valid_utf8, encode_utf8, decode_utf8, encode_utf8_valid_utf8,
    encode_utf8_decode_utf8};
use crate::digits::{all_digits, dec_bytes, dec_val, parse_u64, u64_to_dec,
    lemma_dec_bytes_roundtrip};
use crate::concmap::SlotView;
use crate::store::Store;
use crate::spec_expiry;
use crate::bytes_to_string;

verus! {

/// The ASCII bytes of the one verb a record can carry.
pub open spec fn set_verb() -> Seq<u8> {
    seq![0x53u8, 0x45u8, 0x54u8]
}

/// The encoded record for storing `value` under `key` with the given
/// relative TTL: verb, key, value and optional TTL separated by single
/// spaces, terminated by a newline.
pub open spec fn wal_record(key: Seq<u8>, value: Seq<u8>, ttl: Option<u64>) -> Seq<u8> {
    set_verb() + seq![0x20u8] + key + seq![0x20u8] + value + (match ttl {
        Some(t) => seq![0x20u8] + dec_bytes(t as nat),
        None => Seq::<u8>::empty(),
    }) + seq![0x0Au8]
}

/// Splitting a byte sequence on a delimiter, with `cur` the token read so
/// far: empty tokens are dropped, as runs of the delimiter produce none.
pub open spec fn split_acc(s: Seq<u8>, delim: u8, cur: Seq<u8>) -> Seq<Seq<u8>>
    decreases s.len(),
{
    if s.len() == 0 {
        if cur.len() > 0 {
            seq![cur]
        } else {
            Seq::<Seq<u8>>::empty()
        }
    } else if s[0] == delim {
        if cur.len() > 0 {
            seq![cur] + split_acc(s.drop_first(), delim, Seq::<u8>::empty())
        } else {
            split_acc(s.drop_first(), delim, Seq::<u8>::empty())
        }
    } else {
        split_acc(s.drop_first(), delim, cur.push(s[0]))
    }
}

/// The non-empty tokens of `s` between runs of the delimiter, in order.
pub open spec fn split_bytes(s: Seq<u8>, delim: u8) -> Seq<Seq<u8>> {
    split_acc(s, delim, Seq::<u8>::empty())
}

/// Splits `s` on the delimiter byte, dropping empty tokens.
pub fn split_on(s: &[u8], delim: u8) -> (r: Vec<Vec<u8>>)
    ensures
        r.deep_view() == split_bytes(s@, delim),
{
    let n = s.len();
    let mut toks: Vec<Vec<u8>> = Vec::new();
    let mut cur: Vec<u8> = Vec::new();
    let mut i: usize = 0;
    proof {
        assert(toks.deep_view() =~~= Seq::<Seq<u8>>::empty());
        assert(s@.subrange(0, n as int) =~= s@);
        assert(cur@ =~= Seq::<u8>::empty());
        assert(split_bytes(s@, delim) =~~= toks.deep_view() + split_acc(
            s@.subrange(0, n as int),
            delim,
            cur@,
        ));
    }
    while i < n
        invariant
            i <= n,
            n == s@.len(),
            split_bytes(s@, delim) == toks.deep_view() + split_acc(
                s@.subrange(i as int, n as int),
                delim,
                cur@,
            ),
        decreases n - i,
    {
        let ghost rem0 = s@.subrange(i as int, n as int);
        let ghost toks0 = toks.deep_view();
        let ghost cur0 = cur;
        proof {
            assert(rem0.drop_first() =~= s@.subrange(i + 1, n as int));
            assert(rem0[0] == s@[i as int]);
        }
        let b = s[i];
        if b == delim {
            if cur.len() > 0 {
                toks.push(cur);
                cur = Vec::new();
                proof {
                    assert(toks.deep_view() =~~= toks0.push(cur0@));
                    assert(cur@ =~= Seq::<u8>::empty());
                    assert(toks0.push(cur0@) + split_acc(rem0.drop_first(), delim, Seq::<u8>::empty())
                        =~~= toks0 + (seq![cur0@] + split_acc(
                        rem0.drop_first(),
                        delim,
                        Seq::<u8>::empty(),
                    )));
                }
            } else {
                proof {
                    assert(cur@ =~= Seq::<u8>::empty());
                }
            }
        } else {
            cur.push(b);
        }
        i += 1;
    }
    proof {
        assert(s@.subrange(n as int, n as int) =~= Seq::<u8>::empty());
    }
    if cur.len() > 0 {
        let ghost toks0 = toks.deep_view();
        let ghost cur0 = cur@;
        toks.push(cur);
        proof {
            assert(toks.deep_view() =~~= toks0.push(cur0));
            assert(toks0.push(cur0) =~~= toks0 + seq![cur0]);
        }
    } else {
        proof {
            assert(cur@ =~= Seq::<u8>::empty());
            assert(toks.deep_view() + Seq::<Seq<u8>>::empty() =~~= toks.deep_view());
        }
    }
    toks
}

/// The operation a token list describes: a record is the verb `SET`
/// followed by a key, a value, and optionally a TTL. A fourth token that
/// is not a decimal number fitting 64 bits makes the record malformed —
/// no record at all — as does any other shape.
pub open spec fn parse_wal_tokens(t: Seq<Seq<u8>>) -> Option<(Seq<u8>, Seq<u8>, Option<u64>)> {
    if t.len() == 3 && t[0] == set_verb() {
        Some((t[1], t[2], None))
    } else if t.len() == 4 && t[0] == set_verb() {
        if t[3].len() > 0 && all_digits(t[3]) && dec_val(t[3]) <= u64::MAX {
            Some((t[1], t[2], Some(dec_val(t[3]) as u64)))
        } else {
            None
        }
    } else {
        None
    }
}

/// The operation one log line describes, as character sequences: the
/// line's tokens must form a record and its key and value must be valid
/// UTF-8.
pub open spec fn line_op(line: Seq<u8>) -> Option<(Seq<char>, Seq<char>, Option<u64>)> {
    match parse_wal_tokens(split_bytes(line, 0x20)) {
        Some(p) => if valid_utf8(p.0) && valid_utf8(p.1) {
            Some((decode_utf8(p.0), decode_utf8(p.1), p.2))
        } else {
            None
        },
        None => None,
    }
}

/// Appends the bytes of `s` to `out`.
pub(crate) fn push_bytes(out: &mut Vec<u8>, s: &[u8])
    ensures
        final(out)@ == old(out)@ + s@,
{
    let n = s.len();
    let mut i: usize = 0;
    proof {
        assert(old(out)@ + s@.subrange(0, 0) =~= old(out)@);
    }
    while i < n
        invariant
            i <= n,
            n == s@.len(),
            out@ == old(out)@ + s@.subrange(0, i as int),
        decreases n - i,
    {
        out.push(s[i]);
        proof {
            assert(old(out)@ + s@.subrange(0, i + 1) =~= (old(out)@ + s@.subrange(
                0,
                i as int,
            )).push(s@[i as int]));
        }
        i += 1;
    }
    proof {
        assert(s@.subrange(0, n as int) =~= s@);
    }
}

/// Encodes the record that stores `value` under `key` with the given
/// relative TTL, ready to be appended to the log. Appending it durably
/// must precede the in-memory mutation it records.
pub fn append_set(key: &str, value: &str, ttl: Option<u64>) -> (r: Vec<u8>)
    ensures
        r@ == wal_record(encode_utf8(key@), encode_utf8(value@), ttl),
{
    let mut out: Vec<u8> = Vec::new();
    out.push(0x53);
    out.push(0x45);
    out.push(0x54);
    out.push(0x20);
    push_bytes(&mut out, key.as_bytes());
    out.push(0x20);
    push_bytes(&mut out, value.as_bytes());
    match ttl {
        Some(t) => {
            out.push(0x20);
            let d = u64_to_dec(t);
            push_bytes(&mut out, d.as_slice());
        },
        None => {},
    }
    out.push(0x0A);
    proof {
        assert(out@ =~= wal_record(encode_utf8(key@), encode_utf8(value@), ttl));
    }
    out
}

/// Reads one log line as the operation it records, or nothing for a
/// malformed line: wrong shape, a TTL token that is not a decimal number
/// fitting 64 bits, or a key or value that is not UTF-8.
pub fn parse_wal_line(line: &[u8]) -> (r: Option<(String, String, Option<u64>)>)
    ensures
        match r {
            Some(p) => line_op(line@) == Some((p.0@, p.1@, p.2)),
            None => line_op(line@) is None,
        },
{
    let toks = split_on(line, 0x20);
    let ghost spec_toks = split_bytes(line@, 0x20);
    proof {
        assert(spec_toks.len() == toks@.len());
        assert forall|j: int| 0 <= j < toks@.len() implies spec_toks[j] == toks@[j]@ by {
            assert(spec_toks[j] == toks@[j].deep_view());
            assert(toks@[j].deep_view() =~= toks@[j]@);
        }
    }
    if !(toks.len() == 3 || toks.len() == 4) {
        return None;
    }
    let verb = &toks[0];
    if !(verb.len() == 3 && verb[0] == 0x53 && verb[1] == 0x45 && verb[2] == 0x54) {
        proof {
            assert(spec_toks[0] == verb@);
            assert(verb@ != set_verb());
        }
        return None;
    }
    proof {
        assert(verb@ =~= set_verb());
        assert(spec_toks[0] == set_verb());
    }
    let ttl: Option<u64> = if toks.len() == 4 {
        match parse_u64(toks[3].as_slice()) {
            Some(t) => Some(t),
            None => {
                return None;
            },
        }
    } else {
        None
    };
    let key = match bytes_to_string(toks[1].clone()) {
        Some(k) => k,
        None => {
            return None;
        },
    };
    let value = match bytes_to_string(toks[2].clone()) {
        Some(v) => v,
        None => {
            return None;
        },
    };
    proof {
        encode_utf8_decode_utf8(key@);
        encode_utf8_decode_utf8(value@);
    }
    Some((key, value, ttl))
}

/// The mapping after applying one log line to `m` at time `now`: a record
/// inserts its key, a malformed line changes nothing.
pub open spec fn apply_line(
    m: Map<Seq<char>, SlotView>,
    line: Seq<u8>,
    now: u64,
) -> Map<Seq<char>, SlotView> {
    match line_op(line) {
        Some(op) => m.insert(op.0, (op.1, spec_expiry(op.2, now), now)),
        None => m,
    }
}

/// The mapping after applying a list of log lines to `m` in order.
pub open spec fn apply_lines(
    m: Map<Seq<char>, SlotView>,
    lines: Seq<Seq<u8>>,
    now: u64,
) -> Map<Seq<char>, SlotView>
    decreases lines.len(),
{
    if lines.len() == 0 {
        m
    } else {
        apply_line(apply_lines(m, lines.drop_last(), now), lines.last(), now)
    }
}

/// The mapping after replaying a whole log against `m` at time `now`: the
/// log's lines applied in file order.
pub open spec fn spec_replay(
    m: Map<Seq<char>, SlotView>,
    data: Seq<u8>,
    now: u64,
) -> Map<Seq<char>, SlotView> {
    apply_lines(m, split_bytes(data, 0x0A), now)
}

/// Replays a log's bytes against the store: every well-formed record is
/// applied in file order with `set_internal`; malformed records are
/// skipped. Each replayed entry's TTL is measured anew from `now`.
pub fn replay(store: &mut Store, data: &[u8], now: u64)
    requires
        old(store).wf(),
    ensures
        final(store).wf(),
        final(store).capacity() == old(store).capacity(),
        final(store).contents() == spec_replay(old(store).contents(), data@, now),
{
    let lines = split_on(data, 0x0A);
    let ghost c0 = store.contents();
    let ghost spec_lines = split_bytes(data@, 0x0A);
    let mut i: usize = 0;
    proof {
        assert(spec_lines.subrange(0, 0) =~= Seq::<Seq<u8>>::empty());
    }
    while i < lines.len()
        invariant
            i <= lines.len(),
            store.wf(),
            store.capacity() == old(store).capacity(),
            c0 == old(store).contents(),
            lines.deep_view() == spec_lines,
            store.contents() == apply_lines(c0, spec_lines.subrange(0, i as int), now),
        decreases lines.len() - i,
    {
        proof {
            assert(lines.deep_view()[i as int] == lines@[i as int]@);
            assert(spec_lines.subrange(0, i + 1).drop_last() =~= spec_lines.subrange(0, i as int));
            assert(spec_lines.subrange(0, i + 1).last() == spec_lines[i as int]);
        }
        match parse_wal_line(lines[i].as_slice()) {
            Some(p) => {
                store.set_internal(p.0, p.1, p.2, now);
            },
            None => {},
        }
        i += 1;
    }
    proof {
        assert(spec_lines.subrange(0, spec_lines.len() as int) =~= spec_lines);
    }
}

/// True when the byte `x` occurs nowhere in `s`.
pub open spec fn avoids(s: Seq<u8>, x: u8) -> bool {
    forall|i: int| 0 <= i < s.len() ==> #[trigger] s[i] != x
}

proof fn lemma_avoids_concat(a: Seq<u8>, b: Seq<u8>, x: u8)
    requires
        avoids(a, x),
        avoids(b, x),
    ensures
        avoids(a + b, x),
{
    assert forall|i: int| 0 <= i < (a + b).len() implies (a + b)[i] != x by {
        if i < a.len() {
            assert((a + b)[i] == a[i]);
        } else {
            assert((a + b)[i] == b[i - a.len()]);
        }
    }
}

/// Splitting walks over a delimiter-free prefix, accumulating it into the
/// current token.
proof fn lemma_split_acc_skip(a: Seq<u8>, b: Seq<u8>, delim: u8, cur: Seq<u8>)
    requires
        avoids(a, delim),
    ensures
        split_acc(a + b, delim, cur) == split_acc(b, delim, cur + a),
    decreases a.len(),
{
    if a.len() == 0 {
        assert(a + b =~= b);
        assert(cur + a =~= cur);
    } else {
        assert((a + b)[0] == a[0]);
        assert((a + b).drop_first() =~= a.drop_first() + b);
        lemma_split_acc_skip(a.drop_first(), b, delim, cur.push(a[0]));
        assert(cur.push(a[0]) + a.drop_first() =~= cur + a);
    }
}

/// Splitting at a delimiter closes the current token, if non-empty.
proof fn lemma_split_acc_delim(b: Seq<u8>, delim: u8, cur: Seq<u8>)
    ensures
        split_acc(seq![delim] + b, delim, cur) == (if cur.len() > 0 {
            seq![cur] + split_bytes(b, delim)
        } else {
            split_bytes(b, delim)
        }),
{
    assert((seq![delim] + b)[0] == delim);
    assert((seq![delim] + b).drop_first() =~= b);
}

/// Law: replaying a log that holds exactly one encoded record inserts
/// exactly the recorded entry. It holds for keys and values that are
/// non-empty and carry no space or newline byte; others do not survive
/// the log's textual framing.
pub proof fn lemma_record_roundtrip(
    m: Map<Seq<char>, SlotView>,
    key: Seq<char>,
    value: Seq<char>,
    ttl: Option<u64>,
    now: u64,
)
    requires
        encode_utf8(key).len() > 0,
        encode_utf8(value).len() > 0,
        avoids(encode_utf8(key), 0x20),
        avoids(encode_utf8(key), 0x0A),
        avoids(encode_utf8(value), 0x20),
        avoids(encode_utf8(value), 0x0A),
    ensures
        spec_replay(m, wal_record(encode_utf8(key), encode_utf8(value), ttl), now) == m.insert(
            key,
            (value, spec_expiry(ttl, now), now),
        ),
{
    let kb = encode_utf8(key);
    let vb = encode_utf8(value);
    let sp = seq![0x20u8];
    let opt = match ttl {
        Some(t) => sp + dec_bytes(t as nat),
        None => Seq::<u8>::empty(),
    };
    let rec = wal_record(kb, vb, ttl);
    let pre = set_verb() + sp + kb + sp + vb + opt;
    assert(rec =~= pre + seq![0x0Au8]);

    // No newline occurs before the terminator, so the record is one line.
    assert(avoids(set_verb(), 0x0A));
    assert(avoids(sp, 0x0A));
    if ttl is Some {
        lemma_dec_bytes_roundtrip(ttl.unwrap() as nat);
        assert(avoids(dec_bytes(ttl.unwrap() as nat), 0x0A));
        assert(avoids(dec_bytes(ttl.unwrap() as nat), 0x20));
        lemma_avoids_concat(sp, dec_bytes(ttl.unwrap() as nat), 0x0A);
    }
    lemma_avoids_concat(set_verb(), sp, 0x0A);
    lemma_avoids_concat(set_verb() + sp, kb, 0x0A);
    lemma_avoids_concat(set_verb() + sp + kb, sp, 0x0A);
    lemma_avoids_concat(set_verb() + sp + kb + sp, vb, 0x0A);
    lemma_avoids_concat(set_verb() + sp + kb + sp + vb, opt, 0x0A);
    lemma_split_acc_skip(pre, seq![0x0Au8], 0x0A, Seq::<u8>::empty());
    assert(Seq::<u8>::empty() + pre =~= pre);
    assert(split_bytes(rec, 0x0A) == split_acc(seq![0x0Au8], 0x0A, pre));
    assert((seq![0x0Au8]).drop_first() =~= Seq::<u8>::empty());
    assert(pre.len() > 0);
    assert(split_acc(seq![0x0Au8], 0x0A, pre) =~= seq![pre] + split_acc(
        Seq::<u8>::empty(),
        0x0A,
        Seq::<u8>::empty(),
    ));
    assert(split_bytes(rec, 0x0A) =~= seq![pre]);

    // The line splits on spaces into its three or four tokens.
    lemma_split_acc_skip(set_verb(), sp + kb + sp + vb + opt, 0x20, Seq::<u8>::empty());
    assert(pre =~= set_verb() + (sp + kb + sp + vb + opt));
    assert(Seq::<u8>::empty() + set_verb() =~= set_verb());
    assert(sp + kb + sp + vb + opt =~= seq![0x20u8] + (kb + sp + vb + opt));
    lemma_split_acc_delim(kb + sp + vb + opt, 0x20, set_verb());
    lemma_split_acc_skip(kb, sp + vb + opt, 0x20, Seq::<u8>::empty());
    assert(kb + sp + vb + opt =~= kb + (sp + vb + opt));
    assert(Seq::<u8>::empty() + kb =~= kb);
    assert(sp + vb + opt =~= seq![0x20u8] + (vb + opt));
    lemma_split_acc_delim(vb + opt, 0x20, kb);
    match ttl {
        None => {
            assert(vb + opt =~= vb + Seq::<u8>::empty());
            lemma_split_acc_skip(vb, Seq::<u8>::empty(), 0x20, Seq::<u8>::empty());
            assert(Seq::<u8>::empty() + vb =~= vb);
            assert(split_bytes(vb + Seq::<u8>::empty(), 0x20) =~= seq![vb]);
            assert(split_bytes(pre, 0x20) =~= seq![set_verb(), kb, vb]);
            assert(parse_wal_tokens(split_bytes(pre, 0x20)) == Some(
                (kb, vb, Option::<u64>::None),
            ));
        },
        Some(t) => {
            let d = dec_bytes(t as nat);
            assert(vb + opt =~= vb + (seq![0x20u8] + d));
            lemma_split_acc_skip(vb, seq![0x20u8] + d, 0x20, Seq::<u8>::empty());
            assert(Seq::<u8>::empty() + vb =~= vb);
            lemma_split_acc_delim(d, 0x20, vb);
            lemma_split_acc_skip(d, Seq::<u8>::empty(), 0x20, Seq::<u8>::empty());
            assert(d + Seq::<u8>::empty() =~= d);
            assert(Seq::<u8>::empty() + d =~= d);
            assert(split_bytes(d, 0x20) =~= seq![d]);
            assert(split_bytes(pre, 0x20) =~= seq![set_verb(), kb, vb, d]);
            assert(parse_wal_tokens(split_bytes(pre, 0x20)) == Some((kb, vb, Some(t))));
        },
    }

    // The key and value read back as the characters they encode.
    encode_utf8_valid_utf8(key);
    encode_utf8_valid_utf8(value);
    encode_utf8_decode_utf8(key);
    encode_utf8_decode_utf8(value);
    assert(line_op(pre) == Some((key, value, ttl)));

    assert(seq![pre].drop_last() =~= Seq::<Seq<u8>>::empty());
    assert(apply_lines(m, seq![pre].drop_last(), now) == m);
    assert(seq![pre].last() == pre);
    assert(apply_lines(m, seq![pre], now) == apply_line(m, pre, now));
    assert(apply_lines(m, seq![pre], now) == m.insert(key, (value, spec_expiry(ttl, now), now)));
}

/// Replay only inserts: applying a list of lines to `m` yields `m`
/// overridden by what applying them to an empty mapping yields.
pub proof fn lemma_replay_accumulates(m: Map<Seq<char>, SlotView>, lines: Seq<Seq<u8>>, now: u64)
    ensures
        apply_lines(m, lines, now) == m.union_prefer_right(
            apply_lines(Map::<Seq<char>, SlotView>::empty(), lines, now),
        ),
    decreases lines.len(),
{
    let e = Map::<Seq<char>, SlotView>::empty();
    if lines.len() == 0 {
        assert(m.union_prefer_right(e) =~= m);
    } else {
        lemma_replay_accumulates(m, lines.drop_last(), now);
        lemma_replay_accumulates(e, lines.drop_last(), now);
        let pm = apply_lines(m, lines.drop_last(), now);
        let pe = apply_lines(e, lines.drop_last(), now);
        match line_op(lines.last()) {
            Some(op) => {
                assert(pm.insert(op.0, (op.1, spec_expiry(op.2, now), now)) =~= m.union_prefer_right(
                    pe.insert(op.0, (op.1, spec_expiry(op.2, now), now)),
                ));
            },
            None => {},
        }
    }
}

/// Law: replaying the same log twice yields the same mapping as replaying
/// it once, since replay only performs inserts.
pub proof fn lemma_replay_idempotent(m: Map<Seq<char>, SlotView>, data: Seq<u8>, now: u64)
    ensures
        spec_replay(spec_replay(m, data, now), data, now) == spec_replay(m, data, now),
{
    let ls = split_bytes(data, 0x0A);
    let e = Map::<Seq<char>, SlotView>::empty();
    lemma_replay_accumulates(m, ls, now);
    lemma_replay_accumulates(m.union_prefer_right(apply_lines(e, ls, now)), ls, now);
    assert(m.union_prefer_right(apply_lines(e, ls, now)).union_prefer_right(
        apply_lines(e, ls, now),
    ) =~= m.union_prefer_right(apply_lines(e, ls, now)));
}

} // verus!
