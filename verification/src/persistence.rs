//! Snapshot persistence: a full dump of the store's mapping in a compact
//! binary form — an entry count followed by length-prefixed records — and
//! its decoder. Saving and loading are exact inverses, so a loaded
//! snapshot reproduces the mapping that was saved.
use vstd::prelude::*;

use vstd::bytes::{spec_u64_to_le_bytes, spec_u64_from_le_bytes, lemma_auto_spec_u64_to_from_le_bytes,
    u64_to_le_bytes, u64_from_le_bytes};
use vstd::slice::{slice_subrange, slice_to_vec};
use vstd::utf8::{valid_utf8, encode_utf8, decode_utf8, encode_utf8_valid_utf8,
    encode_utf8_decode_utf8};
use crate::concmap::SlotView;
use crate::store::{Store, entries_map};
use crate::bytes_to_string;
use crate::wal::push_bytes;

verus! {

/// One snapshot record as raw bytes: key, value, optional expiration,
/// last-access time.
pub type RawEntry = (Seq<u8>, Seq<u8>, Option<u64>, u64);

/// The encoding of one record: length-prefixed key and value, a presence
/// flag and the expiration timestamp (zero when absent), then the
/// last-access time; all integers are 64-bit little-endian.
pub open spec fn enc_entry(e: RawEntry) -> Seq<u8> {
    spec_u64_to_le_bytes(e.0.len() as u64) + e.0 + spec_u64_to_le_bytes(e.1.len() as u64) + e.1
        + (match e.2 {
        Some(x) => seq![1u8] + spec_u64_to_le_bytes(x),
        None => seq![0u8] + spec_u64_to_le_bytes(0u64),
    }) + spec_u64_to_le_bytes(e.3)
}

/// The records of a snapshot, encoded in order.
pub open spec fn enc_entries(es: Seq<RawEntry>) -> Seq<u8>
    decreases es.len(),
{
    if es.len() == 0 {
        Seq::<u8>::empty()
    } else {
        enc_entry(es.first()) + enc_entries(es.drop_first())
    }
}

/// A whole snapshot: the record count, then the records.
pub open spec fn enc_snapshot(es: Seq<RawEntry>) -> Seq<u8> {
    spec_u64_to_le_bytes(es.len() as u64) + enc_entries(es)
}

/// The 64-bit little-endian integer stored at `pos`.
pub open spec fn dec_u64_at(s: Seq<u8>, pos: int) -> u64 {
    spec_u64_from_le_bytes(s.subrange(pos, pos + 8))
}

/// Decodes one record at `pos`: the record and the position after it, or
/// nothing if the bytes there do not hold one.
pub open spec fn dec_entry(s: Seq<u8>, pos: int) -> Option<(RawEntry, int)> {
    if !(0 <= pos && pos + 8 <= s.len()) {
        None
    } else {
        let klen = dec_u64_at(s, pos) as int;
        if pos + 16 + klen > s.len() {
            None
        } else {
            let k = s.subrange(pos + 8, pos + 8 + klen);
            let vlen = dec_u64_at(s, pos + 8 + klen) as int;
            let p = pos + 16 + klen;
            if p + vlen + 17 > s.len() {
                None
            } else {
                let v = s.subrange(p, p + vlen);
                let flag = s[p + vlen];
                if flag != 0 && flag != 1 {
                    None
                } else {
                    Some(
                        (
                            (
                                k,
                                v,
                                if flag == 1 {
                                    Some(dec_u64_at(s, p + vlen + 1))
                                } else {
                                    None
                                },
                                dec_u64_at(s, p + vlen + 9),
                            ),
                            p + vlen + 17,
                        ),
                    )
                }
            }
        }
    }
}

/// Decodes `n` records starting at `pos`: the records and the position
/// after them, or nothing if any record is missing or malformed.
pub open spec fn dec_entries(s: Seq<u8>, pos: int, n: nat) -> Option<(Seq<RawEntry>, int)>
    decreases n,
{
    if n == 0 {
        Some((Seq::<RawEntry>::empty(), pos))
    } else {
        match dec_entry(s, pos) {
            Some(ep) => match dec_entries(s, ep.1, (n - 1) as nat) {
                Some(rp) => Some((seq![ep.0] + rp.0, rp.1)),
                None => None,
            },
            None => None,
        }
    }
}

/// True when every record's key and value are valid UTF-8.
pub open spec fn raw_valid(es: Seq<RawEntry>) -> bool {
    forall|i: int|
        0 <= i < es.len() ==> valid_utf8(#[trigger] es[i].0) && valid_utf8(es[i].1)
}

/// The mapping a record list describes, keys and values read as the
/// characters their bytes encode; a repeated key keeps its last record.
pub open spec fn raw_entries_map(es: Seq<RawEntry>) -> Map<Seq<char>, SlotView>
    decreases es.len(),
{
    if es.len() == 0 {
        Map::<Seq<char>, SlotView>::empty()
    } else {
        raw_entries_map(es.drop_last()).insert(
            decode_utf8(es.last().0),
            (decode_utf8(es.last().1), es.last().2, es.last().3),
        )
    }
}

/// The mapping a snapshot's bytes describe: the declared number of
/// records, decoded exactly to the end of the data, all keys and values
/// valid UTF-8. Anything else is no snapshot.
pub open spec fn spec_load(data: Seq<u8>) -> Option<Map<Seq<char>, SlotView>> {
    if data.len() < 8 {
        None
    } else {
        let n = spec_u64_from_le_bytes(data.subrange(0, 8));
        match dec_entries(data, 8, n as nat) {
            Some(p) => if p.1 == data.len() && raw_valid(p.0) {
                Some(raw_entries_map(p.0))
            } else {
                None
            },
            None => None,
        }
    }
}

/// Encoding appends record by record.
proof fn lemma_enc_entries_snoc(es: Seq<RawEntry>, e: RawEntry)
    ensures
        enc_entries(es.push(e)) == enc_entries(es) + enc_entry(e),
    decreases es.len(),
{
    if es.len() == 0 {
        assert(es.push(e).first() == e);
        assert(es.push(e).drop_first() =~= Seq::<RawEntry>::empty());
        assert(enc_entries(es.push(e).drop_first()) =~= Seq::<u8>::empty());
        assert(enc_entries(es) =~= Seq::<u8>::empty());
        assert(enc_entries(es.push(e)) =~= enc_entries(es) + enc_entry(e));
    } else {
        assert(es.push(e).first() == es.first());
        assert(es.push(e).drop_first() =~= es.drop_first().push(e));
        lemma_enc_entries_snoc(es.drop_first(), e);
        assert(enc_entries(es.push(e)) == enc_entry(es.first()) + enc_entries(
            es.drop_first().push(e),
        ));
        assert(enc_entries(es) == enc_entry(es.first()) + enc_entries(es.drop_first()));
        assert(enc_entry(es.first()) + (enc_entries(es.drop_first()) + enc_entry(e)) =~= (enc_entry(
            es.first(),
        ) + enc_entries(es.drop_first())) + enc_entry(e));
    }
}

/// Peels the first chunk off a concatenation found at `off` in `s`.
proof fn lemma_concat_chunk(a: Seq<u8>, b: Seq<u8>, s: Seq<u8>, off: int)
    requires
        0 <= off,
        off + a.len() + b.len() <= s.len(),
        s.subrange(off, off + a.len() + b.len()) == a + b,
    ensures
        s.subrange(off, off + a.len()) == a,
        s.subrange(off + a.len(), off + a.len() + b.len()) == b,
{
    let al = a.len() as int;
    let bl = b.len() as int;
    assert forall|i: int| 0 <= i < al implies s[off + i] == a[i] by {
        assert(s.subrange(off, off + al + bl)[i] == (a + b)[i]);
    }
    assert forall|i: int| 0 <= i < bl implies s[off + al + i] == b[i] by {
        assert(s.subrange(off, off + al + bl)[al + i] == (a + b)[al + i]);
    }
    assert(s.subrange(off, off + al) =~= a);
    assert(s.subrange(off + al, off + al + bl) =~= b);
}

/// The decoder reads back exactly what the encoder wrote, record by
/// record, ending at the end of the data.
proof fn lemma_dec_entries_of_enc(s: Seq<u8>, pos: int, es: Seq<RawEntry>)
    requires
        0 <= pos <= s.len(),
        s.subrange(pos, s.len() as int) == enc_entries(es),
        forall|i: int|
            0 <= i < es.len() ==> (#[trigger] es[i]).0.len() <= u64::MAX && es[i].1.len()
                <= u64::MAX,
    ensures
        dec_entries(s, pos, es.len() as nat) == Some((es, s.len() as int)),
    decreases es.len(),
{
    lemma_auto_spec_u64_to_from_le_bytes();
    if es.len() == 0 {
        assert(s.subrange(pos, s.len() as int).len() == 0);
    } else {
        let e = es.first();
        let rest = es.drop_first();
        let t = s.subrange(pos, s.len() as int);
        let klen = e.0.len() as int;
        let vlen = e.1.len() as int;
        let he = enc_entry(e);
        let a1 = spec_u64_to_le_bytes(e.0.len() as u64);
        let a2 = spec_u64_to_le_bytes(e.1.len() as u64);
        let tailflag = match e.2 {
            Some(x) => seq![1u8] + spec_u64_to_le_bytes(x),
            None => seq![0u8] + spec_u64_to_le_bytes(0u64),
        };
        let a6 = spec_u64_to_le_bytes(e.3);
        assert(tailflag.len() == 9);
        assert(he.len() == 33 + klen + vlen);
        assert(t =~= he + enc_entries(rest));
        assert(s.len() - pos >= he.len());
        let p = pos + 16 + klen;
        let pend = p + vlen + 17;

        assert(s.subrange(pos, s.len() as int).subrange(
            0,
            (he.len() + enc_entries(rest).len()) as int,
        ) =~= t);
        lemma_concat_chunk(he, enc_entries(rest), s, pos);
        assert(he =~= a1 + (e.0 + (a2 + (e.1 + (tailflag + a6)))));
        lemma_concat_chunk(a1, e.0 + (a2 + (e.1 + (tailflag + a6))), s, pos);
        lemma_concat_chunk(e.0, a2 + (e.1 + (tailflag + a6)), s, pos + 8);
        lemma_concat_chunk(a2, e.1 + (tailflag + a6), s, pos + 8 + klen);
        lemma_concat_chunk(e.1, tailflag + a6, s, p);
        lemma_concat_chunk(tailflag, a6, s, p + vlen);

        assert(dec_u64_at(s, pos) == e.0.len() as u64);
        assert(dec_u64_at(s, pos + 8 + klen) == e.1.len() as u64);
        assert(s[p + vlen] == s.subrange(p + vlen, p + vlen + 9)[0]);
        match e.2 {
            Some(x) => {
                assert(s[p + vlen] == 1u8);
                lemma_concat_chunk(seq![1u8], spec_u64_to_le_bytes(x), s, p + vlen);
                assert(dec_u64_at(s, p + vlen + 1) == x);
            },
            None => {
                assert(s[p + vlen] == 0u8);
            },
        }
        assert(dec_u64_at(s, p + vlen + 9) == e.3);
        assert(s.subrange(pos + 8, pos + 8 + klen) == e.0);
        assert(s.subrange(p, p + vlen) == e.1);
        assert(dec_entry(s, pos) == Some((e, pend)));

        assert(s.subrange(pend, s.len() as int) =~= enc_entries(rest));
        lemma_dec_entries_of_enc(s, pend, rest);
        assert(seq![e] + rest =~= es);
    }
}

/// Law: a snapshot decodes to exactly the mapping its records describe.
pub proof fn lemma_snapshot_roundtrip(es: Seq<RawEntry>)
    requires
        es.len() <= u64::MAX,
        raw_valid(es),
        forall|i: int|
            0 <= i < es.len() ==> (#[trigger] es[i]).0.len() <= u64::MAX && es[i].1.len()
                <= u64::MAX,
    ensures
        spec_load(enc_snapshot(es)) == Some(raw_entries_map(es)),
{
    lemma_auto_spec_u64_to_from_le_bytes();
    let s = enc_snapshot(es);
    assert(s.subrange(0, 8) =~= spec_u64_to_le_bytes(es.len() as u64));
    assert(spec_u64_from_le_bytes(s.subrange(0, 8)) == es.len() as u64);
    assert(s.subrange(8, s.len() as int) =~= enc_entries(es));
    lemma_dec_entries_of_enc(s, 8, es);
}

/// The raw bytes of one of the store's records.
pub open spec fn raw_of(e: (String, String, Option<u64>, u64)) -> RawEntry {
    (encode_utf8(e.0@), encode_utf8(e.1@), e.2, e.3)
}

/// Records whose keys and values encode the same characters describe the
/// same mapping.
proof fn lemma_entries_map_matches_raw(es: Seq<(String, String, Option<u64>, u64)>, raw: Seq<
    RawEntry,
>)
    requires
        es.len() == raw.len(),
        forall|j: int| 0 <= j < raw.len() ==> #[trigger] raw[j] == raw_of(es[j]),
    ensures
        entries_map(es) == raw_entries_map(raw),
    decreases es.len(),
{
    if es.len() == 0 {
        assert(entries_map(es) =~= raw_entries_map(raw));
    } else {
        lemma_entries_map_matches_raw(es.drop_last(), raw.drop_last());
        let e = es.last();
        encode_utf8_decode_utf8(e.0@);
        encode_utf8_decode_utf8(e.1@);
        assert(raw.last() == raw_of(e));
        assert(entries_map(es) =~= raw_entries_map(raw));
    }
}

/// Reads the 64-bit little-endian integer at `pos`.
fn read_u64_at(s: &[u8], pos: usize) -> (r: u64)
    requires
        pos + 8 <= s@.len(),
    ensures
        r == dec_u64_at(s@, pos as int),
{
    let n = s.len();
    let sub = slice_subrange(s, pos, pos + 8);
    u64_from_le_bytes(sub)
}

/// Reads one record at `pos`, returning it and the position after it.
fn read_entry(s: &[u8], pos: usize) -> (r: Option<((Vec<u8>, Vec<u8>, Option<u64>, u64), usize)>)
    requires
        pos <= s@.len(),
    ensures
        match r {
            Some(p) => dec_entry(s@, pos as int) == Some(
                ((p.0.0@, p.0.1@, p.0.2, p.0.3), p.1 as int),
            ) && pos < p.1 <= s@.len(),
            None => dec_entry(s@, pos as int) is None,
        },
{
    let n = s.len();
    if n - pos < 16 {
        return None;
    }
    let klen64 = read_u64_at(s, pos);
    if klen64 > (n - pos - 16) as u64 {
        return None;
    }
    let klen = klen64 as usize;
    let k = slice_to_vec(slice_subrange(s, pos + 8, pos + 8 + klen));
    let vlen64 = read_u64_at(s, pos + 8 + klen);
    let p = pos + 16 + klen;
    if n - p < 17 {
        return None;
    }
    if vlen64 > (n - p - 17) as u64 {
        return None;
    }
    let vlen = vlen64 as usize;
    let v = slice_to_vec(slice_subrange(s, p, p + vlen));
    let flag = s[p + vlen];
    if flag != 0 && flag != 1 {
        return None;
    }
    let exp = if flag == 1 {
        Some(read_u64_at(s, p + vlen + 1))
    } else {
        None
    };
    let acc = read_u64_at(s, p + vlen + 9);
    Some(((k, v, exp, acc), p + vlen + 17))
}

/// Serializes the store's full mapping as a snapshot. The returned bytes
/// decode to exactly the mapping the store held; writing them out (fully
/// replacing any earlier snapshot) is the caller's charge, and a failure
/// to do so must not fail the triggering operation — durability rests on
/// the write-ahead log.
pub fn save(store: &mut Store) -> (r: Vec<u8>)
    requires
        old(store).wf(),
    ensures
        final(store).wf(),
        final(store).contents() == old(store).contents(),
        final(store).capacity() == old(store).capacity(),
        spec_load(r@) == Some(final(store).contents()),
{
    let entries = store.to_hashmap();
    let n = entries.len();
    let mut out = u64_to_le_bytes(n as u64);
    let ghost mut raw: Seq<RawEntry> = Seq::empty();
    let mut i: usize = 0;
    proof {
        assert(enc_entries(raw) =~= Seq::<u8>::empty());
        assert(out@ =~= spec_u64_to_le_bytes(n as u64) + enc_entries(raw));
    }
    while i < n
        invariant
            i <= n,
            n == entries@.len(),
            raw.len() == i,
            out@ == spec_u64_to_le_bytes(n as u64) + enc_entries(raw),
            forall|j: int| 0 <= j < i ==> #[trigger] raw[j] == raw_of(entries@[j]),
            forall|j: int|
                0 <= j < i ==> (#[trigger] raw[j]).0.len() <= u64::MAX && raw[j].1.len()
                    <= u64::MAX,
        decreases n - i,
    {
        let ghost raw0 = raw;
        let ghost out0 = out@;
        let kb = entries[i].0.as_str().as_bytes();
        let klen = kb.len();
        push_bytes(&mut out, u64_to_le_bytes(klen as u64).as_slice());
        push_bytes(&mut out, kb);
        let vb = entries[i].1.as_str().as_bytes();
        let vlen = vb.len();
        push_bytes(&mut out, u64_to_le_bytes(vlen as u64).as_slice());
        push_bytes(&mut out, vb);
        match entries[i].2 {
            Some(x) => {
                out.push(1u8);
                push_bytes(&mut out, u64_to_le_bytes(x).as_slice());
            },
            None => {
                out.push(0u8);
                push_bytes(&mut out, u64_to_le_bytes(0u64).as_slice());
            },
        }
        push_bytes(&mut out, u64_to_le_bytes(entries[i].3).as_slice());
        proof {
            let re = raw_of(entries@[i as int]);
            raw = raw0.push(re);
            lemma_enc_entries_snoc(raw0, re);
            let tailflag = match re.2 {
                Some(x) => seq![1u8] + spec_u64_to_le_bytes(x),
                None => seq![0u8] + spec_u64_to_le_bytes(0u64),
            };
            assert(out@ =~= out0 + (spec_u64_to_le_bytes(re.0.len() as u64) + re.0
                + spec_u64_to_le_bytes(re.1.len() as u64) + re.1 + tailflag + spec_u64_to_le_bytes(
                re.3,
            )));
            assert(out@ =~= spec_u64_to_le_bytes(n as u64) + enc_entries(raw));
        }
        i += 1;
    }
    proof {
        assert forall|j: int| 0 <= j < raw.len() implies valid_utf8(#[trigger] raw[j].0)
            && valid_utf8(raw[j].1) by {
            encode_utf8_valid_utf8(entries@[j].0@);
            encode_utf8_valid_utf8(entries@[j].1@);
        }
        lemma_snapshot_roundtrip(raw);
        assert(out@ =~= enc_snapshot(raw));
        lemma_entries_map_matches_raw(entries@, raw);
        crate::store::lemma_entries_map_is_contents(entries@, old(store).contents());
    }
    out
}

/// A record with an invalid key or value poisons every record list it is
/// spliced into.
proof fn lemma_spliced_entry_invalid(
    s: Seq<u8>,
    pos: int,
    newpos: int,
    rem: nat,
    raw: Seq<RawEntry>,
    re: RawEntry,
)
    requires
        rem > 0,
        dec_entry(s, pos) == Some((re, newpos)),
        !valid_utf8(re.0) || !valid_utf8(re.1),
    ensures
        match dec_entries(s, pos, rem) {
            Some(p) => !raw_valid(raw + p.0),
            None => true,
        },
{
    match dec_entries(s, newpos, (rem - 1) as nat) {
        Some(rp) => {
            let parsed = seq![re] + rp.0;
            assert(dec_entries(s, pos, rem) == Some((parsed, rp.1)));
            assert((raw + parsed)[raw.len() as int] == parsed[0]);
            assert(parsed[0] == re);
            assert(!raw_valid(raw + parsed));
        },
        None => {
            assert(dec_entries(s, pos, rem) is None);
        },
    }
}

/// Rebuilds a store from a snapshot's bytes; the rebuilt store evicts
/// beyond `max_keys` entries. Returns nothing when the bytes are not a
/// well-formed snapshot; the caller substitutes a fresh empty store in
/// that case.
pub fn load(data: &[u8], max_keys: usize) -> (r: Option<Store>)
    ensures
        match r {
            Some(s) => s.wf() && s.capacity() == max_keys && spec_load(data@) == Some(
                s.contents(),
            ),
            None => spec_load(data@) is None,
        },
{
    let n = data.len();
    if n < 8 {
        return None;
    }
    let count = read_u64_at(data, 0);
    let mut entries: Vec<(String, String, Option<u64>, u64)> = Vec::new();
    let ghost mut raw: Seq<RawEntry> = Seq::empty();
    let mut pos: usize = 8;
    let mut i: u64 = 0;
    proof {
        assert(data@.subrange(0, 8) == data@.subrange(0int, 0int + 8));
    }
    while i < count
        invariant
            8 <= pos <= n,
            n == data@.len(),
            i <= count,
            count == spec_u64_from_le_bytes(data@.subrange(0, 8)),
            raw.len() == i,
            entries@.len() == i,
            match dec_entries(data@, pos as int, (count - i) as nat) {
                Some(p) => dec_entries(data@, 8, count as nat) == Some((raw + p.0, p.1)),
                None => dec_entries(data@, 8, count as nat) is None,
            },
            raw_valid(raw),
            forall|j: int| 0 <= j < i ==> #[trigger] raw[j] == raw_of(entries@[j]),
        decreases count - i,
    {
        let ghost raw0 = raw;
        let ghost rem = (count - i) as nat;
        match read_entry(data, pos) {
            None => {
                proof {
                    assert(dec_entries(data@, pos as int, rem) is None);
                }
                return None;
            },
            Some((e, newpos)) => {
                let ghost re: RawEntry = (e.0@, e.1@, e.2, e.3);
                proof {
                    assert(dec_entries(data@, pos as int, rem) matches Some(p) ==> p.0 == seq![re]
                        + dec_entries(data@, newpos as int, (rem - 1) as nat).unwrap().0);
                }
                let exp = e.2;
                let acc = e.3;
                let k = match bytes_to_string(e.0) {
                    Some(k) => k,
                    None => {
                        proof {
                            lemma_spliced_entry_invalid(data@, pos as int, newpos as int, rem, raw, re);
                        }
                        return None;
                    },
                };
                let v = match bytes_to_string(e.1) {
                    Some(v) => v,
                    None => {
                        proof {
                            lemma_spliced_entry_invalid(data@, pos as int, newpos as int, rem, raw, re);
                        }
                        return None;
                    },
                };
                entries.push((k, v, exp, acc));
                proof {
                    raw = raw0.push(re);
                    assert(match dec_entries(data@, newpos as int, (rem - 1) as nat) {
                        Some(tail) => raw0 + (seq![re] + tail.0) =~= raw + tail.0,
                        None => true,
                    });
                }
                pos = newpos;
                i = i + 1;
            },
        }
    }
    proof {
        assert(dec_entries(data@, pos as int, 0) == Some((Seq::<RawEntry>::empty(), pos as int)));
        assert(raw + Seq::<RawEntry>::empty() =~= raw);
    }
    if pos != n {
        return None;
    }
    let store = Store::from_hashmap(entries, max_keys);
    proof {
        lemma_entries_map_matches_raw(entries@, raw);
    }
    Some(store)
}

} // verus!
