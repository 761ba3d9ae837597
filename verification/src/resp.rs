//! The wire protocol: requests are arrays of length-prefixed bulk strings
//! (`*<n>\r\n` then `$<len>\r\n<bytes>\r\n` each); replies are a simple
//! string, an error, a bulk string, or the null marker. The decoder reads
//! one request from a byte buffer; the encoders produce reply text.
use vstd::prelude::*;

use vstd::utf8::encode_utf8;
use vstd::string::StringSliceAdditionalSpecFns;
use vstd::slice::{slice_subrange, slice_to_vec};
use crate::digits::{dec_bytes, is_digit, dec_val, lemma_dec_bytes_roundtrip, u64_to_dec};
use crate::bytes_to_string;

verus! {

/// One protocol value: an array of values, or one bulk string.
pub enum RespValue {
    Array(Vec<RespValue>),
    BulkString(String),
}

/// The decimal notation of `n` as characters.
pub open spec fn dec_chars(n: nat) -> Seq<char> {
    dec_bytes(n).map_values(|b: u8| b as char)
}

/// The CR-LF pair that terminates every protocol line.
pub open spec fn crlf() -> Seq<char> {
    seq!['\r', '\n']
}

/// A success reply: `+<msg>` and a line end.
pub open spec fn simple_reply(msg: Seq<char>) -> Seq<char> {
    seq!['+'] + msg + crlf()
}

/// An error reply: `-<msg>` and a line end.
pub open spec fn error_reply(msg: Seq<char>) -> Seq<char> {
    seq!['-'] + msg + crlf()
}

/// A value reply: `$<byte length>`, a line end, the payload, a line end.
pub open spec fn bulk_reply(msg: Seq<char>) -> Seq<char> {
    seq!['$'] + dec_chars(encode_utf8(msg).len()) + crlf() + msg + crlf()
}

/// The distinct marker for an absent value.
pub open spec fn null_reply() -> Seq<char> {
    seq!['$', '-', '1', '\r', '\n']
}

/// Renders `n` in decimal.
fn dec_string(n: u64) -> (r: String)
    ensures
        r@ == dec_chars(n as nat),
{
    let bytes = u64_to_dec(n);
    proof {
        lemma_dec_bytes_roundtrip(n as nat);
    }
    let mut r = String::new();
    let mut i: usize = 0;
    proof {
        assert(r@ =~= dec_chars(n as nat).subrange(0, 0));
    }
    while i < bytes.len()
        invariant
            i <= bytes@.len(),
            bytes@ == dec_bytes(n as nat),
            forall|j: int| 0 <= j < bytes@.len() ==> is_digit(#[trigger] bytes@[j]),
            r@ == dec_chars(n as nat).subrange(0, i as int),
        decreases bytes@.len() - i,
    {
        let b = bytes[i];
        proof {
            reveal_strlit("0");
            reveal_strlit("1");
            reveal_strlit("2");
            reveal_strlit("3");
            reveal_strlit("4");
            reveal_strlit("5");
            reveal_strlit("6");
            reveal_strlit("7");
            reveal_strlit("8");
            reveal_strlit("9");
        }
        match b {
            0x30 => r.append("0"),
            0x31 => r.append("1"),
            0x32 => r.append("2"),
            0x33 => r.append("3"),
            0x34 => r.append("4"),
            0x35 => r.append("5"),
            0x36 => r.append("6"),
            0x37 => r.append("7"),
            0x38 => r.append("8"),
            _ => {
                proof {
                    assert(b == 0x39);
                }
                r.append("9");
            },
        }
        proof {
            assert(dec_chars(n as nat)[i as int] == bytes@[i as int] as char);
            assert(r@ =~= dec_chars(n as nat).subrange(0, i + 1));
        }
        i += 1;
    }
    proof {
        assert(dec_chars(n as nat).subrange(0, dec_chars(n as nat).len() as int) =~= dec_chars(
            n as nat,
        ));
    }
    r
}

/// Encodes a success reply.
pub fn encode_simple_string(msg: &str) -> (r: String)
    ensures
        r@ == simple_reply(msg@),
{
    proof {
        reveal_strlit("+");
        reveal_strlit("\r\n");
    }
    let mut r = String::new();
    r.append("+");
    r.append(msg);
    r.append("\r\n");
    proof {
        assert(r@ =~= simple_reply(msg@));
    }
    r
}

/// Encodes an error reply.
pub fn encode_error(msg: &str) -> (r: String)
    ensures
        r@ == error_reply(msg@),
{
    proof {
        reveal_strlit("-");
        reveal_strlit("\r\n");
    }
    let mut r = String::new();
    r.append("-");
    r.append(msg);
    r.append("\r\n");
    proof {
        assert(r@ =~= error_reply(msg@));
    }
    r
}

/// Encodes a value reply carrying `msg`. The declared length counts the
/// payload's bytes, not its characters.
pub fn encode_bulk_string(msg: &str) -> (r: String)
    ensures
        r@ == bulk_reply(msg@),
{
    proof {
        reveal_strlit("$");
        reveal_strlit("\r\n");
    }
    let bs = msg.as_bytes();
    let len = bs.len();
    proof {
        assert(msg.spec_bytes() == encode_utf8(msg@));
        assert(len == encode_utf8(msg@).len());
    }
    let digits = dec_string(len as u64);
    let mut r = String::new();
    r.append("$");
    r.append(digits.as_str());
    r.append("\r\n");
    r.append(msg);
    r.append("\r\n");
    proof {
        assert(r@ =~= bulk_reply(msg@));
    }
    r
}

/// Encodes the absent-value reply.
pub fn encode_null() -> (r: String)
    ensures
        r@ == null_reply(),
{
    proof {
        reveal_strlit("$-1\r\n");
    }
    let r = String::from_str("$-1\r\n");
    proof {
        assert(r@ =~= null_reply());
    }
    r
}

/// What a decimal line (digits, then CR LF) at a position holds: its value
/// and the position after it; or the line is still incomplete; or the
/// bytes there are no such line. A value beyond the machine's word is no
/// line.
pub enum SpecNum {
    Num(nat, int),
    NumMore,
    NumBad,
}

/// What a bulk string at a position holds: its bytes and the position
/// after it; or it is still incomplete; or malformed.
pub enum SpecBulk {
    Bulk(Seq<u8>, int),
    BulkMore,
    BulkBad,
}

/// What a run of bulk strings at a position holds — and, at the request
/// level, what a whole request holds: the elements and the position after
/// them; or the data is still incomplete; or malformed.
pub enum SpecItems {
    Items(Seq<Seq<u8>>, int),
    ItemsMore,
    ItemsBad,
}

/// The first position at or after `pos` whose byte is no ASCII digit.
pub open spec fn digits_end(s: Seq<u8>, pos: int) -> int
    decreases s.len() - pos,
{
    if pos < 0 || pos >= s.len() {
        pos
    } else if is_digit(s[pos]) {
        digits_end(s, pos + 1)
    } else {
        pos
    }
}

proof fn lemma_digits_end(s: Seq<u8>, pos: int)
    requires
        0 <= pos <= s.len(),
    ensures
        pos <= digits_end(s, pos) <= s.len(),
        forall|j: int| pos <= j < digits_end(s, pos) ==> is_digit(#[trigger] s[j]),
        digits_end(s, pos) < s.len() ==> !is_digit(s[digits_end(s, pos)]),
    decreases s.len() - pos,
{
    if pos < s.len() && is_digit(s[pos]) {
        lemma_digits_end(s, pos + 1);
    }
}

/// The decimal line at `pos`: one or more digits, then CR LF.
pub open spec fn spec_num_line(s: Seq<u8>, pos: int) -> SpecNum {
    let e = digits_end(s, pos);
    if e == pos {
        if pos >= s.len() {
            SpecNum::NumMore
        } else {
            SpecNum::NumBad
        }
    } else if e >= s.len() {
        SpecNum::NumMore
    } else if s[e] != 0x0D {
        SpecNum::NumBad
    } else if e + 1 >= s.len() {
        SpecNum::NumMore
    } else if s[e + 1] != 0x0A {
        SpecNum::NumBad
    } else if dec_val(s.subrange(pos, e)) > usize::MAX as nat {
        SpecNum::NumBad
    } else {
        SpecNum::Num(dec_val(s.subrange(pos, e)), e + 2)
    }
}

/// The bulk string at `pos`: `$`, a length line, that many bytes, CR LF.
pub open spec fn spec_bulk(s: Seq<u8>, pos: int) -> SpecBulk {
    if pos >= s.len() {
        SpecBulk::BulkMore
    } else if s[pos] != 0x24 {
        SpecBulk::BulkBad
    } else {
        match spec_num_line(s, pos + 1) {
            SpecNum::NumMore => SpecBulk::BulkMore,
            SpecNum::NumBad => SpecBulk::BulkBad,
            SpecNum::Num(len, p) => if p + len + 2 > s.len() {
                SpecBulk::BulkMore
            } else if s[p + len] != 0x0D || s[p + len + 1] != 0x0A {
                SpecBulk::BulkBad
            } else {
                SpecBulk::Bulk(s.subrange(p, p + len), p + len + 2)
            },
        }
    }
}

/// `n` bulk strings in a row starting at `pos`.
pub open spec fn spec_items(s: Seq<u8>, pos: int, n: nat) -> SpecItems
    decreases n,
{
    if n == 0 {
        SpecItems::Items(Seq::<Seq<u8>>::empty(), pos)
    } else {
        match spec_bulk(s, pos) {
            SpecBulk::BulkMore => SpecItems::ItemsMore,
            SpecBulk::BulkBad => SpecItems::ItemsBad,
            SpecBulk::Bulk(b, p) => match spec_items(s, p, (n - 1) as nat) {
                SpecItems::Items(rest, e) => SpecItems::Items(seq![b] + rest, e),
                SpecItems::ItemsMore => SpecItems::ItemsMore,
                SpecItems::ItemsBad => SpecItems::ItemsBad,
            },
        }
    }
}

/// One whole request: `*`, a count line, that many bulk strings.
pub open spec fn spec_parse_request(s: Seq<u8>) -> SpecItems {
    if s.len() == 0 {
        SpecItems::ItemsMore
    } else if s[0] != 0x2A {
        SpecItems::ItemsBad
    } else {
        match spec_num_line(s, 1) {
            SpecNum::NumMore => SpecItems::ItemsMore,
            SpecNum::NumBad => SpecItems::ItemsBad,
            SpecNum::Num(cnt, p) => spec_items(s, p, cnt),
        }
    }
}

/// True when every element is a bulk string.
pub open spec fn all_bulk(items: Seq<RespValue>) -> bool {
    forall|i: int| 0 <= i < items.len() ==> (#[trigger] items[i]) is BulkString
}

/// The bytes of a run of bulk strings.
pub open spec fn bulk_bytes(items: Seq<RespValue>) -> Seq<Seq<u8>> {
    Seq::new(items.len(), |i: int| encode_utf8(items[i]->BulkString_0@))
}

/// What reading one request out of a byte buffer yields.
pub enum ParseOutcome {
    /// A full request: its value and how many bytes it occupied.
    Complete(RespValue, usize),
    /// No full request yet; more bytes must be read.
    Incomplete,
    /// The bytes can never begin a request; the connection is beyond
    /// recovery.
    Malformed,
}

/// Reads one decimal line.
fn exec_num_line(s: &[u8], pos: usize) -> (r: Option<Result<(usize, usize), ()>>)
    requires
        pos <= s@.len(),
    ensures
        match r {
            Some(Ok(p)) => spec_num_line(s@, pos as int) == SpecNum::Num(p.0 as nat, p.1 as int)
                && pos < p.1 <= s@.len(),
            Some(Err(_)) => spec_num_line(s@, pos as int) is NumBad,
            None => spec_num_line(s@, pos as int) is NumMore,
        },
{
    proof {
        lemma_digits_end(s@, pos as int);
    }
    let n = s.len();
    let mut i = pos;
    let mut v: u64 = 0;
    let mut big = false;
    while i < n && s[i] >= 0x30 && s[i] <= 0x39
        invariant
            pos <= i <= n,
            n == s@.len(),
            digits_end(s@, pos as int) == digits_end(s@, i as int),
            forall|j: int| pos <= j < i ==> is_digit(#[trigger] s@[j]),
            !big ==> v as nat == dec_val(s@.subrange(pos as int, i as int)),
            big ==> dec_val(s@.subrange(pos as int, i as int)) > u64::MAX,
        decreases n - i,
    {
        let d = (s[i] - 0x30) as u64;
        proof {
            let p = s@.subrange(pos as int, i + 1);
            assert(p.drop_last() =~= s@.subrange(pos as int, i as int));
            assert(p.last() == s@[i as int]);
            if !big {
                if v > (u64::MAX - d) / 10 {
                    assert(v * 10 + d > u64::MAX) by (nonlinear_arith)
                        requires
                            v > (u64::MAX - d) / 10,
                            d <= 9,
                    ;
                } else {
                    assert(v * 10 + d <= u64::MAX) by (nonlinear_arith)
                        requires
                            v <= (u64::MAX - d) / 10,
                            d <= 9,
                    ;
                }
            } else {
                let w = dec_val(s@.subrange(pos as int, i as int));
                assert(dec_val(p) == w * 10 + (s@[i as int] - 0x30));
                assert(w * 10 >= w) by (nonlinear_arith);
            }
        }
        if !big {
            if v > (u64::MAX - d) / 10 {
                big = true;
            } else {
                v = v * 10 + d;
            }
        }
        i += 1;
    }
    proof {
        assert(digits_end(s@, i as int) == i);
        assert(digits_end(s@, pos as int) == i);
    }
    if i == pos {
        if pos == n {
            return None;
        }
        return Some(Err(()));
    }
    if i == n {
        return None;
    }
    if s[i] != 0x0D {
        return Some(Err(()));
    }
    if i + 1 == n {
        return None;
    }
    if s[i + 1] != 0x0A {
        return Some(Err(()));
    }
    if big || v > (usize::MAX as u64) {
        return Some(Err(()));
    }
    Some(Ok((v as usize, i + 2)))
}

/// Reads one bulk string.
fn exec_bulk(s: &[u8], pos: usize) -> (r: Option<Result<(Vec<u8>, usize), ()>>)
    requires
        pos <= s@.len(),
    ensures
        match r {
            Some(Ok(p)) => spec_bulk(s@, pos as int) == SpecBulk::Bulk(p.0@, p.1 as int) && pos
                < p.1 <= s@.len(),
            Some(Err(_)) => spec_bulk(s@, pos as int) is BulkBad,
            None => spec_bulk(s@, pos as int) is BulkMore,
        },
{
    let n = s.len();
    if pos == n {
        return None;
    }
    if s[pos] != 0x24 {
        return Some(Err(()));
    }
    let (len, p) = match exec_num_line(s, pos + 1) {
        None => {
            return None;
        },
        Some(Err(())) => {
            return Some(Err(()));
        },
        Some(Ok(q)) => q,
    };
    let rem = n - p;
    if rem < 2 || len > rem - 2 {
        return None;
    }
    let data = slice_to_vec(slice_subrange(s, p, p + len));
    if s[p + len] != 0x0D || s[p + len + 1] != 0x0A {
        return Some(Err(()));
    }
    Some(Ok((data, p + len + 2)))
}

/// Reads one request from the front of a byte buffer: an array of bulk
/// strings, each of which must be UTF-8 text. A complete request carries
/// the number of bytes it occupied, so the caller can drop them; an
/// incomplete one asks for more bytes; a malformed one cannot be
/// recovered from and closes the connection.
pub fn parse(input: &[u8]) -> (r: ParseOutcome)
    ensures
        match r {
            ParseOutcome::Complete(v, used) => v matches RespValue::Array(items) && all_bulk(
                items@,
            ) && spec_parse_request(input@) == SpecItems::Items(bulk_bytes(items@), used as int)
                && used <= input@.len(),
            ParseOutcome::Incomplete => spec_parse_request(input@) is ItemsMore,
            ParseOutcome::Malformed => spec_parse_request(input@) is ItemsBad || (
            spec_parse_request(input@) matches SpecItems::Items(args, _) && exists|i: int|
                0 <= i < args.len() && !vstd::utf8::valid_utf8(#[trigger] args[i])),
        },
{
    let n = input.len();
    if n == 0 {
        return ParseOutcome::Incomplete;
    }
    if input[0] != 0x2A {
        return ParseOutcome::Malformed;
    }
    let (count, start) = match exec_num_line(input, 1) {
        None => {
            return ParseOutcome::Incomplete;
        },
        Some(Err(())) => {
            return ParseOutcome::Malformed;
        },
        Some(Ok(q)) => q,
    };
    let mut items: Vec<RespValue> = Vec::new();
    let ghost mut collected: Seq<Seq<u8>> = Seq::empty();
    let mut pos = start;
    let mut done: usize = 0;
    let mut bad = false;
    while done < count
        invariant
            done <= count,
            pos <= n,
            n == input@.len(),
            spec_parse_request(input@) == spec_items(input@, start as int, count as nat),
            collected.len() == done,
            !bad ==> items@.len() == done,
            !bad ==> all_bulk(items@),
            !bad ==> forall|j: int|
                0 <= j < done ==> encode_utf8((#[trigger] items@[j])->BulkString_0@)
                    == collected[j],
            bad ==> exists|i: int|
                0 <= i < collected.len() && !vstd::utf8::valid_utf8(#[trigger] collected[i]),
            match spec_items(input@, pos as int, (count - done) as nat) {
                SpecItems::Items(rest, e) => spec_items(input@, start as int, count as nat)
                    == SpecItems::Items(collected + rest, e),
                SpecItems::ItemsMore => spec_items(input@, start as int, count as nat)
                    is ItemsMore,
                SpecItems::ItemsBad => spec_items(input@, start as int, count as nat) is ItemsBad,
            },
        decreases count - done,
    {
        let ghost rem = (count - done) as nat;
        let ghost collected0 = collected;
        let ghost bad0 = bad;
        match exec_bulk(input, pos) {
            None => {
                return ParseOutcome::Incomplete;
            },
            Some(Err(())) => {
                return ParseOutcome::Malformed;
            },
            Some(Ok((data, newpos))) => {
                let ghost db = data@;
                if !bad {
                    match bytes_to_string(data) {
                        Some(text) => {
                            items.push(RespValue::BulkString(text));
                        },
                        None => {
                            bad = true;
                        },
                    }
                }
                proof {
                    collected = collected0.push(db);
                    assert(collected[collected0.len() as int] == db);
                    if bad0 {
                        let i = choose|i: int|
                            0 <= i < collected0.len() && !vstd::utf8::valid_utf8(
                                #[trigger] collected0[i],
                            );
                        assert(collected[i] == collected0[i]);
                    }
                    assert(match spec_items(input@, newpos as int, (rem - 1) as nat) {
                        SpecItems::Items(rp, e) => collected0 + (seq![db] + rp) =~= collected + rp,
                        _ => true,
                    });
                }
                pos = newpos;
                done += 1;
            },
        }
    }
    proof {
        assert(spec_items(input@, pos as int, 0) == SpecItems::Items(
            Seq::<Seq<u8>>::empty(),
            pos as int,
        ));
        assert(collected + Seq::<Seq<u8>>::empty() =~= collected);
        assert(spec_items(input@, start as int, count as nat) == SpecItems::Items(
            collected,
            pos as int,
        ));
    }
    if bad {
        return ParseOutcome::Malformed;
    }
    proof {
        assert(bulk_bytes(items@) =~= collected);
    }
    ParseOutcome::Complete(RespValue::Array(items), pos)
}

/// The bulk-string texts of a value list, in order; other values are
/// dropped.
pub open spec fn bulk_args(items: Seq<RespValue>) -> Seq<Seq<char>>
    decreases items.len(),
{
    if items.len() == 0 {
        Seq::<Seq<char>>::empty()
    } else {
        let rest = bulk_args(items.drop_last());
        match items.last() {
            RespValue::BulkString(s) => rest.push(s@),
            RespValue::Array(_) => rest,
        }
    }
}

/// Extracts a request's argument tokens: the bulk strings of the array,
/// in order; nested arrays are dropped.
pub fn request_args(items: Vec<RespValue>) -> (r: Vec<String>)
    ensures
        r@.map_values(|s: String| s@) == bulk_args(items@),
{
    let mut r: Vec<String> = Vec::new();
    let mut i: usize = 0;
    proof {
        assert(r@.map_values(|s: String| s@) =~= bulk_args(items@.subrange(0, 0)));
    }
    while i < items.len()
        invariant
            i <= items@.len(),
            r@.map_values(|s: String| s@) == bulk_args(items@.subrange(0, i as int)),
        decreases items@.len() - i,
    {
        proof {
            assert(items@.subrange(0, i + 1).drop_last() =~= items@.subrange(0, i as int));
            assert(items@.subrange(0, i + 1).last() == items@[i as int]);
        }
        let ghost r0 = r@;
        match &items[i] {
            RespValue::BulkString(s) => {
                r.push(s.clone());
                proof {
                    assert(r@.map_values(|s: String| s@) =~= r0.map_values(|s: String| s@).push(
                        items@[i as int]->BulkString_0@,
                    ));
                }
            },
            RespValue::Array(_) => {},
        }
        i += 1;
    }
    proof {
        assert(items@.subrange(0, items@.len() as int) =~= items@);
    }
    r
}

} // verus!
