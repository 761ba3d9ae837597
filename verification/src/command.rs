//! The command layer: a request's tokens become one typed command, and a
//! command executed against the store produces one reply string.
use vstd::prelude::*;

use vstd::utf8::encode_utf8;
use vstd::string::{StrSliceExecFns, StringSliceAdditionalSpecFns};
use crate::digits::{all_digits, dec_val, parse_u64};
use crate::store::{Store, spec_lookup, least_recently_used};
use crate::resp::{encode_simple_string, encode_bulk_string, encode_null, simple_reply, bulk_reply,
    null_reply};
use crate::spec_expiry;

verus! {

/// A supported command: store a value under a key with an optional TTL in
/// seconds, or read a key's value.
pub enum Command {
    Put(String, String, Option<u64>),
    Get(String),
}

/// The uppercase counterpart of an ASCII letter; any other character is
/// unchanged.
pub open spec fn upper_char(c: char) -> char {
    if 'a' <= c && c <= 'z' {
        ((c as u32) - 32) as char
    } else {
        c
    }
}

/// A character sequence folded to ASCII uppercase.
pub open spec fn upper(s: Seq<char>) -> Seq<char> {
    s.map_values(|c: char| upper_char(c))
}

/// The verb that reads a key.
pub open spec fn get_verb_chars() -> Seq<char> {
    seq!['G', 'E', 'T']
}

/// The verb that stores a key.
pub open spec fn set_verb_chars() -> Seq<char> {
    seq!['S', 'E', 'T']
}

/// The word that introduces a TTL argument.
pub open spec fn ex_word_chars() -> Seq<char> {
    seq!['E', 'X']
}

/// True when the token holds a TTL: a non-empty run of decimal digits
/// whose value fits 64 bits.
pub open spec fn ttl_ok(s: Seq<char>) -> bool {
    encode_utf8(s).len() > 0 && all_digits(encode_utf8(s)) && dec_val(encode_utf8(s)) <= u64::MAX
}

/// Compares `s`, folded to ASCII uppercase, with a three-letter word.
fn eq_upper3(s: &str, c0: char, c1: char, c2: char) -> (r: bool)
    requires
        'A' <= c0 <= 'Z',
        'A' <= c1 <= 'Z',
        'A' <= c2 <= 'Z',
    ensures
        r <==> upper(s@) == seq![c0, c1, c2],
{
    if s.unicode_len() != 3 {
        proof {
            assert(upper(s@).len() == s@.len());
        }
        return false;
    }
    let a0 = s.get_char(0);
    let a1 = s.get_char(1);
    let a2 = s.get_char(2);
    let m = char_matches_upper(a0, c0) && char_matches_upper(a1, c1) && char_matches_upper(a2, c2);
    proof {
        if m {
            assert(upper(s@) =~= seq![c0, c1, c2]);
        } else {
            if upper(s@) == seq![c0, c1, c2] {
                assert(upper(s@)[0] == c0 && upper(s@)[1] == c1 && upper(s@)[2] == c2);
            }
        }
    }
    m
}

/// Compares `s`, folded to ASCII uppercase, with a two-letter word.
fn eq_upper2(s: &str, c0: char, c1: char) -> (r: bool)
    requires
        'A' <= c0 <= 'Z',
        'A' <= c1 <= 'Z',
    ensures
        r <==> upper(s@) == seq![c0, c1],
{
    if s.unicode_len() != 2 {
        proof {
            assert(upper(s@).len() == s@.len());
        }
        return false;
    }
    let a0 = s.get_char(0);
    let a1 = s.get_char(1);
    let m = char_matches_upper(a0, c0) && char_matches_upper(a1, c1);
    proof {
        if m {
            assert(upper(s@) =~= seq![c0, c1]);
        } else {
            if upper(s@) == seq![c0, c1] {
                assert(upper(s@)[0] == c0 && upper(s@)[1] == c1);
            }
        }
    }
    m
}

/// True exactly when `c` folds to the uppercase ASCII letter `t`.
fn char_matches_upper(c: char, t: char) -> (r: bool)
    requires
        'A' <= t <= 'Z',
    ensures
        r <==> upper_char(c) == t,
{
    let cu = c as u32;
    let tu = t as u32;
    let m = c == t || cu == tu + 32;
    proof {
        vstd::utf8::char_u32_cast(t, tu);
        if cu == tu + 32 {
            assert('a' <= c && c <= 'z');
            assert(upper_char(c) == ((cu - 32) as char));
            assert((tu as char) == t);
        }
        if m {
            assert(upper_char(c) == t);
        } else {
            if 'a' <= c && c <= 'z' {
                let u = (cu - 32) as u32;
                vstd::utf8::char_u32_cast((u as char), (u as char) as u32);
                assert(u as char != t);
            }
        }
    }
    m
}

impl Command {
    /// Reads a token list as a command. `GET key` and `SET key value`, with
    /// an optional `EX ttl` suffix for `SET`, are accepted; the verbs and
    /// the word `EX` are compared case-insensitively. An empty list, a TTL
    /// that is not a decimal number fitting 64 bits, and any other shape
    /// each fail with their error message.
    pub fn from_vec(args: Vec<String>) -> (r: Result<Command, &'static str>)
        ensures
            ({
                let a = args@;
                match r {
                    Ok(cmd) => match cmd {
                        Command::Get(k) => a.len() == 2 && upper(a[0]@) == get_verb_chars() && k@
                            == a[1]@,
                        Command::Put(key, value, ttl) => a.len() >= 3 && key@ == a[1]@ && value@
                            == a[2]@ && upper(a[0]@) == set_verb_chars() && (match ttl {
                            None => a.len() == 3,
                            Some(t) => a.len() == 5 && upper(a[3]@) == ex_word_chars() && ttl_ok(
                                a[4]@,
                            ) && t as nat == dec_val(encode_utf8(a[4]@)),
                        }),
                    },
                    Err(m) => if a.len() == 0 {
                        m@ == "ERR empty command"@
                    } else if a.len() == 5 && upper(a[0]@) == set_verb_chars() && upper(a[3]@)
                        == ex_word_chars() && !ttl_ok(a[4]@) {
                        m@ == "ERR invalid TTL"@
                    } else {
                        &&& !(a.len() == 2 && upper(a[0]@) == get_verb_chars())
                        &&& !(a.len() == 3 && upper(a[0]@) == set_verb_chars())
                        &&& !(a.len() == 5 && upper(a[0]@) == set_verb_chars() && upper(a[3]@)
                            == ex_word_chars())
                        &&& m@ == "ERR unknown command"@
                    },
                }
            }),
    {
        if args.len() == 0 {
            return Err("ERR empty command");
        }
        let is_get = eq_upper3(args[0].as_str(), 'G', 'E', 'T');
        let is_set = eq_upper3(args[0].as_str(), 'S', 'E', 'T');
        if is_get && args.len() == 2 {
            Ok(Command::Get(args[1].clone()))
        } else if is_set && args.len() == 3 {
            Ok(Command::Put(args[1].clone(), args[2].clone(), None))
        } else if is_set && args.len() == 5 && eq_upper2(args[3].as_str(), 'E', 'X') {
            let t4 = args[4].as_str();
            let t4b = t4.as_bytes();
            proof {
                assert(t4b@ == encode_utf8(args@[4]@));
            }
            match parse_u64(t4b) {
                Some(t) => Ok(Command::Put(args[1].clone(), args[2].clone(), Some(t))),
                None => Err("ERR invalid TTL"),
            }
        } else {
            Err("ERR unknown command")
        }
    }

    /// Executes the command against the store at time `now` and returns the
    /// reply: `OK` for a store, the value or the null marker for a read.
    /// For a store, the caller must already have appended the matching
    /// record durably to the write-ahead log.
    pub fn execute(self, store: &mut Store, now: u64) -> (r: String)
        requires
            old(store).wf(),
        ensures
            final(store).wf(),
            final(store).capacity() == old(store).capacity(),
            match self {
                Command::Put(key, value, ttl) => ({
                    let updated = old(store).contents().insert(
                        key@,
                        (value@, spec_expiry(ttl, now), now),
                    );
                    &&& r@ == simple_reply(seq!['O', 'K'])
                    &&& updated.dom().len() <= old(store).capacity() ==> final(store).contents()
                        == updated
                    &&& updated.dom().len() > old(store).capacity() ==> (exists|victim: Seq<char>|
                        #[trigger] least_recently_used(updated, victim) && final(store).contents()
                            == updated.remove(victim))
                    &&& old(store).contents().dom().len() <= old(store).capacity()
                        ==> final(store).contents().dom().len() <= old(store).capacity()
                }),
                Command::Get(key) => match spec_lookup(old(store).contents(), key@, now) {
                    Some(v) => r@ == bulk_reply(v) && final(store).contents()
                        == old(store).contents().insert(key@, (v, old(store).contents()[key@].1, now)),
                    None => r@ == null_reply() && final(store).contents()
                        == (if old(store).contents().contains_key(key@) {
                        old(store).contents().remove(key@)
                    } else {
                        old(store).contents()
                    }),
                },
            },
    {
        match self {
            Command::Put(key, value, ttl) => {
                store.set(key, value, ttl, now);
                let r = encode_simple_string("OK");
                proof {
                    reveal_strlit("OK");
                    assert("OK"@ =~= seq!['O', 'K']);
                }
                r
            },
            Command::Get(key) => match store.get(key.as_str(), now) {
                Some(val) => encode_bulk_string(val.as_str()),
                None => encode_null(),
            },
        }
    }
}

} // verus!
