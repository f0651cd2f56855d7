//! The wire protocol: a command name on its own line, followed by
//! length-prefixed payloads. Lengths are ASCII decimal, payloads are raw
//! bytes of exactly the declared length, and trailing whitespace is
//! tolerated.

use vstd::prelude::*;

verus! {

use crate::keydir::bytes_eq;
use vstd::slice::{slice_subrange, slice_to_vec};

/// The request could not be parsed.
pub struct ParseError;

/// One request against the store.
pub enum Command {
    Put((Vec<u8>, Vec<u8>)),
    Get(Vec<u8>),
    Delete(Vec<u8>),
    Merge,
}

/// The mathematical content of a `Command`.
pub enum CommandV {
    Put(Seq<u8>, Seq<u8>),
    Get(Seq<u8>),
    Delete(Seq<u8>),
    Merge,
}

impl View for Command {
    type V = CommandV;

    open spec fn view(&self) -> CommandV {
        match self {
            Command::Put((k, v)) => CommandV::Put(k@, v@),
            Command::Get(k) => CommandV::Get(k@),
            Command::Delete(k) => CommandV::Delete(k@),
            Command::Merge => CommandV::Merge,
        }
    }
}

/// The whitespace bytes the protocol tolerates: space, tab, carriage
/// return, newline.
pub open spec fn is_ws(b: u8) -> bool {
    b == 32 || b == 9 || b == 13 || b == 10
}

/// Whether everything from `from` on is whitespace.
pub open spec fn all_ws(s: Seq<u8>, from: int) -> bool {
    forall|x: int| from <= x < s.len() ==> is_ws(#[trigger] s[x])
}

/// A line ending: `\n` or `\r\n`.
pub open spec fn spec_line_ending(s: Seq<u8>, pos: int) -> Option<int> {
    if 0 <= pos < s.len() && s[pos] == 10 {
        Some(pos + 1)
    } else if 0 <= pos && pos + 2 <= s.len() && s[pos] == 13 && s[pos + 1] == 10 {
        Some(pos + 2)
    } else {
        None
    }
}

pub open spec fn is_digit(b: u8) -> bool {
    48 <= b <= 57
}

/// Where the run of decimal digits starting at `pos` ends.
pub open spec fn digits_end(s: Seq<u8>, pos: int) -> int
    decreases s.len() - pos,
    when 0 <= pos <= s.len()
{
    if pos < s.len() && is_digit(s[pos]) {
        digits_end(s, pos + 1)
    } else {
        pos
    }
}

/// The value of the digits in `[pos, end)`.
pub open spec fn dec_value(s: Seq<u8>, pos: int, end: int) -> int
    decreases end - pos,
{
    if pos >= end {
        0
    } else {
        dec_value(s, pos, end - 1) * 10 + (s[end - 1] - 48)
    }
}

/// A decimal `u64`: at least one digit, and the whole digit run must fit.
pub open spec fn spec_u64_at(s: Seq<u8>, pos: int) -> Option<(u64, int)> {
    if 0 <= pos <= s.len() {
        let end = digits_end(s, pos);
        if end > pos && dec_value(s, pos, end) <= u64::MAX {
            Some((dec_value(s, pos, end) as u64, end))
        } else {
            None
        }
    } else {
        None
    }
}

/// A literal.
pub open spec fn spec_tag(s: Seq<u8>, pos: int, t: Seq<u8>) -> Option<int> {
    if 0 <= pos && pos + t.len() <= s.len() && s.subrange(pos, pos + t.len()) == t {
        Some(pos + t.len())
    } else {
        None
    }
}

/// Exactly `n` payload bytes.
pub open spec fn spec_take(s: Seq<u8>, pos: int, n: u64) -> Option<(Seq<u8>, int)> {
    if 0 <= pos && pos + n <= s.len() {
        Some((s.subrange(pos, pos + n), pos + n))
    } else {
        None
    }
}

pub open spec fn tag_get() -> Seq<u8> {
    seq![103u8, 101u8, 116u8]
}

pub open spec fn tag_set() -> Seq<u8> {
    seq![115u8, 101u8, 116u8]
}

pub open spec fn tag_delete() -> Seq<u8> {
    seq![100u8, 101u8, 108u8, 101u8, 116u8, 101u8]
}

pub open spec fn tag_merge() -> Seq<u8> {
    seq![109u8, 101u8, 114u8, 103u8, 101u8]
}

/// `get\r\n<len>\r\n<key>`: the parsed key and the position after it.
pub open spec fn spec_parse_get(s: Seq<u8>) -> Option<(Seq<u8>, int)> {
    match spec_tag(s, 0, tag_get()) {
        None => None,
        Some(p1) => match spec_line_ending(s, p1) {
            None => None,
            Some(p2) => match spec_u64_at(s, p2) {
                None => None,
                Some((n, p3)) => match spec_line_ending(s, p3) {
                    None => None,
                    Some(p4) => spec_take(s, p4, n),
                },
            },
        },
    }
}

/// `set\r\n<klen>\r\n<key>\r\n<vlen>\r\n<value>` followed by whitespace
/// only.
pub open spec fn spec_parse_set(s: Seq<u8>) -> Option<(Seq<u8>, Seq<u8>)> {
    match spec_tag(s, 0, tag_set()) {
        None => None,
        Some(p1) => match spec_line_ending(s, p1) {
            None => None,
            Some(p2) => match spec_u64_at(s, p2) {
                None => None,
                Some((n, p3)) => match spec_line_ending(s, p3) {
                    None => None,
                    Some(p4) => match spec_take(s, p4, n) {
                        None => None,
                        Some((k, p5)) => match spec_line_ending(s, p5) {
                            None => None,
                            Some(p6) => match spec_u64_at(s, p6) {
                                None => None,
                                Some((m, p7)) => match spec_line_ending(s, p7) {
                                    None => None,
                                    Some(p8) => match spec_take(s, p8, m) {
                                        None => None,
                                        Some((v, p9)) => if all_ws(s, p9) {
                                            Some((k, v))
                                        } else {
                                            None
                                        },
                                    },
                                },
                            },
                        },
                    },
                },
            },
        },
    }
}

/// `delete\r\n<len>\r\n<key>` followed by whitespace only.
pub open spec fn spec_parse_delete(s: Seq<u8>) -> Option<Seq<u8>> {
    match spec_tag(s, 0, tag_delete()) {
        None => None,
        Some(p1) => match spec_line_ending(s, p1) {
            None => None,
            Some(p2) => match spec_u64_at(s, p2) {
                None => None,
                Some((n, p3)) => match spec_line_ending(s, p3) {
                    None => None,
                    Some(p4) => match spec_take(s, p4, n) {
                        None => None,
                        Some((k, p5)) => if all_ws(s, p5) {
                            Some(k)
                        } else {
                            None
                        },
                    },
                },
            },
        },
    }
}

/// `merge` followed by whitespace only.
pub open spec fn spec_parse_merge(s: Seq<u8>) -> bool {
    match spec_tag(s, 0, tag_merge()) {
        None => false,
        Some(p1) => all_ws(s, p1),
    }
}

/// The whole grammar: the alternatives in order, with trailing whitespace
/// tolerated. A `get` that leaves non-whitespace behind fails the request
/// rather than falling through to the other forms.
pub open spec fn spec_parse(s: Seq<u8>) -> Option<CommandV> {
    match spec_parse_get(s) {
        Some((k, p)) => if all_ws(s, p) {
            Some(CommandV::Get(k))
        } else {
            None
        },
        None => match spec_parse_set(s) {
            Some((k, v)) => Some(CommandV::Put(k, v)),
            None => match spec_parse_delete(s) {
                Some(k) => Some(CommandV::Delete(k)),
                None => if spec_parse_merge(s) {
                    Some(CommandV::Merge)
                } else {
                    None
                },
            },
        },
    }
}

/// The digit run's value only grows as it extends.
proof fn lemma_dec_value_grows(s: Seq<u8>, pos: int, a: int, b: int)
    requires
        pos <= a <= b,
        forall|x: int| pos <= x < b ==> is_digit(#[trigger] s[x]),
    ensures
        dec_value(s, pos, a) <= dec_value(s, pos, b),
    decreases b - a,
{
    if a < b {
        lemma_dec_value_grows(s, pos, a, b - 1);
        lemma_dec_value_nonneg(s, pos, b - 1);
        assert(dec_value(s, pos, b) == dec_value(s, pos, b - 1) * 10 + (s[b - 1] - 48));
        assert(dec_value(s, pos, b - 1) * 10 >= dec_value(s, pos, b - 1)) by (nonlinear_arith)
            requires
                dec_value(s, pos, b - 1) >= 0,
        ;
    }
}

/// Digit values are never negative.
proof fn lemma_dec_value_nonneg(s: Seq<u8>, pos: int, end: int)
    requires
        forall|x: int| pos <= x < end ==> is_digit(#[trigger] s[x]),
    ensures
        dec_value(s, pos, end) >= 0,
    decreases end - pos,
{
    if pos < end {
        lemma_dec_value_nonneg(s, pos, end - 1);
        assert(dec_value(s, pos, end - 1) * 10 >= 0) by (nonlinear_arith)
            requires
                dec_value(s, pos, end - 1) >= 0,
        ;
    }
}

/// Where a digit run known to stop at `i` ends.
proof fn lemma_digits_end(s: Seq<u8>, pos: int, i: int)
    requires
        0 <= pos <= i <= s.len(),
        forall|x: int| pos <= x < i ==> is_digit(#[trigger] s[x]),
        i == s.len() || !is_digit(s[i]),
    ensures
        digits_end(s, pos) == i,
    decreases i - pos,
{
    if pos < i {
        lemma_digits_end(s, pos + 1, i);
    }
}

/// A line ending, executably.
fn line_ending(s: &[u8], pos: usize) -> (r: Option<usize>)
    requires
        pos <= s@.len(),
    ensures
        match r {
            Some(p) => spec_line_ending(s@, pos as int) == Some(p as int) && pos < p <= s@.len(),
            None => spec_line_ending(s@, pos as int) is None,
        },
{
    if pos < s.len() && *vstd::slice::slice_index_get(s, pos) == 10 {
        Some(pos + 1)
    } else if s.len() - pos >= 2 && *vstd::slice::slice_index_get(s, pos) == 13
        && *vstd::slice::slice_index_get(s, pos + 1) == 10 {
        Some(pos + 2)
    } else {
        None
    }
}

/// A decimal `u64`, executably.
fn parse_u64_at(s: &[u8], pos: usize) -> (r: Option<(u64, usize)>)
    requires
        pos <= s@.len(),
    ensures
        match r {
            Some((n, p)) => spec_u64_at(s@, pos as int) == Some((n, p as int)) && pos < p
                <= s@.len(),
            None => spec_u64_at(s@, pos as int) is None,
        },
{
    let n = s.len();
    if pos >= n || !byte_is_digit(*vstd::slice::slice_index_get(s, pos)) {
        proof {
            if pos < n {
                lemma_digits_end(s@, pos as int, pos as int);
            }
        }
        return None;
    }
    let mut i: usize = pos;
    let mut acc: u64 = 0;
    while i < n && byte_is_digit(*vstd::slice::slice_index_get(s, i))
        invariant
            pos <= i <= n,
            n == s@.len(),
            forall|x: int| pos <= x < i ==> is_digit(#[trigger] s@[x]),
            acc == dec_value(s@, pos as int, i as int),
        decreases n - i,
    {
        let d: u64 = (*vstd::slice::slice_index_get(s, i) - 48) as u64;
        if acc > (u64::MAX - d) / 10 {
            proof {
                assert((acc as int) * 10 + d > u64::MAX) by (nonlinear_arith)
                    requires
                        acc > ((u64::MAX as int) - d) / 10,
                        0 <= d <= 9,
                        acc >= 0,
                ;
                assert(dec_value(s@, pos as int, i + 1) == (acc as int) * 10 + d);
                let ghost e = digits_end(s@, pos as int);
                assert(is_digit(s@[i as int]));
                lemma_digits_run(s@, pos as int, i + 1);
                lemma_dec_value_grows(s@, pos as int, i + 1, e);
                assert(dec_value(s@, pos as int, e) > u64::MAX);
            }
            return None;
        }
        acc = acc * 10 + d;
        proof {
            assert(dec_value(s@, pos as int, i + 1) == dec_value(s@, pos as int, i as int) * 10 + (
            s@[i as int] - 48));
        }
        i += 1;
    }
    proof {
        lemma_digits_end(s@, pos as int, i as int);
    }
    Some((acc, i))
}

/// A digit test on one byte.
fn byte_is_digit(b: u8) -> (r: bool)
    ensures
        r == is_digit(b),
{
    48 <= b && b <= 57
}

/// The digit run from `pos` extends at least to `upto`, so the run's end
/// is at or past it.
proof fn lemma_digits_run(s: Seq<u8>, pos: int, upto: int)
    requires
        0 <= pos <= upto <= s.len(),
        forall|x: int| pos <= x < upto ==> is_digit(#[trigger] s[x]),
    ensures
        digits_end(s, pos) >= upto,
        forall|x: int| pos <= x < digits_end(s, pos) ==> is_digit(#[trigger] s[x]),
        pos <= digits_end(s, pos) <= s.len(),
    decreases s.len() - pos,
{
    if pos < s.len() && is_digit(s[pos]) {
        if pos < upto {
            lemma_digits_run(s, pos + 1, upto);
        } else {
            lemma_digits_run(s, pos + 1, pos + 1);
        }
    }
}

/// A literal, executably.
fn tag_at(s: &[u8], pos: usize, t: &[u8]) -> (r: Option<usize>)
    requires
        pos <= s@.len(),
    ensures
        match r {
            Some(p) => spec_tag(s@, pos as int, t@) == Some(p as int) && pos <= p <= s@.len(),
            None => spec_tag(s@, pos as int, t@) is None,
        },
{
    if s.len() - pos < t.len() {
        return None;
    }
    let end = pos + t.len();
    if bytes_eq(slice_subrange(s, pos, end), t) {
        Some(end)
    } else {
        None
    }
}

/// Exactly `n` payload bytes, executably.
fn take_at(s: &[u8], pos: usize, n: u64) -> (r: Option<(Vec<u8>, usize)>)
    requires
        pos <= s@.len(),
    ensures
        match r {
            Some((k, p)) => spec_take(s@, pos as int, n) matches Some((ks, ps)) && k@ == ks && p
                == ps && pos <= p <= s@.len(),
            None => spec_take(s@, pos as int, n) is None,
        },
{
    if (n as u128) > (s.len() - pos) as u128 {
        return None;
    }
    let end = pos + (n as usize);
    Some((slice_to_vec(slice_subrange(s, pos, end)), end))
}

/// Whether everything from `pos` on is whitespace, executably.
fn ws_from(s: &[u8], pos: usize) -> (r: bool)
    requires
        pos <= s@.len(),
    ensures
        r == all_ws(s@, pos as int),
{
    let n = s.len();
    let mut i: usize = pos;
    while i < n
        invariant
            pos <= i <= n,
            n == s@.len(),
            forall|x: int| pos <= x < i ==> is_ws(#[trigger] s@[x]),
        decreases n - i,
    {
        let b = *vstd::slice::slice_index_get(s, i);
        if !(b == 32 || b == 9 || b == 13 || b == 10) {
            proof {
                assert(!is_ws(s@[i as int]));
            }
            return false;
        }
        i += 1;
    }
    true
}

/// The byte string of the `get` keyword.
fn get_tag() -> (r: Vec<u8>)
    ensures
        r@ == tag_get(),
{
    let mut v: Vec<u8> = Vec::new();
    v.push(103);
    v.push(101);
    v.push(116);
    proof {
        assert(v@ =~= tag_get());
    }
    v
}

/// The byte string of the `set` keyword.
fn set_tag() -> (r: Vec<u8>)
    ensures
        r@ == tag_set(),
{
    let mut v: Vec<u8> = Vec::new();
    v.push(115);
    v.push(101);
    v.push(116);
    proof {
        assert(v@ =~= tag_set());
    }
    v
}

/// The byte string of the `delete` keyword.
fn delete_tag() -> (r: Vec<u8>)
    ensures
        r@ == tag_delete(),
{
    let mut v: Vec<u8> = Vec::new();
    v.push(100);
    v.push(101);
    v.push(108);
    v.push(101);
    v.push(116);
    v.push(101);
    proof {
        assert(v@ =~= tag_delete());
    }
    v
}

/// The byte string of the `merge` keyword.
fn merge_tag() -> (r: Vec<u8>)
    ensures
        r@ == tag_merge(),
{
    let mut v: Vec<u8> = Vec::new();
    v.push(109);
    v.push(101);
    v.push(114);
    v.push(103);
    v.push(101);
    proof {
        assert(v@ =~= tag_merge());
    }
    v
}

/// Parse a `get` request.
fn parse_get(s: &[u8]) -> (r: Option<(Vec<u8>, usize)>)
    ensures
        match r {
            Some((k, p)) => spec_parse_get(s@) matches Some((ks, ps)) && k@ == ks && p == ps && p
                <= s@.len(),
            None => spec_parse_get(s@) is None,
        },
{
    let t = get_tag();
    let p1 = match tag_at(s, 0, t.as_slice()) {
        Some(p) => p,
        None => {
            return None;
        },
    };
    let p2 = match line_ending(s, p1) {
        Some(p) => p,
        None => {
            return None;
        },
    };
    let (n, p3) = match parse_u64_at(s, p2) {
        Some(x) => x,
        None => {
            return None;
        },
    };
    let p4 = match line_ending(s, p3) {
        Some(p) => p,
        None => {
            return None;
        },
    };
    match take_at(s, p4, n) {
        Some((k, p5)) => Some((k, p5)),
        None => None,
    }
}

/// Parse a `set` request.
fn parse_set(s: &[u8]) -> (r: Option<(Vec<u8>, Vec<u8>)>)
    ensures
        match r {
            Some((k, v)) => spec_parse_set(s@) matches Some((ks, vs)) && k@ == ks && v@ == vs,
            None => spec_parse_set(s@) is None,
        },
{
    let t = set_tag();
    let p1 = match tag_at(s, 0, t.as_slice()) {
        Some(p) => p,
        None => {
            return None;
        },
    };
    let p2 = match line_ending(s, p1) {
        Some(p) => p,
        None => {
            return None;
        },
    };
    let (n, p3) = match parse_u64_at(s, p2) {
        Some(x) => x,
        None => {
            return None;
        },
    };
    let p4 = match line_ending(s, p3) {
        Some(p) => p,
        None => {
            return None;
        },
    };
    let (k, p5) = match take_at(s, p4, n) {
        Some(x) => x,
        None => {
            return None;
        },
    };
    let p6 = match line_ending(s, p5) {
        Some(p) => p,
        None => {
            return None;
        },
    };
    let (m, p7) = match parse_u64_at(s, p6) {
        Some(x) => x,
        None => {
            return None;
        },
    };
    let p8 = match line_ending(s, p7) {
        Some(p) => p,
        None => {
            return None;
        },
    };
    let (v, p9) = match take_at(s, p8, m) {
        Some(x) => x,
        None => {
            return None;
        },
    };
    if ws_from(s, p9) {
        Some((k, v))
    } else {
        None
    }
}

/// Parse a `delete` request.
fn parse_delete(s: &[u8]) -> (r: Option<Vec<u8>>)
    ensures
        match r {
            Some(k) => spec_parse_delete(s@) matches Some(ks) && k@ == ks,
            None => spec_parse_delete(s@) is None,
        },
{
    let t = delete_tag();
    let p1 = match tag_at(s, 0, t.as_slice()) {
        Some(p) => p,
        None => {
            return None;
        },
    };
    let p2 = match line_ending(s, p1) {
        Some(p) => p,
        None => {
            return None;
        },
    };
    let (n, p3) = match parse_u64_at(s, p2) {
        Some(x) => x,
        None => {
            return None;
        },
    };
    let p4 = match line_ending(s, p3) {
        Some(p) => p,
        None => {
            return None;
        },
    };
    let (k, p5) = match take_at(s, p4, n) {
        Some(x) => x,
        None => {
            return None;
        },
    };
    if ws_from(s, p5) {
        Some(k)
    } else {
        None
    }
}

/// Parse a `merge` request.
fn parse_merge(s: &[u8]) -> (r: bool)
    ensures
        r == spec_parse_merge(s@),
{
    let t = merge_tag();
    match tag_at(s, 0, t.as_slice()) {
        Some(p1) => ws_from(s, p1),
        None => false,
    }
}

/// Parse one request. `Err(ParseError)` exactly when the input matches
/// none of the four request forms.
pub fn parse(input: &[u8]) -> (r: Result<Command, ParseError>)
    ensures
        match r {
            Ok(c) => spec_parse(input@) == Some(c@),
            Err(_) => spec_parse(input@) is None,
        },
{
    match parse_get(input) {
        Some((k, p)) => {
            if ws_from(input, p) {
                Ok(Command::Get(k))
            } else {
                Err(ParseError)
            }
        },
        None => {
            match parse_set(input) {
                Some((k, v)) => Ok(Command::Put((k, v))),
                None => {
                    match parse_delete(input) {
                        Some(k) => Ok(Command::Delete(k)),
                        None => {
                            if parse_merge(input) {
                                Ok(Command::Merge)
                            } else {
                                Err(ParseError)
                            }
                        },
                    }
                },
            }
        },
    }
}

} // verus!
