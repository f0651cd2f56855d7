//! A simple text command parser: tokens split on spaces, with `get` and
//! `set` keywords. Tokens that are not valid UTF-8 are skipped, as are the
//! keywords' own spellings when they head a request.

use vstd::prelude::*;

verus! {

use vstd::slice::{slice_subrange, slice_to_vec};
use vstd::utf8::encode_utf8;

/// The request could not be shaped into a command.
pub struct ParseError;

/// One token of the request text.
pub enum Token {
    Get,
    Put,
    Simple(String),
}

/// A lookup request.
pub struct Get(pub String);

/// A write request.
pub struct Put {
    pub key: String,
    pub val: String,
}

/// A parsed command.
pub enum Command {
    Get(Get),
    Put(Put),
}

/// The index of the first space at or after `pos`, or the end.
pub open spec fn space_end(s: Seq<u8>, pos: int) -> int
    decreases s.len() - pos,
    when 0 <= pos <= s.len()
{
    if pos < s.len() && s[pos] != 32 {
        space_end(s, pos + 1)
    } else {
        pos
    }
}

/// The first space lies between `pos` and the end.
pub proof fn lemma_space_end_bounds(s: Seq<u8>, pos: int)
    requires
        0 <= pos <= s.len(),
    ensures
        pos <= space_end(s, pos) <= s.len(),
    decreases s.len() - pos,
{
    if pos < s.len() && s[pos] != 32 {
        lemma_space_end_bounds(s, pos + 1);
    }
}

/// The byte segments between spaces, as a buffered split yields them: the
/// delimiter is dropped, and a final empty segment is not reported.
pub open spec fn spec_segments(s: Seq<u8>, pos: int) -> Seq<Seq<u8>>
    decreases s.len() - pos,
    when 0 <= pos <= s.len()
    via spec_segments_dec
{
    if pos >= s.len() {
        Seq::empty()
    } else {
        let e = space_end(s, pos);
        if e < s.len() {
            seq![s.subrange(pos, e)] + spec_segments(s, e + 1)
        } else {
            seq![s.subrange(pos, e)]
        }
    }
}

#[via_fn]
proof fn spec_segments_dec(s: Seq<u8>, pos: int) {
    if 0 <= pos && pos < s.len() {
        lemma_space_end_bounds(s, pos);
    }
}

/// The whitespace bytes trimmed from a token's ends.
pub open spec fn is_tws(b: u8) -> bool {
    b == 9 || b == 10 || b == 11 || b == 12 || b == 13 || b == 32
}

/// The first non-whitespace index at or after `i`.
pub open spec fn tstart(b: Seq<u8>, i: int) -> int
    decreases b.len() - i,
    when 0 <= i <= b.len()
{
    if i < b.len() && is_tws(b[i]) {
        tstart(b, i + 1)
    } else {
        i
    }
}

/// The end of the last non-whitespace run ending at or before `i`.
pub open spec fn tend(b: Seq<u8>, i: int) -> int
    decreases i,
    when 0 <= i <= b.len()
{
    if i > 0 && is_tws(b[i - 1]) {
        tend(b, i - 1)
    } else {
        i
    }
}

/// A token with its whitespace ends removed.
pub open spec fn trim_ascii(b: Seq<u8>) -> Seq<u8> {
    if tstart(b, 0) >= tend(b, b.len() as int) {
        Seq::empty()
    } else {
        b.subrange(tstart(b, 0), tend(b, b.len() as int))
    }
}

/// Whether some character sequence encodes to exactly these bytes.
pub open spec fn utf8_ok(b: Seq<u8>) -> bool {
    exists|cs: Seq<char>| encode_utf8(cs) == b
}

pub open spec fn kw_get() -> Seq<u8> {
    seq![103u8, 101u8, 116u8]
}

pub open spec fn kw_set() -> Seq<u8> {
    seq![115u8, 101u8, 116u8]
}

/// How one segment tokenizes.
pub enum SegKind {
    KeywordGet,
    KeywordPut,
    Plain,
    Skipped,
}

/// Classify one segment: the two keywords, a decodable plain token, or a
/// skipped undecodable one.
pub open spec fn seg_kind(b: Seq<u8>) -> SegKind {
    if b == kw_get() {
        SegKind::KeywordGet
    } else if b == kw_set() {
        SegKind::KeywordPut
    } else if utf8_ok(trim_ascii(b)) {
        SegKind::Plain
    } else {
        SegKind::Skipped
    }
}

/// The segments that yield tokens, in order.
pub open spec fn kept_segs(segs: Seq<Seq<u8>>) -> Seq<Seq<u8>>
    decreases segs.len(),
{
    if segs.len() == 0 {
        Seq::empty()
    } else {
        kept_segs(segs.drop_last()) + (if seg_kind(segs.last()) is Skipped {
            Seq::empty()
        } else {
            seq![segs.last()]
        })
    }
}

/// The kept segments of the whole input.
pub open spec fn spec_kept(s: Seq<u8>) -> Seq<Seq<u8>> {
    kept_segs(spec_segments(s, 0))
}

/// Whether the tokens shape a `get` command.
pub open spec fn get_shape(s: Seq<u8>) -> bool {
    let kept = spec_kept(s);
    kept.len() == 2 && seg_kind(kept[0]) is KeywordGet && seg_kind(kept[1]) is Plain
}

/// Whether the tokens shape a `set` command.
pub open spec fn put_shape(s: Seq<u8>) -> bool {
    let kept = spec_kept(s);
    kept.len() == 3 && seg_kind(kept[0]) is KeywordPut && seg_kind(kept[1]) is Plain && seg_kind(
        kept[2],
    ) is Plain
}

/// Whether a token matches a segment: keywords for their spellings, and a
/// plain token whose text encodes to the segment's trimmed bytes.
pub open spec fn token_matches(t: Token, b: Seq<u8>) -> bool {
    match t {
        Token::Get => b == kw_get(),
        Token::Put => b == kw_set(),
        Token::Simple(st) => seg_kind(b) is Plain && encode_utf8(st@) == trim_ascii(b),
    }
}

/// Relies on `String::from_utf8`: `Ok` exactly when the bytes are valid
/// UTF-8, in which case the string's UTF-8 encoding is the input bytes.
#[verifier::external_body]
fn bytes_to_string(v: Vec<u8>) -> (r: Option<String>)
    ensures
        match r {
            Some(st) => encode_utf8(st@) == v@,
            None => !utf8_ok(v@),
        },
{
    String::from_utf8(v).ok()
}

/// Trim ASCII whitespace from both ends of a token.
fn trim_bytes(b: &[u8]) -> (r: Vec<u8>)
    ensures
        r@ == trim_ascii(b@),
{
    let n = b.len();
    let mut lo: usize = 0;
    while lo < n && tws_byte(*vstd::slice::slice_index_get(b, lo))
        invariant
            0 <= lo <= n,
            n == b@.len(),
            tstart(b@, 0) == tstart(b@, lo as int),
        decreases n - lo,
    {
        lo += 1;
    }
    proof {
        assert(tstart(b@, lo as int) == lo);
    }
    let mut hi: usize = n;
    while hi > 0 && tws_byte(*vstd::slice::slice_index_get(b, hi - 1))
        invariant
            0 <= hi <= n,
            n == b@.len(),
            tend(b@, n as int) == tend(b@, hi as int),
        decreases hi,
    {
        hi -= 1;
    }
    proof {
        assert(tend(b@, hi as int) == hi);
    }
    if lo >= hi {
        proof {
            assert(trim_ascii(b@) =~= Seq::<u8>::empty());
        }
        Vec::new()
    } else {
        slice_to_vec(slice_subrange(b, lo, hi))
    }
}

/// A whitespace test on one byte.
fn tws_byte(b: u8) -> (r: bool)
    ensures
        r == is_tws(b),
{
    b == 9 || b == 10 || b == 11 || b == 12 || b == 13 || b == 32
}

/// Classify and decode one segment.
fn parse_token(bytes: Vec<u8>) -> (r: Option<Token>)
    ensures
        match r {
            Some(t) => !(seg_kind(bytes@) is Skipped) && token_matches(t, bytes@),
            None => seg_kind(bytes@) is Skipped,
        },
{
    if bytes.len() == 3 {
        let b0 = *vstd::slice::slice_index_get(bytes.as_slice(), 0);
        let b1 = *vstd::slice::slice_index_get(bytes.as_slice(), 1);
        let b2 = *vstd::slice::slice_index_get(bytes.as_slice(), 2);
        if b0 == 103 && b1 == 101 && b2 == 116 {
            proof {
                assert(bytes@ =~= kw_get());
            }
            return Some(Token::Get);
        }
        if b0 == 115 && b1 == 101 && b2 == 116 {
            proof {
                assert(bytes@ =~= kw_set());
            }
            return Some(Token::Put);
        }
        proof {
            assert(bytes@ != kw_get() && bytes@ != kw_set());
        }
    } else {
        proof {
            assert(bytes@ != kw_get() && bytes@ != kw_set());
        }
    }
    let trimmed = trim_bytes(bytes.as_slice());
    match bytes_to_string(trimmed) {
        Some(st) => Some(Token::Simple(st)),
        None => None,
    }
}

/// Split the input on spaces and tokenize each kept segment.
pub fn parse_tokens(input: &[u8]) -> (r: Vec<Token>)
    ensures
        r@.len() == spec_kept(input@).len(),
        forall|i: int|
            0 <= i < r@.len() ==> token_matches(#[trigger] r@[i], spec_kept(input@)[i]),
{
    let ghost segs = spec_segments(input@, 0);
    let mut tokens: Vec<Token> = Vec::new();
    let n = input.len();
    let mut pos: usize = 0;
    let ghost mut done: Seq<Seq<u8>> = Seq::empty();
    proof {
        assert(kept_segs(done) =~= Seq::<Seq<u8>>::empty());
        assert(done + spec_segments(input@, 0) =~= segs);
    }
    while pos < n
        invariant
            0 <= pos <= n,
            n == input@.len(),
            segs == spec_segments(input@, 0),
            done + spec_segments(input@, pos as int) == segs,
            tokens@.len() == kept_segs(done).len(),
            forall|i: int|
                0 <= i < tokens@.len() ==> token_matches(#[trigger] tokens@[i], kept_segs(done)[i]),
        decreases n - pos,
    {
        let mut e: usize = pos;
        while e < n && *vstd::slice::slice_index_get(input, e) != 32
            invariant
                pos <= e <= n,
                n == input@.len(),
                space_end(input@, pos as int) == space_end(input@, e as int),
            decreases n - e,
        {
            e += 1;
        }
        proof {
            assert(space_end(input@, e as int) == e);
        }
        let seg = slice_to_vec(slice_subrange(input, pos, e));
        let ghost segv = seg@;
        let t = parse_token(seg);
        proof {
            assert(spec_segments(input@, pos as int) == (if e < n {
                seq![segv] + spec_segments(input@, e + 1)
            } else {
                seq![segv]
            }));
        }
        match t {
            Some(t) => {
                tokens.push(t);
            },
            None => {},
        }
        proof {
            let done1 = done.push(segv);
            assert(done1.drop_last() =~= done);
            assert(kept_segs(done1) == kept_segs(done) + (if seg_kind(segv) is Skipped {
                Seq::<Seq<u8>>::empty()
            } else {
                seq![segv]
            }));
            if !(seg_kind(segv) is Skipped) {
                assert(kept_segs(done1) =~= kept_segs(done).push(segv));
            } else {
                assert(kept_segs(done1) =~= kept_segs(done));
            }
            done = done1;
            if (e as int) < n {
                assert(done + spec_segments(input@, e + 1) =~= segs);
            } else {
                assert(spec_segments(input@, n as int) =~= Seq::<Seq<u8>>::empty());
                assert(done + spec_segments(input@, n as int) =~= segs);
            }
        }
        if e < n {
            pos = e + 1;
        } else {
            pos = n;
        }
    }
    proof {
        assert(spec_segments(input@, n as int) =~= Seq::<Seq<u8>>::empty());
        assert(done =~= segs);
    }
    tokens
}

/// Parse a command: `get <key>` or `set <key> <value>`, after skipping
/// undecodable tokens. `Err(ParseError)` exactly when the kept tokens
/// shape neither form.
pub fn parse(input: &[u8]) -> (r: Result<Command, ParseError>)
    ensures
        match r {
            Ok(c) => match c {
                Command::Get(g) => get_shape(input@) && encode_utf8(g.0@) == trim_ascii(
                    spec_kept(input@)[1],
                ),
                Command::Put(p) => put_shape(input@) && encode_utf8(p.key@) == trim_ascii(
                    spec_kept(input@)[1],
                ) && encode_utf8(p.val@) == trim_ascii(spec_kept(input@)[2]),
            },
            Err(_) => !get_shape(input@) && !put_shape(input@),
        },
{
    let mut tokens = parse_tokens(input);
    let ghost toks0 = tokens@;
    let ghost kept = spec_kept(input@);
    if tokens.len() == 2 {
        let second = tokens.pop().unwrap();
        let first = tokens.pop().unwrap();
        proof {
            assert(first == toks0[0] && second == toks0[1]);
            assert(token_matches(toks0[0], kept[0]) && token_matches(toks0[1], kept[1]));
        }
        match (first, second) {
            (Token::Get, Token::Simple(s)) => {
                return Ok(Command::Get(Get(s)));
            },
            _ => {
                return Err(ParseError);
            },
        }
    }
    if tokens.len() == 3 {
        let third = tokens.pop().unwrap();
        let second = tokens.pop().unwrap();
        let first = tokens.pop().unwrap();
        proof {
            assert(first == toks0[0] && second == toks0[1] && third == toks0[2]);
            assert(token_matches(toks0[0], kept[0]) && token_matches(toks0[1], kept[1])
                && token_matches(toks0[2], kept[2]));
        }
        match (first, second, third) {
            (Token::Put, Token::Simple(k), Token::Simple(v)) => {
                return Ok(Command::Put(Put { key: k, val: v }));
            },
            _ => {
                return Err(ParseError);
            },
        }
    }
    Err(ParseError)
}

} // verus!
