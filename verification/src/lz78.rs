//! Incremental-dictionary codec, terminated variant.
//!
//! Identical trie mechanics to the plain variant, except literal payloads
//! are wrapped in a token so a distinguished end-of-input token can be
//! represented: at the final input byte the encoder emits `EOF(Some(byte))`
//! in place of an ordinary literal, or — when the final byte extended an
//! existing match — appends a closing entry carrying `EOF(None)`, so the
//! last unmatched run is closed without a redundant sentinel. The decoder
//! treats both end tokens as literal contributions before continuing the
//! same parent-walk-and-reverse reconstruction.
use vstd::prelude::*;

use crate::DecodeError;

verus! {

/// A payload token: an ordinary literal byte, or the end-of-input marker
/// carrying zero or one trailing byte.
#[derive(PartialEq, Debug, Clone, Copy)]
pub enum Token {
    Literal(u8),
    EOF(Option<u8>),
}

/// One dictionary entry: a parent index into the same sequence and an
/// optional payload token. Index 0 is the root sentinel `Block(0, None)`.
#[derive(PartialEq, Debug, Clone, Copy)]
pub struct Block(pub usize, pub Option<Token>);

/// The byte a token contributes to the path it ends: an `EOF` token carrying
/// no byte contributes nothing.
pub open spec fn token_byte(t: Token) -> Option<u8> {
    match t {
        Token::Literal(b) => Some(b),
        Token::EOF(o) => o,
    }
}

/// Every non-root entry points at a strictly earlier entry, so parent walks
/// terminate.
pub open spec fn parents_decrease(d: Seq<Block>) -> bool {
    forall|i: int| 1 <= i < d.len() ==> (#[trigger] d[i].0) < i
}

/// The byte string labeling the path from the root to entry `i`, or `None`
/// if some parent index along the walk does not refer to a strictly earlier
/// entry. The root contributes nothing and its stored fields are never read.
pub open spec fn entry_path(d: Seq<Block>, i: int) -> Option<Seq<u8>>
    decreases i,
{
    if i <= 0 {
        Some(Seq::empty())
    } else if i < d.len() && d[i].0 < i {
        match entry_path(d, d[i].0 as int) {
            None => None,
            Some(p) => match d[i].1 {
                Some(t) => match token_byte(t) {
                    Some(b) => Some(p.push(b)),
                    None => Some(p),
                },
                None => Some(p),
            },
        }
    } else {
        None
    }
}

/// The concatenation of the path strings of entries `1 .. n`, or `None` if
/// any of them is invalid.
pub open spec fn decoded_prefix(d: Seq<Block>, n: int) -> Option<Seq<u8>>
    decreases n,
{
    if n <= 1 {
        Some(Seq::empty())
    } else {
        match (decoded_prefix(d, n - 1), entry_path(d, n - 1)) {
            (Some(acc), Some(p)) => Some(acc + p),
            _ => None,
        }
    }
}

/// The byte sequence a dictionary decodes to: every entry after the root, in
/// creation order, contributes its full path string.
pub open spec fn decoded(d: Seq<Block>) -> Option<Seq<u8>> {
    decoded_prefix(d, d.len() as int)
}

/// Appending an entry leaves the paths of existing entries unchanged.
proof fn lemma_entry_path_push(d: Seq<Block>, e: Block, i: int)
    requires
        0 <= i < d.len() || i == 0,
    ensures
        entry_path(d.push(e), i) == entry_path(d, i),
    decreases i,
{
    if i > 0 && d[i].0 < i {
        lemma_entry_path_push(d, e, d[i].0 as int);
    }
}

/// Appending an entry leaves the decoded prefix over existing entries
/// unchanged.
proof fn lemma_decoded_prefix_push(d: Seq<Block>, e: Block, n: int)
    requires
        0 <= n <= d.len(),
    ensures
        decoded_prefix(d.push(e), n) == decoded_prefix(d, n),
    decreases n,
{
    if n > 1 {
        lemma_decoded_prefix_push(d, e, n - 1);
        lemma_entry_path_push(d, e, n - 1);
    }
}

/// Once one entry's path is invalid, the whole dictionary fails to decode.
proof fn lemma_decoded_none_at(d: Seq<Block>, i: int, n: int)
    requires
        1 <= i < n <= d.len(),
        entry_path(d, i) is None,
    ensures
        decoded_prefix(d, n) is None,
    decreases n,
{
    if n - 1 > i {
        lemma_decoded_none_at(d, i, n - 1);
    }
}

/// The byte an entry contributes to its path, through whichever token it
/// carries.
pub open spec fn entry_byte(e: Block) -> Option<u8> {
    match e.1 {
        Some(t) => token_byte(t),
        None => None,
    }
}

/// No two entries encode the same child: distinct byte-carrying entries
/// (ordinary literals or a byte-carrying end token) never share both parent
/// and contributed byte, so each trie path is represented once.
pub open spec fn no_duplicate_children(d: Seq<Block>) -> bool {
    forall|i: int, j: int| #![trigger d[i], d[j]]
        1 <= i < j < d.len() ==> !(d[i].0 == d[j].0 && entry_byte(d[i]) is Some && entry_byte(
        d[i]) == entry_byte(d[j]))
}

/// `Some(p) ↦ Some(p + t)`, `None ↦ None`: appends pending bytes to a path
/// being rebuilt.
spec fn opt_cat(o: Option<Seq<u8>>, t: Seq<u8>) -> Option<Seq<u8>> {
    match o {
        Some(p) => Some(p + t),
        None => None,
    }
}

/// The first entry index at or after `j` whose entry extends `parent` by
/// the ordinary literal `b`, if any; end-of-input tokens never match.
pub open spec fn child_from(d: Seq<Block>, parent: usize, b: u8, j: int) -> Option<int>
    decreases d.len() - j,
{
    if j < 0 || j >= d.len() {
        None
    } else if d[j].0 == parent && d[j].1 == Some(Token::Literal(b)) {
        Some(j)
    } else {
        child_from(d, parent, b, j + 1)
    }
}

/// The dictionary and current trie position after consuming the first `pos`
/// input bytes by the greedy rule: follow the existing child when there is
/// one, else append "current path plus this byte" — end-marked when the
/// byte is the final one — and reset to the root.
pub open spec fn parse_state(input: Seq<u8>, pos: int) -> (Seq<Block>, usize)
    decreases pos,
{
    if pos <= 0 {
        (seq![Block(0, None)], 0usize)
    } else {
        let (d, last) = parse_state(input, pos - 1);
        let c = input[pos - 1];
        match child_from(d, last, c, 0) {
            Some(j) => (d, j as usize),
            None => {
                let t = if pos == input.len() {
                    Token::EOF(Some(c))
                } else {
                    Token::Literal(c)
                };
                (d.push(Block(last, Some(t))), 0usize)
            },
        }
    }
}

/// The dictionary the terminated encoder produces for `input`: the greedy
/// parse of every byte, closed by a byte-less end token when the input ends
/// mid-path.
pub open spec fn parse_dict(input: Seq<u8>) -> Seq<Block> {
    let (d, last) = parse_state(input, input.len() as int);
    if last != 0 {
        d.push(Block(last, Some(Token::EOF(None))))
    } else {
        d
    }
}

/// The first dictionary index whose entry extends `parent` by the ordinary
/// literal `byte`, if any; end-of-input tokens never match.
fn find_child(dict: &Vec<Block>, parent: usize, byte: u8) -> (r: Option<usize>)
    ensures
        r matches Some(j) ==> child_from(dict@, parent, byte, 0) == Some(j as int),
        r is None ==> child_from(dict@, parent, byte, 0) is None,
        match r {
            Some(j) => 0 <= j < dict@.len() && dict@[j as int].0 == parent && dict@[j as int].1
                == Some(Token::Literal(byte)),
            None => forall|j: int|
                0 <= j < dict@.len() ==> !((#[trigger] dict@[j].0) == parent && dict@[j].1 == Some(
                    Token::Literal(byte),
                )),
        },
{
    let n = dict.len();
    let mut j: usize = 0;
    while j < n
        invariant
            j <= n,
            n == dict@.len(),
            child_from(dict@, parent, byte, 0) == child_from(dict@, parent, byte, j as int),
            forall|t: int|
                0 <= t < j ==> !((#[trigger] dict@[t].0) == parent && dict@[t].1 == Some(
                    Token::Literal(byte),
                )),
        decreases n - j,
    {
        let e = dict[j];
        if e.0 == parent {
            match e.1 {
                Some(Token::Literal(b)) => {
                    if b == byte {
                        proof {
                            assert(child_from(dict@, parent, byte, j as int) == Some(j as int));
                        }
                        return Some(j);
                    }
                },
                _ => {},
            }
        }
        proof {
            assert(child_from(dict@, parent, byte, j as int) == child_from(
                dict@,
                parent,
                byte,
                j as int + 1,
            ));
        }
        j += 1;
    }
    proof {
        assert(child_from(dict@, parent, byte, n as int) is None);
    }
    None
}

/// Encode `input` as a dictionary: each byte either follows an existing trie
/// path one byte deeper or appends the entry "longest previously seen prefix
/// plus this byte". The final input byte is recorded as an end-of-input
/// token, carrying the byte when it starts a new entry, or carrying no byte
/// in a closing entry when it extended an existing match. The produced
/// dictionary decodes back to exactly `input`.
pub fn compress(input: &[u8]) -> (dict: Vec<Block>)
    ensures
        dict@ == parse_dict(input@),
        dict@.len() <= input@.len() + 1,
        decoded(dict@) == Some(input@),
        dict@.len() >= 1,
        dict@[0] == Block(0, None),
        parents_decrease(dict@),
        no_duplicate_children(dict@),
        forall|i: int|
            1 <= i && i + 1 < dict@.len() ==> (#[trigger] dict@[i].1) matches Some(
                Token::Literal(_)),
        input@.len() > 0 ==> dict@.len() > 1 && (dict@[dict@.len() - 1].1 matches Some(
            Token::EOF(_))),
        input@.len() == 0 ==> dict@.len() == 1,
{
    let n = input.len();
    let mut dict: Vec<Block> = Vec::new();
    dict.push(Block(0, None));
    proof {
        assert(dict@ =~= seq![Block(0, None)]);
    }
    let mut pos: usize = 0;
    let mut last: usize = 0;
    while pos < n
        invariant
            n == input@.len(),
            pos <= n,
            dict@ == parse_state(input@, pos as int).0,
            last == parse_state(input@, pos as int).1,
            dict@.len() + (if last != 0 {
                1int
            } else {
                0int
            }) <= pos + 1,
            1 <= dict@.len(),
            dict@[0] == Block(0, None),
            last < dict@.len(),
            parents_decrease(dict@),
            no_duplicate_children(dict@),
            pos < n ==> forall|i: int|
                1 <= i < dict@.len() ==> (#[trigger] dict@[i].1) matches Some(Token::Literal(_)),
            pos == n && n > 0 && last != 0 ==> forall|i: int|
                1 <= i < dict@.len() ==> (#[trigger] dict@[i].1) matches Some(Token::Literal(_)),
            pos == n && n > 0 && last == 0 ==> dict@.len() > 1 && (forall|i: int|
                1 <= i && i + 1 < dict@.len() ==> (#[trigger] dict@[i].1) matches Some(
                    Token::Literal(_))) && (dict@[dict@.len() - 1].1 matches Some(
                Token::EOF(Some(_)))),
            ({
                let o = decoded(dict@);
                let q = entry_path(dict@, last as int);
                o is Some && q is Some && o->0 + q->0 == input@.take(pos as int)
            }),
            n == 0 ==> dict@.len() == 1 && last == 0,
        decreases n - pos,
    {
        let c = input[pos];
        let ghost d0 = dict@;
        let ghost q0 = entry_path(dict@, last as int)->0;
        let ghost dec0 = decoded(dict@)->0;
        match find_child(&dict, last, c) {
            Some(j) => {
                proof {
                    assert(child_from(d0, last, c, 0) == Some(j as int));
                    assert(parse_state(input@, pos as int + 1) == (d0, j));
                    assert(d0[j as int].1 == Some(Token::Literal(c)));
                    assert(j != 0);
                    assert(d0[j as int].0 < j as int);
                    assert(entry_path(d0, j as int) == Some(q0.push(c)));
                    assert(dec0 + q0.push(c) =~= (dec0 + q0).push(c));
                    assert(input@.take(pos as int).push(c) =~= input@.take(pos as int + 1));
                }
                last = j;
            },
            None => {
                let token = if pos == n - 1 {
                    Token::EOF(Some(c))
                } else {
                    Token::Literal(c)
                };
                proof {
                    assert(token_byte(token) == Some(c));
                }
                let idx = dict.len();
                dict.push(Block(last, Some(token)));
                proof {
                    let d1 = dict@;
                    assert(d1 == d0.push(Block(last, Some(token))));
                    assert(child_from(d0, last, c, 0) is None);
                    assert((pos as int + 1 == input@.len()) == (pos == n - 1));
                    assert(parse_state(input@, pos as int + 1) == (d1, 0usize));
                    assert forall|t: int| 1 <= t < d1.len() implies (#[trigger] d1[t].0) < t by {
                        if t < idx {
                            assert(d1[t] == d0[t]);
                        }
                    }
                    assert forall|t: int, u: int|
                        1 <= t < u < d1.len() implies !((#[trigger] d1[t]).0 == (
                        #[trigger] d1[u]).0 && entry_byte(d1[t]) is Some && entry_byte(d1[t])
                        == entry_byte(d1[u])) by {
                        if u < idx {
                            assert(d1[t] == d0[t] && d1[u] == d0[u]);
                        } else {
                            assert(d1[t] == d0[t]);
                            assert(d0[t].1 matches Some(Token::Literal(_)));
                            assert(entry_byte(d1[u]) == Some(c));
                            assert(!(d0[t].0 == last && d0[t].1 == Some(Token::Literal(c))));
                        }
                    }
                    assert forall|t: int| 1 <= t && t + 1 < d1.len() implies (#[trigger] d1[t].1)
                        matches Some(Token::Literal(_)) by {
                        assert(d1[t] == d0[t]);
                    }
                    lemma_decoded_prefix_push(d0, Block(last, Some(token)), d0.len() as int);
                    lemma_entry_path_push(d0, Block(last, Some(token)), last as int);
                    assert(entry_path(d1, idx as int) == Some(q0.push(c)));
                    assert(decoded_prefix(d1, d1.len() as int) == Some(dec0 + q0.push(c)));
                    assert(dec0 + q0.push(c) =~= (dec0 + q0).push(c));
                    assert(input@.take(pos as int).push(c) =~= input@.take(pos as int + 1));
                    assert(entry_path(d1, 0) == Some(Seq::<u8>::empty()));
                    assert((dec0 + q0).push(c) + Seq::<u8>::empty() =~= (dec0 + q0).push(c));
                }
                last = 0;
            },
        }
        pos += 1;
    }
    proof {
        assert(input@.len() as int == n as int);
        assert(parse_state(input@, n as int) == (dict@, last));
    }
    if last != 0 {
        let ghost d0 = dict@;
        let ghost q0 = entry_path(dict@, last as int)->0;
        let ghost dec0 = decoded(dict@)->0;
        let idx = dict.len();
        dict.push(Block(last, Some(Token::EOF(None))));
        proof {
            let d1 = dict@;
            assert(d1 == d0.push(Block(last, Some(Token::EOF(None)))));
            assert(dict@ == parse_dict(input@));
            lemma_decoded_prefix_push(d0, Block(last, Some(Token::EOF(None))), d0.len() as int);
            lemma_entry_path_push(d0, Block(last, Some(Token::EOF(None))), last as int);
            assert(entry_path(d1, idx as int) == Some(q0));
            assert(decoded_prefix(d1, d1.len() as int) == Some(dec0 + q0));
            assert forall|t: int| 1 <= t < d1.len() implies (#[trigger] d1[t].0) < t by {
                if t < idx {
                    assert(d1[t] == d0[t]);
                }
            }
            assert forall|t: int, u: int|
                1 <= t < u < d1.len() implies !((#[trigger] d1[t]).0 == (#[trigger] d1[u]).0
                && entry_byte(d1[t]) is Some && entry_byte(d1[t]) == entry_byte(d1[u])) by {
                assert(d1[t] == d0[t]);
                if u < idx {
                    assert(d1[u] == d0[u]);
                } else {
                    assert(entry_byte(d1[u]) is None);
                }
            }
            assert forall|t: int| 1 <= t && t + 1 < d1.len() implies (#[trigger] d1[t].1)
                matches Some(Token::Literal(_)) by {
                assert(d1[t] == d0[t]);
            }
        }
    } else {
        proof {
            assert(dict@ == parse_dict(input@));
            assert(decoded(dict@)->0 + entry_path(dict@, 0)->0 =~= decoded(dict@)->0);
        }
    }
    proof {
        assert(input@.take(n as int) =~= input@);
    }
    dict
}

/// Decode a dictionary, validating every parent index: a walk that would not
/// strictly descend yields an error instead of looping or reading out of
/// bounds. An empty sequence, or one holding only the root, decodes to the
/// empty byte sequence.
pub fn decompress(blocks: &[Block]) -> (r: Result<Vec<u8>, DecodeError>)
    ensures
        match decoded(blocks@) {
            Some(s) => r matches Ok(v) && v@ == s,
            None => r matches Err(e) && e == DecodeError::InvalidDictionaryIndex,
        },
{
    let n = blocks.len();
    let mut out: Vec<u8> = Vec::new();
    if n == 0 {
        return Ok(out);
    }
    let mut i: usize = 1;
    while i < n
        invariant
            n == blocks@.len(),
            1 <= i <= n,
            decoded_prefix(blocks@, i as int) == Some(out@),
        decreases n - i,
    {
        let ghost d = blocks@;
        let mut scratch: Vec<u8> = Vec::new();
        let mut cur: usize = i;
        while cur != 0
            invariant
                n == blocks@.len(),
                1 <= i < n,
                cur < n,
                entry_path(d, i as int) == opt_cat(
                    entry_path(d, cur as int),
                    scratch@.reverse(),
                ),
                d == blocks@,
            decreases cur,
        {
            let e = blocks[cur];
            if e.0 >= cur {
                proof {
                    assert(entry_path(d, cur as int) is None);
                    assert(entry_path(d, i as int) is None);
                    lemma_decoded_none_at(d, i as int, n as int);
                }
                return Err(DecodeError::InvalidDictionaryIndex);
            }
            let ghost scr0 = scratch@;
            let byte = match e.1 {
                Some(Token::Literal(b)) => Some(b),
                Some(Token::EOF(o)) => o,
                None => None,
            };
            match byte {
                Some(b) => {
                    scratch.push(b);
                    proof {
                        assert(scratch@.reverse() =~= seq![b] + scr0.reverse());
                        if entry_path(d, e.0 as int) is Some {
                            let p = entry_path(d, e.0 as int)->0;
                            assert(p.push(b) + scr0.reverse() =~= p + (seq![b] + scr0.reverse()));
                        }
                    }
                },
                None => {},
            }
            cur = e.0;
        }
        proof {
            assert(entry_path(d, i as int) == Some(Seq::<u8>::empty() + scratch@.reverse()));
            assert(Seq::<u8>::empty() + scratch@.reverse() =~= scratch@.reverse());
        }
        let ghost out0 = out@;
        let m = scratch.len();
        let mut k: usize = 0;
        while k < m
            invariant
                k <= m,
                m == scratch@.len(),
                out@ == out0 + scratch@.reverse().take(k as int),
            decreases m - k,
        {
            let b = scratch[m - 1 - k];
            out.push(b);
            proof {
                assert(scratch@.reverse()[k as int] == scratch@[m - 1 - k as int]);
                assert(out0 + scratch@.reverse().take(k as int + 1) =~= (out0
                    + scratch@.reverse().take(k as int)).push(scratch@.reverse()[k as int]));
            }
            k += 1;
        }
        proof {
            assert(scratch@.reverse().take(m as int) =~= scratch@.reverse());
            assert(decoded_prefix(blocks@, i as int + 1) == Some(out@));
        }
        i += 1;
    }
    Ok(out)
}

} // verus!
