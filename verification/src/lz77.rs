//! Sliding-window codec.
//!
//! The encoder walks a coding cursor over the input and, at each position,
//! searches a bounded window of already-coded bytes for the longest run that
//! reappears at the cursor, preferring longer matches and, among equal
//! lengths, the nearest offset. It emits either a literal byte or a
//! `(length, distance)` back-reference; an adjacent match may be extended by
//! whole repetitions of the matched run, so the emitted length can exceed the
//! distance (self-overlap). The decoder replays back-references byte by byte
//! against the growing output, which is what makes self-overlap legal.
use vstd::prelude::*;

use crate::DecodeError;

verus! {

/// One encoded token: a literal byte, or a back-reference
/// `Pair((length, distance))` meaning "copy `length` bytes starting
/// `distance` bytes before the current end of the output".
#[derive(PartialEq, Debug, Clone, Copy)]
pub enum Block {
    Pair((usize, usize)),
    Literal(u8),
}

/// The bytes appended by replaying a back-reference of the given distance for
/// `len` steps: each step copies the byte `dist` positions before the current
/// end, so bytes appended earlier in the same replay are available as sources.
pub open spec fn back_copied(s: Seq<u8>, dist: int, len: int) -> Seq<u8>
    decreases len,
{
    if len <= 0 {
        s
    } else {
        back_copied(s.push(s[s.len() - dist]), dist, len - 1)
    }
}

/// The byte sequence a block sequence decodes to, or `None` if some
/// back-reference has a zero distance or one that exceeds the output
/// produced so far.
pub open spec fn decoded(blocks: Seq<Block>) -> Option<Seq<u8>>
    decreases blocks.len(),
{
    if blocks.len() == 0 {
        Some(Seq::empty())
    } else {
        match decoded(blocks.drop_last()) {
            None => None,
            Some(s) => match blocks.last() {
                Block::Literal(b) => Some(s.push(b)),
                Block::Pair((len, dist)) => {
                    if 1 <= dist && dist <= s.len() {
                        Some(back_copied(s, dist as int, len as int))
                    } else {
                        None
                    }
                },
            },
        }
    }
}

proof fn lemma_back_copied_len(s: Seq<u8>, dist: int, len: int)
    requires
        0 <= len,
    ensures
        back_copied(s, dist, len).len() == s.len() + len,
    decreases len,
{
    if len > 0 {
        lemma_back_copied_len(s.push(s[s.len() - dist]), dist, len - 1);
    }
}

/// Replaying one more step appends the byte `dist` before the current end.
proof fn lemma_back_copied_snoc(s: Seq<u8>, dist: int, len: int)
    requires
        1 <= len,
    ensures
        back_copied(s, dist, len) == back_copied(s, dist, len - 1).push(
            back_copied(s, dist, len - 1)[back_copied(s, dist, len - 1).len() - dist],
        ),
    decreases len,
{
    let s1 = s.push(s[s.len() - dist]);
    assert(back_copied(s, dist, len) == back_copied(s1, dist, len - 1));
    if len == 1 {
        assert(back_copied(s1, dist, 0) == s1);
        assert(back_copied(s, dist, 0) == s);
    } else {
        lemma_back_copied_snoc(s1, dist, len - 1);
        assert(back_copied(s, dist, len - 1) == back_copied(s1, dist, len - 2));
    }
}

/// If every byte of the run `[pos, pos + len)` equals the byte `dist` before
/// it, then replaying the back-reference from the decoded prefix `take(pos)`
/// reproduces exactly `take(pos + len)`.
proof fn lemma_back_copied_take(input: Seq<u8>, pos: int, dist: int, len: int)
    requires
        1 <= dist <= pos,
        0 <= len,
        pos + len <= input.len(),
        forall|k: int| 0 <= k < len ==> #[trigger] input[pos - dist + k] == input[pos + k],
    ensures
        back_copied(input.take(pos), dist, len) == input.take(pos + len),
    decreases len,
{
    if len > 0 {
        let s = input.take(pos);
        assert(input[pos - dist + 0] == input[pos + 0]);
        assert(s[pos - dist] == input[pos - dist]);
        assert(s.push(input[pos]) =~= input.take(pos + 1));
        assert forall|k: int| 0 <= k < len - 1 implies #[trigger] input[(pos + 1) - dist + k] == input[
            pos + 1 + k] by {
            assert(input[pos - dist + (k + 1)] == input[pos + (k + 1)]);
        }
        lemma_back_copied_take(input, pos + 1, dist, len - 1);
    }
}

/// Once some prefix of the block sequence fails to decode, the whole
/// sequence fails to decode.
proof fn lemma_decoded_none_extend(blocks: Seq<Block>, i: int)
    requires
        0 <= i <= blocks.len(),
        decoded(blocks.take(i)) is None,
    ensures
        decoded(blocks) is None,
    decreases blocks.len() - i,
{
    if i == blocks.len() {
        assert(blocks.take(i) =~= blocks);
    } else {
        assert(blocks.take(i + 1).drop_last() =~= blocks.take(i));
        lemma_decoded_none_extend(blocks, i + 1);
    }
}

/// Holds of block `t` when it is a literal only because it had to be: it
/// carries exactly the input byte at its decode position, and no byte within
/// the preceding `w`-byte window equals that byte, so no back-reference of
/// length one or more was available there.
pub open spec fn literal_is_forced(input: Seq<u8>, w: int, blocks: Seq<Block>, t: int) -> bool {
    match blocks[t] {
        Block::Literal(b) => match decoded(blocks.take(t)) {
            Some(s) => {
                let p = s.len() as int;
                &&& p < input.len()
                &&& b == input[p]
                &&& forall|k: int| 1 <= k <= p && k <= w ==> #[trigger] input[p - k] != input[p]
            },
            None => true,
        },
        Block::Pair(_) => true,
    }
}


/// The `len` bytes starting `dist` before `pos` reappear at `pos`.
pub open spec fn match_at(input: Seq<u8>, pos: int, len: int, dist: int) -> bool {
    forall|k: int| 0 <= k < len ==> #[trigger] input[pos - dist + k] == input[pos + k]
}

pub open spec fn spec_min(a: int, b: int) -> int {
    if a <= b {
        a
    } else {
        b
    }
}

/// A run of `len` bytes reappears at `pos` at some admissible distance: at
/// least `len` (the search buffer ends where the run begins), at most the
/// window `w`, and no further back than the bytes already coded.
pub open spec fn match_exists(input: Seq<u8>, pos: int, w: int, len: int) -> bool {
    exists|d: int| len <= d <= spec_min(w, pos) && match_at(input, pos, len, d)
}

/// The longest run length up to `lmax` for which a windowed match exists,
/// `0` when none does. Lengths with matches are downward closed, so this is
/// the length the longest-match search settles on.
pub open spec fn longest_match_len(input: Seq<u8>, pos: int, w: int, lmax: int) -> int
    decreases lmax,
{
    if lmax <= 0 {
        0
    } else if match_exists(input, pos, w, lmax) {
        lmax
    } else {
        longest_match_len(input, pos, w, lmax - 1)
    }
}

/// The smallest admissible distance at or above `d` at which a run of `len`
/// bytes matches: the nearest-offset preference among equal-length matches.
pub open spec fn nearest_dist_from(input: Seq<u8>, pos: int, w: int, len: int, d: int) -> int
    decreases spec_min(w, pos) - d,
{
    if d >= spec_min(w, pos) || match_at(input, pos, len, d) {
        d
    } else {
        nearest_dist_from(input, pos, w, len, d + 1)
    }
}

/// One whole repetition of the `len` bytes at `pos` stands `total` bytes
/// further on.
pub open spec fn chunk_repeats(input: Seq<u8>, pos: int, len: int, total: int) -> bool {
    forall|j: int| 0 <= j < len ==> input[pos + j] == #[trigger] input[pos + total + j]
}

/// The emitted length after extending an adjacent match of `len` bytes by
/// every whole repetition of the matched run that follows it.
pub open spec fn extended_len(input: Seq<u8>, pos: int, len: int, total: int) -> int
    decreases input.len() - pos - total,
{
    if len < 1 {
        total
    } else if pos + total + len <= input.len() && chunk_repeats(input, pos, len, total) {
        extended_len(input, pos, len, total + len)
    } else {
        total
    }
}

/// The block the encoder emits at cursor `pos`: the longest run of at most
/// `l` bytes matching within the last `w` bytes, at the nearest offset
/// among equal lengths; a literal when no run of length one matches; an
/// adjacent match (distance equal to length) extended by whole repetitions.
pub open spec fn chosen_block(input: Seq<u8>, w: int, l: int, pos: int) -> Block {
    let len = longest_match_len(input, pos, w, spec_min(l, input.len() - pos));
    if len < 1 {
        Block::Literal(input[pos])
    } else {
        let d = nearest_dist_from(input, pos, w, len, len);
        if d == len {
            Block::Pair((extended_len(input, pos, len, len) as usize, d as usize))
        } else {
            Block::Pair((len as usize, d as usize))
        }
    }
}

/// How far the cursor advances past the block chosen at `pos`.
pub open spec fn chosen_step(input: Seq<u8>, w: int, l: int, pos: int) -> int {
    let len = longest_match_len(input, pos, w, spec_min(l, input.len() - pos));
    if len < 1 {
        1
    } else if nearest_dist_from(input, pos, w, len, len) == len {
        extended_len(input, pos, len, len)
    } else {
        len
    }
}

proof fn lemma_longest_bounds(input: Seq<u8>, pos: int, w: int, lmax: int)
    ensures
        0 <= longest_match_len(input, pos, w, lmax),
        lmax >= 0 ==> longest_match_len(input, pos, w, lmax) <= lmax,
    decreases lmax,
{
    if lmax > 0 && !match_exists(input, pos, w, lmax) {
        lemma_longest_bounds(input, pos, w, lmax - 1);
    }
}

proof fn lemma_extended_bounds(input: Seq<u8>, pos: int, len: int, total: int)
    requires
        1 <= len,
        0 <= pos,
        0 <= total,
    ensures
        total <= extended_len(input, pos, len, total),
        pos + extended_len(input, pos, len, total) <= input.len() || extended_len(
            input,
            pos,
            len,
            total,
        ) == total,
    decreases input.len() - pos - total,
{
    if pos + total + len <= input.len() && chunk_repeats(input, pos, len, total) {
        lemma_extended_bounds(input, pos, len, total + len);
    }
}

/// A match of some length implies a match of every shorter positive length
/// at the same distance, so lengths with matches are downward closed.
proof fn lemma_match_mono(input: Seq<u8>, pos: int, w: int, len: int, m: int)
    requires
        1 <= m <= len,
        match_exists(input, pos, w, len),
    ensures
        match_exists(input, pos, w, m),
{
    let d = choose|d: int| len <= d <= spec_min(w, pos) && match_at(input, pos, len, d);
    assert(match_at(input, pos, len, d));
    assert forall|k: int| 0 <= k < m implies #[trigger] input[pos - d + k] == input[pos + k] by {
        assert(input[pos - d + k] == input[pos + k]);
    }
    assert(match_at(input, pos, m, d));
    assert(m <= d <= spec_min(w, pos) && match_at(input, pos, m, d));
}

/// When every admissible distance for runs of `len` bytes has been tried
/// and failed, no windowed match of that length exists.
proof fn lemma_no_match_from_offsets(input: Seq<u8>, pos: int, w: int, len: int, omax: int)
    requires
        1 <= len,
        forall|o2: int| 0 <= o2 < omax ==> !(#[trigger] match_at(input, pos, len, len + o2)),
        spec_min(w, pos) - len < omax,
    ensures
        !match_exists(input, pos, w, len),
{
    if match_exists(input, pos, w, len) {
        let d = choose|d: int| len <= d <= spec_min(w, pos) && match_at(input, pos, len, d);
        assert(!match_at(input, pos, len, len + (d - len)));
        assert(false);
    }
}

/// Pins the longest-match length: `m` has a match (or is zero) and no
/// greater length up to `lmax` has one.
proof fn lemma_longest_eq(input: Seq<u8>, pos: int, w: int, lmax: int, m: int)
    requires
        0 <= m,
        m == 0 || (m <= lmax && match_exists(input, pos, w, m)),
        forall|t: int| m < t <= lmax ==> !(#[trigger] match_exists(input, pos, w, t)),
    ensures
        longest_match_len(input, pos, w, lmax) == m,
    decreases lmax,
{
    if lmax <= 0 {
    } else if lmax == m {
        assert(match_exists(input, pos, w, lmax));
    } else {
        assert(!match_exists(input, pos, w, lmax));
        lemma_longest_eq(input, pos, w, lmax - 1, m);
    }
}

/// Pins the nearest distance: `target` is admissible and matches (or is the
/// window edge), and nothing nearer from `d0` on matches.
proof fn lemma_nearest_eq(input: Seq<u8>, pos: int, w: int, len: int, d0: int, target: int)
    requires
        d0 <= target,
        target <= spec_min(w, pos),
        target == spec_min(w, pos) || match_at(input, pos, len, target),
        forall|d: int| d0 <= d < target ==> !(#[trigger] match_at(input, pos, len, d)),
    ensures
        nearest_dist_from(input, pos, w, len, d0) == target,
    decreases target - d0,
{
    if d0 < target {
        assert(!match_at(input, pos, len, d0));
        lemma_nearest_eq(input, pos, w, len, d0 + 1, target);
    }
}

/// The ordered block sequence the encoder emits from cursor `pos` on.
pub open spec fn parse_from(input: Seq<u8>, w: int, l: int, pos: int) -> Seq<Block>
    decreases input.len() - pos,
    via parse_from_decreases
{
    if pos < 0 || pos >= input.len() {
        Seq::empty()
    } else {
        seq![chosen_block(input, w, l, pos)] + parse_from(
            input,
            w,
            l,
            pos + chosen_step(input, w, l, pos),
        )
    }
}

#[via_fn]
proof fn parse_from_decreases(input: Seq<u8>, w: int, l: int, pos: int) {
    if 0 <= pos < input.len() {
        let lmax = spec_min(l, input.len() - pos);
        lemma_longest_bounds(input, pos, w, lmax);
        let len = longest_match_len(input, pos, w, lmax);
        if len >= 1 {
            lemma_extended_bounds(input, pos, len, len);
        }
    }
}

/// The whole block sequence the encoder emits for `input` under window `w`
/// and lookahead `l`.
pub open spec fn parse_blocks(input: Seq<u8>, w: int, l: int) -> Seq<Block> {
    parse_from(input, w, l, 0)
}

/// True exactly when `input[a..a+len]` and `input[b..b+len]` hold the same
/// bytes.
fn range_eq(input: &[u8], a: usize, b: usize, len: usize) -> (r: bool)
    requires
        a + len <= input@.len(),
        b + len <= input@.len(),
    ensures
        r <==> (forall|k: int| 0 <= k < len ==> #[trigger] input@[a + k] == input@[b + k]),
{
    let n = input.len();
    let mut k: usize = 0;
    while k < len
        invariant
            k <= len,
            n == input@.len(),
            a + len <= input@.len(),
            b + len <= input@.len(),
            forall|j: int| 0 <= j < k ==> #[trigger] input@[a + j] == input@[b + j],
        decreases len - k,
    {
        if input[a + k] != input[b + k] {
            assert(input@[a + k as int] != input@[b + k as int]);
            return false;
        }
        k += 1;
    }
    true
}

/// Encode `input` as a block sequence. At each cursor position the longest
/// run of up to `lookahead_buffer_size` bytes reappearing within the last
/// `search_buffer_size` bytes is emitted as a back-reference (nearest offset
/// among equal lengths); an adjacent match is extended by whole repetitions
/// of the matched run. The produced blocks decode back to exactly `input`.
pub fn compress(input: &[u8], search_buffer_size: usize, lookahead_buffer_size: usize) -> (blocks:
    Vec<Block>)
    ensures
        decoded(blocks@) == Some(input@),
        input@.len() == 0 ==> blocks@.len() == 0,
        forall|t: int|
            0 <= t < blocks@.len() ==> match #[trigger] blocks@[t] {
                Block::Pair((l, d)) => 1 <= l && 1 <= d <= search_buffer_size,
                Block::Literal(_) => true,
            },
        lookahead_buffer_size >= 1 ==> forall|t: int|
            0 <= t < blocks@.len() ==> #[trigger] literal_is_forced(
                input@,
                search_buffer_size as int,
                blocks@,
                t,
            ),
        blocks@ == parse_blocks(input@, search_buffer_size as int, lookahead_buffer_size as int),
{
    let n = input.len();
    let mut blocks: Vec<Block> = Vec::new();
    proof {
        assert(Seq::<Block>::empty() + parse_from(
            input@,
            search_buffer_size as int,
            lookahead_buffer_size as int,
            0,
        ) =~= parse_from(input@, search_buffer_size as int, lookahead_buffer_size as int, 0));
    }
    let mut pos: usize = 0;
    while pos < n
        invariant
            n == input@.len(),
            pos <= n,
            parse_blocks(input@, search_buffer_size as int, lookahead_buffer_size as int)
                == blocks@ + parse_from(
                input@,
                search_buffer_size as int,
                lookahead_buffer_size as int,
                pos as int,
            ),
            decoded(blocks@) == Some(input@.take(pos as int)),
            n == 0 ==> blocks@.len() == 0,
            forall|t: int|
                0 <= t < blocks@.len() ==> match #[trigger] blocks@[t] {
                    Block::Pair((l, d)) => 1 <= l && 1 <= d <= search_buffer_size,
                    Block::Literal(_) => true,
                },
            lookahead_buffer_size >= 1 ==> forall|t: int|
                0 <= t < blocks@.len() ==> #[trigger] literal_is_forced(
                    input@,
                    search_buffer_size as int,
                    blocks@,
                    t,
                ),
        decreases n - pos,
    {
        let c = input[pos];
        let mut buffer_size: usize = 1;
        let mut search_offset: usize = 0;
        let mut match_len: usize = 0;
        let mut match_dist: usize = 0;
        while buffer_size <= search_buffer_size && buffer_size <= lookahead_buffer_size
            && buffer_size <= pos && buffer_size <= n - pos && search_offset <= search_buffer_size
            - buffer_size && search_offset <= pos - buffer_size
            invariant
                n == input@.len(),
                pos < n,
                1 <= buffer_size,
                buffer_size as int <= lookahead_buffer_size as int + 1,
                search_offset <= pos,
                match_len == 0 ==> buffer_size == 1,
                match_len == 0 ==> forall|o: int|
                    0 <= o < search_offset ==> #[trigger] input@[pos - 1 - o] != input@[pos as int],
                forall|o2: int|
                    0 <= o2 < search_offset ==> !(#[trigger] match_at(
                        input@,
                        pos as int,
                        buffer_size as int,
                        buffer_size + o2,
                    )),
                match_len >= 1 ==> {
                    &&& 1 <= match_dist <= pos
                    &&& match_dist <= search_buffer_size
                    &&& match_len <= match_dist
                    &&& match_len <= n - pos
                    &&& match_len <= lookahead_buffer_size
                    &&& buffer_size == match_len + 1
                    &&& match_at(input@, pos as int, match_len as int, match_dist as int)
                    &&& forall|d: int|
                        match_len <= d < match_dist ==> !(#[trigger] match_at(
                            input@,
                            pos as int,
                            match_len as int,
                            d,
                        ))
                    &&& forall|k: int|
                        0 <= k < match_len ==> #[trigger] input@[pos - match_dist + k] == input@[
                            pos + k]
                },
            decreases lookahead_buffer_size + 1 - buffer_size, pos - search_offset,
        {
            let src = pos - buffer_size - search_offset;
            if range_eq(input, src, pos, buffer_size) {
                proof {
                    assert forall|k: int|
                        0 <= k < buffer_size implies #[trigger] input@[pos - (buffer_size
                        + search_offset) + k] == input@[pos + k] by {
                        assert(input@[src + k] == input@[pos + k]);
                    }
                    assert(match_at(
                        input@,
                        pos as int,
                        buffer_size as int,
                        buffer_size + search_offset,
                    ));
                    assert forall|d: int|
                        buffer_size <= d < buffer_size + search_offset implies !(
                        #[trigger] match_at(input@, pos as int, buffer_size as int, d)) by {
                        assert(!match_at(
                            input@,
                            pos as int,
                            buffer_size as int,
                            buffer_size + (d - buffer_size),
                        ));
                    }
                }
                match_len = buffer_size;
                match_dist = buffer_size + search_offset;
                buffer_size = buffer_size + 1;
                search_offset = 0;
            } else {
                proof {
                    if match_at(input@, pos as int, buffer_size as int, buffer_size + search_offset)
                    {
                        assert forall|k: int|
                            0 <= k < buffer_size implies #[trigger] input@[src + k] == input@[pos
                            + k] by {
                            assert(input@[pos - (buffer_size + search_offset) + k] == input@[pos
                                + k]);
                        }
                        assert(false);
                    }
                    assert forall|o2: int|
                        0 <= o2 < search_offset + 1 implies !(#[trigger] match_at(
                        input@,
                        pos as int,
                        buffer_size as int,
                        buffer_size + o2,
                    )) by {
                        if o2 == search_offset {
                            assert(!match_at(
                                input@,
                                pos as int,
                                buffer_size as int,
                                buffer_size + search_offset,
                            ));
                        }
                    }
                }
                search_offset = search_offset + 1;
            }
        }
        if match_len == 0 {
            let ghost bs0 = blocks@;
            proof {
                let w_i = search_buffer_size as int;
                let l_i = lookahead_buffer_size as int;
                let p_i = pos as int;
                let lmax = spec_min(l_i, n as int - p_i);
                assert forall|t: int| 0 < t <= lmax implies !(#[trigger] match_exists(
                    input@,
                    p_i,
                    w_i,
                    t,
                )) by {
                    if match_exists(input@, p_i, w_i, t) {
                        lemma_match_mono(input@, p_i, w_i, t, 1);
                        assert(spec_min(w_i, p_i) - 1 < search_offset);
                        lemma_no_match_from_offsets(input@, p_i, w_i, 1, search_offset as int);
                        assert(false);
                    }
                }
                lemma_longest_eq(input@, p_i, w_i, lmax, 0);
                assert(chosen_block(input@, w_i, l_i, p_i) == Block::Literal(c));
                assert(chosen_step(input@, w_i, l_i, p_i) == 1);
                if lookahead_buffer_size >= 1 {
                    assert forall|k: int|
                        1 <= k <= pos && k <= search_buffer_size implies #[trigger] input@[pos - k]
                        != input@[pos as int] by {
                        assert(k - 1 < search_offset);
                        assert(input@[pos - 1 - (k - 1)] != input@[pos as int]);
                    }
                }
            }
            blocks.push(Block::Literal(c));
            proof {
                assert(blocks@.drop_last() =~= bs0);
                assert(input@.take(pos as int).push(c) =~= input@.take(pos as int + 1));
                let w_i = search_buffer_size as int;
                let l_i = lookahead_buffer_size as int;
                let p_i = pos as int;
                assert(parse_from(input@, w_i, l_i, p_i) == seq![Block::Literal(c)] + parse_from(
                    input@,
                    w_i,
                    l_i,
                    p_i + 1,
                ));
                assert(blocks@ =~= bs0 + seq![Block::Literal(c)]);
                assert((bs0 + seq![Block::Literal(c)]) + parse_from(input@, w_i, l_i, p_i + 1) =~= bs0
                    + (seq![Block::Literal(c)] + parse_from(input@, w_i, l_i, p_i + 1)));
                if lookahead_buffer_size >= 1 {
                    assert forall|t: int|
                        0 <= t < blocks@.len() implies #[trigger] literal_is_forced(
                        input@,
                        search_buffer_size as int,
                        blocks@,
                        t,
                    ) by {
                        if t < bs0.len() {
                            assert(blocks@.take(t) =~= bs0.take(t));
                            assert(blocks@[t] == bs0[t]);
                            assert(literal_is_forced(input@, search_buffer_size as int, bs0, t));
                        } else {
                            assert(blocks@.take(t) =~= bs0);
                            assert(blocks@[t] == Block::Literal(c));
                            assert(decoded(bs0) == Some(input@.take(pos as int)));
                            assert(input@.take(pos as int).len() == pos);
                        }
                    }
                }
            }
            pos = pos + 1;
        } else {
            proof {
                let w_i = search_buffer_size as int;
                let l_i = lookahead_buffer_size as int;
                let p_i = pos as int;
                let lmax = spec_min(l_i, n as int - p_i);
                let ml = match_len as int;
                let md = match_dist as int;
                assert(match_exists(input@, p_i, w_i, ml)) by {
                    assert(ml <= md <= spec_min(w_i, p_i) && match_at(input@, p_i, ml, md));
                }
                assert forall|t: int| ml < t <= lmax implies !(#[trigger] match_exists(
                    input@,
                    p_i,
                    w_i,
                    t,
                )) by {
                    if match_exists(input@, p_i, w_i, t) {
                        lemma_match_mono(input@, p_i, w_i, t, ml + 1);
                        assert(spec_min(w_i, p_i) - (ml + 1) < search_offset);
                        lemma_no_match_from_offsets(input@, p_i, w_i, ml + 1, search_offset as int);
                        assert(false);
                    }
                }
                lemma_longest_eq(input@, p_i, w_i, lmax, ml);
                lemma_nearest_eq(input@, p_i, w_i, ml, ml, md);
            }
            let len = match_len;
            let dist = match_dist;
            let mut total: usize = len;
            if dist == len {
                while total <= n - pos - len && range_eq(input, pos, pos + total, len)
                    invariant
                        n == input@.len(),
                        pos < n,
                        1 <= len,
                        len == dist,
                        dist <= pos,
                        len <= total,
                        pos + total <= n,
                        forall|k: int| 0 <= k < len ==> #[trigger] input@[pos - dist + k]
                            == input@[pos + k],
                        forall|k: int|
                            len <= k < total ==> #[trigger] input@[pos + k] == input@[pos + k
                                - len],
                        forall|j: int|
                            0 <= j < len ==> #[trigger] input@[pos + (total - len) + j] == input@[
                                pos + j],
                        extended_len(input@, pos as int, len as int, total as int) == extended_len(
                            input@,
                            pos as int,
                            len as int,
                            len as int,
                        ),
                    decreases n - pos - total,
                {
                    proof {
                        assert forall|j: int|
                            0 <= j < len implies input@[pos + j] == #[trigger] input@[pos + total
                            + j] by {
                            assert(input@[pos as int + j] == input@[(pos + total) as int + j]);
                        }
                        assert(chunk_repeats(input@, pos as int, len as int, total as int));
                        assert(extended_len(input@, pos as int, len as int, total as int)
                            == extended_len(input@, pos as int, len as int, total as int
                            + len as int));
                        assert forall|k: int|
                            len <= k < total + len implies #[trigger] input@[pos + k] == input@[
                            pos + k - len] by {
                            if k >= total {
                                assert(input@[pos + (total - len) + (k - total)] == input@[pos + (k
                                    - total)]);
                                assert(input@[pos + (k - total)] == input@[pos + total + (k
                                    - total)]);
                            }
                        }
                    }
                    total = total + len;
                }
                proof {
                    if pos + total + len <= n {
                        if chunk_repeats(input@, pos as int, len as int, total as int) {
                            assert forall|k: int|
                                0 <= k < len implies #[trigger] input@[pos as int + k] == input@[(
                            pos + total) as int + k] by {
                                assert(input@[pos + k] == input@[pos + total + k]);
                            }
                            assert(false);
                        }
                    }
                    assert(extended_len(input@, pos as int, len as int, total as int)
                        == total as int);
                }
            }
            proof {
                assert forall|k: int| 0 <= k < total implies #[trigger] input@[pos - dist + k]
                    == input@[pos + k] by {
                    if k >= len {
                        assert(input@[pos + k] == input@[pos + k - len]);
                    }
                }
            }
            let ghost bs0 = blocks@;
            blocks.push(Block::Pair((total, dist)));
            proof {
                assert(blocks@.drop_last() =~= bs0);
                assert(input@.take(pos as int).len() == pos);
                lemma_back_copied_take(input@, pos as int, dist as int, total as int);
                if lookahead_buffer_size >= 1 {
                    assert forall|t: int|
                        0 <= t < blocks@.len() implies #[trigger] literal_is_forced(
                        input@,
                        search_buffer_size as int,
                        blocks@,
                        t,
                    ) by {
                        if t < bs0.len() {
                            assert(blocks@.take(t) =~= bs0.take(t));
                            assert(blocks@[t] == bs0[t]);
                            assert(literal_is_forced(input@, search_buffer_size as int, bs0, t));
                        } else {
                            assert(blocks@[t] == Block::Pair((total, dist)));
                        }
                    }
                }
                let w_i = search_buffer_size as int;
                let l_i = lookahead_buffer_size as int;
                let p_i = pos as int;
                assert(longest_match_len(input@, p_i, w_i, spec_min(l_i, n as int - p_i))
                    == match_len as int);
                assert(nearest_dist_from(input@, p_i, w_i, match_len as int, match_len as int)
                    == match_dist as int);
                if dist == len {
                    assert(chosen_block(input@, w_i, l_i, p_i) == Block::Pair((total, dist)));
                    assert(chosen_step(input@, w_i, l_i, p_i) == total as int);
                } else {
                    assert(total == len);
                    assert(chosen_block(input@, w_i, l_i, p_i) == Block::Pair((total, dist)));
                    assert(chosen_step(input@, w_i, l_i, p_i) == total as int);
                }
                assert(parse_from(input@, w_i, l_i, p_i) == seq![Block::Pair((total, dist))]
                    + parse_from(input@, w_i, l_i, p_i + total as int));
                assert(blocks@ =~= bs0 + seq![Block::Pair((total, dist))]);
                assert((bs0 + seq![Block::Pair((total, dist))]) + parse_from(
                    input@,
                    w_i,
                    l_i,
                    p_i + total as int,
                ) =~= bs0 + (seq![Block::Pair((total, dist))] + parse_from(
                    input@,
                    w_i,
                    l_i,
                    p_i + total as int,
                )));
            }
            pos = pos + total;
        }
    }
    proof {
        assert(input@.take(n as int) =~= input@);
        assert(parse_from(input@, search_buffer_size as int, lookahead_buffer_size as int, n as int)
            == Seq::<Block>::empty());
        assert(blocks@ + Seq::<Block>::empty() =~= blocks@);
    }
    blocks
}

/// Decode a block sequence, validating every back-reference: a pair whose
/// distance is zero or exceeds the bytes already produced yields an error
/// instead of reading out of bounds.
pub fn decompress(blocks: &[Block]) -> (r: Result<Vec<u8>, DecodeError>)
    ensures
        match decoded(blocks@) {
            Some(s) => r matches Ok(v) && v@ == s,
            None => r matches Err(e) && e == DecodeError::InvalidBackReference,
        },
{
    let n = blocks.len();
    let mut out: Vec<u8> = Vec::new();
    let mut i: usize = 0;
    while i < n
        invariant
            n == blocks@.len(),
            i <= n,
            decoded(blocks@.take(i as int)) == Some(out@),
        decreases n - i,
    {
        proof {
            assert(blocks@.take(i as int + 1).drop_last() =~= blocks@.take(i as int));
            assert(blocks@.take(i as int + 1).last() == blocks@[i as int]);
        }
        match blocks[i] {
            Block::Literal(lit) => {
                out.push(lit);
            },
            Block::Pair((length, dist)) => {
                if dist < 1 || dist > out.len() {
                    proof {
                        lemma_decoded_none_extend(blocks@, i as int + 1);
                    }
                    return Err(DecodeError::InvalidBackReference);
                }
                let ghost s0 = out@;
                let mut j: usize = 0;
                while j < length
                    invariant
                        j <= length,
                        1 <= dist,
                        dist <= s0.len(),
                        out@ == back_copied(s0, dist as int, j as int),
                        out@.len() == s0.len() + j,
                    decreases length - j,
                {
                    let src = out.len() - dist;
                    let b = out[src];
                    out.push(b);
                    proof {
                        lemma_back_copied_snoc(s0, dist as int, j as int + 1);
                        lemma_back_copied_len(s0, dist as int, j as int + 1);
                    }
                    j += 1;
                }
            },
        }
        i += 1;
    }
    proof {
        assert(blocks@.take(n as int) =~= blocks@);
    }
    Ok(out)
}

/// Bundles fixed window sizes for repeated use of [`compress`]: the maximum
/// backward distance considered and the maximum match length considered.
pub struct LZ77Compressor {
    search_buffer_size: usize,
    lookahead_buffer_size: usize,
}

impl LZ77Compressor {
    /// The configured maximum backward distance.
    pub closed spec fn search_size(&self) -> usize {
        self.search_buffer_size
    }

    /// The configured maximum match length.
    pub closed spec fn lookahead_size(&self) -> usize {
        self.lookahead_buffer_size
    }

    /// Both sizes are validated here, once, as positive; the configuration is
    /// immutable afterwards.
    pub fn new(search_buffer_size: usize, lookahead_buffer_size: usize) -> (r: Self)
        requires
            search_buffer_size >= 1,
            lookahead_buffer_size >= 1,
        ensures
            r.search_size() == search_buffer_size,
            r.lookahead_size() == lookahead_buffer_size,
    {
        LZ77Compressor { search_buffer_size, lookahead_buffer_size }
    }

    /// Encode `input` with the configured sizes; the produced blocks decode
    /// back to exactly `input`.
    pub fn compress(&self, input: &[u8]) -> (blocks: Vec<Block>)
        ensures
            decoded(blocks@) == Some(input@),
            input@.len() == 0 ==> blocks@.len() == 0,
            forall|t: int|
                0 <= t < blocks@.len() ==> match #[trigger] blocks@[t] {
                    Block::Pair((l, d)) => 1 <= l && 1 <= d <= self.search_size(),
                    Block::Literal(_) => true,
                },
            self.lookahead_size() >= 1 ==> forall|t: int|
                0 <= t < blocks@.len() ==> #[trigger] literal_is_forced(
                    input@,
                    self.search_size() as int,
                    blocks@,
                    t,
                ),
            blocks@ == parse_blocks(input@, self.search_size() as int, self.lookahead_size() as int),
    {
        compress(input, self.search_buffer_size, self.lookahead_buffer_size)
    }
}

} // verus!
