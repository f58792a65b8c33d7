//! LZ77 codec with a 65535-byte window and runs of at most 255 bytes.
//!
//! Each codeword is either a literal byte or a back-reference run followed
//! by a trailing literal token; on disk every codeword takes four bytes.
use vstd::prelude::*;
use vstd::slice::slice_subrange;

verus! {

/// Largest distance a run may reach back.
pub const MAX_LOOKBACK: usize = 65535;

/// Largest number of bytes a run may copy.
pub const MAX_RUN: usize = 255;

/// Shortest match worth a codeword.
pub const MIN_MATCH: usize = 3;

/// One unit of the encoded stream.
#[derive(Clone, Copy, Debug, PartialEq, Eq, Structural)]
pub enum LZ77Codeword {
    /// Emits one byte.
    Literal(u8),
    /// Copies `length` bytes starting `lookback` bytes back, then emits `token`.
    Run { lookback: u16, length: u8, token: u8 },
}

/// The lookback window at position `p`.
pub open spec fn window(p: int) -> int {
    if p < MAX_LOOKBACK as int { p } else { MAX_LOOKBACK as int }
}

/// The longest run allowed at `p`: one byte must remain for the trailing token.
pub open spec fn lookahead(b: Seq<u8>, p: int) -> int {
    let rest = b.len() - p - 1;
    if rest < MAX_RUN as int { rest } else { MAX_RUN as int }
}

/// The `n` bytes at `p` repeat the `n` bytes that start `d` bytes earlier.
pub open spec fn matches_at(b: Seq<u8>, p: int, d: int, n: int) -> bool {
    forall|i: int| 0 <= i < n ==> #[trigger] b[p + i] == b[p - d + i]
}

/// Some distance inside the window gives a match of `n` bytes at `p`.
pub open spec fn has_match(b: Seq<u8>, p: int, n: int) -> bool {
    exists|d: int| 1 <= d <= window(p) && #[trigger] matches_at(b, p, d, n)
}

/// Grows a match of `n` bytes as long as some candidate still matches.
pub open spec fn longest_from(b: Seq<u8>, p: int, n: int) -> int
    decreases lookahead(b, p) - n,
{
    if n < lookahead(b, p) && has_match(b, p, n + 1) {
        longest_from(b, p, n + 1)
    } else {
        n
    }
}

/// The smallest distance from `d` on, inside the window, that matches `n` bytes.
pub open spec fn nearest_from(b: Seq<u8>, p: int, n: int, d: int) -> int
    decreases window(p) + 1 - d,
{
    if d < 1 || d > window(p) {
        0
    } else if matches_at(b, p, d, n) {
        d
    } else {
        nearest_from(b, p, n, d + 1)
    }
}

/// Whether the encoder emits a literal at `p`: at the first byte, where no
/// three-byte run followed by a trailing token fits before the end, or where
/// no three-byte match lies in the window.
pub open spec fn literal_at(b: Seq<u8>, p: int) -> bool {
    p == 0 || lookahead(b, p) < MIN_MATCH as int || !has_match(b, p, MIN_MATCH as int)
}

/// The codeword the encoder emits at position `p`.
pub open spec fn best_codeword(b: Seq<u8>, p: int) -> LZ77Codeword {
    if literal_at(b, p) {
        LZ77Codeword::Literal(b[p])
    } else {
        let n = longest_from(b, p, MIN_MATCH as int);
        LZ77Codeword::Run {
            lookback: nearest_from(b, p, n, 1) as u16,
            length: n as u8,
            token: b[p + n],
        }
    }
}

/// `c` holds, in increasing order, exactly the distances of the window
/// that match `n` bytes at `p`.
pub open spec fn all_candidates(b: Seq<u8>, p: int, n: int, c: Seq<usize>) -> bool {
    &&& forall|k: int| 0 <= k < c.len() ==> 1 <= #[trigger] c[k] <= window(p) && matches_at(b, p, c[k] as int, n)
    &&& forall|k1: int, k2: int| 0 <= k1 < k2 < c.len() ==> c[k1] < c[k2]
    &&& forall|d: int| 1 <= d <= window(p) && #[trigger] matches_at(b, p, d, n) ==> exists|k: int| 0 <= k < c.len() && c[k] == d
}

proof fn lemma_nearest_is_first(b: Seq<u8>, p: int, n: int, c: Seq<usize>, d: int)
    requires
        all_candidates(b, p, n, c),
        c.len() > 0,
        1 <= d <= c[0],
    ensures
        nearest_from(b, p, n, d) == c[0],
    decreases c[0] - d,
{
    if d < c[0] {
        if matches_at(b, p, d, n) {
            let k = choose|k: int| 0 <= k < c.len() && c[k] == d;
            if k > 0 {
                assert(c[0] < c[k]);
            }
        }
        lemma_nearest_is_first(b, p, n, c, d + 1);
    }
}

/// Whether two byte slices hold the same bytes.
pub fn slice_compare(a: &[u8], b: &[u8]) -> (r: bool)
    ensures
        r == (a@ == b@),
{
    if a.len() != b.len() {
        return false;
    }
    let mut i: usize = 0;
    while i < a.len()
        invariant
            a@.len() == b@.len(),
            i <= a@.len(),
            forall|j: int| 0 <= j < i ==> a@[j] == b@[j],
        decreases a@.len() - i,
    {
        if a[i] != b[i] {
            return false;
        }
        i += 1;
    }
    assert(a@ =~= b@);
    true
}

/// Every distance of the window whose three bytes repeat those at `position`,
/// nearest first.
fn seed_candidates(bytes: &[u8], position: usize, max_lookback: usize) -> (r: Vec<usize>)
    requires
        1 <= position,
        position + 3 < bytes@.len(),
        max_lookback == window(position as int),
    ensures
        all_candidates(bytes@, position as int, MIN_MATCH as int, r@),
{
    let ghost b = bytes@;
    let ghost p = position as int;
    let len = bytes.len();
    let reference = slice_subrange(bytes, position, position + MIN_MATCH);
    let mut candidates: Vec<usize> = Vec::new();
    let mut d: usize = 1;
    while d <= max_lookback
        invariant
            b == bytes@,
            1 <= d <= max_lookback + 1,
            max_lookback == window(p),
            p == position,
            1 <= position,
            position + 3 < b.len(),
            len == b.len(),
            reference@ == b.subrange(p, p + 3),
            forall|k: int| 0 <= k < candidates@.len() ==> 1 <= #[trigger] candidates@[k] < d && matches_at(b, p, candidates@[k] as int, 3),
            forall|k1: int, k2: int| 0 <= k1 < k2 < candidates@.len() ==> candidates@[k1] < candidates@[k2],
            forall|e: int| 1 <= e < d && #[trigger] matches_at(b, p, e, 3) ==> exists|k: int| 0 <= k < candidates@.len() && candidates@[k] == e,
        decreases max_lookback + 1 - d,
    {
        let start = position - d;
        let here = slice_subrange(bytes, start, start + MIN_MATCH);
        let same = slice_compare(here, reference);
        proof {
            if same {
                assert forall|i: int| 0 <= i < 3 implies #[trigger] b[p + i] == b[p - d + i] by {
                    assert(here@[i] == reference@[i]);
                }
            } else if matches_at(b, p, d as int, 3) {
                assert forall|i: int| 0 <= i < 3 implies here@[i] == reference@[i] by {
                    assert(b[p + i] == b[p - d + i]);
                }
                assert(here@ =~= reference@);
            }
        }
        let ghost before = candidates@;
        if same {
            candidates.push(d);
            proof {
                assert forall|e: int| 1 <= e < d + 1 && #[trigger] matches_at(b, p, e, 3) implies exists|k: int| 0 <= k < candidates@.len() && candidates@[k] == e by {
                    if e == d {
                        assert(candidates@[candidates@.len() - 1] == e);
                    } else {
                        let k = choose|k: int| 0 <= k < before.len() && before[k] == e;
                        assert(candidates@[k] == e);
                    }
                }
            }
        }
        d += 1;
    }
    candidates
}

/// Keeps the candidates whose match extends by one more byte.
fn filter_candidates(bytes: &[u8], position: usize, run: usize, candidates: &Vec<usize>) -> (r: Vec<usize>)
    requires
        1 <= position,
        position + run < bytes@.len(),
        all_candidates(bytes@, position as int, run as int, candidates@),
    ensures
        all_candidates(bytes@, position as int, run + 1, r@),
{
    let ghost b = bytes@;
    let ghost p = position as int;
    let ghost n = run as int;
    let len = bytes.len();
    let mut next: Vec<usize> = Vec::new();
    let mut k: usize = 0;
    while k < candidates.len()
        invariant
            b == bytes@,
            p == position,
            n == run,
            1 <= position,
            position + run < b.len(),
            len == b.len(),
            k <= candidates@.len(),
            all_candidates(b, p, n, candidates@),
            forall|m: int| 0 <= m < next@.len() ==> 1 <= #[trigger] next@[m] <= window(p)
                && matches_at(b, p, next@[m] as int, n + 1)
                && (k > 0 && next@[m] <= candidates@[k - 1]),
            forall|m1: int, m2: int| 0 <= m1 < m2 < next@.len() ==> next@[m1] < next@[m2],
            forall|j: int| 0 <= j < k && matches_at(b, p, #[trigger] candidates@[j] as int, n + 1) ==> exists|m: int| 0 <= m < next@.len() && next@[m] == candidates@[j],
        decreases candidates@.len() - k,
    {
        let c = candidates[k];
        assert(1 <= c <= window(p) && matches_at(b, p, c as int, n));
        if k > 0 {
            assert(candidates@[k - 1] < candidates@[k as int]);
        }
        let ghost before = next@;
        if bytes[position + run] == bytes[position - c + run] {
            assert forall|i: int| 0 <= i < n + 1 implies #[trigger] b[p + i] == b[p - c + i] by {
                if i < n {
                    assert(matches_at(b, p, c as int, n));
                }
            }
            next.push(c);
            assert forall|j: int| 0 <= j < k + 1 && matches_at(b, p, #[trigger] candidates@[j] as int, n + 1) implies exists|m: int| 0 <= m < next@.len() && next@[m] == candidates@[j] by {
                if j < k {
                    let m = choose|m: int| 0 <= m < before.len() && before[m] == candidates@[j];
                    assert(next@[m] == candidates@[j]);
                } else {
                    assert(next@[next@.len() - 1] == candidates@[j]);
                }
            }
        } else {
            assert(!matches_at(b, p, c as int, n + 1)) by {
                assert(b[p + n] != b[p - c + n]);
            }
        }
        k += 1;
    }
    assert forall|e: int| 1 <= e <= window(p) && #[trigger] matches_at(b, p, e, n + 1) implies exists|m: int| 0 <= m < next@.len() && next@[m] == e by {
        assert(matches_at(b, p, e, n)) by {
            assert forall|i: int| 0 <= i < n implies #[trigger] b[p + i] == b[p - e + i] by {
                assert(b[p + i] == b[p - e + i]);
            }
        }
        let j = choose|j: int| 0 <= j < candidates@.len() && candidates@[j] == e;
        assert(matches_at(b, p, candidates@[j] as int, n + 1));
    }
    next
}

/// The codeword that encodes `bytes` from `position` on.
pub fn get_best_codeword(bytes: &[u8], position: usize) -> (r: LZ77Codeword)
    requires
        position < bytes@.len(),
    ensures
        r == best_codeword(bytes@, position as int),
{
    let ghost b = bytes@;
    let ghost p = position as int;
    let len = bytes.len();
    if position == 0 || len - position < MIN_MATCH + 1 {
        return LZ77Codeword::Literal(bytes[position]);
    }
    let max_lookback: usize = if position < MAX_LOOKBACK { position } else { MAX_LOOKBACK };
    let rest: usize = len - position - 1;
    let max_run: usize = if rest < MAX_RUN { rest } else { MAX_RUN };
    assert(max_run == lookahead(b, p));
    let mut candidates = seed_candidates(bytes, position, max_lookback);
    if candidates.len() == 0 {
        proof {
            if has_match(b, p, 3) {
                let e = choose|e: int| 1 <= e <= window(p) && #[trigger] matches_at(b, p, e, 3);
                assert(exists|k: int| 0 <= k < candidates@.len() && candidates@[k] == e);
            }
        }
        return LZ77Codeword::Literal(bytes[position]);
    }
    assert(has_match(b, p, 3)) by {
        assert(matches_at(b, p, candidates@[0] as int, 3));
    }
    let mut best_run: usize = MIN_MATCH;
    let mut best_lookback: usize = candidates[0];
    let mut growing = true;
    while growing && best_run < max_run
        invariant
            !growing ==> longest_from(b, p, best_run as int) == best_run,
            b == bytes@,
            p == position,
            1 <= position,
            len == b.len(),
            max_run == lookahead(b, p),
            3 <= best_run <= max_run,
            candidates@.len() > 0,
            all_candidates(b, p, best_run as int, candidates@),
            best_lookback == candidates@[0],
            longest_from(b, p, 3) == longest_from(b, p, best_run as int),
        decreases max_run - best_run + (if growing { 1int } else { 0int }),
    {
        let next = filter_candidates(bytes, position, best_run, &candidates);
        let ghost n = best_run as int;
        if next.len() == 0 {
            proof {
                if has_match(b, p, n + 1) {
                    let e = choose|e: int| 1 <= e <= window(p) && #[trigger] matches_at(b, p, e, n + 1);
                    assert(exists|m: int| 0 <= m < next@.len() && next@[m] == e);
                }
            }
            growing = false;
        } else {
            assert(has_match(b, p, n + 1)) by {
                assert(matches_at(b, p, next@[0] as int, n + 1));
            }
            best_run += 1;
            candidates = next;
            best_lookback = candidates[0];
        }
    }
    proof {
        lemma_nearest_is_first(b, p, best_run as int, candidates@, 1);
    }
    LZ77Codeword::Run {
        lookback: best_lookback as u16,
        length: best_run as u8,
        token: bytes[position + best_run],
    }
}

proof fn lemma_longest(b: Seq<u8>, p: int, n: int)
    requires
        n <= lookahead(b, p),
        has_match(b, p, n),
    ensures
        n <= longest_from(b, p, n) <= lookahead(b, p),
        has_match(b, p, longest_from(b, p, n)),
    decreases lookahead(b, p) - n,
{
    if n < lookahead(b, p) && has_match(b, p, n + 1) {
        lemma_longest(b, p, n + 1);
    }
}

proof fn lemma_nearest_found(b: Seq<u8>, p: int, n: int, d: int, e: int)
    requires
        1 <= d <= e <= window(p),
        matches_at(b, p, e, n),
    ensures
        d <= nearest_from(b, p, n, d) <= window(p),
        matches_at(b, p, nearest_from(b, p, n, d), n),
    decreases e - d,
{
    if !matches_at(b, p, d, n) {
        lemma_nearest_found(b, p, n, d + 1, e);
    }
}

/// What a run emitted at `p` is made of.
proof fn lemma_run_shape(b: Seq<u8>, p: int)
    requires
        0 <= p < b.len(),
        !literal_at(b, p),
    ensures
        ({
            let n = longest_from(b, p, MIN_MATCH as int);
            let d = nearest_from(b, p, n, 1);
            &&& MIN_MATCH <= n <= lookahead(b, p)
            &&& 1 <= d <= window(p)
            &&& matches_at(b, p, d, n)
        }),
{
    let n = longest_from(b, p, MIN_MATCH as int);
    lemma_longest(b, p, MIN_MATCH as int);
    let e = choose|e: int| 1 <= e <= window(p) && #[trigger] matches_at(b, p, e, n);
    lemma_nearest_found(b, p, n, 1, e);
}

/// How many input bytes a codeword stands for.
pub open spec fn advance(c: LZ77Codeword) -> int {
    match c {
        LZ77Codeword::Literal(_) => 1,
        LZ77Codeword::Run { length, .. } => length + 1,
    }
}

/// The codewords that encode `b` from position `p` to its end.
pub open spec fn encode_from(b: Seq<u8>, p: int) -> Seq<LZ77Codeword>
    decreases b.len() - p,
{
    if p < 0 || p >= b.len() {
        seq![]
    } else {
        let c = best_codeword(b, p);
        let next = p + advance(c);
        seq![c] + encode_from(b, if next < b.len() { next } else { b.len() as int })
    }
}

/// The encoding of a whole buffer.
pub open spec fn encode_spec(b: Seq<u8>) -> Seq<LZ77Codeword> {
    encode_from(b, 0)
}

/// Appends `n` bytes to `out`, each copied from `start` onward, one at a time,
/// so that a copy may read bytes it has itself just written.
pub open spec fn copy_back(out: Seq<u8>, start: int, n: nat) -> Seq<u8>
    decreases n,
{
    if n == 0 {
        out
    } else {
        copy_back(out.push(out[start]), start + 1, (n - 1) as nat)
    }
}

/// Decodes one codeword after the output `out`; a run that reaches back
/// before the start of the output cannot be decoded.
pub open spec fn decode_step(out: Seq<u8>, c: LZ77Codeword) -> Option<Seq<u8>> {
    match c {
        LZ77Codeword::Literal(t) => Some(out.push(t)),
        LZ77Codeword::Run { lookback, length, token } => {
            if 1 <= lookback <= out.len() {
                Some(copy_back(out, out.len() - lookback, length as nat).push(token))
            } else {
                None
            }
        },
    }
}

/// Decodes `cs` after the output `out`.
pub open spec fn decode_from(out: Seq<u8>, cs: Seq<LZ77Codeword>) -> Option<Seq<u8>>
    decreases cs.len(),
{
    if cs.len() == 0 {
        Some(out)
    } else {
        match decode_step(out, cs[0]) {
            Some(next) => decode_from(next, cs.drop_first()),
            None => None,
        }
    }
}

/// The bytes a codeword stream decodes to, if it can be decoded.
pub open spec fn decode_spec(cs: Seq<LZ77Codeword>) -> Option<Seq<u8>> {
    decode_from(seq![], cs)
}

/// Compresses a buffer into its codeword stream.
pub fn encode(bytes: &[u8]) -> (r: Vec<LZ77Codeword>)
    ensures
        r@ == encode_spec(bytes@),
{
    let ghost b = bytes@;
    let len = bytes.len();
    let mut out: Vec<LZ77Codeword> = Vec::new();
    let mut pos: usize = 0;
    while pos < len
        invariant
            b == bytes@,
            len == b.len(),
            pos <= len,
            out@ + encode_from(b, pos as int) == encode_spec(b),
        decreases len - pos,
    {
        let c = get_best_codeword(bytes, pos);
        let ghost before = out@;
        let step: usize = match c {
            LZ77Codeword::Literal(_) => 1,
            LZ77Codeword::Run { length, .. } => {
                proof {
                    lemma_run_shape(b, pos as int);
                }
                length as usize + 1
            },
        };
        assert(encode_from(b, pos as int) == seq![c] + encode_from(b, pos + step));
        out.push(c);
        pos = pos + step;
        assert(out@ + encode_from(b, pos as int) =~= before + (seq![c] + encode_from(b, pos as int)));
    }
    assert(out@ + encode_from(b, pos as int) =~= out@);
    out
}

/// Decodes a codeword stream; `None` when a run reaches back before the
/// start of the output.
pub fn decode(codewords: &[LZ77Codeword]) -> (r: Option<Vec<u8>>)
    ensures
        r.is_some() == decode_spec(codewords@).is_some(),
        r.is_some() ==> r.unwrap()@ == decode_spec(codewords@).unwrap(),
{
    let ghost cs = codewords@;
    let mut out: Vec<u8> = Vec::new();
    let mut i: usize = 0;
    assert(cs.subrange(0, cs.len() as int) =~= cs);
    assert(out@ =~= seq![]);
    while i < codewords.len()
        invariant
            cs == codewords@,
            i <= cs.len(),
            decode_from(out@, cs.subrange(i as int, cs.len() as int)) == decode_spec(cs),
        decreases cs.len() - i,
    {
        let ghost rest = cs.subrange(i as int, cs.len() as int);
        assert(rest.drop_first() =~= cs.subrange(i + 1, cs.len() as int));
        assert(rest[0] == cs[i as int]);
        match codewords[i] {
            LZ77Codeword::Literal(t) => {
                out.push(t);
            },
            LZ77Codeword::Run { lookback, length, token } => {
                if lookback == 0 || lookback as usize > out.len() {
                    return None;
                }
                let start: usize = out.len() - lookback as usize;
                let ghost base = out@;
                let mut j: usize = 0;
                while j < length as usize
                    invariant
                        start < base.len() <= out@.len(),
                        1 <= lookback,
                        start == base.len() - lookback,
                        out@.len() == base.len() + j,
                        j <= length,
                        copy_back(base, start as int, length as nat) == copy_back(out@, start + j, (length - j) as nat),
                    decreases length - j,
                {
                    let byte = out[out.len() - lookback as usize];
                    let ghost prev = out@;
                    out.push(byte);
                    assert(copy_back(prev, start + j, (length - j) as nat) == copy_back(out@, start + j + 1, (length - j - 1) as nat));
                    j += 1;
                }
                out.push(token);
            },
        }
        i += 1;
    }
    assert(cs.subrange(i as int, cs.len() as int).len() == 0);
    Some(out)
}

proof fn lemma_copy_back(b: Seq<u8>, q: int, d: int, n: nat)
    requires
        1 <= d <= q,
        q + n <= b.len(),
        forall|i: int| 0 <= i < n ==> #[trigger] b[q + i] == b[q - d + i],
    ensures
        copy_back(b.subrange(0, q), q - d, n) == b.subrange(0, q + n),
    decreases n,
{
    if n > 0 {
        assert(b[q + 0] == b[q - d + 0]);
        assert(b.subrange(0, q).push(b.subrange(0, q)[q - d]) =~= b.subrange(0, q + 1));
        assert forall|i: int| 0 <= i < n - 1 implies #[trigger] b[(q + 1) + i] == b[(q + 1) - d + i] by {
            assert(b[q + (i + 1)] == b[q - d + (i + 1)]);
        }
        lemma_copy_back(b, q + 1, d, (n - 1) as nat);
    } else {
        assert(b.subrange(0, q + n) =~= b.subrange(0, q));
    }
}

proof fn lemma_decode_encode_from(b: Seq<u8>, p: int)
    requires
        0 <= p <= b.len(),
    ensures
        decode_from(b.subrange(0, p), encode_from(b, p)) == Some(b),
    decreases b.len() - p,
{
    if p == b.len() {
        assert(b.subrange(0, p) =~= b);
    } else {
        let c = best_codeword(b, p);
        let cs = encode_from(b, p);
        let next = p + advance(c);
        if !literal_at(b, p) {
            lemma_run_shape(b, p);
        }
        assert(cs[0] == c);
        assert(cs.drop_first() =~= encode_from(b, next));
        if literal_at(b, p) {
            assert(b.subrange(0, p).push(b[p]) =~= b.subrange(0, p + 1));
        } else {
            let n = longest_from(b, p, MIN_MATCH as int);
            let d = nearest_from(b, p, n, 1);
            lemma_copy_back(b, p, d, n as nat);
            assert(b.subrange(0, p + n).push(b[p + n]) =~= b.subrange(0, p + n + 1));
        }
        lemma_decode_encode_from(b, next);
    }
}

/// Decoding the encoding of any buffer gives the buffer back.
pub proof fn lemma_round_trip(b: Seq<u8>)
    ensures
        decode_spec(encode_spec(b)) == Some(b),
{
    assert(b.subrange(0, 0) =~= seq![]);
    lemma_decode_encode_from(b, 0);
}

proof fn lemma_short_tail(b: Seq<u8>, p: int)
    requires
        0 <= p <= b.len(),
        b.len() < 3,
    ensures
        encode_from(b, p).len() == b.len() - p,
        forall|i: int| 0 <= i < b.len() - p ==> #[trigger] encode_from(b, p)[i] == LZ77Codeword::Literal(b[p + i]),
    decreases b.len() - p,
{
    if p < b.len() {
        lemma_short_tail(b, p + 1);
        let rest = encode_from(b, p + 1);
        assert forall|i: int| 0 <= i < b.len() - p implies #[trigger] encode_from(b, p)[i] == LZ77Codeword::Literal(b[p + i]) by {
            if i > 0 {
                assert(rest[i - 1] == LZ77Codeword::Literal(b[p + 1 + (i - 1)]));
            }
        }
    }
}

/// A buffer shorter than three bytes is encoded as one literal per byte.
pub proof fn lemma_short_buffer_literals(b: Seq<u8>)
    requires
        b.len() < 3,
    ensures
        encode_spec(b).len() == b.len(),
        forall|i: int| 0 <= i < b.len() ==> #[trigger] encode_spec(b)[i] == LZ77Codeword::Literal(b[i]),
{
    lemma_short_tail(b, 0);
}

/// The encoding of a non-empty buffer starts with a literal of its first byte.
pub proof fn lemma_first_codeword_literal(b: Seq<u8>)
    requires
        b.len() > 0,
    ensures
        encode_spec(b)[0] == LZ77Codeword::Literal(b[0]),
{
}

/// Equal buffers are encoded alike: the encoding depends on the bytes alone.
pub proof fn lemma_encode_deterministic(b1: Seq<u8>, b2: Seq<u8>)
    requires
        b1 == b2,
    ensures
        encode_spec(b1) == encode_spec(b2),
{
}

/// The four bytes of a codeword: lookback (little-endian), length, token.
pub open spec fn codeword_bytes(c: LZ77Codeword) -> Seq<u8> {
    match c {
        LZ77Codeword::Literal(t) => seq![0u8, 0u8, 0u8, t],
        LZ77Codeword::Run { lookback, length, token } => seq![
            (lookback % 256) as u8,
            (lookback / 256) as u8,
            length,
            token,
        ],
    }
}

/// The bytes of a codeword stream.
pub open spec fn serialize(cs: Seq<LZ77Codeword>) -> Seq<u8>
    decreases cs.len(),
{
    if cs.len() == 0 {
        seq![]
    } else {
        codeword_bytes(cs[0]) + serialize(cs.drop_first())
    }
}

/// The codeword a four-byte record stands for; a zero lookback with a
/// non-zero length is not a codeword.
pub open spec fn parse_record(r: Seq<u8>) -> Option<LZ77Codeword> {
    let lookback = r[0] + 256 * r[1];
    if lookback == 0 {
        if r[2] == 0 {
            Some(LZ77Codeword::Literal(r[3]))
        } else {
            None
        }
    } else {
        Some(LZ77Codeword::Run { lookback: lookback as u16, length: r[2], token: r[3] })
    }
}

/// The codewords a byte stream holds, if it is a whole number of valid records.
pub open spec fn parse_spec(b: Seq<u8>) -> Option<Seq<LZ77Codeword>>
    decreases b.len(),
{
    if b.len() == 0 {
        Some(seq![])
    } else if b.len() < 4 {
        None
    } else {
        match parse_record(b.subrange(0, 4)) {
            None => None,
            Some(c) => match parse_spec(b.subrange(4, b.len() as int)) {
                None => None,
                Some(cs) => Some(seq![c] + cs),
            },
        }
    }
}

/// The codewords the encoder can emit: a run always reaches back at least one byte.
pub open spec fn canonical(c: LZ77Codeword) -> bool {
    match c {
        LZ77Codeword::Literal(_) => true,
        LZ77Codeword::Run { lookback, .. } => lookback >= 1,
    }
}

/// The stream `decompress` accepts for `b`.
pub open spec fn compress_spec(b: Seq<u8>) -> Seq<u8> {
    serialize(encode_spec(b))
}

/// The bytes a compressed stream decompresses to, if it is well formed.
pub open spec fn decompress_spec(b: Seq<u8>) -> Option<Seq<u8>> {
    match parse_spec(b) {
        None => None,
        Some(cs) => decode_spec(cs),
    }
}

impl LZ77Codeword {
    /// Appends the four bytes of this codeword to `out`.
    pub fn write_to_buffer(&self, out: &mut Vec<u8>)
        ensures
            final(out)@ == old(out)@ + codeword_bytes(*self),
    {
        match *self {
            LZ77Codeword::Literal(t) => {
                out.push(0);
                out.push(0);
                out.push(0);
                out.push(t);
            },
            LZ77Codeword::Run { lookback, length, token } => {
                out.push((lookback % 256) as u8);
                out.push((lookback / 256) as u8);
                out.push(length);
                out.push(token);
            },
        }
        assert(final(out)@ =~= old(out)@ + codeword_bytes(*self));
    }
}

/// Compresses a buffer into the four-byte records of its codeword stream.
pub fn buffer_compress(bytes: &[u8]) -> (r: Vec<u8>)
    ensures
        r@ == compress_spec(bytes@),
{
    let codewords = encode(bytes);
    let ghost cs = codewords@;
    let mut out: Vec<u8> = Vec::new();
    let mut i: usize = 0;
    assert(cs.subrange(0, cs.len() as int) =~= cs);
    while i < codewords.len()
        invariant
            cs == codewords@,
            cs == encode_spec(bytes@),
            i <= cs.len(),
            out@ + serialize(cs.subrange(i as int, cs.len() as int)) == serialize(cs),
        decreases cs.len() - i,
    {
        let ghost rest = cs.subrange(i as int, cs.len() as int);
        assert(rest.drop_first() =~= cs.subrange(i + 1, cs.len() as int));
        let ghost before = out@;
        codewords[i].write_to_buffer(&mut out);
        i += 1;
        assert(out@ + serialize(cs.subrange(i as int, cs.len() as int)) =~= before + serialize(rest));
    }
    assert(out@ + serialize(cs.subrange(i as int, cs.len() as int)) =~= out@);
    out
}

/// Reads a byte stream as four-byte codeword records; `None` when its length
/// is not a multiple of four or a record has a zero lookback and a non-zero
/// length.
pub fn parse_codewords(bytes: &[u8]) -> (r: Option<Vec<LZ77Codeword>>)
    ensures
        r.is_some() == parse_spec(bytes@).is_some(),
        r.is_some() ==> r.unwrap()@ == parse_spec(bytes@).unwrap(),
{
    let ghost b = bytes@;
    let len = bytes.len();
    let mut out: Vec<LZ77Codeword> = Vec::new();
    let mut i: usize = 0;
    assert(b.subrange(0, len as int) =~= b);
    while i < len
        invariant
            b == bytes@,
            len == b.len(),
            i <= len,
            parse_spec(b) == match parse_spec(b.subrange(i as int, len as int)) {
                None => None,
                Some(cs) => Some(out@ + cs),
            },
        decreases len - i,
    {
        let ghost rest = b.subrange(i as int, len as int);
        if len - i < 4 {
            return None;
        }
        let b0 = bytes[i];
        let b1 = bytes[i + 1];
        let b2 = bytes[i + 2];
        let b3 = bytes[i + 3];
        let lookback: u16 = b0 as u16 + 256 * b1 as u16;
        assert(rest.subrange(0, 4) =~= seq![b0, b1, b2, b3]);
        assert(rest.subrange(4, rest.len() as int) =~= b.subrange(i + 4, len as int));
        let c = if lookback == 0 {
            if b2 != 0 {
                return None;
            }
            LZ77Codeword::Literal(b3)
        } else {
            LZ77Codeword::Run { lookback, length: b2, token: b3 }
        };
        let ghost before = out@;
        out.push(c);
        i += 4;
        proof {
            let tail = parse_spec(b.subrange(i as int, len as int));
            if tail.is_some() {
                assert(out@ + tail.unwrap() =~= before + (seq![c] + tail.unwrap()));
            }
        }
    }
    assert(out@ + seq![] =~= out@);
    Some(out)
}

/// Decompresses a stream of four-byte codeword records; `None` when the
/// stream is malformed.
pub fn decompress(bytes: &[u8]) -> (r: Option<Vec<u8>>)
    ensures
        r.is_some() == decompress_spec(bytes@).is_some(),
        r.is_some() ==> r.unwrap()@ == decompress_spec(bytes@).unwrap(),
{
    match parse_codewords(bytes) {
        None => None,
        Some(cs) => decode(cs.as_slice()),
    }
}

proof fn lemma_encode_canonical(b: Seq<u8>, p: int)
    requires
        0 <= p <= b.len(),
    ensures
        forall|i: int| 0 <= i < encode_from(b, p).len() ==> canonical(#[trigger] encode_from(b, p)[i]),
    decreases b.len() - p,
{
    if p < b.len() {
        let c = best_codeword(b, p);
        if !literal_at(b, p) {
            lemma_run_shape(b, p);
        }
        let next = p + advance(c);
        lemma_encode_canonical(b, next);
        let rest = encode_from(b, next);
        assert forall|i: int| 0 <= i < encode_from(b, p).len() implies canonical(#[trigger] encode_from(b, p)[i]) by {
            if i > 0 {
                assert(encode_from(b, p)[i] == rest[i - 1]);
            }
        }
    }
}

proof fn lemma_parse_serialize(cs: Seq<LZ77Codeword>)
    requires
        forall|i: int| 0 <= i < cs.len() ==> canonical(#[trigger] cs[i]),
    ensures
        parse_spec(serialize(cs)) == Some(cs),
    decreases cs.len(),
{
    if cs.len() > 0 {
        let c = cs[0];
        let rest = cs.drop_first();
        assert forall|i: int| 0 <= i < rest.len() implies canonical(#[trigger] rest[i]) by {
            assert(rest[i] == cs[i + 1]);
        }
        lemma_parse_serialize(rest);
        let s = serialize(cs);
        assert(canonical(cs[0]));
        assert(s.subrange(0, 4) =~= codeword_bytes(c));
        assert(s.subrange(4, s.len() as int) =~= serialize(rest));
        if let LZ77Codeword::Run { lookback, .. } = c {
            assert((lookback % 256) + 256 * (lookback / 256) == lookback);
        }
        assert(parse_record(codeword_bytes(c)) == Some(c));
        assert(seq![c] + rest =~= cs);
    } else {
        assert(cs =~= seq![]);
    }
}

/// Decompressing the compressed form of any buffer gives the buffer back.
pub proof fn lemma_compress_round_trip(b: Seq<u8>)
    ensures
        parse_spec(compress_spec(b)) == Some(encode_spec(b)),
        decompress_spec(compress_spec(b)) == Some(b),
{
    lemma_encode_canonical(b, 0);
    lemma_parse_serialize(encode_spec(b));
    lemma_round_trip(b);
}

} // verus!
