//! The rotund rank transform.
//!
//! For every position of a byte buffer, the bytes that follow it (its context)
//! rank all 256 byte values by how well they predict the byte before it; the
//! transform emits that byte's rank. The ranking is a function of the context
//! alone, so the decoder, which rebuilds the buffer from the back, sees the same
//! contexts and inverts every step.
use vstd::prelude::*;
use crate::error::CodecError;

verus! {

/// How far the context's own start matches the bytes that follow candidate
/// position `a`, once an overlap of `k` is established.
pub open spec fn overlap_from(ctx: Seq<u8>, a: int, k: int) -> int
    decreases ctx.len() - k,
{
    if 0 <= a && 0 <= k && a + 1 + k < ctx.len() && ctx[k] == ctx[a + 1 + k] {
        overlap_from(ctx, a, k + 1)
    } else {
        k
    }
}

/// The overlap of candidate position `a`: the largest `k >= 1` with
/// `ctx[0..k] == ctx[a+1..a+1+k]`, capped by the end of the context.
pub open spec fn overlap(ctx: Seq<u8>, a: int) -> int {
    overlap_from(ctx, a, 1)
}

/// Whether `a` is a candidate position: the byte after it equals the context's first byte.
pub open spec fn is_candidate(ctx: Seq<u8>, a: int) -> bool {
    0 <= a && a + 1 < ctx.len() && ctx[a + 1] == ctx[0]
}

/// The score `(best overlap, number of candidates reaching it)` of byte `b`
/// over the candidate positions below `m`.
pub open spec fn score_upto(ctx: Seq<u8>, b: u8, m: int) -> (int, int)
    decreases m,
{
    if m <= 0 {
        (0, 0)
    } else {
        let prev = score_upto(ctx, b, m - 1);
        let a = m - 1;
        if is_candidate(ctx, a) && ctx[a] == b {
            let k = overlap(ctx, a);
            if k > prev.0 {
                (k, 1)
            } else if k == prev.0 {
                (prev.0, prev.1 + 1)
            } else {
                prev
            }
        } else {
            prev
        }
    }
}

/// The score of byte `b` in context `ctx`.
pub open spec fn score(ctx: Seq<u8>, b: u8) -> (int, int) {
    score_upto(ctx, b, ctx.len() - 1)
}

/// Lexicographic order on scores: `p` is at least `q`.
pub open spec fn score_ge(p: (int, int), q: (int, int)) -> bool {
    p.0 > q.0 || (p.0 == q.0 && p.1 >= q.1)
}

/// Where byte `b` goes in `s`, a list ordered by descending score: after every
/// leading entry whose score is at least that of `b`.
pub open spec fn insert_pos(ctx: Seq<u8>, s: Seq<u8>, b: u8) -> int
    decreases s.len(),
{
    if s.len() == 0 {
        0
    } else if score_ge(score(ctx, s[0]), score(ctx, b)) {
        1 + insert_pos(ctx, s.drop_first(), b)
    } else {
        0
    }
}

/// The bytes `0..m` ordered by descending score; a byte goes after the smaller
/// bytes of equal score.
pub open spec fn ranked_upto(ctx: Seq<u8>, m: int) -> Seq<u8>
    decreases m,
{
    if m <= 0 {
        Seq::empty()
    } else {
        let s = ranked_upto(ctx, m - 1);
        s.insert(insert_pos(ctx, s, (m - 1) as u8), (m - 1) as u8)
    }
}

/// The rotund of a context: all 256 byte values, most likely successor first.
pub open spec fn rotund(ctx: Seq<u8>) -> Seq<u8> {
    ranked_upto(ctx, 256)
}

/// The index of the first `b` in `s` (`s.len()` if there is none).
pub open spec fn position_of(s: Seq<u8>, b: u8) -> int
    decreases s.len(),
{
    if s.len() == 0 {
        0
    } else if s[0] == b {
        0
    } else {
        1 + position_of(s.drop_first(), b)
    }
}

/// The rank stream of a (reversed) buffer: the last byte verbatim, then for
/// each earlier byte its position in the rotund of the bytes after it.
pub open spec fn rotund_encode(s: Seq<u8>) -> Seq<u8> {
    Seq::new(
        s.len(),
        |m: int|
            if m == 0 {
                s[s.len() - 1]
            } else {
                position_of(rotund(s.subrange(s.len() - m, s.len() as int)), s[s.len() - 1 - m]) as u8
            },
    )
}

/// The last `m` bytes that decoding the rank stream `ranks` rebuilds.
pub open spec fn decoded_suffix(ranks: Seq<u8>, m: nat) -> Seq<u8>
    decreases m,
{
    if m == 0 {
        Seq::empty()
    } else if m == 1 {
        seq![ranks[0]]
    } else {
        let prev = decoded_suffix(ranks, (m - 1) as nat);
        seq![rotund(prev)[ranks[m - 1] as int]].add(prev)
    }
}

/// The buffer that a rank stream decodes to.
pub open spec fn rotund_decode(ranks: Seq<u8>) -> Seq<u8> {
    decoded_suffix(ranks, ranks.len())
}

proof fn lemma_ranked_upto(ctx: Seq<u8>, m: int)
    requires
        0 <= m <= 256,
    ensures
        ranked_upto(ctx, m).len() == m,
        forall|b: u8| (b as int) < m ==> ranked_upto(ctx, m).contains(b),
    decreases m,
{
    if m > 0 {
        lemma_ranked_upto(ctx, m - 1);
        let s = ranked_upto(ctx, m - 1);
        let p = insert_pos(ctx, s, (m - 1) as u8);
        lemma_insert_pos_bound(ctx, s, (m - 1) as u8);
        let t = s.insert(p, (m - 1) as u8);
        s.insert_ensures(p, (m - 1) as u8);
        assert forall|b: u8| (b as int) < m implies t.contains(b) by {
            if (b as int) == m - 1 {
                assert(t[p] == b);
            } else {
                assert(s.contains(b));
                let j = choose|j: int| 0 <= j < s.len() && s[j] == b;
                if j < p {
                    assert(t[j] == b);
                } else {
                    assert(t[j + 1] == b);
                }
            }
        }
    }
}

proof fn lemma_insert_pos_bound(ctx: Seq<u8>, s: Seq<u8>, b: u8)
    ensures
        0 <= insert_pos(ctx, s, b) <= s.len(),
    decreases s.len(),
{
    if s.len() > 0 {
        lemma_insert_pos_bound(ctx, s.drop_first(), b);
    }
}

/// The rotund of any context is a permutation of the 256 byte values.
pub proof fn lemma_rotund_is_permutation(ctx: Seq<u8>)
    ensures
        rotund(ctx).len() == 256,
        forall|b: u8| rotund(ctx).contains(b),
{
    lemma_ranked_upto(ctx, 256);
}

proof fn lemma_position_of(s: Seq<u8>, b: u8)
    requires
        s.contains(b),
    ensures
        0 <= position_of(s, b) < s.len(),
        s[position_of(s, b)] == b,
        forall|j: int| 0 <= j < position_of(s, b) ==> s[j] != b,
    decreases s.len(),
{
    if s[0] != b {
        let j = choose|j: int| 0 <= j < s.len() && s[j] == b;
        assert(s.drop_first()[j - 1] == b);
        lemma_position_of(s.drop_first(), b);
        assert forall|j: int| 0 <= j < position_of(s, b) implies s[j] != b by {
            if j > 0 {
                assert(s[j] == s.drop_first()[j - 1]);
            }
        }
    }
}

proof fn lemma_position_of_first(s: Seq<u8>, b: u8, i: int)
    requires
        0 <= i < s.len(),
        s[i] == b,
        forall|j: int| 0 <= j < i ==> s[j] != b,
    ensures
        position_of(s, b) == i,
    decreases i,
{
    if i > 0 {
        lemma_position_of_first(s.drop_first(), b, i - 1);
    }
}

/// `s` is ordered by descending score, equal scores by ascending byte value.
pub open spec fn ranked_order(ctx: Seq<u8>, s: Seq<u8>) -> bool {
    forall|i: int, j: int|
        0 <= i < j < s.len() ==> #[trigger] score_ge(score(ctx, s[i]), score(ctx, s[j])) && (score(
            ctx,
            s[i],
        ) == score(ctx, s[j]) ==> s[i] < s[j])
}

proof fn lemma_insert_pos_split(ctx: Seq<u8>, s: Seq<u8>, b: u8)
    ensures
        forall|k: int| 0 <= k < insert_pos(ctx, s, b) ==> score_ge(score(ctx, s[k]), score(ctx, b)),
        insert_pos(ctx, s, b) < s.len() ==> !score_ge(
            score(ctx, s[insert_pos(ctx, s, b)]),
            score(ctx, b),
        ),
    decreases s.len(),
{
    if s.len() > 0 && score_ge(score(ctx, s[0]), score(ctx, b)) {
        let t = s.drop_first();
        lemma_insert_pos_split(ctx, t, b);
        lemma_insert_pos_bound(ctx, s, b);
        lemma_insert_pos_bound(ctx, t, b);
        if insert_pos(ctx, s, b) < s.len() {
            assert(s[insert_pos(ctx, s, b)] == t[insert_pos(ctx, t, b)]);
        }
        assert forall|k: int| 0 <= k < insert_pos(ctx, s, b) implies score_ge(
            score(ctx, s[k]),
            score(ctx, b),
        ) by {
            if k > 0 {
                assert(s[k] == t[k - 1]);
            }
        }
    }
}

proof fn lemma_insert_pair(ctx: Seq<u8>, s: Seq<u8>, b: u8, i: int, j: int)
    requires
        ranked_order(ctx, s),
        forall|k: int| 0 <= k < s.len() ==> s[k] < b,
        0 <= i < j <= s.len(),
    ensures
        ({
            let t = s.insert(insert_pos(ctx, s, b), b);
            score_ge(score(ctx, t[i]), score(ctx, t[j])) && (score(ctx, t[i]) == score(ctx, t[j])
                ==> t[i] < t[j])
        }),
{
    let p = insert_pos(ctx, s, b);
    lemma_insert_pos_bound(ctx, s, b);
    lemma_insert_pos_split(ctx, s, b);
    let t = s.insert(p, b);
    s.insert_ensures(p, b);
    let kb = score(ctx, b);
    if j < p {
        assert(t[i] == s[i] && t[j] == s[j]);
        assert(score_ge(score(ctx, s[i]), score(ctx, s[j])));
    } else if j == p {
        assert(t[i] == s[i] && t[j] == b);
        assert(score_ge(score(ctx, s[i]), kb));
    } else if i < p {
        assert(t[i] == s[i] && t[j] == s[j - 1]);
        assert(score_ge(score(ctx, s[i]), score(ctx, s[j - 1])));
    } else if i == p {
        assert(t[i] == b && t[j] == s[j - 1]);
        assert(!score_ge(score(ctx, s[p]), kb));
        if j - 1 > p {
            assert(score_ge(score(ctx, s[p]), score(ctx, s[j - 1])));
        }
    } else {
        assert(t[i] == s[i - 1] && t[j] == s[j - 1]);
        assert(score_ge(score(ctx, s[i - 1]), score(ctx, s[j - 1])));
    }
}

proof fn lemma_ranked_upto_order(ctx: Seq<u8>, m: int)
    requires
        0 <= m <= 256,
    ensures
        ranked_order(ctx, ranked_upto(ctx, m)),
        forall|k: int| 0 <= k < ranked_upto(ctx, m).len() ==> (ranked_upto(ctx, m)[k] as int) < m,
    decreases m,
{
    if m > 0 {
        lemma_ranked_upto_order(ctx, m - 1);
        lemma_ranked_upto(ctx, m - 1);
        let s = ranked_upto(ctx, m - 1);
        let b = (m - 1) as u8;
        let p = insert_pos(ctx, s, b);
        lemma_insert_pos_bound(ctx, s, b);
        let t = s.insert(p, b);
        s.insert_ensures(p, b);
        assert forall|k: int| 0 <= k < t.len() implies (t[k] as int) < m by {
            if k < p {
                assert(t[k] == s[k]);
            } else if k > p {
                assert(t[k] == s[k - 1]);
            }
        }
        assert forall|k: int| 0 <= k < s.len() implies s[k] < b by {}
        assert forall|i: int, j: int| 0 <= i < j < t.len() implies #[trigger] score_ge(
            score(ctx, t[i]),
            score(ctx, t[j]),
        ) && (score(ctx, t[i]) == score(ctx, t[j]) ==> t[i] < t[j]) by {
            lemma_insert_pair(ctx, s, b, i, j);
        }
    }
}

proof fn lemma_insert_pos_front(ctx: Seq<u8>, s: Seq<u8>, b: u8, i: int)
    requires
        0 <= i <= s.len(),
        forall|k: int| 0 <= k < i ==> score_ge(score(ctx, s[k]), score(ctx, b)),
        i < s.len() ==> !score_ge(score(ctx, s[i]), score(ctx, b)),
    ensures
        insert_pos(ctx, s, b) == i,
    decreases i,
{
    if i > 0 {
        let t = s.drop_first();
        assert forall|k: int| 0 <= k < i - 1 implies score_ge(score(ctx, t[k]), score(ctx, b)) by {
            assert(t[k] == s[k + 1]);
        }
        if i < s.len() {
            assert(t[i - 1] == s[i]);
        }
        lemma_insert_pos_front(ctx, t, b, i - 1);
    }
}

/// In a list in rotund order, the insertion place of `b` is right after the
/// last entry whose score is at least that of `b`.
proof fn lemma_insert_pos_at(ctx: Seq<u8>, s: Seq<u8>, b: u8, i: int)
    requires
        ranked_order(ctx, s),
        0 <= i <= s.len(),
        i > 0 ==> score_ge(score(ctx, s[i - 1]), score(ctx, b)),
        forall|k: int| i <= k < s.len() ==> !score_ge(score(ctx, s[k]), score(ctx, b)),
    ensures
        insert_pos(ctx, s, b) == i,
{
    assert forall|k: int| 0 <= k < i implies score_ge(score(ctx, s[k]), score(ctx, b)) by {
        if k < i - 1 {
            assert(score_ge(score(ctx, s[k]), score(ctx, s[i - 1])));
        }
    }
    lemma_insert_pos_front(ctx, s, b, i);
}

/// The rotund of a context lists the bytes by descending score
/// `(best overlap, ties)`, equal scores by ascending byte value.
pub proof fn lemma_rotund_order(ctx: Seq<u8>)
    ensures
        ranked_order(ctx, rotund(ctx)),
{
    lemma_ranked_upto_order(ctx, 256);
}

/// Equal buffers have equal rank streams, and equal rank streams decode to
/// equal buffers.
pub proof fn lemma_rotund_deterministic(s: Seq<u8>, t: Seq<u8>)
    requires
        s == t,
    ensures
        rotund_encode(s) == rotund_encode(t),
        rotund_decode(s) == rotund_decode(t),
{
}

/// A one-byte buffer is its own rank stream, and decodes from it.
pub proof fn lemma_rotund_single_byte(b: u8)
    ensures
        rotund_encode(seq![b]) == seq![b],
        rotund_decode(seq![b]) == seq![b],
{
    assert(rotund_encode(seq![b]) =~= seq![b]);
}

/// Decoding the rank stream of a non-empty buffer gives the buffer back.
pub proof fn lemma_rotund_round_trip(s: Seq<u8>)
    requires
        s.len() >= 1,
    ensures
        rotund_decode(rotund_encode(s)) == s,
{
    lemma_decoded_suffix(s, s.len());
    assert(s.subrange(0, s.len() as int) =~= s);
}

proof fn lemma_decoded_suffix(s: Seq<u8>, m: nat)
    requires
        1 <= m <= s.len(),
    ensures
        decoded_suffix(rotund_encode(s), m) == s.subrange(s.len() - m, s.len() as int),
    decreases m,
{
    let r = rotund_encode(s);
    let l = s.len() as int;
    if m == 1 {
        assert(decoded_suffix(r, 1) =~= s.subrange(l - 1, l));
    } else {
        lemma_decoded_suffix(s, (m - 1) as nat);
        let prev = s.subrange(l - (m - 1), l);
        let perm = rotund(prev);
        let target = s[l - m];
        lemma_rotund_is_permutation(prev);
        lemma_position_of(perm, target);
        assert(r[m - 1] == position_of(perm, target) as u8);
        assert(perm[r[m - 1] as int] == target);
        assert(decoded_suffix(r, m) =~= s.subrange(l - m, l));
    }
}

/// The ranking at a position depends on the bytes from that position on and
/// on nothing before it.
pub proof fn lemma_rotund_depends_on_suffix(s: Seq<u8>, t: Seq<u8>, n: int, k: int)
    requires
        0 <= n < s.len(),
        0 <= k < t.len(),
        s.subrange(n, s.len() as int) == t.subrange(k, t.len() as int),
    ensures
        rotund(s.subrange(n, s.len() as int)) == rotund(t.subrange(k, t.len() as int)),
{
}

/// Holds a buffer and ranks byte values by the bytes of a suffix of it.
pub struct RotundHelper {
    reversed: Vec<u8>,
}

impl RotundHelper {
    pub closed spec fn view(&self) -> Seq<u8> {
        self.reversed@
    }

    /// The context at position `n`: the bytes from `n` to the end.
    pub closed spec fn context(&self, n: int) -> Seq<u8> {
        self.reversed@.subrange(n, self.reversed@.len() as int)
    }

    pub fn new(reversed: Vec<u8>) -> (r: Self)
        ensures
            r@ == reversed@,
    {
        Self { reversed }
    }

    /// The rotund of the context that starts at position `n`: the bytes from
    /// `n` to the end of the buffer.
    pub fn make_rotund(&self, n: usize) -> (r: Vec<u8>)
        requires
            n < self@.len(),
        ensures
            r@ == rotund(self@.subrange(n as int, self@.len() as int)),
    {
        let ghost ctx = self.context(n as int);
        let clen = self.reversed.len() - n;
        let mut best: Vec<usize> = Vec::new();
        let mut freq: Vec<usize> = Vec::new();
        let mut b: usize = 0;
        while b < 256
            invariant
                b <= 256,
                best@.len() == b,
                freq@.len() == b,
                forall|j: int| 0 <= j < b ==> best@[j] == 0 && freq@[j] == 0,
            decreases 256 - b,
        {
            best.push(0);
            freq.push(0);
            b += 1;
        }
        let first = self.reversed[n];
        let mut a: usize = 0;
        while a + 1 < clen
            invariant
                ctx == self.context(n as int),
                n < self.reversed@.len(),
                self.reversed@.len() <= usize::MAX,
                clen == self.reversed@.len() - n,
                first == ctx[0],
                a + 1 <= clen,
                best@.len() == 256,
                freq@.len() == 256,
                forall|j: int|
                    0 <= j < 256 ==> (best@[j] as int, freq@[j] as int) == score_upto(
                        ctx,
                        j as u8,
                        a as int,
                    ),
                forall|j: int| 0 <= j < 256 ==> best@[j] < clen && freq@[j] <= a,
            decreases clen - a,
        {
            if self.reversed[n + a + 1] == first {
                let mut k: usize = 1;
                while a + k + 1 < clen && self.reversed[n + k] == self.reversed[n + a + k + 1]
                    invariant
                        ctx == self.context(n as int),
                        clen == self.reversed@.len() - n,
                        self.reversed@.len() <= usize::MAX,
                        a + 1 < clen,
                        1 <= k,
                        a + k < clen,
                        overlap_from(ctx, a as int, k as int) == overlap(ctx, a as int),
                    decreases clen - k,
                {
                    k += 1;
                }
                let target = self.reversed[n + a] as usize;
                assert(ctx[a as int] == target as u8);
                if k > best[target] {
                    best.set(target, k);
                    freq.set(target, 1);
                } else if k == best[target] {
                    let f = freq[target] + 1;
                    freq.set(target, f);
                }
            }
            proof {
                assert forall|j: int|
                    0 <= j < 256 implies (best@[j] as int, freq@[j] as int) == score_upto(
                        ctx,
                        j as u8,
                        a + 1,
                    ) by {
                    assert((j as u8) as int == j);
                }
            }
            a += 1;
        }
        let mut keys: Vec<u8> = Vec::new();
        let mut c: usize = 0;
        while c < 256
            invariant
                c <= 256,
                best@.len() == 256,
                freq@.len() == 256,
                forall|j: int|
                    0 <= j < 256 ==> (best@[j] as int, freq@[j] as int) == score(ctx, j as u8),
                keys@ == ranked_upto(ctx, c as int),
            decreases 256 - c,
        {
            proof {
                lemma_ranked_upto(ctx, c as int);
            }
            let cb = c as u8;
            let ghost s = keys@;
            assert(s.subrange(0, s.len() as int) =~= s);
            proof {
                lemma_ranked_upto_order(ctx, c as int);
            }
            let mut i: usize = keys.len();
            while i > 0 && !(best[keys[i - 1] as usize] > best[c] || (best[keys[i - 1] as usize]
                == best[c] && freq[keys[i - 1] as usize] >= freq[c]))
                invariant
                    keys@ == s,
                    i <= s.len(),
                    best@.len() == 256,
                    freq@.len() == 256,
                    forall|j: int|
                        0 <= j < 256 ==> (best@[j] as int, freq@[j] as int) == score(
                            ctx,
                            j as u8,
                        ),
                    c < 256,
                    cb == c as u8,
                    forall|k: int|
                        i <= k < s.len() ==> !score_ge(score(ctx, s[k]), score(ctx, cb)),
                decreases i,
            {
                proof {
                    let e = keys@[i - 1];
                    assert((e as int) as u8 == e);
                    assert((c as int) as u8 == cb);
                }
                i -= 1;
            }
            proof {
                if i > 0 {
                    let e = keys@[i - 1];
                    assert((e as int) as u8 == e);
                    assert((c as int) as u8 == cb);
                }
                lemma_insert_pos_at(ctx, s, cb, i as int);
            }
            keys.insert(i, cb);
            c += 1;
        }
        keys
    }
}

/// Turns a (reversed) buffer into its rank stream, of the same length: the
/// last byte first, verbatim, then the rank of each earlier byte in the rotund
/// of the bytes after it.
pub fn encode(reversed: Vec<u8>) -> (r: Result<Vec<u8>, CodecError>)
    ensures
        reversed@.len() == 0 ==> r == Err::<Vec<u8>, CodecError>(CodecError::EmptyInput),
        reversed@.len() > 0 ==> (r matches Ok(ranks) && ranks@ == rotund_encode(reversed@)),
{
    let l = reversed.len();
    if l == 0 {
        return Err(CodecError::EmptyInput);
    }
    let ghost src = reversed@;
    let mut probcodes: Vec<u8> = Vec::new();
    probcodes.push(reversed[l - 1]);
    let helper = RotundHelper::new(reversed);
    let mut m: usize = 1;
    while m < l
        invariant
            helper@ == src,
            l == src.len(),
            1 <= m <= l,
            probcodes@ =~= rotund_encode(src).subrange(0, m as int),
        decreases l - m,
    {
        let n = l - m;
        let rot = helper.make_rotund(n);
        let target = helper.reversed[n - 1];
        proof {
            assert(helper.context(n as int) =~= src.subrange(l - m, l as int));
            lemma_rotund_is_permutation(helper.context(n as int));
            lemma_position_of(rot@, target);
        }
        let mut i: usize = 0;
        while rot[i] != target
            invariant
                rot@.len() == 256,
                rot@.contains(target),
                0 <= i <= position_of(rot@, target),
                position_of(rot@, target) < 256,
                rot@[position_of(rot@, target)] == target,
                forall|j: int| 0 <= j < position_of(rot@, target) ==> rot@[j] != target,
            decreases 256 - i,
        {
            i += 1;
        }
        proof {
            lemma_position_of_first(rot@, target, i as int);
        }
        probcodes.push(i as u8);
        m += 1;
    }
    Ok(probcodes)
}

/// Rebuilds the buffer from its rank stream.
pub fn decode(probcodes: &[u8]) -> (r: Result<Vec<u8>, CodecError>)
    ensures
        probcodes@.len() == 0 ==> r == Err::<Vec<u8>, CodecError>(CodecError::EmptyInput),
        probcodes@.len() > 0 ==> (r matches Ok(bytes) && bytes@ == rotund_decode(probcodes@)),
{
    let l = probcodes.len();
    if l == 0 {
        return Err(CodecError::EmptyInput);
    }
    let mut buf: Vec<u8> = Vec::new();
    let mut j: usize = 0;
    while j < l
        invariant
            j <= l,
            buf@.len() == j,
        decreases l - j,
    {
        buf.push(0);
        j += 1;
    }
    buf.set(l - 1, probcodes[0]);
    let mut helper = RotundHelper::new(buf);
    let mut m: usize = 1;
    while m < l
        invariant
            l == probcodes@.len(),
            helper@.len() == l,
            1 <= m <= l,
            helper@.subrange(l - m, l as int) =~= decoded_suffix(probcodes@, m as nat),
        decreases l - m,
    {
        let n = l - m;
        let rot = helper.make_rotund(n);
        proof {
            lemma_rotund_is_permutation(helper.context(n as int));
        }
        let ch = rot[probcodes[m] as usize];
        helper.reversed.set(n - 1, ch);
        proof {
            let prev = decoded_suffix(probcodes@, m as nat);
            assert(helper@.subrange(l - (m + 1), l as int) =~= seq![ch].add(prev));
        }
        m += 1;
    }
    proof {
        assert(helper@.subrange(0, l as int) =~= helper@);
    }
    Ok(helper.reversed)
}

} // verus!
