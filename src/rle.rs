//! Run-length coding of null runs in a rank stream.
//!
//! Every non-zero byte (and the first byte) is written as a pair: the byte and
//! the number of zero bytes that follow it, at most 255; a longer run goes on
//! with a pair for a zero byte.
use vstd::prelude::*;

verus! {

/// `n` zero bytes.
pub open spec fn zeros(n: nat) -> Seq<u8> {
    Seq::new(n, |i: int| 0u8)
}

/// The bytes that a sequence of `(byte, run)` pairs stands for.
pub open spec fn rl_expand(pairs: Seq<u8>) -> Seq<u8>
    decreases pairs.len(),
{
    if pairs.len() < 2 {
        Seq::empty()
    } else {
        seq![pairs[0]] + zeros(pairs[1] as nat) + rl_expand(pairs.subrange(2, pairs.len() as int))
    }
}

/// The state of the encoder after the first `i` bytes of `s` (`i >= 1`): the
/// pairs written so far, the byte of the open pair and its run of zeros.
pub open spec fn rl_state(s: Seq<u8>, i: nat) -> (Seq<u8>, u8, u8)
    decreases i,
{
    if i <= 1 {
        (Seq::empty(), s[0], 0)
    } else {
        let (pairs, last, run) = rl_state(s, (i - 1) as nat);
        let ch = s[i - 1];
        if ch == 0 {
            if run == 255 {
                (pairs + seq![last, run], 0, 0)
            } else {
                (pairs, last, (run + 1) as u8)
            }
        } else {
            (pairs + seq![last, run], ch, 0)
        }
    }
}

/// The run-length code of a non-empty byte string.
pub open spec fn rl_encoded(s: Seq<u8>) -> Seq<u8> {
    let (pairs, last, run) = rl_state(s, s.len());
    pairs + seq![last, run]
}

proof fn lemma_rl_expand_concat(a: Seq<u8>, b: Seq<u8>)
    requires
        a.len() % 2 == 0,
    ensures
        rl_expand(a + b) == rl_expand(a) + rl_expand(b),
    decreases a.len(),
{
    if a.len() == 0 {
        assert(a + b =~= b);
        assert(rl_expand(a) + rl_expand(b) =~= rl_expand(b));
    } else {
        let rest = a.subrange(2, a.len() as int);
        assert((a + b).subrange(2, (a + b).len() as int) =~= rest + b);
        lemma_rl_expand_concat(rest, b);
        assert(rl_expand(a + b) =~= rl_expand(a) + rl_expand(b));
    }
}

proof fn lemma_rl_expand_pair(x: u8, n: u8)
    ensures
        rl_expand(seq![x, n]) == seq![x] + zeros(n as nat),
{
    let p = seq![x, n];
    assert(p.subrange(2, 2) =~= Seq::<u8>::empty());
    assert(rl_expand(p.subrange(2, 2)) == Seq::<u8>::empty());
    assert(p[0] == x && p[1] == n);
    assert(seq![x] + zeros(n as nat) + Seq::<u8>::empty() =~= seq![x] + zeros(n as nat));
}

/// What the encoder has seen after `i` bytes is what its pairs and its open
/// pair stand for.
proof fn lemma_rl_state(s: Seq<u8>, i: nat)
    requires
        1 <= i <= s.len(),
    ensures
        rl_state(s, i).0.len() % 2 == 0,
        rl_expand(rl_state(s, i).0) + seq![rl_state(s, i).1] + zeros(rl_state(s, i).2 as nat)
            == s.subrange(0, i as int),
    decreases i,
{
    if i == 1 {
        assert(Seq::<u8>::empty() + seq![s[0]] + zeros(0) =~= s.subrange(0, 1));
    } else {
        lemma_rl_state(s, (i - 1) as nat);
        let (pairs, last, run) = rl_state(s, (i - 1) as nat);
        let ch = s[i - 1];
        assert(s.subrange(0, i as int) =~= s.subrange(0, i - 1) + seq![ch]);
        if ch == 0 {
            if run == 255 {
                lemma_rl_expand_concat(pairs, seq![last, run]);
                lemma_rl_expand_pair(last, run);
                assert(rl_expand(pairs + seq![last, run]) + seq![0u8] + zeros(0) =~= rl_expand(
                    pairs,
                ) + seq![last] + zeros(run as nat) + seq![ch]);
            } else {
                assert(rl_expand(pairs) + seq![last] + zeros((run + 1) as nat) =~= rl_expand(
                    pairs,
                ) + seq![last] + zeros(run as nat) + seq![ch]);
            }
        } else {
            lemma_rl_expand_concat(pairs, seq![last, run]);
            lemma_rl_expand_pair(last, run);
            assert(rl_expand(pairs + seq![last, run]) + seq![ch] + zeros(0) =~= rl_expand(pairs)
                + seq![last] + zeros(run as nat) + seq![ch]);
        }
    }
}

/// Expanding the run-length code of a non-empty byte string gives it back.
pub proof fn lemma_rl_round_trip(s: Seq<u8>)
    requires
        s.len() >= 1,
    ensures
        rl_expand(rl_encoded(s)) == s,
{
    lemma_rl_state(s, s.len());
    let (pairs, last, run) = rl_state(s, s.len());
    lemma_rl_expand_concat(pairs, seq![last, run]);
    lemma_rl_expand_pair(last, run);
    assert(s.subrange(0, s.len() as int) =~= s);
    assert(rl_expand(pairs) + (seq![last] + zeros(run as nat)) =~= rl_expand(pairs) + seq![last]
        + zeros(run as nat));
}

/// The run-length code of `content`, or `None` if it is empty.
pub fn rl_encode(content: &[u8]) -> (r: Option<Vec<u8>>)
    ensures
        content@.len() == 0 <==> r is None,
        r matches Some(code) ==> code@ == rl_encoded(content@),
{
    let n = content.len();
    if n == 0 {
        return None;
    }
    let ghost s = content@;
    let mut pairs: Vec<u8> = Vec::new();
    let mut last_nn: u8 = content[0];
    let mut nullcounter: u8 = 0;
    let mut i: usize = 1;
    while i < n
        invariant
            s == content@,
            n == s.len(),
            1 <= i <= n,
            rl_state(s, i as nat) == (pairs@, last_nn, nullcounter),
        decreases n - i,
    {
        let ch = content[i];
        if ch == 0 {
            if nullcounter == 255 {
                pairs.push(last_nn);
                pairs.push(nullcounter);
                last_nn = 0;
                nullcounter = 0;
            } else {
                nullcounter = nullcounter + 1;
            }
        } else {
            pairs.push(last_nn);
            pairs.push(nullcounter);
            nullcounter = 0;
            last_nn = ch;
        }
        proof {
            assert(pairs@ =~= rl_state(s, (i + 1) as nat).0);
        }
        i += 1;
    }
    pairs.push(last_nn);
    pairs.push(nullcounter);
    proof {
        assert(pairs@ =~= rl_encoded(s));
    }
    Some(pairs)
}

/// The bytes that a run-length code stands for; a last odd byte is ignored.
pub fn rl_decode(rle: &[u8]) -> (r: Vec<u8>)
    ensures
        r@ == rl_expand(rle@),
{
    let ghost s = rle@;
    let n = rle.len();
    let mut contents: Vec<u8> = Vec::new();
    let mut i: usize = 0;
    proof {
        assert(s.subrange(0, n as int) =~= s);
        assert(contents@ + rl_expand(s) =~= rl_expand(s));
    }
    while n - i >= 2
        invariant
            s == rle@,
            n == s.len(),
            i <= n,
            rl_expand(s) == contents@ + rl_expand(s.subrange(i as int, n as int)),
        decreases n - i,
    {
        let ghost before = contents@;
        let ghost sub = s.subrange(i as int, n as int);
        contents.push(rle[i]);
        let run = rle[i + 1];
        let mut k: u8 = 0;
        while k < run
            invariant
                i + 1 < n,
                n == s.len(),
                k <= run,
                contents@ == before + seq![s[i as int]] + zeros(k as nat),
            decreases run - k,
        {
            contents.push(0);
            proof {
                assert(contents@ =~= before + seq![s[i as int]] + zeros((k + 1) as nat));
            }
            k = k + 1;
        }
        proof {
            assert(sub.subrange(2, sub.len() as int) =~= s.subrange(i + 2, n as int));
            assert(rl_expand(sub) == seq![s[i as int]] + zeros(run as nat) + rl_expand(
                s.subrange(i + 2, n as int),
            ));
            assert(before + (seq![s[i as int]] + zeros(run as nat) + rl_expand(
                s.subrange(i + 2, n as int),
            )) =~= contents@ + rl_expand(s.subrange(i + 2, n as int)));
        }
        i += 2;
    }
    proof {
        assert(s.subrange(i as int, n as int).len() < 2);
        assert(contents@ + Seq::<u8>::empty() =~= contents@);
    }
    contents
}

} // verus!
