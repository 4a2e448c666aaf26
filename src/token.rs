//! Searching a chunked stream for a multi-byte token: the step machine, and
//! what a whole search owes, stated over byte sequences.

use vstd::prelude::*;

verus! {

/// `t` occurs in `s` starting at index `i`.
pub open spec fn occurs_at(s: Seq<u8>, t: Seq<u8>, i: int) -> bool {
    &&& 0 <= i
    &&& i + t.len() <= s.len()
    &&& forall|m: int| 0 <= m < t.len() ==> s[i + m] == #[trigger] t[m]
}

/// `t` occurs somewhere in `s`.
pub open spec fn contains(s: Seq<u8>, t: Seq<u8>) -> bool {
    exists|i: int| occurs_at(s, t, i)
}

/// The leftmost occurrence of `t` in `s` starts at index `i`.
pub open spec fn first_occurrence(s: Seq<u8>, t: Seq<u8>, i: int) -> bool {
    &&& occurs_at(s, t, i)
    &&& forall|j: int| 0 <= j < i ==> !occurs_at(s, t, j)
}

/// `s` ends with the first `p` bytes of `t`.
pub open spec fn ends_with_prefix(s: Seq<u8>, t: Seq<u8>, p: int) -> bool {
    &&& 0 <= p <= s.len()
    &&& p <= t.len()
    &&& forall|m: int| 0 <= m < p ==> s[s.len() - p + m] == #[trigger] t[m]
}

/// `p` is the longest proper prefix length of `t` with which `s` ends: it may
/// still grow into an occurrence of `t` once more bytes follow `s`.
pub open spec fn longest_pending(s: Seq<u8>, t: Seq<u8>, p: int) -> bool {
    &&& p < t.len()
    &&& ends_with_prefix(s, t, p)
    &&& forall|q: int| p < q < t.len() ==> !ends_with_prefix(s, t, q)
}

/// Whether `a[a_start..a_start + n]` equals `b[b_start..b_start + n]`.
fn same_bytes(a: &[u8], a_start: usize, b: &[u8], b_start: usize, n: usize) -> (r: bool)
    requires
        a_start + n <= a@.len(),
        b_start + n <= b@.len(),
    ensures
        r == (a@.subrange(a_start as int, a_start + n) == b@.subrange(b_start as int, b_start + n)),
{
    let a_len = a.len();
    let b_len = b.len();
    let mut k: usize = 0;
    while k < n
        invariant
            k <= n,
            a_start + n <= a_len == a@.len(),
            b_start + n <= b_len == b@.len(),
            forall|m: int| 0 <= m < k ==> a@[a_start + m] == #[trigger] b@[b_start + m],
        decreases n - k,
    {
        if a[a_start + k] != b[b_start + k] {
            assert(a@.subrange(a_start as int, a_start + n)[k as int] != b@.subrange(
                b_start as int,
                b_start + n,
            )[k as int]);
            return false;
        }
        k = k + 1;
    }
    assert forall|m: int| 0 <= m < n implies #[trigger] a@.subrange(a_start as int, a_start + n)[m]
        == b@.subrange(b_start as int, b_start + n)[m] by {
        assert(a@[a_start + m] == b@[b_start + m]);
    }
    assert(a@.subrange(a_start as int, a_start + n) =~= b@.subrange(b_start as int, b_start + n));
    true
}


/// Appends `src[start..end]` to `out`.
pub(crate) fn append_range(out: &mut Vec<u8>, src: &[u8], start: usize, end: usize)
    requires
        start <= end <= src@.len(),
    ensures
        final(out)@ == old(out)@ + src@.subrange(start as int, end as int),
{
    let mut k: usize = start;
    while k < end
        invariant
            start <= k <= end <= src@.len(),
            out@ == old(out)@ + src@.subrange(start as int, k as int),
        decreases end - k,
    {
        out.push(src[k]);
        k = k + 1;
        proof {
            assert(out@ =~= old(out)@ + src@.subrange(start as int, k as int));
        }
    }
}

/// For `a <= b`: once `s` ends with `t[..b]`, it ends with `t[..a]` exactly when
/// `t[..b]` does.
proof fn lemma_border_transfer(s: Seq<u8>, t: Seq<u8>, b: int, a: int)
    requires
        ends_with_prefix(s, t, b),
        0 <= a <= b,
    ensures
        ends_with_prefix(s, t, a) == ends_with_prefix(t.subrange(0, b), t, a),
{
    let tb = t.subrange(0, b);
    if ends_with_prefix(s, t, a) {
        assert forall|m: int| 0 <= m < a implies tb[tb.len() - a + m] == #[trigger] t[m] by {
            assert(s[s.len() - b + (b - a + m)] == t[b - a + m]);
        }
    }
    if ends_with_prefix(tb, t, a) {
        assert forall|m: int| 0 <= m < a implies s[s.len() - a + m] == #[trigger] t[m] by {
            assert(s[s.len() - b + (b - a + m)] == t[b - a + m]);
            assert(tb[tb.len() - a + m] == t[m]);
        }
    }
}

/// The held bytes `t[..l]`, followed by chunk `c`.
pub open spec fn held_then(t: Seq<u8>, l: int, c: Seq<u8>) -> Seq<u8> {
    t.subrange(0, l) + c
}

/// Where an occurrence of `t` in `t[..l] ++ c` starts inside the held bytes, the
/// held bytes end with `t[..l - s]` and the chunk carries on with the rest of `t`.
proof fn lemma_straddle(t: Seq<u8>, l: int, c: Seq<u8>, s: int)
    requires
        0 <= l < t.len(),
        0 <= s < l,
        occurs_at(held_then(t, l, c), t, s),
    ensures
        ends_with_prefix(t.subrange(0, l), t, l - s),
        t.len() - (l - s) <= c.len(),
        forall|m: int| 0 <= m < t.len() - (l - s) ==> c[m] == #[trigger] t[(l - s) + m],
{
    let h = held_then(t, l, c);
    let q = l - s;
    let tl = t.subrange(0, l);
    assert forall|m: int| 0 <= m < q implies tl[tl.len() - q + m] == #[trigger] t[m] by {
        assert(h[s + m] == t[m]);
    }
    assert forall|m: int| 0 <= m < t.len() - q implies c[m] == #[trigger] t[q + m] by {
        assert(h[s + (q + m)] == t[q + m]);
    }
}

/// Where the held bytes end with `t[..q]` and the chunk carries on with the rest
/// of `t`, `t` occurs in `t[..l] ++ c` at `l - q`.
proof fn lemma_completes(t: Seq<u8>, l: int, c: Seq<u8>, q: int)
    requires
        0 <= l < t.len(),
        1 <= q,
        ends_with_prefix(t.subrange(0, l), t, q),
        t.len() - q <= c.len(),
        forall|m: int| 0 <= m < t.len() - q ==> c[m] == #[trigger] t[q + m],
    ensures
        occurs_at(held_then(t, l, c), t, l - q),
{
    let h = held_then(t, l, c);
    let tl = t.subrange(0, l);
    assert forall|m: int| 0 <= m < t.len() implies h[(l - q) + m] == #[trigger] t[m] by {
        if m < q {
            assert(tl[tl.len() - q + m] == t[m]);
        } else {
            assert(c[m - q] == t[q + (m - q)]);
        }
    }
}

/// Where the held bytes end with `t[..q]` and the whole chunk continues `t`,
/// `t[..l] ++ c` ends with `t[..q + c.len()]`; and back.
proof fn lemma_grows(t: Seq<u8>, l: int, c: Seq<u8>, q: int)
    requires
        0 <= q <= l < t.len(),
        q + c.len() <= t.len(),
    ensures
        ends_with_prefix(held_then(t, l, c), t, q + c.len()) <==> (ends_with_prefix(
            t.subrange(0, l),
            t,
            q,
        ) && forall|m: int| 0 <= m < c.len() ==> c[m] == #[trigger] t[q + m]),
{
    let h = held_then(t, l, c);
    let tl = t.subrange(0, l);
    let p = q + c.len();
    if ends_with_prefix(h, t, p) {
        assert forall|m: int| 0 <= m < q implies tl[tl.len() - q + m] == #[trigger] t[m] by {
            assert(h[h.len() - p + m] == t[m]);
        }
        assert forall|m: int| 0 <= m < c.len() implies c[m] == #[trigger] t[q + m] by {
            assert(h[h.len() - p + (q + m)] == t[q + m]);
        }
    }
    if ends_with_prefix(tl, t, q) && forall|m: int| 0 <= m < c.len() ==> c[m] == #[trigger] t[q + m] {
        assert forall|m: int| 0 <= m < p implies h[h.len() - p + m] == #[trigger] t[m] by {
            if m < q {
                assert(tl[tl.len() - q + m] == t[m]);
            } else {
                assert(c[m - q] == t[q + (m - q)]);
            }
        }
    }
}


/// What one step of a token search asks of its caller: write
/// `token[..held_written]`, then `chunk[..chunk_written]`, to the sink, and
/// advance the source past `consumed` bytes of the chunk. `found` tells whether
/// the token ended within those bytes.
#[derive(Clone, Copy, Debug, PartialEq, Eq)]
pub struct TokenStep {
    pub held_written: usize,
    pub chunk_written: usize,
    pub consumed: usize,
    pub found: bool,
}

impl TokenStep {
    /// The bytes that this step writes, given the token `t` and the chunk `c`.
    pub open spec fn written(self, t: Seq<u8>, c: Seq<u8>) -> Seq<u8> {
        t.subrange(0, self.held_written as int) + c.subrange(0, self.chunk_written as int)
    }
}

/// What a step owes on chunk `c` when `t[..l]` is held back: `r` is its outcome
/// and `l2` the count held back afterwards.
pub open spec fn token_step_spec(t: Seq<u8>, l: int, c: Seq<u8>, r: TokenStep, l2: int) -> bool {
    let h = held_then(t, l, c);
    let n = r.held_written + r.chunk_written;
    &&& r.held_written <= l
    &&& r.chunk_written <= c.len()
    &&& r.written(t, c) == h.subrange(0, n)
    &&& r.found == contains(h, t)
    &&& r.found ==> {
        &&& first_occurrence(h, t, n)
        &&& r.consumed == n + t.len() - l
        &&& l2 == 0
    }
    &&& !r.found ==> {
        &&& r.consumed == c.len()
        &&& n + l2 == h.len()
        &&& longest_pending(h, t, l2)
    }
}

/// An incremental search for a token over a stream that arrives in chunks.
///
/// Between chunks it holds back the longest tail of what it has seen that is a
/// proper prefix of the token, with every shorter such tail, longest first: each
/// may still grow into the token once the next chunk arrives.
pub struct TokenMatcher {
    token: Vec<u8>,
    prefix_lengths: Vec<usize>,
}

impl TokenMatcher {
    /// The token searched for.
    pub closed spec fn token_view(self) -> Seq<u8> {
        self.token@
    }

    /// How many bytes (the token's first ones) are held back.
    pub closed spec fn held(self) -> nat {
        if self.prefix_lengths@.len() == 0 {
            0
        } else {
            self.prefix_lengths@[0] as nat
        }
    }

    /// The held-back lengths are, longest first, exactly the proper prefix
    /// lengths of the token with which its first `held()` bytes end.
    pub closed spec fn wf(self) -> bool {
        let t = self.token@;
        let pl = self.prefix_lengths@;
        let tl = t.subrange(0, self.held() as int);
        &&& t.len() >= 1
        &&& self.held() < t.len()
        &&& forall|i: int, j: int| 0 <= i < j < pl.len() ==> pl[i] > pl[j]
        &&& forall|i: int|
            0 <= i < pl.len() ==> 1 <= pl[i] && ends_with_prefix(tl, t, #[trigger] pl[i] as int)
        &&& forall|p: int|
            1 <= p && #[trigger] ends_with_prefix(tl, t, p) ==> exists|i: int|
                0 <= i < pl.len() && pl[i] == p
    }

    /// A search for `token`, with nothing seen yet.
    pub fn new(token: &[u8]) -> (r: TokenMatcher)
        requires
            token@.len() >= 1,
        ensures
            r.wf(),
            r.token_view() == token@,
            r.held() == 0,
    {
        let mut copy: Vec<u8> = Vec::new();
        append_range(&mut copy, token, 0, token.len());
        proof {
            assert(copy@ =~= token@);
        }
        TokenMatcher { token: copy, prefix_lengths: Vec::new() }
    }

    /// The token searched for.
    pub fn token(&self) -> (r: &[u8])
        ensures
            r@ == self.token_view(),
    {
        self.token.as_slice()
    }

    /// How many of the token's first bytes are held back.
    pub fn held_len(&self) -> (r: usize)
        requires
            self.wf(),
        ensures
            r == self.held(),
    {
        if self.prefix_lengths.len() == 0 {
            0
        } else {
            self.prefix_lengths[0]
        }
    }

    /// Ends the search at the end of the stream: the held bytes, `token[..r]`,
    /// were ordinary data and are to be written. The search starts afresh.
    pub fn finish(&mut self) -> (r: usize)
        requires
            old(self).wf(),
        ensures
            r == old(self).held(),
            final(self).wf(),
            final(self).token_view() == old(self).token_view(),
            final(self).held() == 0,
    {
        let r = self.held_len();
        self.prefix_lengths.clear();
        r
    }

    /// Feeds the next chunk of the stream. The outcome is that of searching the
    /// held bytes followed by `chunk` for the token; once the token is found the
    /// search starts afresh.
    pub fn step(&mut self, chunk: &[u8]) -> (r: TokenStep)
        requires
            old(self).wf(),
        ensures
            final(self).wf(),
            final(self).token_view() == old(self).token_view(),
            token_step_spec(
                old(self).token_view(),
                old(self).held() as int,
                chunk@,
                r,
                final(self).held() as int,
            ),
    {
        let tlen = self.token.len();
        let clen = chunk.len();
        let l = self.held_len();
        let ghost t = self.token@;
        let ghost c = chunk@;
        let ghost old_pl = self.prefix_lengths@;
        let ghost h = held_then(t, l as int, c);
        let ghost tl = t.subrange(0, l as int);
        let n_old = self.prefix_lengths.len();
        let mut grown: Vec<usize> = Vec::new();
        let mut k: usize = 0;
        while k < n_old
            invariant
                self.wf(),
                self.token@ == t,
                self.prefix_lengths@ == old_pl,
                t == old(self).token@,
                old_pl == old(self).prefix_lengths@,
                n_old == old_pl.len(),
                tlen == t.len(),
                clen == c.len(),
                c == chunk@,
                l == self.held(),
                h == held_then(t, l as int, c),
                tl == t.subrange(0, l as int),
                k <= n_old,
                forall|i: int, j: int| 0 <= i < j < grown@.len() ==> grown@[i] > grown@[j],
                forall|i: int|
                    0 <= i < grown@.len() ==> clen < #[trigger] grown@[i] < tlen && ends_with_prefix(
                        h,
                        t,
                        grown@[i] as int,
                    ),
                k < n_old ==> forall|i: int| 0 <= i < grown@.len() ==> grown@[i] > old_pl[k as int] + clen,
                forall|j: int|
                    0 <= j < k ==> !(tlen - old_pl[j] <= clen && forall|m: int|
                        0 <= m < tlen - old_pl[j] ==> c[m] == #[trigger] t[old_pl[j] + m]),
                forall|j: int|
                    0 <= j < k && clen < tlen - old_pl[j] && (forall|m: int|
                        0 <= m < clen ==> c[m] == #[trigger] t[old_pl[j] + m]) ==> exists|i: int|
                        0 <= i < grown@.len() && grown@[i] == old_pl[j] + clen,
            decreases n_old - k,
        {
            let p = self.prefix_lengths[k];
            let ghost grown_before = grown@;
            assert(ends_with_prefix(tl, t, old_pl[k as int] as int));
            let need = tlen - p;
            if clen < need {
                if same_bytes(chunk, 0, self.token.as_slice(), p, clen) {
                    proof {
                        assert forall|m: int| 0 <= m < clen implies c[m] == #[trigger] t[p + m] by {
                            assert(c.subrange(0, clen as int)[m] == t.subrange(p as int, p + clen)[m]);
                        }
                        lemma_grows(t, l as int, c, p as int);
                    }
                    grown.push(p + clen);
                    proof {
                        assert(grown@[grown@.len() - 1] == p + clen);
                    }
                }
            } else if same_bytes(chunk, 0, self.token.as_slice(), p, need) {
                proof {
                    assert forall|m: int| 0 <= m < need implies c[m] == #[trigger] t[p + m] by {
                        assert(c.subrange(0, need as int)[m] == t.subrange(p as int, p + need)[m]);
                    }
                    lemma_completes(t, l as int, c, p as int);
                    assert forall|s: int| 0 <= s < l - p implies !occurs_at(h, t, s) by {
                        if occurs_at(h, t, s) {
                            lemma_straddle(t, l as int, c, s);
                            let i = choose|i: int| 0 <= i < old_pl.len() && old_pl[i] == l - s;
                            assert(i < k);
                        }
                    }
                    assert(contains(h, t));
                    let r = TokenStep {
                        held_written: (l - p) as usize,
                        chunk_written: 0,
                        consumed: need,
                        found: true,
                    };
                    assert(r.written(t, c) =~= h.subrange(0, l - p));
                }
                self.prefix_lengths.clear();
                proof {
                    assert forall|q: int|
                        1 <= q && #[trigger] ends_with_prefix(
                            t.subrange(0, 0),
                            t,
                            q,
                        ) implies false by {}
                }
                return TokenStep { held_written: l - p, chunk_written: 0, consumed: need, found: true };
            } else {
                proof {
                    if forall|m: int| 0 <= m < need ==> c[m] == #[trigger] t[p + m] {
                        assert forall|m: int| 0 <= m < need implies #[trigger] c.subrange(0, need as int)[m]
                            == t.subrange(p as int, p + need)[m] by {
                            assert(c[m] == t[p + m]);
                        }
                        assert(c.subrange(0, need as int) =~= t.subrange(p as int, p + need));
                    }
                }
            }
            proof {
                if clen < need && forall|m: int| 0 <= m < clen ==> c[m] == #[trigger] t[p + m] {
                    if grown@.len() == grown_before.len() {
                        assert forall|m: int| 0 <= m < clen implies #[trigger] c.subrange(0, clen as int)[m]
                            == t.subrange(p as int, p + clen)[m] by {
                            assert(c[m] == t[p + m]);
                        }
                        assert(c.subrange(0, clen as int) =~= t.subrange(p as int, p + clen));
                    }
                    assert(grown@[grown@.len() - 1] == p + clen);
                }
                assert forall|j: int|
                    0 <= j < k + 1 && clen < tlen - old_pl[j] && (forall|m: int|
                        0 <= m < clen ==> c[m] == #[trigger] t[old_pl[j] + m]) implies exists|i: int|
                    0 <= i < grown@.len() && grown@[i] == old_pl[j] + clen by {
                    if j < k {
                        let i0 = choose|i: int|
                            0 <= i < grown_before.len() && grown_before[i] == old_pl[j] + clen;
                        assert(grown@[i0] == grown_before[i0]);
                    } else {
                        assert(grown@[grown@.len() - 1] == p + clen);
                    }
                }
            }
            k = k + 1;
        }
        proof {
            assert forall|p: int|
                clen < p < tlen && #[trigger] ends_with_prefix(h, t, p) implies exists|i: int|
                0 <= i < grown@.len() && grown@[i] == p by {
                let q = p - clen;
                lemma_grows(t, l as int, c, q);
                let j = choose|j: int| 0 <= j < old_pl.len() && old_pl[j] == q;
                assert(forall|m: int| 0 <= m < clen ==> c[m] == #[trigger] t[old_pl[j] + m]);
            }
            assert forall|s: int| 0 <= s < l implies !occurs_at(h, t, s) by {
                if occurs_at(h, t, s) {
                    lemma_straddle(t, l as int, c, s);
                    let j = choose|j: int| 0 <= j < old_pl.len() && old_pl[j] == l - s;
                    assert(forall|m: int|
                        0 <= m < tlen - old_pl[j] ==> c[m] == #[trigger] t[old_pl[j] + m]);
                }
            }
        }
        let partial = grown.len() > 0;
        if !partial && tlen <= clen {
            let mut i: usize = 0;
            while i <= clen - tlen
                invariant
                    self.wf(),
                    self.token@ == t,
                    self.prefix_lengths@ == old_pl,
                    tlen == t.len(),
                    tlen <= clen,
                    t == old(self).token@,
                    old_pl == old(self).prefix_lengths@,
                    clen == c.len(),
                c == chunk@,
                    l == self.held(),
                    h == held_then(t, l as int, c),
                    forall|s: int| 0 <= s < l ==> !occurs_at(h, t, s),
                    forall|j: int| 0 <= j < i ==> !occurs_at(c, t, j),
                decreases clen - tlen + 1 - i,
            {
                if same_bytes(chunk, i, self.token.as_slice(), 0, tlen) {
                    proof {
                        assert forall|m: int| 0 <= m < tlen implies h[(l + i) + m] == #[trigger] t[m] by {
                            assert(c.subrange(i as int, i + tlen)[m] == t.subrange(0, tlen as int)[m]);
                        }
                        assert forall|s: int| 0 <= s < l + i implies !occurs_at(h, t, s) by {
                            if l <= s && occurs_at(h, t, s) {
                                assert forall|m: int| 0 <= m < tlen implies c[(s - l) + m] == #[trigger] t[m] by {
                                    assert(h[s + m] == t[m]);
                                }
                                assert(occurs_at(c, t, s - l));
                            }
                        }
                        assert(occurs_at(h, t, l + i));
                        assert(contains(h, t));
                        let r = TokenStep {
                            held_written: l,
                            chunk_written: i,
                            consumed: (i + tlen) as usize,
                            found: true,
                        };
                        assert(r.written(t, c) =~= h.subrange(0, l + i));
                    }
                    self.prefix_lengths.clear();
                    proof {
                        assert forall|q: int|
                            1 <= q && #[trigger] ends_with_prefix(
                                t.subrange(0, 0),
                                t,
                                q,
                            ) implies false by {}
                    }
                    return TokenStep { held_written: l, chunk_written: i, consumed: i + tlen, found: true };
                }
                proof {
                    if occurs_at(c, t, i as int) {
                        assert(c.subrange(i as int, i + tlen) =~= t.subrange(0, tlen as int));
                    }
                }
                i = i + 1;
            }
        }
        proof {
            assert forall|s: int| l <= s implies !occurs_at(h, t, s) by {
                if occurs_at(h, t, s) {
                    if partial {
                        assert(grown@[0] > clen && grown@[0] < tlen);
                    }
                    assert forall|m: int| 0 <= m < tlen implies c[(s - l) + m] == #[trigger] t[m] by {
                        assert(h[s + m] == t[m]);
                    }
                    assert(occurs_at(c, t, s - l));
                }
            }
            assert(!contains(h, t));
        }
        let window: usize = if tlen - 1 < clen {
            tlen - 1
        } else {
            clen
        };
        let mut w: usize = window;
        while w > 0
            invariant
                self.token@ == t,
                t == old(self).token@,
                old_pl == old(self).prefix_lengths@,
                l == old(self).held(),
                tlen == t.len(),
                clen == c.len(),
                c == chunk@,
                h == held_then(t, l as int, c),
                h.len() == l + clen,
                window < tlen,
                window <= clen,
                w <= window,
                partial == (grown@.len() > 0 && grown@[0] > clen),
                !partial ==> forall|i: int| 0 <= i < grown@.len() ==> grown@[i] <= window,
                partial ==> grown@[0] > clen,
                forall|i: int, j: int| 0 <= i < j < grown@.len() ==> grown@[i] > grown@[j],
                forall|i: int|
                    0 <= i < grown@.len() ==> w < #[trigger] grown@[i] < tlen && ends_with_prefix(
                        h,
                        t,
                        grown@[i] as int,
                    ),
                forall|p: int|
                    (w < p <= window || clen < p < tlen) && #[trigger] ends_with_prefix(h, t, p)
                        ==> exists|i: int| 0 <= i < grown@.len() && grown@[i] == p,
            decreases w,
        {
            let ghost grown_before = grown@;
            let found_tail = same_bytes(chunk, clen - w, self.token.as_slice(), 0, w);
            proof {
                if found_tail {
                    assert forall|m: int| 0 <= m < w implies h[h.len() - w + m] == #[trigger] t[m] by {
                        assert(c.subrange(clen - w, clen - w + w)[m] == t.subrange(0, w as int)[m]);
                    }
                } else {
                    if ends_with_prefix(h, t, w as int) {
                        assert forall|m: int| 0 <= m < w implies c[(clen - w) + m] == #[trigger] t[m] by {
                            assert(h[h.len() - w + m] == t[m]);
                        }
                        assert(c.subrange(clen - w, clen - w + w) =~= t.subrange(0, w as int));
                    }
                }
            }
            if found_tail {
                grown.push(w);
                proof {
                    assert(grown@[grown@.len() - 1] == w);
                }
            }
            proof {
                assert forall|p: int|
                    (w - 1 < p <= window || clen < p < tlen) && #[trigger] ends_with_prefix(h, t, p)
                        implies exists|i: int| 0 <= i < grown@.len() && grown@[i] == p by {
                    if p == w {
                        assert(grown@[grown@.len() - 1] == w);
                    } else {
                        let i0 = choose|i: int| 0 <= i < grown_before.len() && grown_before[i] == p;
                        assert(grown@[i0] == grown_before[i0]);
                    }
                }
            }
            w = w - 1;
        }
        proof {
            assert forall|p: int| 1 <= p < tlen && #[trigger] ends_with_prefix(h, t, p) implies exists|i: int|
                0 <= i < grown@.len() && grown@[i] == p by {
                if p <= clen {
                    assert(p <= window);
                }
            }
        }
        let held_written: usize;
        let chunk_written: usize;
        if partial {
            held_written = l - (grown[0] - clen);
            chunk_written = 0;
        } else {
            held_written = l;
            chunk_written = if grown.len() > 0 {
                clen - grown[0]
            } else {
                clen
            };
        }
        self.prefix_lengths = grown;
        proof {
            lemma_new_state(h, t, self.prefix_lengths@);
            let r = TokenStep { held_written, chunk_written, consumed: clen, found: false };
            assert(r.written(t, c) =~= h.subrange(0, held_written + chunk_written));
        }
        TokenStep { held_written, chunk_written, consumed: clen, found: false }
    }
}

/// The first entry of a list of lengths, or zero for an empty list.
pub open spec fn lead(g: Seq<usize>) -> int {
    if g.len() == 0 {
        0
    } else {
        g[0] as int
    }
}

/// A list of the proper prefix lengths of `t` with which `h` ends, complete and
/// longest first, describes the state that holds back its first entry.
proof fn lemma_new_state(h: Seq<u8>, t: Seq<u8>, g: Seq<usize>)
    requires
        t.len() >= 1,
        forall|i: int, j: int| 0 <= i < j < g.len() ==> g[i] > g[j],
        forall|i: int|
            0 <= i < g.len() ==> 1 <= #[trigger] g[i] < t.len() && ends_with_prefix(h, t, g[i] as int),
        forall|p: int|
            1 <= p < t.len() && #[trigger] ends_with_prefix(h, t, p) ==> exists|i: int|
                0 <= i < g.len() && g[i] == p,
    ensures
        longest_pending(h, t, lead(g)),
        forall|i: int|
            0 <= i < g.len() ==> ends_with_prefix(t.subrange(0, lead(g)), t, #[trigger] g[i] as int),
        forall|p: int|
            1 <= p && #[trigger] ends_with_prefix(t.subrange(0, lead(g)), t, p) ==> exists|i: int|
                0 <= i < g.len() && g[i] == p,
{
    let l2 = lead(g);
    let tl = t.subrange(0, l2);
    if g.len() > 0 {
        assert(ends_with_prefix(h, t, g[0] as int) && g[0] < t.len());
        assert forall|i: int| 0 <= i < g.len() implies ends_with_prefix(tl, t, #[trigger] g[i] as int) by {
            if i > 0 {
                assert(g[0] > g[i]);
            }
            lemma_border_transfer(h, t, l2, g[i] as int);
        }
        assert forall|p: int| 1 <= p && #[trigger] ends_with_prefix(tl, t, p) implies exists|i: int|
            0 <= i < g.len() && g[i] == p by {
            lemma_border_transfer(h, t, l2, p);
        }
    }
    assert(ends_with_prefix(h, t, l2));
    assert forall|q: int| l2 < q < t.len() implies !ends_with_prefix(h, t, q) by {
        if ends_with_prefix(h, t, q) {
            let i = choose|i: int| 0 <= i < g.len() && g[i] == q;
            if i > 0 {
                assert(g[0] > g[i]);
            }
        }
    }
}

/// The outcome of searching a whole byte sequence `s` for `t`: `(n, true)` where
/// the leftmost occurrence of `t` starts at `n`, else `(s.len(), false)`.
pub open spec fn scan_outcome(s: Seq<u8>, t: Seq<u8>, n: int, found: bool) -> bool {
    if found {
        first_occurrence(s, t, n)
    } else {
        !contains(s, t) && n == s.len()
    }
}

/// `s` ends with `t[..q]` for no `q` in `(l, t.len())`, so no occurrence of `t`
/// that starts within its last `t.len() - 1` bytes but before its last `l` bytes
/// fits in any sequence that begins with `s`.
proof fn lemma_no_straddle(s: Seq<u8>, x: Seq<u8>, t: Seq<u8>, l: int, i: int)
    requires
        longest_pending(s, t, l),
        !contains(s, t),
        s.len() <= x.len(),
        x.subrange(0, s.len() as int) == s,
        0 <= i < s.len() - l,
    ensures
        !occurs_at(x, t, i),
{
    if occurs_at(x, t, i) {
        if i + t.len() <= s.len() {
            assert forall|m: int| 0 <= m < t.len() implies s[i + m] == #[trigger] t[m] by {
                assert(x[i + m] == t[m]);
                assert(x.subrange(0, s.len() as int)[i + m] == x[i + m]);
            }
            assert(occurs_at(s, t, i));
        } else {
            let q = s.len() - i;
            assert forall|m: int| 0 <= m < q implies s[s.len() - q + m] == #[trigger] t[m] by {
                assert(x[i + m] == t[m]);
                assert(x.subrange(0, s.len() as int)[i + m] == x[i + m]);
            }
            assert(ends_with_prefix(s, t, q));
        }
    }
}

/// One step of a search over a stream: `seen` was consumed before, its last `l`
/// bytes held back, and `c` comes next in `x`. Where the step finds the token, it
/// is found at its leftmost place in `x`; else `seen ++ c` keeps the search's
/// invariant.
pub proof fn lemma_token_advance(
    x: Seq<u8>,
    t: Seq<u8>,
    seen: Seq<u8>,
    l: int,
    c: Seq<u8>,
    r: TokenStep,
    l2: int,
)
    requires
        t.len() >= 1,
        seen.len() + c.len() <= x.len(),
        x.subrange(0, seen.len() as int) == seen,
        x.subrange(seen.len() as int, seen.len() + c.len() as int) == c,
        longest_pending(seen, t, l),
        !contains(seen, t),
        token_step_spec(t, l, c, r, l2),
    ensures
        held_then(t, l, c) == x.subrange(seen.len() - l, seen.len() + c.len() as int),
        r.found ==> first_occurrence(x, t, seen.len() - l + r.held_written + r.chunk_written),
        !r.found ==> longest_pending(seen + c, t, l2) && !contains(seen + c, t),
{
    let h = held_then(t, l, c);
    let base = seen.len() - l;
    let s2 = seen + c;
    assert forall|k: int| 0 <= k < h.len() implies #[trigger] h[k] == x[base + k] by {
        if k < l {
            assert(seen[seen.len() - l + k] == t[k]);
            assert(x.subrange(0, seen.len() as int)[base + k] == x[base + k]);
        } else {
            assert(x.subrange(seen.len() as int, seen.len() + c.len() as int)[k - l] == x[base + k]);
        }
    }
    assert(h =~= x.subrange(base, seen.len() + c.len() as int));
    assert(s2 =~= x.subrange(0, s2.len() as int));
    assert(s2.subrange(0, seen.len() as int) =~= seen);
    if r.found {
        let n = r.held_written + r.chunk_written;
        assert forall|m: int| 0 <= m < t.len() implies x[(base + n) + m] == #[trigger] t[m] by {
            assert(h[n + m] == t[m]);
        }
        assert forall|j: int| 0 <= j < base + n implies !occurs_at(x, t, j) by {
            if j < base {
                lemma_no_straddle(seen, x, t, l, j);
            } else if occurs_at(x, t, j) {
                assert forall|m: int| 0 <= m < t.len() implies h[(j - base) + m] == #[trigger] t[m] by {
                    assert(x[j + m] == t[m]);
                }
                assert(occurs_at(h, t, j - base));
            }
        }
    } else {
        assert forall|q: int| l2 < q < t.len() implies !ends_with_prefix(s2, t, q) by {
            if ends_with_prefix(s2, t, q) {
                if q <= h.len() {
                    assert forall|m: int| 0 <= m < q implies h[h.len() - q + m] == #[trigger] t[m] by {
                        assert(s2[s2.len() - q + m] == t[m]);
                    }
                    assert(ends_with_prefix(h, t, q));
                } else {
                    let q0 = q - c.len();
                    assert forall|m: int| 0 <= m < q0 implies seen[seen.len() - q0 + m] == #[trigger] t[m] by {
                        assert(s2[s2.len() - q + m] == t[m]);
                    }
                    assert(ends_with_prefix(seen, t, q0));
                }
            }
        }
        assert forall|m: int| 0 <= m < l2 implies s2[s2.len() - l2 + m] == #[trigger] t[m] by {
            assert(h[h.len() - l2 + m] == t[m]);
        }
        assert forall|j: int| !occurs_at(s2, t, j) by {
            if 0 <= j < base {
                lemma_no_straddle(seen, s2, t, l, j);
            } else if occurs_at(s2, t, j) {
                assert forall|m: int| 0 <= m < t.len() implies h[(j - base) + m] == #[trigger] t[m] by {
                    assert(s2[j + m] == t[m]);
                }
                assert(occurs_at(h, t, j - base));
            }
        }
    }
}

/// A search for a token that does not occur streams the whole input, byte for
/// byte, and reports that the token was not found.
pub proof fn lemma_absent_token_streams_all(s: Seq<u8>, t: Seq<u8>, n: int, found: bool)
    requires
        !contains(s, t),
        scan_outcome(s, t, n, found),
    ensures
        !found,
        n == s.len(),
        s.subrange(0, n) == s,
{
    assert(s.subrange(0, n) =~= s);
}

/// On `prefix ++ token ++ suffix`, where no occurrence of the token starts
/// within `prefix`, a search finds the token right after `prefix`: it streams
/// `prefix` and leaves `suffix` unread.
pub proof fn lemma_finds_token_after_prefix(
    prefix: Seq<u8>,
    t: Seq<u8>,
    suffix: Seq<u8>,
    n: int,
    found: bool,
)
    requires
        forall|i: int| 0 <= i < prefix.len() ==> !occurs_at(prefix + t + suffix, t, i),
        scan_outcome(prefix + t + suffix, t, n, found),
    ensures
        found,
        n == prefix.len(),
        (prefix + t + suffix).subrange(0, n) == prefix,
        (prefix + t + suffix).subrange(n + t.len(), (prefix + t + suffix).len() as int) == suffix,
{
    let x = prefix + t + suffix;
    assert forall|m: int| 0 <= m < t.len() implies x[prefix.len() + m] == #[trigger] t[m] by {}
    assert(occurs_at(x, t, prefix.len() as int));
    if !found {
        assert(contains(x, t));
    }
    if n > prefix.len() {
        assert(!occurs_at(x, t, prefix.len() as int));
    }
    assert(x.subrange(0, n) =~= prefix);
    assert(x.subrange(n + t.len(), x.len() as int) =~= suffix);
}

/// The outcome of a search depends on the bytes alone: two searches of the same
/// bytes for the same token agree on the count, the verdict and the bytes
/// streamed. A source's chunk limit is no input of `scan_outcome`, so however
/// two sources cut the same bytes into chunks, `stream_until_token` returns the
/// same on both and streams the same bytes.
pub proof fn lemma_outcome_independent_of_chunking(
    s: Seq<u8>,
    t: Seq<u8>,
    n1: int,
    found1: bool,
    n2: int,
    found2: bool,
)
    requires
        scan_outcome(s, t, n1, found1),
        scan_outcome(s, t, n2, found2),
    ensures
        n1 == n2,
        found1 == found2,
        s.subrange(0, n1) == s.subrange(0, n2),
{
    if found1 && !found2 {
        assert(contains(s, t));
    }
    if found2 && !found1 {
        assert(contains(s, t));
    }
    if found1 && found2 {
        if n1 < n2 {
            assert(!occurs_at(s, t, n1));
        }
        if n2 < n1 {
            assert(!occurs_at(s, t, n2));
        }
    }
}

/// A search stops at the leftmost occurrence of the token: where the token
/// occurs at `i`, it is found, at `i` or before.
pub proof fn lemma_stops_at_leftmost(s: Seq<u8>, t: Seq<u8>, i: int, n: int, found: bool)
    requires
        occurs_at(s, t, i),
        scan_outcome(s, t, n, found),
    ensures
        found,
        n <= i,
        forall|j: int| 0 <= j < n ==> !occurs_at(s, t, j),
{
    if !found {
        assert(contains(s, t));
    }
}

/// A search frames its input without loss: the bytes streamed, then the token
/// where it was found, then the bytes left unread make up the input again.
pub proof fn lemma_framing_reassembles(s: Seq<u8>, t: Seq<u8>, n: int, found: bool)
    requires
        scan_outcome(s, t, n, found),
    ensures
        s == s.subrange(0, n) + (if found {
            t
        } else {
            Seq::<u8>::empty()
        }) + (if found {
            s.subrange(n + t.len(), s.len() as int)
        } else {
            Seq::<u8>::empty()
        }),
{
    if found {
        assert forall|k: int| 0 <= k < t.len() implies #[trigger] s.subrange(n, n + t.len())[k] == t[k] by {
            assert(s[n + k] == t[k]);
        }
        assert(s.subrange(n, n + t.len()) =~= t);
        assert(s =~= s.subrange(0, n) + s.subrange(n, n + t.len()) + s.subrange(
            n + t.len(),
            s.len() as int,
        ));
    } else {
        assert(s =~= s.subrange(0, n) + Seq::<u8>::empty() + Seq::<u8>::empty());
    }
}

} // verus!
