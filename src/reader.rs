//! A chunked byte source in memory, and the searches run to completion over it.

use vstd::prelude::*;

use crate::line::{
    cr_then, ends_in_cr, eol_len, has_newline, lemma_line_advance, line_end, Eol, LineMatcher,
};
use crate::token::{
    append_range, contains, held_then, lemma_token_advance, longest_pending, scan_outcome,
    TokenMatcher,
};

verus! {

/// A byte source over a buffer in memory, which hands its unread bytes out in
/// chunks of at most `capacity` bytes: a chunk is peeked with `fill_buf` and
/// then consumed, in part or whole, with `consume`.
pub struct ChunkedReader {
    data: Vec<u8>,
    pos: usize,
    capacity: usize,
}

impl ChunkedReader {
    /// The bytes not yet consumed.
    pub closed spec fn rest(self) -> Seq<u8> {
        self.data@.subrange(self.pos as int, self.data@.len() as int)
    }

    /// The largest chunk that `fill_buf` hands out.
    pub closed spec fn chunk_limit(self) -> nat {
        self.capacity as nat
    }

    /// The read position lies within the data, and chunks are never empty
    /// before the end.
    pub closed spec fn wf(self) -> bool {
        &&& self.pos <= self.data@.len() <= usize::MAX
        &&& self.capacity >= 1
    }

    /// A source over `data` that hands out all of its unread bytes at once.
    pub fn new(data: &[u8]) -> (r: ChunkedReader)
        ensures
            r.wf(),
            r.rest() == data@,
            r.chunk_limit() == usize::MAX,
    {
        let mut copy: Vec<u8> = Vec::new();
        append_range(&mut copy, data, 0, data.len());
        proof {
            assert(copy@ =~= data@);
            assert(copy@.subrange(0, copy@.len() as int) =~= copy@);
        }
        ChunkedReader { data: copy, pos: 0, capacity: usize::MAX }
    }

    /// A source over `data` that hands out at most `capacity` bytes at a time.
    pub fn with_capacity(capacity: usize, data: &[u8]) -> (r: ChunkedReader)
        requires
            capacity >= 1,
        ensures
            r.wf(),
            r.rest() == data@,
            r.chunk_limit() == capacity,
    {
        let mut copy: Vec<u8> = Vec::new();
        append_range(&mut copy, data, 0, data.len());
        proof {
            assert(copy@ =~= data@);
            assert(copy@.subrange(0, copy@.len() as int) =~= copy@);
        }
        ChunkedReader { data: copy, pos: 0, capacity }
    }

    /// The next chunk, without consuming it: empty only at the end of the data.
    pub fn fill_buf(&self) -> (r: &[u8])
        requires
            self.wf(),
        ensures
            r@.len() == if self.rest().len() <= self.chunk_limit() {
                self.rest().len()
            } else {
                self.chunk_limit()
            },
            r@ == self.rest().subrange(0, r@.len() as int),
    {
        let left = self.data.len() - self.pos;
        let end = if left <= self.capacity {
            self.data.len()
        } else {
            self.pos + self.capacity
        };
        let r = vstd::slice::slice_subrange(self.data.as_slice(), self.pos, end);
        proof {
            assert(r@ =~= self.rest().subrange(0, r@.len() as int));
        }
        r
    }

    /// Advances past the next `amount` bytes.
    pub fn consume(&mut self, amount: usize)
        requires
            old(self).wf(),
            amount <= old(self).rest().len(),
        ensures
            final(self).wf(),
            final(self).chunk_limit() == old(self).chunk_limit(),
            final(self).rest() == old(self).rest().subrange(amount as int, old(self).rest().len() as int),
    {
        let len = self.data.len();
        assert(amount <= len - self.pos);
        self.pos = self.pos + amount;
        proof {
            assert(self.rest() =~= old(self).rest().subrange(
                amount as int,
                old(self).rest().len() as int,
            ));
        }
    }

    /// The bytes not yet consumed.
    pub fn remaining(&self) -> (r: &[u8])
        requires
            self.wf(),
        ensures
            r@ == self.rest(),
    {
        vstd::slice::slice_subrange(self.data.as_slice(), self.pos, self.data.len())
    }
}

/// Streams the bytes of `stream` to `out` until the first occurrence of `token`,
/// or to the end of the data.
///
/// Returns the number of bytes streamed to `out`, which leaves out the token, and
/// whether the token was found. Where it was, `stream` has advanced past it; else
/// `stream` is at its end. How `stream` cuts its data into chunks makes no
/// difference to any of this.
pub fn stream_until_token(stream: &mut ChunkedReader, token: &[u8], out: &mut Vec<u8>) -> (r: (
    usize,
    bool,
))
    requires
        old(stream).wf(),
        token@.len() >= 1,
    ensures
        final(stream).wf(),
        final(stream).chunk_limit() == old(stream).chunk_limit(),
        scan_outcome(old(stream).rest(), token@, r.0 as int, r.1),
        r.1 == contains(old(stream).rest(), token@),
        final(out)@ == old(out)@ + old(stream).rest().subrange(0, r.0 as int),
        final(stream).rest() == if r.1 {
            old(stream).rest().subrange(r.0 + token@.len(), old(stream).rest().len() as int)
        } else {
            Seq::<u8>::empty()
        },
{
    let ghost x = stream.rest();
    let ghost out0 = out@;
    let ghost t = token@;
    let ghost mut seen: Seq<u8> = Seq::empty();
    let mut matcher = TokenMatcher::new(token);
    let mut streamed: usize = 0;
    proof {
        assert(x.subrange(0, 0) =~= seen);
        assert(x.subrange(0, x.len() as int) =~= x);
        assert(out0 + x.subrange(0, 0) =~= out0);
    }
    loop
        invariant
            stream.wf(),
            stream.chunk_limit() == old(stream).chunk_limit(),
            x == old(stream).rest(),
            x.len() <= usize::MAX,
            out0 == old(out)@,
            t == token@,
            t.len() >= 1,
            matcher.wf(),
            matcher.token_view() == t,
            seen.len() <= x.len(),
            x.subrange(0, seen.len() as int) == seen,
            stream.rest() == x.subrange(seen.len() as int, x.len() as int),
            matcher.held() <= seen.len(),
            streamed == seen.len() - matcher.held(),
            out@ == out0 + x.subrange(0, streamed as int),
            longest_pending(seen, t, matcher.held() as int),
            !contains(seen, t),
        decreases stream.rest().len(),
    {
        let chunk = stream.fill_buf();
        if chunk.len() == 0 {
            let held = matcher.finish();
            append_range(out, token, 0, held);
            proof {
                assert(seen =~= x);
                assert forall|k: int| 0 <= k < held implies #[trigger] t[k] == x[streamed + k] by {
                    assert(seen[seen.len() - held + k] == t[k]);
                }
                assert(out@ =~= out0 + x.subrange(0, streamed + held));
                assert(stream.rest() =~= Seq::<u8>::empty());
            }
            return (streamed + held, false);
        }
        let ghost l = matcher.held() as int;
        let ghost c = chunk@;
        let step = matcher.step(chunk);
        proof {
            assert(x.subrange(seen.len() as int, seen.len() + c.len() as int) =~= c);
            lemma_token_advance(x, t, seen, l, c, step, matcher.held() as int);
        }
        let ghost out1 = out@;
        append_range(out, token, 0, step.held_written);
        append_range(out, chunk, 0, step.chunk_written);
        proof {
            let h = held_then(t, l, c);
            let m = step.held_written + step.chunk_written;
            assert(out@ =~= out1 + step.written(t, c));
            assert(h == x.subrange(streamed as int, seen.len() + c.len() as int));
            assert(h.subrange(0, m as int) =~= x.subrange(streamed as int, streamed + m));
            assert(out0 + x.subrange(0, streamed + m) =~= out0 + x.subrange(0, streamed as int)
                + x.subrange(streamed as int, streamed + m));
        }
        proof {
            assert(streamed + step.held_written + step.chunk_written <= x.len());
        }
        let n = step.held_written + step.chunk_written;
        proof {
            assert(out@ =~= out0 + x.subrange(0, streamed + n));
        }
        streamed = streamed + n;
        stream.consume(step.consumed);
        if step.found {
            proof {
                assert(stream.rest() =~= x.subrange(streamed + t.len(), x.len() as int));
            }
            return (streamed, true);
        }
        proof {
            seen = seen + c;
            assert(x.subrange(0, seen.len() as int) =~= seen);
            assert(stream.rest() =~= x.subrange(seen.len() as int, x.len() as int));
        }
    }
}

/// Streams the bytes of `stream` to `out` until the end of the first line, which
/// a line feed ends (`LF`), or a carriage return and a line feed (`CRLF`); or to
/// the end of the data.
///
/// Returns the number of bytes streamed to `out`, which leaves out the line
/// terminator, and the terminator found, if any. Where one was, `stream` has
/// advanced past it; else `stream` is at its end.
#[verifier::rlimit(40)]
pub fn stream_line(stream: &mut ChunkedReader, out: &mut Vec<u8>) -> (r: (usize, Option<Eol>))
    requires
        old(stream).wf(),
    ensures
        final(stream).wf(),
        final(stream).chunk_limit() == old(stream).chunk_limit(),
        line_end(old(stream).rest(), r.0 as int, r.1),
        final(out)@ == old(out)@ + old(stream).rest().subrange(0, r.0 as int),
        final(stream).rest() == old(stream).rest().subrange(
            r.0 + eol_len(r.1),
            old(stream).rest().len() as int,
        ),
{
    let ghost x = stream.rest();
    let ghost out0 = out@;
    let ghost mut seen: Seq<u8> = Seq::empty();
    let mut matcher = LineMatcher::new();
    let mut streamed: usize = 0;
    proof {
        assert(x.subrange(0, 0) =~= seen);
        assert(x.subrange(0, x.len() as int) =~= x);
        assert(out0 + x.subrange(0, 0) =~= out0);
    }
    loop
        invariant
            stream.wf(),
            stream.chunk_limit() == old(stream).chunk_limit(),
            x == old(stream).rest(),
            x.len() <= usize::MAX,
            out0 == old(out)@,
            seen.len() <= x.len(),
            x.subrange(0, seen.len() as int) == seen,
            stream.rest() == x.subrange(seen.len() as int, x.len() as int),
            matcher.held() == ends_in_cr(seen),
            streamed == seen.len() - (if matcher.held() { 1int } else { 0 }),
            out@ == out0 + x.subrange(0, streamed as int),
            !has_newline(seen),
        decreases stream.rest().len(),
    {
        let chunk = stream.fill_buf();
        if chunk.len() == 0 {
            let held = matcher.finish();
            let mut n: usize = streamed;
            if held {
                out.push(0x0Du8);
                n = n + 1;
            }
            proof {
                assert(seen =~= x);
                assert(out@ =~= out0 + x.subrange(0, n as int));
                assert(stream.rest() =~= x.subrange(n as int, x.len() as int));
            }
            return (n, None);
        }
        let ghost held = matcher.held();
        let ghost c = chunk@;
        let step = matcher.step(chunk);
        proof {
            assert(x.subrange(seen.len() as int, seen.len() + c.len() as int) =~= c);
            lemma_line_advance(x, seen, held, c, step, matcher.held());
        }
        let ghost out1 = out@;
        if step.cr_written {
            out.push(0x0Du8);
        }
        append_range(out, chunk, 0, step.chunk_written);
        let ghost m = step.written(c).len() as int;
        proof {
            let h = cr_then(held, c);
            assert(out@ =~= out1 + step.written(c));
            assert(h.subrange(0, m) =~= x.subrange(streamed as int, streamed + m));
            assert(out0 + x.subrange(0, streamed + m) =~= out0 + x.subrange(0, streamed as int)
                + x.subrange(streamed as int, streamed + m));
            assert(streamed + m <= x.len());
        }
        streamed = streamed + if step.cr_written {
            step.chunk_written + 1
        } else {
            step.chunk_written
        };
        stream.consume(step.consumed);
        if step.eol.is_some() {
            proof {
                assert(stream.rest() =~= x.subrange(streamed + eol_len(step.eol), x.len() as int));
            }
            return (streamed, step.eol);
        }
        proof {
            seen = seen + c;
            assert(x.subrange(0, seen.len() as int) =~= seen);
            assert(stream.rest() =~= x.subrange(seen.len() as int, x.len() as int));
        }
    }
}

impl ChunkedReader {
    /// Streams bytes to `out` until `token` or the end of the data: see
    /// `stream_until_token`.
    pub fn stream_until_token(&mut self, token: &[u8], out: &mut Vec<u8>) -> (r: (usize, bool))
        requires
            old(self).wf(),
            token@.len() >= 1,
        ensures
            final(self).wf(),
            final(self).chunk_limit() == old(self).chunk_limit(),
            scan_outcome(old(self).rest(), token@, r.0 as int, r.1),
            r.1 == contains(old(self).rest(), token@),
            final(out)@ == old(out)@ + old(self).rest().subrange(0, r.0 as int),
            final(self).rest() == if r.1 {
                old(self).rest().subrange(r.0 + token@.len(), old(self).rest().len() as int)
            } else {
                Seq::<u8>::empty()
            },
    {
        stream_until_token(self, token, out)
    }

    /// Streams bytes to `out` until the end of the first line or of the data: see
    /// `stream_line`.
    pub fn stream_line(&mut self, out: &mut Vec<u8>) -> (r: (usize, Option<Eol>))
        requires
            old(self).wf(),
        ensures
            final(self).wf(),
            final(self).chunk_limit() == old(self).chunk_limit(),
            line_end(old(self).rest(), r.0 as int, r.1),
            final(out)@ == old(out)@ + old(self).rest().subrange(0, r.0 as int),
            final(self).rest() == old(self).rest().subrange(
                r.0 + eol_len(r.1),
                old(self).rest().len() as int,
            ),
    {
        stream_line(self, out)
    }
}

} // verus!
