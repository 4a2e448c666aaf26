//! Searching a chunked stream for the end of a line (`LF` or `CRLF`).

use vstd::prelude::*;


verus! {

/// Type of end-of-line sequence.
#[derive(Debug, Clone, Copy, PartialEq, Eq, Structural)]
pub enum Eol {
    Lf,
    CrLf,
}

/// How many bytes a line terminator takes, or none where there was none.
pub open spec fn eol_len(eol: Option<Eol>) -> int {
    match eol {
        Some(Eol::Lf) => 1,
        Some(Eol::CrLf) => 2,
        None => 0,
    }
}

/// `s` holds a line feed.
pub open spec fn has_newline(s: Seq<u8>) -> bool {
    exists|i: int| 0 <= i < s.len() && s[i] == 0x0Au8
}

/// The first line feed of `s` stands at `i`.
pub open spec fn first_newline(s: Seq<u8>, i: int) -> bool {
    &&& 0 <= i < s.len()
    &&& s[i] == 0x0Au8
    &&& forall|j: int| 0 <= j < i ==> s[j] != 0x0Au8
}

/// The first line of `s` holds `n` bytes and ends as `eol` says: in `CRLF` when a
/// carriage return comes right before the first line feed, in `LF` at another
/// line feed, or with no terminator at the end of `s`.
pub open spec fn line_end(s: Seq<u8>, n: int, eol: Option<Eol>) -> bool {
    match eol {
        Some(Eol::Lf) => first_newline(s, n) && !(n > 0 && s[n - 1] == 0x0Du8),
        Some(Eol::CrLf) => first_newline(s, n + 1) && s[n] == 0x0Du8,
        None => !has_newline(s) && n == s.len(),
    }
}

/// Relies on memchr::memchr: the index of the first occurrence of `needle` in
/// `haystack`, if there is one.
#[verifier::external_body]
fn find_byte(needle: u8, haystack: &[u8]) -> (r: Option<usize>)
    ensures
        match r {
            Some(i) => {
                &&& i < haystack@.len()
                &&& haystack@[i as int] == needle
                &&& forall|j: int| 0 <= j < i ==> haystack@[j] != needle
            },
            None => forall|j: int| 0 <= j < haystack@.len() ==> haystack@[j] != needle,
        },
{
    memchr::memchr(needle, haystack)
}

/// What one step of a line search asks of its caller: write a carriage return
/// where `cr_written` says so, then `chunk[..chunk_written]`, to the sink, and
/// advance the source past `consumed` bytes of the chunk. `eol` tells how the line
/// ended within those bytes, if it did.
#[derive(Clone, Copy, Debug, PartialEq, Eq)]
pub struct LineStep {
    pub cr_written: bool,
    pub chunk_written: usize,
    pub consumed: usize,
    pub eol: Option<Eol>,
}

/// A held-back carriage return, if any, followed by chunk `c`.
pub open spec fn cr_then(held: bool, c: Seq<u8>) -> Seq<u8> {
    if held {
        seq![0x0Du8] + c
    } else {
        c
    }
}

impl LineStep {
    /// The bytes that this step writes, given the chunk `c`.
    pub open spec fn written(self, c: Seq<u8>) -> Seq<u8> {
        cr_then(self.cr_written, c.subrange(0, self.chunk_written as int))
    }
}

/// What a step owes on chunk `c` when a carriage return is held back or not
/// (`held`): `r` is its outcome and `held2` whether one is held back afterwards.
pub open spec fn line_step_spec(held: bool, c: Seq<u8>, r: LineStep, held2: bool) -> bool {
    let h = cr_then(held, c);
    let n = r.written(c).len() as int;
    &&& r.cr_written ==> held
    &&& r.chunk_written <= c.len()
    &&& r.written(c) == h.subrange(0, n)
    &&& r.eol is Some == has_newline(h)
    &&& r.eol is Some ==> {
        &&& line_end(h, n, r.eol)
        &&& r.consumed + (if held { 1int } else { 0 }) == n + eol_len(r.eol)
        &&& !held2
    }
    &&& r.eol is None ==> {
        &&& r.consumed == c.len()
        &&& held2 == (h.len() > 0 && h[h.len() - 1] == 0x0Du8)
        &&& n + (if held2 { 1int } else { 0 }) == h.len()
    }
}

/// An incremental search for the end of a line over a stream that arrives in
/// chunks. A carriage return at the end of a chunk is held back: the next chunk
/// tells whether it starts a `CRLF`.
pub struct LineMatcher {
    heldback_cr: bool,
}

impl LineMatcher {
    /// Whether a carriage return is held back.
    pub closed spec fn held(self) -> bool {
        self.heldback_cr
    }

    /// A search with nothing seen yet.
    pub fn new() -> (r: LineMatcher)
        ensures
            !r.held(),
    {
        LineMatcher { heldback_cr: false }
    }

    /// Whether a carriage return is held back.
    pub fn holds_cr(&self) -> (r: bool)
        ensures
            r == self.held(),
    {
        self.heldback_cr
    }

    /// Ends the search at the end of the stream: a held carriage return was
    /// ordinary data and is to be written where `r` says so.
    pub fn finish(&mut self) -> (r: bool)
        ensures
            r == old(self).held(),
            !final(self).held(),
    {
        let r = self.heldback_cr;
        self.heldback_cr = false;
        r
    }

    /// Feeds the next chunk of the stream. The outcome is that of searching a
    /// held carriage return, if any, followed by `chunk` for the end of a line.
    pub fn step(&mut self, chunk: &[u8]) -> (r: LineStep)
        ensures
            line_step_spec(old(self).held(), chunk@, r, final(self).held()),
    {
        let held = self.heldback_cr;
        let ghost c = chunk@;
        let ghost h = cr_then(held, c);
        let clen = chunk.len();
        if held && clen > 0 && chunk[0] == 0x0Au8 {
            self.heldback_cr = false;
            let r = LineStep { cr_written: false, chunk_written: 0, consumed: 1, eol: Some(Eol::CrLf) };
            proof {
                assert(r.written(c) =~= h.subrange(0, 0));
                assert(h[1] == 0x0Au8);
            }
            return r;
        }
        match find_byte(0x0Au8, chunk) {
            Some(i) => {
                self.heldback_cr = false;
                let r = if i > 0 && chunk[i - 1] == 0x0Du8 {
                    LineStep { cr_written: held, chunk_written: i - 1, consumed: i + 1, eol: Some(Eol::CrLf) }
                } else {
                    LineStep { cr_written: held, chunk_written: i, consumed: i + 1, eol: Some(Eol::Lf) }
                };
                proof {
                    let hb: int = if held { 1 } else { 0 };
                    assert(r.written(c) =~= h.subrange(0, r.written(c).len() as int));
                    assert(h[hb + i] == 0x0Au8);
                    assert forall|j: int| 0 <= j < hb + i implies h[j] != 0x0Au8 by {
                        if j >= hb {
                            assert(h[j] == c[j - hb]);
                        }
                    }
                    if i > 0 {
                        assert(h[hb + i - 1] == c[i - 1]);
                    }
                }
                r
            },
            None => {
                proof {
                    assert forall|j: int| 0 <= j < h.len() implies h[j] != 0x0Au8 by {
                        if held && j > 0 {
                            assert(h[j] == c[j - 1]);
                        }
                    }
                }
                if clen > 0 && chunk[clen - 1] == 0x0Du8 {
                    self.heldback_cr = true;
                    let r = LineStep { cr_written: held, chunk_written: clen - 1, consumed: clen, eol: None };
                    proof {
                        assert(r.written(c) =~= h.subrange(0, r.written(c).len() as int));
                    }
                    r
                } else {
                    self.heldback_cr = held && clen == 0;
                    let r = LineStep { cr_written: held && clen > 0, chunk_written: clen, consumed: clen, eol: None };
                    proof {
                        assert(r.written(c) =~= h.subrange(0, r.written(c).len() as int));
                    }
                    r
                }
            },
        }
    }
}

/// A sequence ends in a carriage return.
pub open spec fn ends_in_cr(s: Seq<u8>) -> bool {
    s.len() > 0 && s[s.len() - 1] == 0x0Du8
}

/// One step of a line search over a stream: `seen` was consumed before, its last
/// byte held back where it is a carriage return, and `c` comes next in `x`. Where
/// the step ends the line, the line of `x` ends there; else `seen ++ c` keeps the
/// search's invariant.
pub proof fn lemma_line_advance(x: Seq<u8>, seen: Seq<u8>, held: bool, c: Seq<u8>, r: LineStep, held2: bool)
    requires
        seen.len() + c.len() <= x.len(),
        x.subrange(0, seen.len() as int) == seen,
        x.subrange(seen.len() as int, seen.len() + c.len() as int) == c,
        !has_newline(seen),
        held == ends_in_cr(seen),
        line_step_spec(held, c, r, held2),
    ensures
        ({
            let base = seen.len() - (if held { 1int } else { 0 });
            &&& cr_then(held, c) == x.subrange(base, seen.len() + c.len() as int)
            &&& r.eol is Some ==> line_end(x, base + r.written(c).len(), r.eol)
        }),
        r.eol is None ==> !has_newline(seen + c) && held2 == ends_in_cr(seen + c),
{
    let hb: int = if held { 1 } else { 0 };
    let base = seen.len() - hb;
    let h = cr_then(held, c);
    let s2 = seen + c;
    assert forall|k: int| 0 <= k < h.len() implies #[trigger] h[k] == x[base + k] by {
        if k < hb {
            assert(x.subrange(0, seen.len() as int)[base + k] == x[base + k]);
        } else {
            assert(x.subrange(seen.len() as int, seen.len() + c.len() as int)[k - hb] == x[base + k]);
        }
    }
    assert(h =~= x.subrange(base, seen.len() + c.len() as int));
    assert forall|j: int| 0 <= j < seen.len() implies #[trigger] x[j] == seen[j] by {
        assert(x.subrange(0, seen.len() as int)[j] == x[j]);
    }
    if r.eol is Some {
        let n = r.written(c).len() as int;
        let i = if r.eol == Some(Eol::Lf) { n } else { n + 1 };
        assert(first_newline(h, i));
        assert forall|j: int| 0 <= j < base + i implies x[j] != 0x0Au8 by {
            if j >= base {
                assert(h[j - base] == x[j]);
            } else {
                assert(x[j] == seen[j]);
            }
        }
        assert(x[base + i] == h[i]);
        if r.eol == Some(Eol::Lf) && base + n > 0 {
            if n > 0 {
                assert(x[base + n - 1] == h[n - 1]);
            } else {
                assert(!held);
                assert(x[base - 1] == seen[seen.len() - 1]);
            }
        }
        if r.eol == Some(Eol::CrLf) {
            assert(x[base + n] == h[n]);
        }
    } else {
        assert forall|j: int| 0 <= j < s2.len() implies s2[j] != 0x0Au8 by {
            if j >= seen.len() {
                assert(s2[j] == h[j - base]);
            }
        }
        if c.len() > 0 {
            assert(s2[s2.len() - 1] == h[h.len() - 1]);
        } else {
            assert(s2 =~= seen);
        }
    }
}

} // verus!
