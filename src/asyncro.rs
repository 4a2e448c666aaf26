//! The state of a search that is driven by polling.

use vstd::prelude::*;

use crate::token::append_range;

verus! {

/// A search for a token over a stream, to be driven to completion by polling.
/// It owns the stream and the sink until it completes, then hands both back.
pub struct AsyncStreamUntilToken<R, W> {
    pub stream: Option<R>,
    pub token: Vec<u8>,
    pub out: Option<W>,
}

/// What a completed `AsyncStreamUntilToken` yields: the stream and the sink, the
/// number of bytes streamed, and whether the token was found.
pub struct AsyncStreamUntilTokenOutput<R, W> {
    pub stream: R,
    pub out: W,
    pub bytes_streamed: usize,
    pub token_found: bool,
}

/// A search for `token` that streams the bytes of `stream` to `out`.
pub fn async_stream_until_token<R, W>(stream: R, token: &[u8], out: W) -> (r: AsyncStreamUntilToken<
    R,
    W,
>)
    ensures
        r.stream == Some(stream),
        r.token@ == token@,
        r.out == Some(out),
{
    let mut copy: Vec<u8> = Vec::new();
    append_range(&mut copy, token, 0, token.len());
    proof {
        assert(copy@ =~= token@);
    }
    AsyncStreamUntilToken { stream: Some(stream), token: copy, out: Some(out) }
}

impl<R, W> AsyncStreamUntilToken<R, W> {
    /// Whether the search has completed and handed its stream and sink back.
    pub fn is_done(&self) -> (r: bool)
        ensures
            r == (self.stream is None || self.out is None),
    {
        self.stream.is_none() || self.out.is_none()
    }

    /// Completes the search with its result: hands the stream and the sink back.
    pub fn complete(&mut self, bytes_streamed: usize, token_found: bool) -> (r:
        AsyncStreamUntilTokenOutput<R, W>)
        requires
            old(self).stream is Some,
            old(self).out is Some,
        ensures
            r.stream == old(self).stream.unwrap(),
            r.out == old(self).out.unwrap(),
            r.bytes_streamed == bytes_streamed,
            r.token_found == token_found,
            final(self).stream is None,
            final(self).out is None,
            final(self).token == old(self).token,
    {
        let stream = self.stream.take().unwrap();
        let out = self.out.take().unwrap();
        AsyncStreamUntilTokenOutput { stream, out, bytes_streamed, token_found }
    }
}

} // verus!
