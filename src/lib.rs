//! Streaming a chunked byte source into a sink up to a delimiter: an arbitrary
//! multi-byte token, or a line terminator (`LF` or `CRLF`).

pub mod asyncro;
pub mod line;
pub mod reader;
pub mod token;

pub use asyncro::{async_stream_until_token, AsyncStreamUntilToken, AsyncStreamUntilTokenOutput};
pub use line::{Eol, LineMatcher, LineStep};
pub use reader::{stream_line, stream_until_token, ChunkedReader};
pub use token::{TokenMatcher, TokenStep};
