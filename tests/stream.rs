use buf_read_ext::{
    async_stream_until_token, stream_line, ChunkedReader, Eol, LineMatcher, LineStep, TokenMatcher,
    TokenStep,
};

#[test]
fn stream_until_token() {
    let mut buf = ChunkedReader::new(&b"123456"[..]);
    let mut result: Vec<u8> = Vec::new();
    assert_eq!(buf.stream_until_token(b"78", &mut result), (6, false));
    assert_eq!(result, b"123456");

    let mut buf = ChunkedReader::new(&b"12345678"[..]);
    let mut result: Vec<u8> = Vec::new();
    assert_eq!(buf.stream_until_token(b"34", &mut result), (2, true));
    assert_eq!(result, b"12");

    result.truncate(0);
    assert_eq!(buf.stream_until_token(b"78", &mut result), (2, true));
    assert_eq!(result, b"56");

    let mut buf = ChunkedReader::new(&b"bananas for nana"[..]);
    let mut result: Vec<u8> = Vec::new();
    assert_eq!(buf.stream_until_token(b"nan", &mut result), (2, true));
    assert_eq!(result, b"ba");

    result.truncate(0);
    assert_eq!(buf.stream_until_token(b"nan", &mut result), (7, true));
    assert_eq!(result, b"as for ");

    result.truncate(0);
    assert_eq!(buf.stream_until_token(b"nan", &mut result), (1, false));
    assert_eq!(result, b"a");

    result.truncate(0);
    assert_eq!(buf.stream_until_token(b"nan", &mut result), (0, false));
    assert_eq!(result, b"");
}

#[test]
fn stream_until_token_straddle_test() {
    let mut buf = ChunkedReader::with_capacity(8, &b"12345TOKEN345678"[..]);
    let mut result: Vec<u8> = Vec::new();
    assert_eq!(buf.stream_until_token(b"TOKEN", &mut result), (5, true));
    assert_eq!(result, b"12345");

    result.truncate(0);
    assert_eq!(buf.stream_until_token(b"TOKEN", &mut result), (6, false));
    assert_eq!(result, b"345678");

    result.truncate(0);
    assert_eq!(buf.stream_until_token(b"TOKEN", &mut result), (0, false));
    assert_eq!(result, b"");

    let mut buf = ChunkedReader::with_capacity(8, &b"12345TOKE23456781TOKEN78"[..]);
    let mut result: Vec<u8> = Vec::new();
    assert_eq!(buf.stream_until_token(b"TOKEN", &mut result), (17, true));
    assert_eq!(result, b"12345TOKE23456781");
}

#[test]
fn stream_until_token_large_token_test() {
    let mut buf = ChunkedReader::with_capacity(8, &b"IAMALARGETOKEN7812345678"[..]);
    let mut v: Vec<u8> = Vec::new();
    assert_eq!(buf.stream_until_token(b"IAMALARGETOKEN", &mut v), (0, true));
    assert_eq!(v, b"");
    assert_eq!(buf.stream_until_token(b"IAMALARGETOKEN", &mut v), (10, false));
    assert_eq!(v, b"7812345678");

    let mut buf = ChunkedReader::with_capacity(8, &b"0IAMALARGERTOKEN12345678"[..]);
    let mut v: Vec<u8> = Vec::new();
    assert_eq!(buf.stream_until_token(b"IAMALARGERTOKEN", &mut v), (1, true));
    assert_eq!(v, b"0");
    v.truncate(0);
    assert_eq!(buf.stream_until_token(b"IAMALARGERTOKEN", &mut v), (8, false));
    assert_eq!(v, b"12345678");
}

#[test]
fn stream_until_token_double_straddle_test() {
    let mut buf = ChunkedReader::with_capacity(8, &b"12345IAMALARGETOKEN4567"[..]);
    let mut v: Vec<u8> = Vec::new();
    assert_eq!(buf.stream_until_token(b"IAMALARGETOKEN", &mut v), (5, true));
    assert_eq!(v, b"12345");
    v.truncate(0);
    assert_eq!(buf.stream_until_token(b"IAMALARGETOKEN", &mut v), (4, false));
    assert_eq!(v, b"4567");
}

#[test]
fn stream_until_token_multiple_prefix_text() {
    let mut buf = ChunkedReader::with_capacity(8, &b"12barbarian4567"[..]);
    let mut v: Vec<u8> = Vec::new();
    assert_eq!(buf.stream_until_token(b"barbarian", &mut v), (2, true));
    assert_eq!(v, b"12");

    let mut buf = ChunkedReader::with_capacity(8, &b"12barbarbarian7812"[..]);
    let mut v: Vec<u8> = Vec::new();
    assert_eq!(buf.stream_until_token(b"barbarian", &mut v), (5, true));
    assert_eq!(v, b"12bar");
}

#[test]
fn stream_line_test() {
    for i in 1..20 {
        let mut buf =
            ChunkedReader::with_capacity(i, &b"line one\nline two\r\nline three\rstill\nline four"[..]);
        let mut v: Vec<u8> = Vec::new();
        assert_eq!(buf.stream_line(&mut v), (8, Some(Eol::Lf)));
        assert_eq!(v, b"line one");
        v.truncate(0);
        assert_eq!(buf.stream_line(&mut v), (8, Some(Eol::CrLf)));
        assert_eq!(v, b"line two");
        v.truncate(0);
        assert_eq!(buf.stream_line(&mut v), (16, Some(Eol::Lf)));
        assert_eq!(v, b"line three\rstill");
        v.truncate(0);
        assert_eq!(buf.stream_line(&mut v), (9, None));
        assert_eq!(v, b"line four");
    }
}

#[test]
fn absent_token_streams_everything() {
    for cap in 1..12 {
        let mut buf = ChunkedReader::with_capacity(cap, &b"abcabcab"[..]);
        let mut v: Vec<u8> = Vec::new();
        assert_eq!(buf_read_ext::stream_until_token(&mut buf, b"abd", &mut v), (8, false));
        assert_eq!(v, b"abcabcab");
        assert_eq!(buf.remaining(), b"");
    }
}

#[test]
fn trailing_partial_token_is_streamed_at_end() {
    for cap in 1..10 {
        let mut buf = ChunkedReader::with_capacity(cap, &b"12345TOK"[..]);
        let mut v: Vec<u8> = Vec::new();
        assert_eq!(buf.stream_until_token(b"TOKEN", &mut v), (8, false));
        assert_eq!(v, b"12345TOK");
    }
}

#[test]
fn prefix_token_suffix_splits_there() {
    for cap in 1..16 {
        let mut buf = ChunkedReader::with_capacity(cap, &b"head--sep--tail--sep"[..]);
        let mut v: Vec<u8> = Vec::new();
        assert_eq!(buf.stream_until_token(b"--sep--", &mut v), (4, true));
        assert_eq!(v, b"head");
        assert_eq!(buf.remaining(), b"tail--sep");
    }
}

#[test]
fn chunk_size_does_not_change_outcome() {
    let data = b"xxbarbarbabarbarian--barbarian";
    let mut whole = ChunkedReader::new(&data[..]);
    let mut expected: Vec<u8> = Vec::new();
    let expected_result = whole.stream_until_token(b"barbarian", &mut expected);
    assert_eq!(expected_result, (10, true));
    assert_eq!(expected, b"xxbarbarba");
    for cap in 1..32 {
        let mut buf = ChunkedReader::with_capacity(cap, &data[..]);
        let mut v: Vec<u8> = Vec::new();
        assert_eq!(buf.stream_until_token(b"barbarian", &mut v), expected_result);
        assert_eq!(v, expected);
        assert_eq!(buf.remaining(), b"--barbarian");
    }
}

#[test]
fn longer_held_prefix_fails_while_shorter_grows() {
    for cap in 1..20 {
        let mut buf = ChunkedReader::with_capacity(cap, &b"12barbarbarian7812"[..]);
        let mut v: Vec<u8> = Vec::new();
        assert_eq!(buf.stream_until_token(b"barbarian", &mut v), (5, true));
        assert_eq!(v, b"12bar");
        assert_eq!(buf.remaining(), b"7812");
    }
}

#[test]
fn leftmost_occurrence_wins() {
    for cap in 1..8 {
        let mut buf = ChunkedReader::with_capacity(cap, &b"bananas"[..]);
        let mut v: Vec<u8> = Vec::new();
        assert_eq!(buf.stream_until_token(b"nan", &mut v), (2, true));
        assert_eq!(v, b"ba");
        assert_eq!(buf.remaining(), b"as");
    }
}

#[test]
fn repeated_scans_reassemble_the_source() {
    let data = b"a,bb,,ccc,";
    for cap in 1..12 {
        let mut buf = ChunkedReader::with_capacity(cap, &data[..]);
        let mut rebuilt: Vec<u8> = Vec::new();
        let mut fields: Vec<Vec<u8>> = Vec::new();
        loop {
            let mut v: Vec<u8> = Vec::new();
            let (n, found) = buf.stream_until_token(b",", &mut v);
            assert_eq!(n, v.len());
            rebuilt.extend_from_slice(&v);
            fields.push(v);
            if !found {
                break;
            }
            rebuilt.push(b',');
        }
        assert_eq!(rebuilt, data.to_vec());
        assert_eq!(fields, vec![b"a".to_vec(), b"bb".to_vec(), b"".to_vec(), b"ccc".to_vec(), b"".to_vec()]);
    }
}

#[test]
fn two_scans_with_different_tokens() {
    let mut buf = ChunkedReader::new(&b"12345678"[..]);
    let mut v: Vec<u8> = Vec::new();
    assert_eq!(buf_read_ext::stream_until_token(&mut buf, b"34", &mut v), (2, true));
    assert_eq!(v, b"12");
    v.truncate(0);
    assert_eq!(buf_read_ext::stream_until_token(&mut buf, b"78", &mut v), (2, true));
    assert_eq!(v, b"56");
}

#[test]
fn false_partial_match_is_flushed() {
    let mut buf = ChunkedReader::with_capacity(8, &b"12345TOKE23456781TOKEN78"[..]);
    let mut v: Vec<u8> = Vec::new();
    assert_eq!(buf.stream_until_token(b"TOKEN", &mut v), (17, true));
    assert_eq!(v, b"12345TOKE23456781");
    assert_eq!(buf.remaining(), b"78");
}

#[test]
fn token_matcher_steps() {
    let mut m = TokenMatcher::new(b"TOKEN");
    assert_eq!(m.token(), b"TOKEN");
    let s = m.step(b"12345TOK");
    assert_eq!(s, TokenStep { held_written: 0, chunk_written: 5, consumed: 8, found: false });
    assert_eq!(m.held_len(), 3);
    let s = m.step(b"E2345678");
    assert_eq!(s, TokenStep { held_written: 3, chunk_written: 8, consumed: 8, found: false });
    assert_eq!(m.held_len(), 0);
    let s = m.step(b"1TOKEN78");
    assert_eq!(s, TokenStep { held_written: 0, chunk_written: 1, consumed: 6, found: true });
    assert_eq!(m.held_len(), 0);
}

#[test]
fn token_matcher_completes_straddling_token() {
    let mut m = TokenMatcher::new(b"barbarian");
    let s = m.step(b"xbarbar");
    assert_eq!(s, TokenStep { held_written: 0, chunk_written: 1, consumed: 7, found: false });
    assert_eq!(m.held_len(), 6);
    let s = m.step(b"ba");
    assert_eq!(s, TokenStep { held_written: 3, chunk_written: 0, consumed: 2, found: false });
    assert_eq!(m.held_len(), 5);
    let s = m.step(b"rian!");
    assert_eq!(s, TokenStep { held_written: 0, chunk_written: 0, consumed: 4, found: true });
}

#[test]
fn token_matcher_finish_flushes_held_bytes() {
    let mut m = TokenMatcher::new(b"abc");
    let s = m.step(b"xxab");
    assert_eq!(s, TokenStep { held_written: 0, chunk_written: 2, consumed: 4, found: false });
    assert_eq!(m.finish(), 2);
    assert_eq!(m.held_len(), 0);
}

#[test]
fn line_ending_in_lone_cr_keeps_it() {
    for cap in 1..8 {
        let mut buf = ChunkedReader::with_capacity(cap, &b"abc\r"[..]);
        let mut v: Vec<u8> = Vec::new();
        assert_eq!(stream_line(&mut buf, &mut v), (4, None));
        assert_eq!(v, b"abc\r");
    }
}

#[test]
fn empty_lines() {
    let mut buf = ChunkedReader::with_capacity(1, &b"\n\r\n"[..]);
    let mut v: Vec<u8> = Vec::new();
    assert_eq!(buf.stream_line(&mut v), (0, Some(Eol::Lf)));
    assert_eq!(buf.stream_line(&mut v), (0, Some(Eol::CrLf)));
    assert_eq!(buf.stream_line(&mut v), (0, None));
    assert_eq!(v, b"");
}

#[test]
fn line_matcher_steps() {
    let mut m = LineMatcher::new();
    let s = m.step(b"ab\r");
    assert_eq!(s, LineStep { cr_written: false, chunk_written: 2, consumed: 3, eol: None });
    assert!(m.holds_cr());
    let s = m.step(b"\nzz");
    assert_eq!(s, LineStep { cr_written: false, chunk_written: 0, consumed: 1, eol: Some(Eol::CrLf) });
    assert!(!m.holds_cr());
    let s = m.step(b"q\r");
    assert_eq!(s, LineStep { cr_written: false, chunk_written: 1, consumed: 2, eol: None });
    let s = m.step(b"s\n");
    assert_eq!(s, LineStep { cr_written: true, chunk_written: 1, consumed: 2, eol: Some(Eol::Lf) });
    let s = m.step(b"xy\r\nz");
    assert_eq!(s, LineStep { cr_written: false, chunk_written: 2, consumed: 4, eol: Some(Eol::CrLf) });
}

#[test]
fn future_state_hands_back_stream_and_sink() {
    let mut f = async_stream_until_token(7u32, b"tok", vec![1u8]);
    assert!(!f.is_done());
    assert_eq!(f.token, b"tok".to_vec());
    let done = f.complete(4, true);
    assert!(f.is_done());
    assert_eq!(done.stream, 7u32);
    assert_eq!(done.out, vec![1u8]);
    assert_eq!(done.bytes_streamed, 4);
    assert!(done.token_found);
}
