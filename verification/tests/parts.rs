//! The parts of the library, one at a time.

use rocket::http::HeaderMap;
use rocket_multipart::content_type::ContentType;
use rocket_multipart::decoder::CHUNK_SIZE;
use rocket_multipart::reader::{BAD_REQUEST, DEFAULT_LIMIT};
use rocket_multipart::writer::{OK, RANDOM_BOUNDARY_LEN};
use rocket_multipart::{
    Error, FillAction, FrameEvent, FromData, Header, JsonFailure, MultipartDecoder,
    MultipartFrame, MultipartReader, MultipartSection, MultipartStream, NextAction, ReadAction,
    StreamAction, StreamEvent, Utf8Failure,
};
use tokio_util::bytes::BytesMut;

fn field(name: &str, value: &str) -> Header {
    Header::new(name.to_string(), value.to_string())
}

fn content_type(top: &str, sub: &str, params: &[(&str, &str)]) -> ContentType {
    ContentType {
        top: top.to_string(),
        sub: sub.to_string(),
        params: params.iter().map(|(k, v)| (k.to_string(), v.to_string())).collect(),
    }
}

fn decoder() -> MultipartDecoder {
    MultipartDecoder::new("Sep".to_string())
}

/// A decoder in the body of a section, with an empty source.
fn decoder_in_body() -> MultipartDecoder {
    let mut decoder = decoder();
    let mut src = BytesMut::from(&b"\r\n--Sep\r\n\r\n"[..]);
    assert!(matches!(decoder.decode(&mut src), Ok(Some(MultipartFrame::Boundary))));
    assert!(matches!(decoder.decode(&mut src), Ok(None)));
    assert!(src.is_empty());
    decoder
}

/// A decoder among the headers of a section, with an empty source.
fn decoder_in_headers() -> MultipartDecoder {
    let mut decoder = decoder();
    let mut src = BytesMut::from(&b"\r\n--Sep\r\n"[..]);
    assert!(matches!(decoder.decode(&mut src), Ok(Some(MultipartFrame::Boundary))));
    assert!(src.is_empty());
    decoder
}

fn data(frame: Result<Option<MultipartFrame>, Error>) -> Vec<u8> {
    match frame {
        Ok(Some(MultipartFrame::Data(bytes))) => bytes.to_vec(),
        other => panic!("not a part of a body: {:?}", other),
    }
}

fn reader_with(frame: MultipartFrame) -> (MultipartReader, rocket_multipart::MultipartReadSection) {
    let given = content_type("multipart", "mixed", &[("boundary", "Sep")]);
    match MultipartReader::from_data(Some(given), None) {
        FromData::Success(mut reader, _, _) => {
            let progress = reader.start_next();
            let progress = match reader.next(progress, FrameEvent::Frame(MultipartFrame::Boundary)) {
                NextAction::Poll(progress) => progress,
                _ => panic!("the headers come next"),
            };
            match reader.next(progress, FrameEvent::Frame(frame)) {
                NextAction::Section(section) => (reader, section),
                _ => panic!("no section"),
            }
        }
        _ => panic!("not a multipart stream"),
    }
}

#[test]
fn constants() {
    assert_eq!(CHUNK_SIZE, 1024);
    assert_eq!(DEFAULT_LIMIT, 1024 * 1024);
    assert_eq!(BAD_REQUEST, 400);
    assert_eq!(OK, 200);
    assert_eq!(RANDOM_BOUNDARY_LEN, 15);
}

#[test]
fn a_request_with_a_boundary_is_read() {
    let given = content_type("MultiPart", "form-data", &[("a", "b"), ("Boundary", "x y")]);
    match MultipartReader::from_data(Some(given), Some(7)) {
        FromData::Success(reader, mut decoder, limit) => {
            assert_eq!(limit, 7);
            assert!(reader.buffer().is_empty());
            assert_eq!(reader.content_type().top, "MultiPart");
            assert_eq!(reader.content_type().sub, "form-data");
            assert_eq!(reader.content_type().param("boundary"), Some("x y"));
            let mut src = BytesMut::from(&b"--x y\r\n"[..]);
            assert!(matches!(decoder.decode(&mut src), Ok(Some(MultipartFrame::Boundary))));
        }
        _ => panic!("a multipart stream"),
    }
}

#[test]
fn without_a_configured_limit_the_default_applies() {
    let given = content_type("multipart", "mixed", &[("boundary", "Sep")]);
    match MultipartReader::from_data(Some(given), None) {
        FromData::Success(_, _, limit) => assert_eq!(limit, 1_048_576),
        _ => panic!("a multipart stream"),
    }
}

#[test]
fn a_request_without_a_boundary_is_refused() {
    let given = content_type("multipart", "mixed", &[("border", "Sep")]);
    match MultipartReader::from_data(Some(given), None) {
        FromData::Error(status, Error::BoundaryNotSpecified) => assert_eq!(status, 400),
        _ => panic!("no boundary"),
    }
}

#[test]
fn a_request_that_is_not_multipart_is_forwarded() {
    let given = content_type("text", "plain", &[("boundary", "Sep")]);
    for given in vec![Some(given), None] {
        match MultipartReader::from_data(given, None) {
            FromData::Forward(status) => assert_eq!(status, 400),
            _ => panic!("not a multipart stream"),
        }
    }
}

#[test]
fn a_header_line_is_a_name_and_a_trimmed_value() {
    let header = MultipartDecoder::parse_header(b"Na me:\t \xe2\x80\x83v: w \xc3\xa9\x0b\r\n").unwrap();
    assert_eq!(header.name, "Na me");
    assert_eq!(header.value, "v: w \u{e9}");
    let header = MultipartDecoder::parse_header(b":\r\n").unwrap();
    assert_eq!((header.name.as_str(), header.value.as_str()), ("", ""));
}

#[test]
fn a_header_line_that_is_not_utf8_is_refused() {
    match MultipartDecoder::parse_header(b"a\xf0\x9f: b") {
        Err(Error::Encoding(failure)) => {
            assert_eq!(failure, Utf8Failure { valid_up_to: 1, error_len: None });
        }
        _ => panic!("the name is not UTF-8"),
    }
    match MultipartDecoder::parse_header(b"a: b\xe2\x28") {
        Err(Error::Encoding(failure)) => {
            assert_eq!(failure, Utf8Failure { valid_up_to: 2, error_len: Some(1) });
        }
        _ => panic!("the value is not UTF-8"),
    }
}

#[test]
fn a_header_line_without_a_colon_stops_the_decoder() {
    let mut decoder = decoder_in_headers();
    let mut src = BytesMut::from(&b"no colon\r\nA: 1\r\n"[..]);
    assert!(decoder.try_decode(&mut src).is_none());
}

#[test]
fn a_colon_on_the_next_line_is_not_one_of_this_line() {
    let mut decoder = decoder_in_headers();
    let mut src = BytesMut::from(&b"A: 1\r\nB"[..]);
    match decoder.decode(&mut src) {
        Ok(Some(MultipartFrame::Header(header))) => {
            assert_eq!((header.name.as_str(), header.value.as_str()), ("A", "1"));
        }
        other => panic!("not a header: {:?}", other),
    }
    assert!(matches!(decoder.decode(&mut src), Ok(None)));
    assert_eq!(&src[..], b"B");
}

#[test]
fn a_boundary_cut_short_too_close_to_the_start_stops_the_decoder() {
    for start in vec![&b"--Sep"[..], b"--Sep-", b"\n--Sep\r"] {
        let mut src = BytesMut::from(start);
        assert!(decoder().try_decode(&mut src).is_none());
    }
    let mut src = BytesMut::from(&b"\r\n--Sep"[..]);
    assert!(matches!(decoder().try_decode(&mut src), Some(Ok(None))));
    assert_eq!(&src[..], b"\r\n--Sep");
}

#[test]
fn an_empty_boundary_stops_the_decoder() {
    let mut decoder = MultipartDecoder::new(String::new());
    let mut src = BytesMut::from(&b"abc"[..]);
    assert!(decoder.try_decode(&mut src).is_none());
}

#[test]
fn before_the_first_boundary_what_cannot_belong_to_it_is_dropped() {
    let mut decoder = decoder();
    let mut src = BytesMut::from(&b"Sep 0Sep1 preamble\r\n--Sep"[..]);
    assert!(matches!(decoder.decode(&mut src), Ok(None)));
    assert_eq!(&src[..], b"\r\n--Sep");
    src.extend_from_slice(b"\r\nA");
    assert!(matches!(decoder.decode(&mut src), Ok(Some(MultipartFrame::Boundary))));
    assert_eq!(&src[..], b"A");
}

#[test]
fn before_the_first_boundary_a_line_break_after_it_is_enough() {
    let mut src = BytesMut::from(&b"xxSep\r\nA"[..]);
    assert!(matches!(decoder().decode(&mut src), Ok(Some(MultipartFrame::Boundary))));
    assert_eq!(&src[..], b"A");
    let mut src = BytesMut::from(&b"--SepxxA"[..]);
    assert!(matches!(decoder().decode(&mut src), Ok(Some(MultipartFrame::Boundary))));
    assert_eq!(&src[..], b"A");
}

#[test]
fn a_stream_can_end_at_its_first_boundary() {
    let mut decoder = decoder();
    let mut src = BytesMut::from(&b"--Sep--rest"[..]);
    assert!(matches!(decoder.decode(&mut src), Ok(None)));
    assert!(src.is_empty());
}

#[test]
fn after_the_end_everything_is_dropped() {
    let mut decoder = decoder_in_body();
    let mut src = BytesMut::from(&b"x\r\n--Sep--more"[..]);
    assert_eq!(data(decoder.decode(&mut src)), b"x");
    assert_eq!(&src[..], b"\r\n--Sep--more");
    assert!(matches!(decoder.decode(&mut src), Ok(None)));
    assert!(src.is_empty());
    src.extend_from_slice(b"\r\n--Sep\r\nA: 1\r\n");
    assert!(matches!(decoder.decode(&mut src), Ok(None)));
    assert!(src.is_empty());
}

#[test]
fn of_a_body_without_a_boundary_the_last_bytes_are_kept_back() {
    let mut decoder = decoder_in_body();
    let mut src = BytesMut::from(&b"0123456789"[..]);
    assert_eq!(data(decoder.decode(&mut src)), b"012");
    assert_eq!(&src[..], b"3456789");
    assert!(matches!(decoder.decode(&mut src), Ok(None)));
    src.extend_from_slice(b"\rab");
    assert_eq!(data(decoder.decode(&mut src)), b"3456789");
    assert_eq!(&src[..], b"\rab");
}

#[test]
fn a_boundary_in_a_body_is_data_unless_it_is_delimited() {
    let mut decoder = decoder_in_body();
    let mut src = BytesMut::from(&b"0123Sep4Sep\r\n--Sep!!A"[..]);
    assert_eq!(data(decoder.decode(&mut src)), b"0123Sep");
    assert_eq!(data(decoder.decode(&mut src)), b"4S");
    assert_eq!(data(decoder.decode(&mut src)), b"ep");
    assert!(matches!(decoder.decode(&mut src), Ok(Some(MultipartFrame::Boundary))));
    assert_eq!(&src[..], b"A");
}

#[test]
fn a_boundary_before_a_line_break_opens_a_section() {
    let mut decoder = decoder_in_body();
    let mut src = BytesMut::from(&b"01234Sep\r\nA"[..]);
    assert_eq!(data(decoder.decode(&mut src)), b"0");
    assert!(matches!(decoder.decode(&mut src), Ok(Some(MultipartFrame::Boundary))));
    assert_eq!(&src[..], b"A");
}

#[test]
fn a_frame_is_empty_only_where_it_is_data_without_bytes() {
    assert!(MultipartFrame::Data(BytesMut::new()).is_empty());
    assert!(!MultipartFrame::Data(BytesMut::from(&b"x"[..])).is_empty());
    assert!(!MultipartFrame::Boundary.is_empty());
    assert!(!MultipartFrame::Header(field("", "")).is_empty());
    assert!(!MultipartFrame::End.is_empty());
}

#[test]
fn bytes_are_fetched_shown_and_consumed() {
    let (mut reader, section) = reader_with(MultipartFrame::Data(BytesMut::from(&b"abcde"[..])));
    assert!(matches!(section.poll_fill_buf(&mut reader, None), FillAction::Ready));
    assert_eq!(section.filled(&reader), b"abcde");
    section.consume(&mut reader, 2);
    assert_eq!(section.filled(&reader), b"cde");
    section.consume(&mut reader, 100);
    assert_eq!(section.filled(&reader), b"");
    assert!(matches!(section.poll_fill_buf(&mut reader, None), FillAction::Poll));
    let io = std::io::Error::new(std::io::ErrorKind::Other, "gone");
    match section.poll_fill_buf(&mut reader, Some(FrameEvent::Failed(Error::Io(io)))) {
        FillAction::Failed(Error::Io(e)) => assert_eq!(e.to_string(), "gone"),
        _ => panic!("the stream failed"),
    }
    assert!(matches!(section.poll_fill_buf(&mut reader, None), FillAction::Poll));
    let event = FrameEvent::Frame(MultipartFrame::Boundary);
    assert!(matches!(section.poll_fill_buf(&mut reader, Some(event)), FillAction::Ready));
    assert_eq!(section.filled(&reader), b"");
    section.consume(&mut reader, 1);
    assert!(matches!(reader.buffer(), MultipartFrame::Boundary));
}

#[test]
fn a_read_takes_at_most_what_there_is_room_for() {
    let (mut reader, section) = reader_with(MultipartFrame::Data(BytesMut::from(&b"abc"[..])));
    match section.poll_read(&mut reader, None, 2) {
        ReadAction::Ready(bytes) => assert_eq!(&bytes[..], b"ab"),
        _ => panic!("there are bytes"),
    }
    match section.poll_read(&mut reader, None, 0) {
        ReadAction::Ready(bytes) => assert!(bytes.is_empty()),
        _ => panic!("there is no room"),
    }
    match section.poll_read(&mut reader, None, 2) {
        ReadAction::Ready(bytes) => assert_eq!(&bytes[..], b"c"),
        _ => panic!("there is a byte"),
    }
    assert!(matches!(section.poll_read(&mut reader, None, 2), ReadAction::Poll));
    match section.poll_read(&mut reader, Some(FrameEvent::Finished), 2) {
        ReadAction::Ready(bytes) => assert!(bytes.is_empty()),
        _ => panic!("the body has ended"),
    }
    assert!(matches!(reader.buffer(), MultipartFrame::End));
    assert!(matches!(section.poll_read(&mut reader, None, 2), ReadAction::Ready(_)));
}

#[test]
fn headers_are_added_and_replaced_without_regard_to_case() {
    let section = MultipartSection::from_slice(b"x")
        .add_header(field("Abc", "1"))
        .add_header(field("Other", "2"))
        .add_header(field("aBC", "3"));
    assert_eq!(
        section.encode_headers("b"),
        "\r\n--b\r\nAbc: 1\r\nAbc: 3\r\nOther: 2\r\n\r\n"
    );
    let section = section.replace_header(field("ABC", "4")).replace_header(field("New", "5"));
    assert_eq!(
        section.encode_headers("b"),
        "\r\n--b\r\nAbc: 4\r\nOther: 2\r\nNew: 5\r\n\r\n"
    );
}

#[test]
fn headers_that_are_read_are_found_without_regard_to_case() {
    let mut headers = HeaderMap::new();
    headers.add(rocket::http::Header::new("X", "1"));
    assert_eq!(headers.get_one("x"), Some("1"));

    let given = content_type("multipart", "mixed", &[("boundary", "Sep")]);
    let (mut reader, _, _) = match MultipartReader::from_data(Some(given), None) {
        FromData::Success(reader, decoder, limit) => (reader, decoder, limit),
        _ => panic!("a multipart stream"),
    };
    let mut progress = reader.start_next();
    for frame in vec![
        MultipartFrame::Data(BytesMut::from(&b"skipped"[..])),
        MultipartFrame::Boundary,
        MultipartFrame::Header(field("Key", "a")),
        MultipartFrame::Header(field("kEY", "b")),
        MultipartFrame::Header(field("Else", "c")),
    ] {
        progress = match reader.next(progress, FrameEvent::Frame(frame)) {
            NextAction::Poll(progress) => progress,
            _ => panic!("more headers may come"),
        };
    }
    match reader.next(progress, FrameEvent::Finished) {
        NextAction::Section(section) => {
            assert_eq!(section.headers().get_one("key"), Some("a"));
            assert_eq!(section.headers().get("KEY").collect::<Vec<_>>(), vec!["a", "b"]);
            assert_eq!(section.headers().get_one("Else"), Some("c"));
            assert_eq!(section.headers().get_one("None"), None);
        }
        _ => panic!("a section without a body"),
    }
}

#[test]
fn a_boundary_right_after_a_boundary_ends_an_empty_section() {
    let (mut reader, section) = reader_with(MultipartFrame::Boundary);
    assert!(section.headers().is_empty());
    assert!(matches!(reader.buffer(), MultipartFrame::Boundary));
    let progress = reader.start_next();
    assert!(matches!(reader.next(progress, FrameEvent::Finished), NextAction::NoSection));
}

#[test]
fn a_response_has_the_sub_type_that_was_asked_for() {
    let stream: MultipartStream<Vec<MultipartSection<&[u8]>>> =
        MultipartStream::new("b", vec![]);
    let response = stream.with_subtype("form-data").respond_to::<&[u8]>();
    assert_eq!(response.content_type.top, "multipart");
    assert_eq!(response.content_type.sub, "form-data");
    assert_eq!(response.content_type.params, vec![("boundary".to_string(), "b".to_string())]);
}

#[test]
fn a_boundary_is_made_of_the_characters_that_were_drawn() {
    let stream: MultipartStream<Vec<MultipartSection<&[u8]>>> =
        MultipartStream::with_drawn_boundary(vec![b'a', b'Z', b'9'], vec![]);
    let response = stream.respond_to::<&[u8]>();
    assert_eq!(response.content_type.param("boundary"), Some("aZ9"));
}

#[test]
fn sections_are_made_of_boxes_and_of_readers() {
    let boxed: Box<dyn Fn() -> u8> = Box::new(|| 7);
    let section = MultipartSection::from_box(boxed).add_header(field("A", "1"));
    assert_eq!(section.encode_headers("b"), "\r\n--b\r\nA: 1\r\n\r\n");
    let response = MultipartStream::new("b", ()).respond_to();
    let mut body = response.body;
    assert!(matches!(body.poll_read(StreamEvent::Start, 9), StreamAction::PollSections));
    assert!(body.content().is_none());
    match body.poll_read(StreamEvent::Section(section), 9) {
        StreamAction::Ready(bytes) => assert_eq!(bytes, b"\r\n--b\r\nA:"),
        _ => panic!("there are bytes"),
    }
    match body.poll_read(StreamEvent::Start, 9) {
        StreamAction::Ready(bytes) => assert_eq!(bytes, b" 1\r\n\r\n"),
        _ => panic!("there are bytes"),
    }
    assert!(matches!(body.poll_read(StreamEvent::Start, 9), StreamAction::PollContent));
    assert_eq!(body.content().unwrap()(), 7);
    match body.poll_read(StreamEvent::ContentRead(3), 9) {
        StreamAction::Ready(bytes) => assert!(bytes.is_empty()),
        _ => panic!("bytes of the content were handed on"),
    }
    assert!(matches!(body.poll_read(StreamEvent::Start, 9), StreamAction::PollContent));
    assert!(matches!(body.poll_read(StreamEvent::ContentRead(0), 9), StreamAction::PollSections));
    match body.poll_read(StreamEvent::NoMoreSections, 9) {
        StreamAction::Ready(bytes) => assert_eq!(bytes, b"\r\n--b--\r\n"),
        _ => panic!("there are bytes"),
    }
    match body.poll_read(StreamEvent::Start, 9) {
        StreamAction::Ready(bytes) => assert!(bytes.is_empty()),
        _ => panic!("the body has ended"),
    }
}

#[test]
fn errors_are_made_of_what_went_wrong() {
    let utf8 = Utf8Failure { valid_up_to: 3, error_len: Some(2) };
    assert!(matches!(Error::from(utf8), Error::Encoding(e) if e == utf8));
    let json = JsonFailure { line: 1, column: 2, message: "m".to_string() };
    assert!(matches!(Error::from(json.clone()), Error::Json(e) if e == json));
    let io = std::io::Error::new(std::io::ErrorKind::Other, "gone");
    assert!(matches!(Error::from(io), Error::Io(e) if e.to_string() == "gone"));
}

#[test]
fn a_decoder_goes_on_where_boundaries_are_whole_and_lines_have_colons() {
    let mut src = BytesMut::from(&b"--Sep\r\n"[..]);
    assert!(matches!(decoder().try_decode(&mut src), Some(Ok(Some(MultipartFrame::Boundary)))));
    for line in vec![&b""[..], b"\r\n", b":\r\n", b"no line break yet"] {
        let mut src = BytesMut::from(line);
        assert!(decoder_in_headers().try_decode(&mut src).is_some());
    }
    for body in vec![&b""[..], b"Sep", b"--Sep", b"\r\n--Sep", b"xSep-"] {
        let mut src = BytesMut::from(body);
        assert!(decoder_in_body().try_decode(&mut src).is_some());
    }
}
