//! Whole streams: written by a response, and read section by section.

use std::collections::VecDeque;
use std::io::Read;
use std::str::FromStr;

use rocket::http::{ContentType as RocketContentType, Header as RocketHeader};
use rocket_multipart::{
    BodyAction, ContentType, Error, FrameEvent, FromData, Header, JsonFailure, MultipartDecoder,
    MultipartFrame, MultipartReadSection, MultipartReader, MultipartSection, MultipartStream,
    NextAction, ReadAction, StreamAction, StreamEvent, StreamResponse,
};
use serde_json::Value;
use tokio_util::bytes::{Bytes, BytesMut};

/// A stream that comes in chunks.
struct Source {
    decoder: MultipartDecoder,
    src: BytesMut,
    chunks: VecDeque<Vec<u8>>,
}

impl Source {
    fn event(&mut self) -> FrameEvent {
        loop {
            match self.decoder.try_decode(&mut self.src).expect("stuck") {
                Ok(Some(frame)) => return FrameEvent::Frame(frame),
                Err(e) => return FrameEvent::Failed(e),
                Ok(None) => match self.chunks.pop_front() {
                    Some(chunk) => self.src.extend_from_slice(&chunk),
                    None if self.src.is_empty() => return FrameEvent::Finished,
                    None => return FrameEvent::Failed(Error::Io(std::io::Error::new(
                        std::io::ErrorKind::Other,
                        "bytes remaining on stream",
                    ))),
                },
            }
        }
    }
}

fn library_content_type(text: &str) -> ContentType {
    let parsed = RocketContentType::from_str(text).unwrap();
    ContentType {
        top: parsed.top().to_string(),
        sub: parsed.sub().to_string(),
        params: parsed.params().map(|(k, v)| (k.to_string(), v.to_string())).collect(),
    }
}

fn rocket_content_type(content_type: &ContentType) -> RocketContentType {
    RocketContentType::new(content_type.top.clone(), content_type.sub.clone())
        .with_params(content_type.params.clone())
}

fn open(content_type: &str, chunks: Vec<Vec<u8>>) -> (MultipartReader, Source) {
    match MultipartReader::from_data(Some(library_content_type(content_type)), None) {
        FromData::Success(reader, decoder, _) => {
            (reader, Source { decoder, src: BytesMut::new(), chunks: chunks.into() })
        }
        _ => panic!("not a multipart stream"),
    }
}

fn next(
    reader: &mut MultipartReader,
    source: &mut Source,
) -> Result<Option<MultipartReadSection>, Error> {
    let mut progress = reader.start_next();
    loop {
        match reader.next(progress, source.event()) {
            NextAction::Poll(further) => progress = further,
            NextAction::Section(section) => return Ok(Some(section)),
            NextAction::NoSection => return Ok(None),
            NextAction::Failed(e) => return Err(e),
        }
    }
}

fn to_bytes(
    section: &MultipartReadSection,
    reader: &mut MultipartReader,
    source: &mut Source,
) -> Result<Bytes, Error> {
    let mut action = section.to_bytes(reader);
    loop {
        action = match action {
            BodyAction::Poll(raw_data) => section.to_bytes_next(reader, raw_data, source.event()),
            BodyAction::Done(bytes) => return Ok(bytes),
            BodyAction::Failed(e) => return Err(e),
        }
    }
}

fn read_to_end(
    section: &MultipartReadSection,
    reader: &mut MultipartReader,
    source: &mut Source,
    room: usize,
) -> Vec<u8> {
    let mut all = vec![];
    loop {
        let mut action = section.poll_read(reader, None, room);
        if matches!(action, ReadAction::Poll) {
            action = section.poll_read(reader, Some(source.event()), room);
        }
        match action {
            ReadAction::Ready(bytes) if bytes.is_empty() => return all,
            ReadAction::Ready(bytes) => {
                assert!(bytes.len() <= room);
                all.extend_from_slice(&bytes)
            }
            _ => panic!("the stream failed"),
        }
    }
}

type Fields = Vec<(String, String)>;

fn fields(section: &MultipartReadSection) -> Fields {
    section.headers().iter().map(|h| (h.name.to_string(), h.value.to_string())).collect()
}

fn read_all(content_type: &str, chunks: Vec<Vec<u8>>) -> Vec<(Fields, Vec<u8>)> {
    let (mut reader, mut source) = open(content_type, chunks);
    let mut all = vec![];
    while let Some(section) = next(&mut reader, &mut source).unwrap() {
        let bytes = to_bytes(&section, &mut reader, &mut source).unwrap();
        all.push((fields(&section), bytes.to_vec()));
    }
    all
}

fn write_all(
    response: StreamResponse<Vec<MultipartSection<&[u8]>>, &[u8]>,
    room: usize,
) -> Vec<Vec<u8>> {
    write_all_by(response, room, |content, buf| content.read(buf).unwrap())
}

fn write_all_by<C>(
    response: StreamResponse<Vec<MultipartSection<C>>, C>,
    room: usize,
    read: impl Fn(&mut C, &mut [u8]) -> usize,
) -> Vec<Vec<u8>> {
    let mut body = response.body;
    let mut sections = response.sections.into_iter();
    let mut chunks = vec![];
    loop {
        let mut chunk = vec![];
        let mut event = StreamEvent::Start;
        loop {
            match body.poll_read(event, room) {
                StreamAction::PollSections => {
                    event = match sections.next() {
                        Some(section) => StreamEvent::Section(section),
                        None => StreamEvent::NoMoreSections,
                    }
                }
                StreamAction::PollContent => {
                    let mut buf = vec![0; room];
                    let n = read(body.content().unwrap(), &mut buf);
                    chunk.extend_from_slice(&buf[..n]);
                    event = StreamEvent::ContentRead(n);
                }
                StreamAction::Ready(bytes) => {
                    chunk.extend_from_slice(&bytes);
                    break;
                }
            }
        }
        if chunk.is_empty() {
            return chunks;
        }
        chunks.push(chunk);
    }
}

fn header(content_type: RocketContentType) -> Header {
    let header = RocketHeader::from(content_type);
    Header::new(header.name.to_string(), header.value().to_string())
}

fn field(name: &str, value: &str) -> Header {
    Header::new(name.to_string(), value.to_string())
}

fn pair(name: &str, value: &str) -> (String, String) {
    (name.to_string(), value.to_string())
}

fn cut(bytes: &[u8], size: usize) -> Vec<Vec<u8>> {
    bytes.chunks(size).map(|c| c.to_vec()).collect()
}

fn multipart_route() -> MultipartStream<Vec<MultipartSection<&'static [u8]>>> {
    MultipartStream::new(
        "Sep",
        vec![
            MultipartSection::from_slice(b"How can I help you")
                .add_header(header(RocketContentType::Text)),
            MultipartSection::from_slice(b"today?").add_header(header(RocketContentType::Text)),
            MultipartSection::from_slice(&[0xFF, 0xFE, 0xF0])
                .add_header(header(RocketContentType::Binary)),
        ],
    )
}

fn multipart_data(content_type: &str, chunks: Vec<Vec<u8>>) -> String {
    let (mut reader, mut source) = open(content_type, chunks);
    let mut s = String::new();
    s.push_str(&format!("M CT: {}\n", rocket_content_type(reader.content_type())));
    while let Some(a) = next(&mut reader, &mut source).unwrap() {
        if let Some(ct) = a.headers().get_one("Content-Type") {
            s.push_str(&format!("CT: {}\n", ct));
        }
        let buf = to_bytes(&a, &mut reader, &mut source).unwrap();
        if let Ok(val) = std::str::from_utf8(&buf) {
            s.push_str(&format!("V: {}\n", val));
        } else {
            s.push_str(&format!("R: {:?}\n", &buf[..]));
        }
    }
    s
}

fn json_data(content_type: &str, chunks: Vec<Vec<u8>>) -> String {
    let (mut reader, mut source) = open(content_type, chunks);
    let mut s = String::new();
    s.push_str(&format!("M CT: {}\n", rocket_content_type(reader.content_type())));
    while let Some(a) = next(&mut reader, &mut source).unwrap() {
        if let Some(ct) = a.headers().get_one("Content-Type") {
            s.push_str(&format!("CT: {}\n", ct));
        }
        let buf = to_bytes(&a, &mut reader, &mut source);
        let text = a.json(buf).map(|v| serde_json::to_string(&v).unwrap());
        s.push_str(&format!("{:?}\n", text));
    }
    s
}

fn json_send() -> MultipartStream<Vec<MultipartSection<Vec<u8>>>> {
    let mut map = serde_json::Map::new();
    map.insert("val".to_string(), Value::from(0));
    MultipartStream::new(
        "Sep",
        vec![MultipartSection::from_json(&Value::Object(map))
            .unwrap()
            .add_header(header(RocketContentType::JSON))],
    )
}

fn example_multipart_stream() -> Vec<u8> {
    let mut expected_contents = vec![];
    expected_contents.extend_from_slice(b"\r\n");

    expected_contents.extend_from_slice(b"--Sep\r\n");
    expected_contents.extend_from_slice(b"Content-Type: text/plain; charset=utf-8\r\n");
    expected_contents.extend_from_slice(b"\r\n");
    expected_contents.extend_from_slice(b"How can I help you\r\n");

    expected_contents.extend_from_slice(b"--Sep\r\n");
    expected_contents.extend_from_slice(b"Content-Type: text/plain; charset=utf-8\r\n");
    expected_contents.extend_from_slice(b"\r\n");
    expected_contents.extend_from_slice(b"today?\r\n");

    expected_contents.extend_from_slice(b"--Sep\r\n");
    expected_contents.extend_from_slice(b"Content-Type: application/octet-stream\r\n");
    expected_contents.extend_from_slice(b"\r\n");
    expected_contents.extend_from_slice(&[0xFF, 0xFe, 0xF0]);
    expected_contents.extend_from_slice(b"\r\n");

    expected_contents.extend_from_slice(b"--Sep--\r\n");
    expected_contents
}

#[test]
fn simple_encoder() {
    let response = multipart_route().respond_to();
    assert_eq!(response.status, 200);
    assert_eq!(
        Some(rocket_content_type(&response.content_type)),
        Some(RocketContentType::new("multipart", "mixed"))
    );
    assert_eq!(
        rocket_content_type(&response.content_type).to_string(),
        "multipart/mixed; boundary=Sep"
    );
    let expected_contents = example_multipart_stream();
    assert_eq!(Some(write_all(response, 4096).concat()), Some(expected_contents));
}

#[test]
fn simple_decoder() {
    let expected_contents = example_multipart_stream();
    assert_eq!(
        multipart_data("multipart/mixed; boundary=Sep", vec![expected_contents]),
        "M CT: multipart/mixed; boundary=Sep
CT: text/plain; charset=utf-8
V: How can I help you
CT: text/plain; charset=utf-8
V: today?
CT: application/octet-stream
R: [255, 254, 240]
"
    );
}

#[test]
fn empty_section() {
    let mut expected_contents = vec![];
    expected_contents.extend_from_slice(b"--Sep\r\n");
    expected_contents.extend_from_slice(b"Content-Type: text/plain\r\n");
    expected_contents.extend_from_slice(b"\r\n");
    expected_contents.extend_from_slice(b"\r\n--Sep\r\n");
    expected_contents.extend_from_slice(b"Content-Type: text/fake\r\n");
    expected_contents.extend_from_slice(b"\r\nCT");
    expected_contents.extend_from_slice(b"\r\n--Sep--");
    assert_eq!(
        multipart_data("multipart/mixed; boundary=Sep", vec![expected_contents]),
        "M CT: multipart/mixed; boundary=Sep
CT: text/plain
V: 
CT: text/fake
V: CT
"
    );
}

#[test]
fn json_decode() {
    let mut expected_contents = vec![];
    expected_contents.extend_from_slice(b"--Sep\r\n");
    expected_contents.extend_from_slice(b"Content-Type: application/json\r\n");
    expected_contents.extend_from_slice(b"\r\n{ \"val\": 0 }");
    expected_contents.extend_from_slice(b"\r\n--Sep--");
    assert_eq!(
        json_data("multipart/mixed; boundary=Sep", vec![expected_contents]),
        "M CT: multipart/mixed; boundary=Sep
CT: application/json
Ok(\"{\\\"val\\\":0}\")
"
    );
}

#[test]
fn json_encode() {
    let mut expected_contents = vec![];
    expected_contents.extend_from_slice(b"\r\n--Sep\r\n");
    expected_contents.extend_from_slice(b"Content-Type: application/json\r\n");
    expected_contents.extend_from_slice(b"\r\n{\"val\":0}");
    expected_contents.extend_from_slice(b"\r\n--Sep--\r\n");
    let response = json_send().respond_to();
    assert_eq!(response.status, 200);
    let written = write_all_by(response, 4096, |content: &mut Vec<u8>, buf| {
        let n = content.len().min(buf.len());
        buf[..n].copy_from_slice(&content[..n]);
        content.drain(..n);
        n
    });
    assert_eq!(written.concat(), expected_contents);
}

type Content = (Fields, Vec<u8>);

fn sample() -> Vec<Content> {
    vec![
        (vec![pair("A", "1"), pair("A", "2"), pair("B", "x: y")], b"one".to_vec()),
        (vec![], b"".to_vec()),
        (vec![], b"\r\n--Se\r\r\nSep and Sep.\r\n--SeSe\r\n".to_vec()),
        (vec![pair("C", "")], b"Sep".to_vec()),
        (vec![], vec![0, 13, 10, 255, 45, 45, 83, 101]),
        (vec![pair("Last", "yes")], b"".to_vec()),
    ]
}

fn sample_stream(contents: &[Content]) -> MultipartStream<Vec<MultipartSection<&[u8]>>> {
    let sections = contents
        .iter()
        .map(|(fields, body)| {
            fields.iter().fold(MultipartSection::from_slice(body), |section, (name, value)| {
                section.add_header(field(name, value))
            })
        })
        .collect();
    MultipartStream::new("Sep", sections)
}

#[test]
fn what_is_written_is_read_whatever_the_chunks() {
    let contents = sample();
    let written = write_all(sample_stream(&contents).respond_to(), 4096).concat();
    for size in 1..written.len() + 1 {
        let read = read_all("multipart/mixed; boundary=Sep", cut(&written, size));
        assert_eq!(read, contents, "in chunks of {}", size);
    }
}

#[test]
fn a_response_is_read_back_whatever_the_room() {
    let contents = sample();
    for room in 1..40 {
        let chunks = write_all(sample_stream(&contents).respond_to(), room);
        assert!(chunks.iter().all(|chunk| 0 < chunk.len() && chunk.len() <= room));
        assert_eq!(read_all("multipart/mixed; boundary=Sep", chunks), contents);
    }
}

#[test]
fn the_body_is_the_stream_whatever_the_room() {
    for room in 1..40 {
        let chunks = write_all(multipart_route().respond_to(), room);
        assert_eq!(chunks.concat(), example_multipart_stream());
    }
}

#[test]
fn a_response_without_sections_is_a_last_boundary() {
    let stream: MultipartStream<Vec<MultipartSection<&[u8]>>> =
        MultipartStream::new("b", vec![]);
    let written = write_all(stream.respond_to(), 100).concat();
    assert_eq!(written, b"\r\n--b--\r\n");
    assert_eq!(read_all("multipart/mixed; boundary=b", vec![written]), vec![]);
}

#[test]
fn a_last_section_without_headers_and_body_is_not_seen() {
    let stream = "\r\n--Sep\r\nA: 1\r\n\r\nx\r\n--Sep\r\n\r\n\r\n--Sep--\r\n";
    let read = read_all("multipart/mixed; boundary=Sep", vec![stream.as_bytes().to_vec()]);
    assert_eq!(read, vec![(vec![pair("A", "1")], b"x".to_vec())]);
}

#[test]
fn what_stands_before_and_after_the_stream_is_dropped() {
    let stream = b"To be ignored.\r\n--Sep\r\n\r\nbody\r\n--Sep--\r\nepilogue\r\n--Sep\r\n\r\nno";
    for size in 1..stream.len() + 1 {
        let read = read_all("multipart/mixed; boundary=Sep", cut(stream, size));
        assert_eq!(read, vec![(vec![], b"body".to_vec())], "in chunks of {}", size);
    }
}

#[test]
fn boundaries_that_browsers_choose_are_told_from_the_dashes_before_them() {
    let boundary = "----WebKitFormBoundary7MA4YWxkTrZu0gW";
    let contents: Vec<Content> =
        vec![(vec![pair("Content-Disposition", "form-data; name=\"a\"")], b"----\r\n----".to_vec())];
    let sections = vec![MultipartSection::from_slice(b"----\r\n----")
        .add_header(field("Content-Disposition", "form-data; name=\"a\""))];
    let stream: MultipartStream<Vec<MultipartSection<&[u8]>>> =
        MultipartStream::new(boundary.to_string(), sections);
    let written = write_all(stream.respond_to(), 7).concat();
    for size in 1..written.len() + 1 {
        let content_type = format!("multipart/form-data; boundary={}", boundary);
        assert_eq!(read_all(&content_type, cut(&written, size)), contents);
    }
}

#[test]
fn a_random_boundary_is_read_back() {
    let stream = MultipartStream::new_random(vec![MultipartSection::from_slice(b"body")]);
    let response = stream.respond_to();
    let content_type = rocket_content_type(&response.content_type).to_string();
    let boundary = response.content_type.param("boundary").unwrap().to_string();
    assert_eq!(boundary.len(), 15);
    assert!(boundary.bytes().all(|b| b.is_ascii_alphanumeric()));
    let chunks = write_all(response, 3);
    let expected = format!("\r\n--{}\r\n\r\nbody\r\n--{}--\r\n", boundary, boundary);
    assert_eq!(chunks.concat(), expected.as_bytes());
    assert_eq!(read_all(&content_type, chunks), vec![(vec![], b"body".to_vec())]);
}

#[test]
fn a_body_read_in_pieces_is_the_whole_body() {
    let contents = sample();
    let written = write_all(sample_stream(&contents).respond_to(), 4096).concat();
    for room in 1..12 {
        let (mut reader, mut source) =
            open("multipart/mixed; boundary=Sep", cut(&written, 10));
        let mut read = vec![];
        while let Some(section) = next(&mut reader, &mut source).unwrap() {
            let body = read_to_end(&section, &mut reader, &mut source, room);
            read.push((fields(&section), body));
        }
        assert_eq!(read, contents);
    }
}

#[test]
fn a_body_that_is_not_read_is_passed_over() {
    let contents = sample();
    let written = write_all(sample_stream(&contents).respond_to(), 4096).concat();
    let (mut reader, mut source) = open("multipart/mixed; boundary=Sep", cut(&written, 5));
    let mut read = vec![];
    while let Some(section) = next(&mut reader, &mut source).unwrap() {
        if read.len() % 2 == 0 {
            let mut action = section.poll_read(&mut reader, None, 1);
            if matches!(action, ReadAction::Poll) {
                action = section.poll_read(&mut reader, Some(source.event()), 1);
            }
            assert!(matches!(action, ReadAction::Ready(_)));
        }
        read.push(fields(&section));
    }
    let expected: Vec<Fields> = contents.into_iter().map(|(fields, _)| fields).collect();
    assert_eq!(read, expected);
    assert!(matches!(reader.buffer(), MultipartFrame::End));
    assert!(next(&mut reader, &mut source).unwrap().is_none());
}

#[test]
fn a_header_that_is_not_utf8_fails_the_search_and_the_reading_goes_on() {
    let stream = b"\r\n--Sep\r\nA: \xff\r\nB: 2\r\n\r\nbody\r\n--Sep--";
    let (mut reader, mut source) = open("multipart/mixed; boundary=Sep", vec![stream.to_vec()]);
    match next(&mut reader, &mut source) {
        Err(Error::Encoding(failure)) => {
            assert_eq!(failure.valid_up_to, 1);
            assert_eq!(failure.error_len, Some(1));
        }
        _ => panic!("the value is not UTF-8"),
    }
    let section = next(&mut reader, &mut source).unwrap().unwrap();
    assert_eq!(fields(&section), vec![pair("B", "2")]);
    assert_eq!(&to_bytes(&section, &mut reader, &mut source).unwrap()[..], b"body");
}

#[test]
fn a_stream_that_is_cut_short_fails() {
    let stream = b"\r\n--Sep\r\nA: 1\r\n\r\nbody\r\n--Se";
    let (mut reader, mut source) = open("multipart/mixed; boundary=Sep", vec![stream.to_vec()]);
    let section = next(&mut reader, &mut source).unwrap().unwrap();
    match to_bytes(&section, &mut reader, &mut source) {
        Err(Error::Io(e)) => assert_eq!(e.to_string(), "bytes remaining on stream"),
        _ => panic!("the stream is cut short"),
    }
    assert!(matches!(reader.buffer(), MultipartFrame::End));
}

#[test]
fn a_search_that_fails_hands_on_the_error() {
    let (mut reader, _) = open("multipart/mixed; boundary=Sep", vec![]);
    let progress = reader.start_next();
    let io = std::io::Error::new(std::io::ErrorKind::Other, "gone");
    match reader.next(progress, FrameEvent::Failed(Error::from(io))) {
        NextAction::Failed(Error::Io(e)) => assert_eq!(e.to_string(), "gone"),
        _ => panic!("the stream failed"),
    }
}

#[test]
fn json_that_does_not_parse_is_reported_with_its_place() {
    let stream = b"\r\n--Sep\r\nA: 1\r\n\r\n{\n\"a\": x}\r\n--Sep--";
    let (mut reader, mut source) = open("multipart/mixed; boundary=Sep", vec![stream.to_vec()]);
    let section = next(&mut reader, &mut source).unwrap().unwrap();
    let bytes = to_bytes(&section, &mut reader, &mut source);
    match section.json(bytes) {
        Err(Error::Json(failure)) => {
            assert_eq!((failure.line, failure.column), (2, 6));
            assert_eq!(failure.message, "expected value at line 2 column 6");
        }
        _ => panic!("not JSON"),
    }
}

#[test]
fn json_that_is_written_is_read() {
    let value: Value = serde_json::from_str("{\"a\":[1,null,\"\\u00e9\"],\"b\":{}}").unwrap();
    let section = MultipartSection::from_json(&value).unwrap();
    let response = MultipartStream::new("Sep", vec![section]).respond_to::<Vec<u8>>();
    let mut body = response.body;
    let mut sections = response.sections.into_iter();
    body.poll_read(StreamEvent::Start, 100);
    body.poll_read(StreamEvent::Section(sections.next().unwrap()), 100);
    body.poll_read(StreamEvent::Start, 100);
    let text = body.content().unwrap().clone();
    assert_eq!(text, "{\"a\":[1,null,\"\u{e9}\"],\"b\":{}}".as_bytes());

    let mut stream = b"\r\n--Sep\r\n\r\n".to_vec();
    stream.extend_from_slice(&text);
    stream.extend_from_slice(b"\r\n--Sep--");
    let (mut reader, mut source) = open("multipart/mixed; boundary=Sep", vec![stream]);
    let section = next(&mut reader, &mut source).unwrap().unwrap();
    let bytes = to_bytes(&section, &mut reader, &mut source);
    assert_eq!(section.json(bytes).unwrap(), value);
}

#[test]
fn the_content_type_of_a_section_is_parsed() {
    let stream = b"\r\n--Sep\r\ncontent-TYPE: text/html; charset=utf-8\r\nContent-Type: a/b\r\n\r\n1\
        \r\n--Sep\r\nContent-Type: nonsense\r\n\r\n2\r\n--Sep\r\nOther: a/b\r\n\r\n3\r\n--Sep--";
    let (mut reader, mut source) = open("multipart/mixed; boundary=Sep", vec![stream.to_vec()]);
    let first = next(&mut reader, &mut source).unwrap().unwrap();
    let content_type = first.content_type().unwrap();
    assert_eq!(content_type.top, "text");
    assert_eq!(content_type.sub, "html");
    assert_eq!(content_type.params, vec![pair("charset", "utf-8")]);
    assert_eq!(content_type.param("CharSet"), Some("utf-8"));
    assert_eq!(content_type.param("char"), None);
    let second = next(&mut reader, &mut source).unwrap().unwrap();
    assert!(second.content_type().is_none());
    let third = next(&mut reader, &mut source).unwrap().unwrap();
    assert!(third.content_type().is_none());
}

#[test]
fn json_of_a_body_that_cannot_be_read_is_that_error() {
    let stream = b"\r\n--Sep\r\nContent-Type: text/plain\r\n\r\n{}\r\n--Se";
    let (mut reader, mut source) = open("multipart/mixed; boundary=Sep", vec![stream.to_vec()]);
    let section = next(&mut reader, &mut source).unwrap().unwrap();
    let body = to_bytes(&section, &mut reader, &mut source);
    match section.json(body) {
        Err(Error::Io(e)) => assert_eq!(e.to_string(), "bytes remaining on stream"),
        _ => panic!("the stream is cut short"),
    }
}

#[test]
fn a_stream_that_begins_with_its_boundary_is_read_unless_a_chunk_ends_there() {
    let stream = b"--Sep\r\nA: 1\r\n\r\none\r\n--Sep\r\n\r\ntwo\r\n--Sep--";
    let expected = vec![(vec![pair("A", "1")], b"one".to_vec()), (vec![], b"two".to_vec())];
    for first in 1..stream.len() {
        for second in first + 1..stream.len() {
            if [first, second].iter().any(|&end| end == 5 || end == 6) {
                continue;
            }
            let chunks = vec![
                stream[..first].to_vec(),
                stream[first..second].to_vec(),
                stream[second..].to_vec(),
            ];
            assert_eq!(read_all("multipart/mixed; boundary=Sep", chunks), expected);
        }
    }
}

#[test]
fn header_lines_are_read_in_any_spelling() {
    let stream = b"\r\n--Sep\r\nA:1\r\na: \t 2 \r\nB :\r\nC: x:y\r\r\n\r\nbody\r\n--Sep--";
    let fields = vec![pair("A", "1"), pair("A", "2"), pair("B ", ""), pair("C", "x:y")];
    for size in 1..stream.len() + 1 {
        let read = read_all("multipart/mixed; boundary=Sep", cut(stream, size));
        assert_eq!(read, vec![(fields.clone(), b"body".to_vec())]);
    }
}

#[test]
fn frames_with_their_data_joined_are_the_same_for_every_cut() {
    let stream = b"text\r\n--Sep\r\nA:1\r\n\r\none\r\r\n-two\r\n--Sep\r\n\r\n\r\n--Sep\r\n\r\nx\
        \r\n--Sep--\r\nend";
    let expected = vec!["boundary", "A=1", "data one\r\r\n-two", "boundary", "boundary", "data x"];
    for size in 1..stream.len() + 1 {
        let (_, mut source) = open("multipart/mixed; boundary=Sep", cut(stream, size));
        let mut frames: Vec<String> = vec![];
        loop {
            match source.event() {
                FrameEvent::Frame(MultipartFrame::Boundary) => frames.push("boundary".to_string()),
                FrameEvent::Frame(MultipartFrame::Header(h)) => {
                    frames.push(format!("{}={}", h.name, h.value))
                }
                FrameEvent::Frame(MultipartFrame::Data(bytes)) => {
                    assert!(!bytes.is_empty());
                    let text = String::from_utf8(bytes.to_vec()).unwrap();
                    match frames.last_mut() {
                        Some(last) if last.starts_with("data ") => last.push_str(&text),
                        _ => frames.push(format!("data {}", text)),
                    }
                }
                FrameEvent::Finished => break,
                other => panic!("not expected: {:?}", other),
            }
        }
        assert_eq!(frames, expected, "in chunks of {}", size);
    }
}

#[test]
fn the_bodies_together_are_no_longer_than_the_stream() {
    let contents = sample();
    let written = write_all(sample_stream(&contents).respond_to(), 4096).concat();
    let read = read_all("multipart/mixed; boundary=Sep", vec![written.clone()]);
    let total: usize = read.iter().map(|(_, body)| body.len()).sum();
    assert_eq!(total, 45);
    assert!(total <= written.len());
}

#[test]
fn a_body_that_has_to_wait_loses_nothing() {
    for room in 1..20 {
        let response = multipart_route().respond_to();
        let mut body = response.body;
        let mut sections = response.sections.into_iter();
        let mut written = vec![];
        let mut waits = 0;
        let mut ready = false;
        loop {
            let before = written.len();
            let mut waited = false;
            let mut event = StreamEvent::Start;
            loop {
                match body.poll_read(event, room) {
                    StreamAction::Ready(bytes) => {
                        written.extend_from_slice(&bytes);
                        break;
                    }
                    _ if !ready => {
                        ready = true;
                        waited = true;
                        break;
                    }
                    StreamAction::PollSections => {
                        ready = false;
                        event = match sections.next() {
                            Some(section) => StreamEvent::Section(section),
                            None => StreamEvent::NoMoreSections,
                        }
                    }
                    StreamAction::PollContent => {
                        ready = false;
                        let mut buf = vec![0; room];
                        let n = body.content().unwrap().read(&mut buf).unwrap();
                        written.extend_from_slice(&buf[..n]);
                        event = StreamEvent::ContentRead(n);
                    }
                }
            }
            assert!(example_multipart_stream().starts_with(&written));
            if waited {
                waits += 1;
                assert_eq!(written.len(), before);
            } else if written.len() == before {
                break;
            }
        }
        assert_eq!(written, example_multipart_stream());
        assert!(waits >= 7);
    }
}

#[test]
fn json_of_any_type_is_what_the_parser_made_of_the_body() {
    let stream = b"\r\n--Sep\r\n\r\n[1, 2]\r\n--Sep--";
    let (mut reader, mut source) = open("multipart/mixed; boundary=Sep", vec![stream.to_vec()]);
    let section = next(&mut reader, &mut source).unwrap().unwrap();
    let body = to_bytes(&section, &mut reader, &mut source).unwrap();
    let report = |e: serde_json::Error| JsonFailure {
        line: e.line(),
        column: e.column(),
        message: e.to_string(),
    };
    let numbers = serde_json::from_slice::<Vec<u8>>(&body).map_err(report);
    assert_eq!(section.json_parsed(Ok(numbers)).unwrap(), vec![1, 2]);
    let text = serde_json::from_slice::<String>(&body).map_err(report);
    match section.json_parsed(Ok(text)) {
        Err(Error::Json(failure)) => assert_eq!((failure.line, failure.column), (1, 0)),
        _ => panic!("not a string"),
    }
    let unread: Result<Result<u8, JsonFailure>, Error> = Err(Error::BoundaryNotSpecified);
    assert!(matches!(section.json_parsed(unread), Err(Error::BoundaryNotSpecified)));
}

#[test]
fn a_boundary_in_the_text_before_the_first_one_is_passed_over() {
    let stream = b"Sep x Sep y\r\n--Sep\r\nA: 1\r\n\r\none\r\n--Sep--";
    let expected = vec![(vec![pair("A", "1")], b"one".to_vec())];
    assert_eq!(read_all("multipart/mixed; boundary=Sep", vec![stream.to_vec()]), expected);
    for end in 1..stream.len() {
        if [3, 4, 9, 10, 18, 19].contains(&end) {
            continue;
        }
        let chunks = vec![stream[..end].to_vec(), stream[end..].to_vec()];
        assert_eq!(read_all("multipart/mixed; boundary=Sep", chunks), expected);
    }
}
