//! The decoder behind the framed reader of `tokio_util`.

use rocket::futures::StreamExt;
use rocket::tokio::runtime::Builder;
use rocket_multipart::{Error, MultipartDecoder, MultipartFrame};
use tokio_util::bytes::BytesMut;
use tokio_util::codec::{Decoder, FramedRead};

struct Frames(MultipartDecoder);

impl Decoder for Frames {
    type Item = MultipartFrame;
    type Error = Error;

    fn decode(&mut self, src: &mut BytesMut) -> Result<Option<MultipartFrame>, Error> {
        self.0.try_decode(src).expect("malformed stream")
    }
}

fn frames(stream: &[u8]) -> Vec<Result<String, Error>> {
    let decoder = Frames(MultipartDecoder::new("Sep".to_string()));
    let framed = FramedRead::with_capacity(stream, decoder, 1);
    let items: Vec<Result<MultipartFrame, Error>> =
        Builder::new_current_thread().build().unwrap().block_on(framed.collect());
    items
        .into_iter()
        .map(|item| {
            item.map(|frame| match frame {
                MultipartFrame::Boundary => "boundary".to_string(),
                MultipartFrame::Header(h) => format!("{}={}", h.name, h.value),
                MultipartFrame::Data(bytes) => String::from_utf8(bytes.to_vec()).unwrap(),
                MultipartFrame::End => "end".to_string(),
            })
        })
        .collect()
}

#[test]
fn a_stream_is_framed() {
    let stream = b"\r\n--Sep\r\nA: 1\r\nB: 2\r\n\r\nx\r\n--Sep\r\n\r\n\r\n--Sep--\r\n";
    let found: Vec<String> = frames(stream).into_iter().map(|f| f.unwrap()).collect();
    assert_eq!(found, vec!["boundary", "A=1", "B=2", "x", "boundary"]);
}

#[test]
fn a_stream_that_is_cut_short_is_framed_up_to_there() {
    let mut found = frames(b"\r\n--Sep\r\nA: 1\r\n\r\nx\r\n--S");
    match found.pop().unwrap() {
        Err(Error::Io(e)) => assert_eq!(e.to_string(), "bytes remaining on stream"),
        _ => panic!("the stream is cut short"),
    }
    let found: Vec<String> = found.into_iter().map(|f| f.unwrap()).collect();
    assert_eq!(found, vec!["boundary", "A=1", "x"]);
}
