//! Writing sections as a multipart stream.

use rocket::http::HeaderMap;
use serde_json::Value;
use vstd::prelude::*;
use vstd::utf8::encode_utf8;

use crate::content_type::ContentType;
use crate::error::JsonFailure;
use crate::header::{
    add_field, fields_of, groups_wf, header_groups, lemma_added_wf, lemma_replaced_wf,
    list_fields, replace_field, with_added, with_replaced, Header,
};
use crate::json::{json_text, write_json};

verus! {

/// How many characters a random boundary has.
pub const RANDOM_BOUNDARY_LEN: usize = 15;

/// The status of a response that is a multipart stream.
pub const OK: u16 = 200;

/// A single section to be returned in a stream: its headers and its content.
pub struct MultipartSection<C> {
    headers: HeaderMap<'static>,
    content: C,
}

/// The line of a header field: its name, a colon and a space, its value, and a
/// line break.
pub open spec fn field_line(field: (Seq<char>, Seq<char>)) -> Seq<char> {
    field.0 + ": "@ + field.1 + "\r\n"@
}

/// The lines of header fields, in order.
pub open spec fn field_lines(fields: Seq<(Seq<char>, Seq<char>)>) -> Seq<char>
    decreases fields.len(),
{
    if fields.len() == 0 {
        Seq::empty()
    } else {
        field_lines(fields.drop_last()) + field_line(fields.last())
    }
}

/// What stands before the content of a section: a line break, the boundary after
/// two dashes on a line, the header lines, and an empty line.
pub open spec fn section_head(boundary: Seq<char>, fields: Seq<(Seq<char>, Seq<char>)>) -> Seq<
    char,
> {
    "\r\n--"@ + boundary + "\r\n"@ + field_lines(fields) + "\r\n"@
}

/// What stands after the last section: a line break, and the boundary between
/// dashes on a line.
pub open spec fn stream_foot(boundary: Seq<char>) -> Seq<char> {
    "\r\n--"@ + boundary + "--\r\n"@
}

/// A section: its headers, and the bytes of its body.
pub struct SectionView {
    /// The headers.
    pub groups: Seq<(Seq<char>, Seq<Seq<char>>)>,
    /// The bytes of the body.
    pub body: Seq<u8>,
}

/// A section in a stream: what stands before its content, and its content.
pub open spec fn section_bytes(boundary: Seq<char>, section: SectionView) -> Seq<u8> {
    encode_utf8(section_head(boundary, fields_of(section.groups))) + section.body
}

/// A stream: its sections in order, and what stands after the last one.
pub open spec fn stream_bytes(boundary: Seq<char>, sections: Seq<SectionView>) -> Seq<u8>
    decreases sections.len(),
{
    if sections.len() == 0 {
        encode_utf8(stream_foot(boundary))
    } else {
        section_bytes(boundary, sections[0]) + stream_bytes(boundary, sections.drop_first())
    }
}

impl<C> MultipartSection<C> {
    /// The headers of the section.
    pub closed spec fn groups(&self) -> Seq<(Seq<char>, Seq<Seq<char>>)> {
        header_groups(self.headers)
    }

    /// The content of the section.
    pub closed spec fn content(&self) -> C {
        self.content
    }

    /// No two groups of headers have the same name, and each has a value.
    #[verifier::type_invariant]
    closed spec fn inv(&self) -> bool {
        groups_wf(header_groups(self.headers))
    }

    /// Construct a new MultipartSection from a reader.
    ///
    /// If the reader is already in a `Box`, use [`Self::from_box`]
    pub fn new(reader: C) -> (section: Self)
        ensures
            section.groups() == Seq::<(Seq<char>, Seq<Seq<char>>)>::empty(),
            groups_wf(section.groups()),
            section.content() == reader,
    {
        let headers = HeaderMap::new();
        assert(header_groups(headers) =~= Seq::empty());
        MultipartSection { headers, content: reader }
    }

    /// Add a header to this section. If this section already has a header with
    /// the same name, this method adds an additional value.
    pub fn add_header(self, header: Header) -> (section: Self)
        ensures
            section.groups() == with_added(self.groups(), header@),
            groups_wf(section.groups()),
            section.content() == self.content(),
    {
        proof {
            use_type_invariant(&self);
            lemma_added_wf(header_groups(self.headers), header@);
        }
        let MultipartSection { mut headers, content } = self;
        add_field(&mut headers, header);
        MultipartSection { headers, content }
    }

    /// Replaces a header for this section. If this section already has a header
    /// with the same name, this methods replaces all values with the new value.
    pub fn replace_header(self, header: Header) -> (section: Self)
        ensures
            section.groups() == with_replaced(self.groups(), header@),
            groups_wf(section.groups()),
            section.content() == self.content(),
    {
        proof {
            use_type_invariant(&self);
            lemma_replaced_wf(header_groups(self.headers), header@);
        }
        let MultipartSection { mut headers, content } = self;
        replace_field(&mut headers, header);
        MultipartSection { headers, content }
    }

    /// What stands before the content of this section in a stream with this
    /// boundary. No two groups of headers have the same name, and each has a value.
    pub fn encode_headers(&self, boundary: &str) -> (head: String)
        ensures
            groups_wf(self.groups()),
            head@ == section_head(boundary@, fields_of(self.groups())),
    {
        proof {
            use_type_invariant(self);
        }
        let mut head = String::new();
        head.append("\r\n--");
        head.append(boundary);
        head.append("\r\n");
        let fields = list_fields(&self.headers);
        let ghost views = fields@.map_values(|field: Header| field@);
        let ghost opening = "\r\n--"@ + boundary@ + "\r\n"@;
        assert(head@ =~= opening + field_lines(views.take(0)));
        let mut i: usize = 0;
        while i < fields.len()
            invariant
                i <= fields@.len(),
                views == fields@.map_values(|field: Header| field@),
                head@ == opening + field_lines(views.take(i as int)),
            decreases fields@.len() - i,
        {
            let field = &fields[i];
            head.append(field.name.as_str());
            head.append(": ");
            head.append(field.value.as_str());
            head.append("\r\n");
            proof {
                assert(views.take(i + 1).drop_last() =~= views.take(i as int));
                assert(views.take(i + 1).last() == field@);
                assert(head@ =~= opening + field_lines(views.take(i + 1)));
            }
            i += 1;
        }
        assert(views.take(i as int) =~= views);
        head.append("\r\n");
        head
    }
}

impl<C: ?Sized> MultipartSection<Box<C>> {
    /// Construct a new MultipartSection from a Boxed reader.
    ///
    /// Useful to avoid double boxing a reader.
    pub fn from_box(reader: Box<C>) -> (section: Self)
        ensures
            section.groups() == Seq::<(Seq<char>, Seq<Seq<char>>)>::empty(),
            groups_wf(section.groups()),
            section.content() == reader,
    {
        MultipartSection::new(reader)
    }
}

impl<'r> MultipartSection<&'r [u8]> {
    /// Construct a new MultipartSection from a byte slice.
    pub fn from_slice(slice: &'r [u8]) -> (section: Self)
        ensures
            section.groups() == Seq::<(Seq<char>, Seq<Seq<char>>)>::empty(),
            groups_wf(section.groups()),
            section.content()@ == slice@,
    {
        MultipartSection::new(slice)
    }
}

impl MultipartSection<Vec<u8>> {
    /// Construct a new MultipartSection from a JSON document.
    pub fn from_json(value: &Value) -> (section: Result<Self, JsonFailure>)
        ensures
            section matches Ok(s) && {
                &&& s.groups() == Seq::<(Seq<char>, Seq<Seq<char>>)>::empty()
                &&& groups_wf(s.groups())
                &&& s.content()@ == json_text(*value)
            },
    {
        match write_json(value) {
            Ok(text) => Ok(MultipartSection::new(text)),
            Err(e) => Err(e),
        }
    }
}

/// A stream of sections to be returned as a `multipart/mixed` stream.
pub struct MultipartStream<T> {
    boundary: String,
    stream: T,
    sub_type: &'static str,
}

/// An ASCII letter or digit.
pub open spec fn is_alphanumeric(c: char) -> bool {
    ||| '0' <= c <= '9'
    ||| 'A' <= c <= 'Z'
    ||| 'a' <= c <= 'z'
}

/// `Rng::sample_iter` of `rand`, with the distribution `Alphanumeric` and the
/// generator of the thread, draws ASCII letters and digits. Which ones is left to
/// chance.
#[verifier::external_body]
fn draw_alphanumeric(count: usize) -> (drawn: Vec<u8>)
    requires
        count <= isize::MAX,
    ensures
        drawn@.len() == count,
        forall|i: int| 0 <= i < count ==> is_alphanumeric((#[trigger] drawn@[i]) as char),
{
    rand::Rng::sample_iter(rand::thread_rng(), rand::distributions::Alphanumeric).take(count).collect()
}

/// `<T as From<T>>::from` returns what it is given.
pub assume_specification<Kept>[ <Kept as std::convert::From<Kept>>::from ](value: Kept) -> (same:
    Kept)
    ensures
        same == value,
;

/// `<String as From<&str>>::from` gives the same text.
pub assume_specification<'b>[ <String as std::convert::From<&'b str>>::from ](text: &str) -> (owned:
    String)
    ensures
        owned@ == text@,
;

impl<T> MultipartStream<T> {
    /// The boundary between the sections.
    pub closed spec fn boundary(&self) -> String {
        self.boundary
    }

    /// The stream of sections.
    pub closed spec fn stream(&self) -> T {
        self.stream
    }

    /// The sub type of the content type.
    pub closed spec fn sub_type(&self) -> Seq<char> {
        self.sub_type@
    }

    /// Construct a stream, using the specified string as a boundary marker
    /// between stream items.
    pub fn new<S: Into<String>>(boundary: S, stream: T) -> (result: Self)
        ensures
            call_ensures(S::into, (boundary,), result.boundary()),
            result.stream() == stream,
            result.sub_type() == "mixed"@,
    {
        let boundary: String = boundary.into();
        MultipartStream { boundary, stream, sub_type: "mixed" }
    }

    /// Construct a stream, generating a random 15 character (alpha-numeric)
    /// boundary marker
    pub fn new_random(stream: T) -> (result: Self)
        ensures
            result.boundary()@.len() == RANDOM_BOUNDARY_LEN,
            forall|i: int|
                0 <= i < RANDOM_BOUNDARY_LEN ==> is_alphanumeric(#[trigger] result.boundary()@[i]),
            result.stream() == stream,
            result.sub_type() == "mixed"@,
    {
        Self::with_drawn_boundary(draw_alphanumeric(RANDOM_BOUNDARY_LEN), stream)
    }

    /// Construct a stream whose boundary marker is made of these characters.
    pub fn with_drawn_boundary(drawn: Vec<u8>, stream: T) -> (result: Self)
        ensures
            result.boundary()@ == drawn@.map_values(|byte: u8| byte as char),
            result.stream() == stream,
            result.sub_type() == "mixed"@,
    {
        let mut boundary = String::new();
        let mut i: usize = 0;
        while i < drawn.len()
            invariant
                i <= drawn@.len(),
                boundary@ =~= drawn@.take(i as int).map_values(|byte: u8| byte as char),
            decreases drawn@.len() - i,
        {
            boundary.push(drawn[i] as char);
            i += 1;
        }
        assert(drawn@.take(i as int) =~= drawn@);
        Self::new(boundary, stream)
    }

    /// Change the ContentType sub type from the default `mixed`
    pub fn with_subtype(self, sub_type: &'static str) -> (result: Self)
        ensures
            result.boundary() == self.boundary(),
            result.stream() == self.stream(),
            result.sub_type() == sub_type@,
    {
        MultipartStream { boundary: self.boundary, stream: self.stream, sub_type }
    }

    /// The response that this stream is: its status, its content type, its body,
    /// and the sections that the body is made of.
    pub fn respond_to<C>(self) -> (response: StreamResponse<T, C>)
        ensures
            response.status == OK,
            response.content_type@ == ("multipart"@, self.sub_type(), seq![("boundary"@, self.boundary()@)]),
            response.body@ == (BodyState { boundary: self.boundary()@, state: StateView::<C>::Waiting }),
            response.sections == self.stream(),
    {
        let params = vec![("boundary".to_owned(), self.boundary.clone())];
        let content_type = ContentType {
            top: String::from("multipart"),
            sub: self.sub_type.to_owned(),
            params,
        };
        assert(content_type@.2 =~= seq![("boundary"@, self.boundary()@)]);
        StreamResponse {
            status: OK,
            content_type,
            body: MultipartStreamInner { boundary: self.boundary, state: StreamState::Waiting },
            sections: self.stream,
        }
    }
}

/// A response whose body is a multipart stream.
pub struct StreamResponse<T, C> {
    /// The status of the response.
    pub status: u16,
    /// The content type of the response.
    pub content_type: ContentType,
    /// The body of the response.
    pub body: MultipartStreamInner<C>,
    /// The sections that the body is made of.
    pub sections: T,
}

/// The body of a response, which is written section by section.
pub struct MultipartStreamInner<C> {
    boundary: String,
    state: StreamState<C>,
}

/// How far the body of a response is written.
pub enum StreamState<C> {
    /// The next section is waited for.
    Waiting,
    /// These bytes of what stands before a content are left, and then the content.
    Header(Vec<u8>, C),
    /// A content is written.
    Raw(C),
    /// These bytes of what stands after the last section are left.
    Footer(Vec<u8>),
}

/// How far the body of a response is written.
pub enum StateView<C> {
    /// The next section is waited for.
    Waiting,
    /// These bytes of what stands before a content are left, and then the content.
    Header(Seq<u8>, C),
    /// A content is written.
    Raw(C),
    /// These bytes of what stands after the last section are left.
    Footer(Seq<u8>),
}

impl<C> View for StreamState<C> {
    type V = StateView<C>;

    open spec fn view(&self) -> StateView<C> {
        match self {
            StreamState::Waiting => StateView::Waiting,
            StreamState::Header(bytes, content) => StateView::Header(bytes@, *content),
            StreamState::Raw(content) => StateView::Raw(*content),
            StreamState::Footer(bytes) => StateView::Footer(bytes@),
        }
    }
}

/// The body of a response: its boundary, and how far it is written.
pub struct BodyState<C> {
    /// The boundary between the sections.
    pub boundary: Seq<char>,
    /// How far the body is written.
    pub state: StateView<C>,
}

impl<C> View for MultipartStreamInner<C> {
    type V = BodyState<C>;

    closed spec fn view(&self) -> BodyState<C> {
        BodyState { boundary: self.boundary@, state: self.state@ }
    }
}

/// What happened since the body was last asked for bytes.
pub enum StreamEvent<C> {
    /// Nothing: the body is asked anew.
    Start,
    /// The next section came.
    Section(MultipartSection<C>),
    /// There are no more sections.
    NoMoreSections,
    /// So many bytes of the content were handed on. None means that it has ended.
    ContentRead(usize),
}

/// What happened since the body was last asked for bytes.
pub enum StreamEventView<C> {
    /// Nothing: the body is asked anew.
    Start,
    /// The next section came, with these headers and this content.
    Section(Seq<(Seq<char>, Seq<Seq<char>>)>, C),
    /// There are no more sections.
    NoMoreSections,
    /// So many bytes of the content were handed on.
    ContentRead(nat),
}

impl<C> View for StreamEvent<C> {
    type V = StreamEventView<C>;

    open spec fn view(&self) -> StreamEventView<C> {
        match self {
            StreamEvent::Start => StreamEventView::Start,
            StreamEvent::Section(section) => StreamEventView::Section(
                section.groups(),
                section.content(),
            ),
            StreamEvent::NoMoreSections => StreamEventView::NoMoreSections,
            StreamEvent::ContentRead(n) => StreamEventView::ContentRead(*n as nat),
        }
    }
}

/// What to do next to get bytes of the body.
pub enum StreamAction {
    /// Get the next section.
    PollSections,
    /// Hand on bytes of the content.
    PollContent,
    /// Hand on these bytes: the body has none for now where they are none and
    /// none of the content were handed on.
    Ready(Vec<u8>),
}

/// What to do next to get bytes of the body.
pub enum ActionView {
    /// Get the next section.
    PollSections,
    /// Hand on bytes of the content.
    PollContent,
    /// Hand on these bytes.
    Ready(Seq<u8>),
}

impl View for StreamAction {
    type V = ActionView;

    open spec fn view(&self) -> ActionView {
        match self {
            StreamAction::PollSections => ActionView::PollSections,
            StreamAction::PollContent => ActionView::PollContent,
            StreamAction::Ready(bytes) => ActionView::Ready(bytes@),
        }
    }
}

/// The event can come: a section where one is waited for, bytes of a content
/// where one is written.
pub open spec fn event_fits<C>(state: StateView<C>, event: StreamEventView<C>) -> bool {
    match event {
        StreamEventView::Start => true,
        StreamEventView::Section(_, _) => state is Waiting,
        StreamEventView::NoMoreSections => state is Waiting,
        StreamEventView::ContentRead(_) => state is Raw,
    }
}

/// How far the body is written once the event is taken in.
pub open spec fn after_event<C>(body: BodyState<C>, event: StreamEventView<C>) -> StateView<C> {
    match event {
        StreamEventView::Start => body.state,
        StreamEventView::Section(groups, content) => StateView::Header(
            encode_utf8(section_head(body.boundary, fields_of(groups))),
            content,
        ),
        StreamEventView::NoMoreSections => StateView::Footer(encode_utf8(stream_foot(body.boundary))),
        StreamEventView::ContentRead(n) => if n == 0 {
            StateView::Waiting
        } else {
            body.state
        },
    }
}

/// The first bytes, as many as there is room for.
pub open spec fn fitting(bytes: Seq<u8>, room: nat) -> Seq<u8> {
    if room < bytes.len() {
        bytes.take(room as int)
    } else {
        bytes
    }
}

/// What is done in this state to get bytes of the body, and the state that it
/// leaves. Where none of what stands before a content are handed on, the content
/// comes next.
pub open spec fn write_step<C>(state: StateView<C>, room: nat) -> (StateView<C>, ActionView) {
    match state {
        StateView::Waiting => (state, ActionView::PollSections),
        StateView::Header(bytes, content) => {
            let front = fitting(bytes, room);
            if front.len() == 0 {
                (StateView::Raw(content), ActionView::PollContent)
            } else {
                (
                    StateView::Header(bytes.skip(front.len() as int), content),
                    ActionView::Ready(front),
                )
            }
        },
        StateView::Raw(_) => (state, ActionView::PollContent),
        StateView::Footer(bytes) => {
            let front = fitting(bytes, room);
            (StateView::Footer(bytes.skip(front.len() as int)), ActionView::Ready(front))
        },
    }
}

/// What is done next to get bytes of the body, given what happened since, and the
/// state that it leaves. Where bytes of a content were handed on, that was all.
pub open spec fn poll_step<C>(body: BodyState<C>, event: StreamEventView<C>, room: nat) -> (
    StateView<C>,
    ActionView,
) {
    if event matches StreamEventView::ContentRead(n) && n > 0 {
        (body.state, ActionView::Ready(Seq::empty()))
    } else {
        write_step(after_event(body, event), room)
    }
}

/// Takes the first bytes, as many as there is room for, and leaves the others.
fn take_fitting(bytes: &mut Vec<u8>, room: usize) -> (front: Vec<u8>)
    ensures
        front@ == fitting(old(bytes)@, room as nat),
        final(bytes)@ == old(bytes)@.skip(front@.len() as int),
{
    let len = bytes.len();
    let mut rest = bytes.split_off(
        if room < len {
            room
        } else {
            len
        },
    );
    std::mem::swap(bytes, &mut rest);
    assert(rest@ =~= fitting(old(bytes)@, room as nat));
    assert(bytes@ =~= old(bytes)@.skip(rest@.len() as int));
    rest
}

impl<C> MultipartStreamInner<C> {
    /// Gets bytes of the body, at most as many as there is room for: says what to
    /// do next, given what happened since.
    pub fn poll_read(&mut self, event: StreamEvent<C>, room: usize) -> (action: StreamAction)
        requires
            event_fits(old(self)@.state, event@),
        ensures
            final(self)@.boundary == old(self)@.boundary,
            (final(self)@.state, action@) == poll_step(old(self)@, event@, room as nat),
    {
        match event {
            StreamEvent::Start => {},
            StreamEvent::Section(section) => {
                let head = section.encode_headers(self.boundary.as_str()).into_bytes();
                self.state = StreamState::Header(head, section.content);
            },
            StreamEvent::NoMoreSections => {
                let mut foot = String::new();
                foot.append("\r\n--");
                foot.append(self.boundary.as_str());
                foot.append("--\r\n");
                assert(foot@ =~= stream_foot(self.boundary@));
                self.state = StreamState::Footer(foot.into_bytes());
            },
            StreamEvent::ContentRead(n) => {
                if n > 0 {
                    let nothing: Vec<u8> = Vec::new();
                    assert(nothing@ =~= Seq::empty());
                    return StreamAction::Ready(nothing);
                }
                self.state = StreamState::Waiting;
            },
        }
        let mut state = StreamState::Waiting;
        std::mem::swap(&mut state, &mut self.state);
        match state {
            StreamState::Waiting => StreamAction::PollSections,
            StreamState::Header(mut bytes, content) => {
                let front = take_fitting(&mut bytes, room);
                if front.len() == 0 {
                    self.state = StreamState::Raw(content);
                    StreamAction::PollContent
                } else {
                    self.state = StreamState::Header(bytes, content);
                    StreamAction::Ready(front)
                }
            },
            StreamState::Raw(content) => {
                self.state = StreamState::Raw(content);
                StreamAction::PollContent
            },
            StreamState::Footer(mut bytes) => {
                let front = take_fitting(&mut bytes, room);
                self.state = StreamState::Footer(bytes);
                StreamAction::Ready(front)
            },
        }
    }

    /// The content that is written, if one is.
    pub fn content(&mut self) -> (content: Option<&mut C>)
        ensures
            final(self)@.boundary == old(self)@.boundary,
            match content {
                Some(c) => old(self)@.state == StateView::Raw(*c) && final(self)@.state
                    == StateView::Raw(*final(c)),
                None => !(old(self)@.state is Raw) && final(self)@.state == old(self)@.state,
            },
    {
        match &mut self.state {
            StreamState::Raw(content) => Some(content),
            _ => None,
        }
    }
}

} // verus!
