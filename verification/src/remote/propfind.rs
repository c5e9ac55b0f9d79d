//! The reply to a WebDAV `PROPFIND`: a multistatus document, read event by event.
//!
//! Namespace prefixes vary by server (`d:`, `D:`, none), so elements are told apart by
//! their local names.
use vstd::prelude::*;
use vstd::string::*;

use crate::text;

verus! {

// =====================================================================
// XML
// =====================================================================

/// `quick_xml::Reader`.
#[verifier::external_type_specification]
#[verifier::external_body]
#[verifier::reject_recursive_types(R)]
pub struct ExReader<R>(quick_xml::Reader<R>);

/// One step through an XML document.
#[derive(Debug)]
pub enum XmlEvent {
    /// `<tag>`, by its name.
    Start(String),
    /// `<tag/>`, by its name.
    Empty(String),
    /// `</tag>`, by its name.
    End(String),
    /// Character data between tags, with its escapes.
    Text(String),
    /// Anything else: comments, references, declarations.
    Other,
    /// The end of the document.
    Eof,
    /// The document is malformed; says how.
    Failed(String),
}

/// What an [`XmlEvent`] says.
pub enum XmlStep {
    Start(Seq<char>),
    Empty(Seq<char>),
    End(Seq<char>),
    Text(Seq<char>),
    Other,
    Eof,
    Failed(Seq<char>),
}

impl View for XmlEvent {
    type V = XmlStep;

    open spec fn view(&self) -> XmlStep {
        match *self {
            XmlEvent::Start(name) => XmlStep::Start(name@),
            XmlEvent::Empty(name) => XmlStep::Empty(name@),
            XmlEvent::End(name) => XmlStep::End(name@),
            XmlEvent::Text(raw) => XmlStep::Text(raw@),
            XmlEvent::Other => XmlStep::Other,
            XmlEvent::Eof => XmlStep::Eof,
            XmlEvent::Failed(e) => XmlStep::Failed(e@),
        }
    }
}

/// The events of an XML document, up to its end or the first error.
pub uninterp spec fn xml_events(xml: Seq<char>) -> Seq<XmlStep>;

/// The events that a reader has yet to yield, up to the end or the first error.
pub uninterp spec fn pending(r: quick_xml::Reader<&[u8]>) -> Seq<XmlStep>;

/// `quick_xml::Reader::from_str`, set to trim white space around text: a reader at the
/// start of the document. Which events a document has is left unsaid.
#[verifier::external_body]
fn open_reader(xml: &str) -> (r: quick_xml::Reader<&[u8]>)
    ensures
        pending(r) == xml_events(xml@),
{
    let mut reader = quick_xml::Reader::from_str(xml);
    reader.config_mut().trim_text(true);
    reader
}

/// `quick_xml::Reader::read_event`: yields the next event. A document has finitely many
/// of them; after its end or an error nothing is claimed.
#[verifier::external_body]
fn read_event(r: &mut quick_xml::Reader<&[u8]>) -> (ev: XmlEvent)
    ensures
        pending(*old(r)) == seq![ev@] + (if ev is Eof || ev is Failed {
            Seq::empty()
        } else {
            pending(*final(r))
        }),
{
    match r.read_event() {
        Ok(quick_xml::events::Event::Start(e)) => XmlEvent::Start(e.name().into_inner().to_string()),
        Ok(quick_xml::events::Event::Empty(e)) => XmlEvent::Empty(e.name().into_inner().to_string()),
        Ok(quick_xml::events::Event::End(e)) => XmlEvent::End(e.name().into_inner().to_string()),
        Ok(quick_xml::events::Event::Text(t)) => XmlEvent::Text(t.into_inner().into_owned()),
        Ok(quick_xml::events::Event::Eof) => XmlEvent::Eof,
        Ok(_) => XmlEvent::Other,
        Err(e) => XmlEvent::Failed(e.to_string()),
    }
}

/// The local part of an element's name: what stands behind the first colon, or all of it
/// where there is none.
pub open spec fn local_part(name: Seq<char>) -> Seq<char> {
    match text::split_once(name, seq![':']) {
        Some((_, local)) => local,
        None => name,
    }
}

fn local_name(name: &str) -> (r: &str)
    ensures
        r@ == local_part(name@),
{
    match text::split_once_char(name, ':') {
        Some((_, local)) => local,
        None => name,
    }
}

/// Text with its XML escapes replaced by what they stand for, or why that cannot be
/// done.
pub uninterp spec fn unescaped(raw: Seq<char>) -> Result<Seq<char>, Seq<char>>;

/// `quick_xml::escape::unescape`: a function of the text alone. Which escapes there are
/// is left unsaid.
#[verifier::external_body]
fn unescape(raw: &str) -> (r: Result<String, String>)
    ensures
        result_view(r) == unescaped(raw@),
{
    match quick_xml::escape::unescape(raw) {
        Ok(value) => Ok(value.into_owned()),
        Err(e) => Err(e.to_string()),
    }
}

/// What a result made of strings says.
pub open spec fn result_view(r: Result<String, String>) -> Result<Seq<char>, Seq<char>> {
    match r {
        Ok(v) => Ok(v@),
        Err(e) => Err(e@),
    }
}

// =====================================================================
// Multistatus
// =====================================================================

/// One response of a multistatus document.
#[derive(Debug)]
pub struct PropfindEntry {
    pub href: String,
    pub is_dir: bool,
    pub size: u64,
}

/// What a [`PropfindEntry`] says.
#[verifier::ext_equal]
pub struct EntryFound {
    pub href: Seq<char>,
    pub is_dir: bool,
    pub size: u64,
}

impl View for PropfindEntry {
    type V = EntryFound;

    open spec fn view(&self) -> EntryFound {
        EntryFound { href: self.href@, is_dir: self.is_dir, size: self.size }
    }
}

/// What a list of entries says.
pub open spec fn found(entries: Seq<PropfindEntry>) -> Seq<EntryFound> {
    Seq::new(entries.len(), |i: int| entries[i]@)
}

/// What the text that comes next is.
#[derive(Debug, Clone, Copy, PartialEq, Eq, Structural)]
pub enum TextTarget {
    Href,
    Size,
}

/// A multistatus document that is being read.
#[derive(Debug)]
pub struct Multistatus {
    /// The responses that are complete and have an href.
    pub entries: Vec<PropfindEntry>,
    /// The response that is open.
    pub current: Option<PropfindEntry>,
    /// What the next text is, if it is wanted.
    pub target: Option<TextTarget>,
}

/// What a [`Multistatus`] says.
#[verifier::ext_equal]
pub struct MultistatusView {
    pub entries: Seq<EntryFound>,
    pub current: Option<EntryFound>,
    pub target: Option<TextTarget>,
}

impl View for Multistatus {
    type V = MultistatusView;

    open spec fn view(&self) -> MultistatusView {
        MultistatusView {
            entries: found(self.entries@),
            current: match self.current {
                Some(entry) => Some(entry@),
                None => None,
            },
            target: self.target,
        }
    }
}

impl MultistatusView {
    /// Nothing has been read yet.
    pub open spec fn start() -> MultistatusView {
        MultistatusView { entries: Seq::empty(), current: None, target: None }
    }

    /// The open response is a collection.
    pub open spec fn collection(self) -> MultistatusView {
        MultistatusView {
            current: match self.current {
                Some(entry) => Some(EntryFound { is_dir: true, ..entry }),
                None => None,
            },
            ..self
        }
    }

    /// The open response is complete. One without an href is dropped.
    pub open spec fn complete(self) -> MultistatusView {
        MultistatusView {
            entries: match self.current {
                Some(entry) => if entry.href.len() > 0 {
                    self.entries.push(entry)
                } else {
                    self.entries
                },
                None => self.entries,
            },
            current: None,
            ..self
        }
    }

    /// The text that comes next is wanted.
    pub open spec fn listens(self) -> bool {
        self.target is Some && self.current is Some
    }

    /// The open response with the text that was wanted.
    pub open spec fn told(self, value: Seq<char>) -> MultistatusView {
        MultistatusView {
            current: match (self.current, self.target) {
                (Some(entry), Some(TextTarget::Href)) => Some(EntryFound { href: value, ..entry }),
                (Some(entry), Some(TextTarget::Size)) => Some(
                    EntryFound {
                        size: match text::parse_decimal(text::trim(value)) {
                            Some(size) => size,
                            None => 0,
                        },
                        ..entry
                    },
                ),
                (current, _) => current,
            },
            target: None,
            ..self
        }
    }

    /// What has been read after one more event; `value` is what the event's text is
    /// without its escapes.
    pub open spec fn after(
        self,
        step: XmlStep,
        value: Result<Seq<char>, Seq<char>>,
    ) -> Result<MultistatusView, Seq<char>> {
        match step {
            XmlStep::Start(name) => Ok(
                if local_part(name) == "response"@ {
                    MultistatusView {
                        current: Some(
                            EntryFound { href: Seq::empty(), is_dir: false, size: 0 },
                        ),
                        ..self
                    }
                } else if local_part(name) == "href"@ {
                    MultistatusView { target: Some(TextTarget::Href), ..self }
                } else if local_part(name) == "getcontentlength"@ {
                    MultistatusView { target: Some(TextTarget::Size), ..self }
                } else if local_part(name) == "collection"@ {
                    self.collection()
                } else {
                    self
                },
            ),
            XmlStep::Empty(name) => Ok(
                if local_part(name) == "collection"@ {
                    self.collection()
                } else {
                    self
                },
            ),
            XmlStep::Text(_) => if self.listens() {
                match value {
                    Ok(value) => Ok(self.told(value)),
                    Err(e) => Err(unreadable(e)),
                }
            } else {
                Ok(MultistatusView { target: None, ..self })
            },
            XmlStep::End(name) => Ok(
                MultistatusView {
                    target: None,
                    ..if local_part(name) == "response"@ {
                        self.complete()
                    } else {
                        self
                    }
                },
            ),
            XmlStep::Other => Ok(self),
            XmlStep::Eof => Ok(self),
            XmlStep::Failed(e) => Err(unreadable(e)),
        }
    }
}

/// The report of a reply that cannot be read.
pub open spec fn unreadable(e: Seq<char>) -> Seq<char> {
    "Couldn't parse the server's reply: "@ + e
}

/// The text of an event without its escapes.
pub open spec fn step_text(step: XmlStep) -> Result<Seq<char>, Seq<char>> {
    match step {
        XmlStep::Text(raw) => unescaped(raw),
        _ => Ok(Seq::empty()),
    }
}

/// The entries of a multistatus document of which `state` has been read and
/// `steps` are yet to come.
pub open spec fn entries_of(state: MultistatusView, steps: Seq<XmlStep>) -> Result<
    Seq<EntryFound>,
    Seq<char>,
>
    decreases steps.len(),
{
    if steps.len() == 0 || steps[0] is Eof {
        Ok(state.entries)
    } else {
        match state.after(steps[0], step_text(steps[0])) {
            Ok(next) => entries_of(next, steps.skip(1)),
            Err(e) => Err(e),
        }
    }
}

fn failure(e: &str) -> (r: String)
    ensures
        r@ == unreadable(e@),
{
    let mut r: String = "Couldn't parse the server's reply: ".to_owned();
    r.append(e);
    r
}

impl Multistatus {
    /// Starts to read a document.
    pub fn new() -> (m: Multistatus)
        ensures
            m@ == MultistatusView::start(),
    {
        let m = Multistatus { entries: Vec::new(), current: None, target: None };
        assert(m@.entries =~= Seq::empty());
        m
    }

    /// Whether the text that comes next is wanted.
    pub fn wants_text(&self) -> (r: bool)
        ensures
            r == self@.listens(),
    {
        self.target.is_some() && self.current.is_some()
    }

    fn mark_collection(&mut self)
        ensures
            final(self)@ == old(self)@.collection(),
    {
        match self.current.take() {
            Some(mut entry) => {
                entry.is_dir = true;
                self.current = Some(entry);
            },
            None => {},
        }
    }

    fn tell(&mut self, value: String)
        requires
            old(self)@.listens(),
        ensures
            final(self)@ == old(self)@.told(value@),
    {
        match self.current.take() {
            Some(mut entry) => {
                match self.target {
                    Some(TextTarget::Href) => {
                        entry.href = value;
                    },
                    Some(TextTarget::Size) => {
                        entry.size =
                        match text::parse_u64(text::trimmed(value.as_str())) {
                            Some(size) => size,
                            None => 0,
                        };
                    },
                    None => {},
                }
                self.current = Some(entry);
            },
            None => {},
        }
        self.target = None;
    }

    fn finish_response(&mut self)
        ensures
            final(self)@ == old(self)@.complete(),
    {
        let ghost was = self@;
        match self.current.take() {
            Some(entry) => {
                if !entry.href.as_str().is_empty() {
                    self.entries.push(entry);
                    assert(self@.entries =~= was.entries.push(entry@));
                }
            },
            None => {},
        }
    }

    /// Reads one event. `value` is the text of a text event without its escapes, or why
    /// it has none; it matters only where the text is wanted.
    pub fn advance(&mut self, event: &XmlEvent, value: Result<String, String>) -> (r: Result<
        (),
        String,
    >)
        ensures
            match r {
                Ok(_) => old(self)@.after(event@, result_view(value)) == Ok::<
                    MultistatusView,
                    Seq<char>,
                >(final(self)@),
                Err(e) => old(self)@.after(event@, result_view(value)) == Err::<
                    MultistatusView,
                    Seq<char>,
                >(e@),
            },
    {
        match event {
            XmlEvent::Start(name) => {
                let name = local_name(name.as_str());
                if text::same(name, "response") {
                    let entry = PropfindEntry { href: String::new(), is_dir: false, size: 0 };
                    assert(entry.href@ =~= Seq::empty());
                    self.current = Some(entry);
                } else if text::same(name, "href") {
                    self.target = Some(TextTarget::Href);
                } else if text::same(name, "getcontentlength") {
                    self.target = Some(TextTarget::Size);
                } else if text::same(name, "collection") {
                    self.mark_collection();
                }
            },
            XmlEvent::Empty(name) => {
                // `<d:collection/>` is usually self-closing.
                let name = local_name(name.as_str());
                if text::same(name, "collection") {
                    self.mark_collection();
                }
            },
            XmlEvent::Text(_) => {
                if self.wants_text() {
                    match value {
                        Ok(value) => self.tell(value),
                        Err(e) => {
                            return Err(failure(e.as_str()));
                        },
                    }
                } else {
                    self.target = None;
                }
            },
            XmlEvent::End(name) => {
                let name = local_name(name.as_str());
                if text::same(name, "response") {
                    self.finish_response();
                }
                self.target = None;
            },
            XmlEvent::Failed(e) => {
                return Err(failure(e.as_str()));
            },
            XmlEvent::Other | XmlEvent::Eof => {},
        }
        Ok(())
    }
}

/// Pull `href`, `resourcetype` and `getcontentlength` out of a multistatus response.
/// A reference such as `&amp;` is an event of its own: what is read of a text ends there.
pub fn parse_propfind(xml: &str) -> (r: Result<Vec<PropfindEntry>, String>)
    ensures
        match r {
            Ok(entries) => entries_of(MultistatusView::start(), xml_events(xml@)) == Ok::<
                Seq<EntryFound>,
                Seq<char>,
            >(found(entries@)),
            Err(e) => entries_of(MultistatusView::start(), xml_events(xml@)) == Err::<
                Seq<EntryFound>,
                Seq<char>,
            >(e@),
        },
{
    let mut reader = open_reader(xml);
    let mut state = Multistatus::new();
    loop
        invariant
            entries_of(state@, pending(reader)) == entries_of(
                MultistatusView::start(),
                xml_events(xml@),
            ),
        decreases pending(reader).len(),
    {
        let ghost steps = pending(reader);
        let event = read_event(&mut reader);
        proof {
            assert(steps[0] == event@);
            if !(event is Eof || event is Failed) {
                assert(steps.skip(1) =~= pending(reader));
            }
        }
        let value = match &event {
            XmlEvent::Eof => {
                return Ok(state.entries);
            },
            XmlEvent::Text(raw) => if state.wants_text() {
                unescape(raw.as_str())
            } else {
                Ok(String::new())
            },
            _ => Ok(String::new()),
        };
        proof {
            if !(event is Text && state@.listens()) {
                assert(state@.after(event@, result_view(value)) == state@.after(
                    event@,
                    step_text(event@),
                ));
            }
        }
        match state.advance(&event, value) {
            Ok(_) => {},
            Err(e) => {
                return Err(e);
            },
        }
    }
}

// =====================================================================
// Laws
// =====================================================================

/// Every entry of a multistatus document has an href.
pub proof fn law_entries_have_href(state: MultistatusView, steps: Seq<XmlStep>)
    requires
        forall|i: int| 0 <= i < state.entries.len() ==> (#[trigger] state.entries[i]).href.len() > 0,
    ensures
        entries_of(state, steps) matches Ok(entries) ==> forall|i: int|
            0 <= i < entries.len() ==> (#[trigger] entries[i]).href.len() > 0,
    decreases steps.len(),
{
    if steps.len() > 0 && !(steps[0] is Eof) {
        let after = state.after(steps[0], step_text(steps[0]));
        if after is Ok {
            law_entries_have_href(after->Ok_0, steps.skip(1));
        }
    }
}

/// Two steps that differ at most in the prefix of an element's name.
pub open spec fn alike(a: XmlStep, b: XmlStep) -> bool {
    match (a, b) {
        (XmlStep::Start(x), XmlStep::Start(y)) => local_part(x) == local_part(y),
        (XmlStep::Empty(x), XmlStep::Empty(y)) => local_part(x) == local_part(y),
        (XmlStep::End(x), XmlStep::End(y)) => local_part(x) == local_part(y),
        _ => a == b,
    }
}

/// Two documents whose events differ at most in the prefixes of the elements' names, be
/// they renamed, added or dropped, give the same entries in the same order, or fail alike.
pub proof fn law_prefixes_do_not_matter(xml: Seq<char>, other: Seq<char>)
    requires
        xml_events(xml).len() == xml_events(other).len(),
        forall|i: int|
            0 <= i < xml_events(xml).len() ==> alike(
                #[trigger] xml_events(xml)[i],
                xml_events(other)[i],
            ),
    ensures
        entries_of(MultistatusView::start(), xml_events(xml)) == entries_of(
            MultistatusView::start(),
            xml_events(other),
        ),
{
    lemma_alike(MultistatusView::start(), xml_events(xml), xml_events(other));
}

proof fn lemma_alike(state: MultistatusView, steps: Seq<XmlStep>, others: Seq<XmlStep>)
    requires
        steps.len() == others.len(),
        forall|i: int| 0 <= i < steps.len() ==> alike(#[trigger] steps[i], others[i]),
    ensures
        entries_of(state, steps) == entries_of(state, others),
    decreases steps.len(),
{
    if steps.len() > 0 {
        assert(alike(steps[0], others[0]));
        if !(steps[0] is Eof) {
            let after = state.after(steps[0], step_text(steps[0]));
            assert(after == state.after(others[0], step_text(others[0])));
            if after is Ok {
                assert forall|i: int| 0 <= i < steps.skip(1).len() implies alike(
                    #[trigger] steps.skip(1)[i],
                    others.skip(1)[i],
                ) by {
                    assert(alike(steps[i + 1], others[i + 1]));
                }
                lemma_alike(after->Ok_0, steps.skip(1), others.skip(1));
            }
        }
    }
}

/// A step inside of a response: not its end and not another one's start, and with no text
/// that cannot be read.
pub open spec fn inside(step: XmlStep) -> bool {
    match step {
        XmlStep::Start(name) => local_part(name) != "response"@,
        XmlStep::End(name) => local_part(name) != "response"@,
        XmlStep::Text(raw) => unescaped(raw) is Ok,
        XmlStep::Eof => false,
        XmlStep::Failed(_) => false,
        _ => true,
    }
}

/// An element with this local name begins among `steps`.
pub open spec fn begins(steps: Seq<XmlStep>, local: Seq<char>) -> bool {
    exists|i: int|
        0 <= i < steps.len() && (#[trigger] steps[i] matches XmlStep::Start(name) && local_part(
            name,
        ) == local)
}

/// An element with this local name that closes itself is among `steps`.
pub open spec fn stands_alone(steps: Seq<XmlStep>, local: Seq<char>) -> bool {
    exists|i: int|
        0 <= i < steps.len() && (#[trigger] steps[i] matches XmlStep::Empty(name) && local_part(
            name,
        ) == local)
}

/// What has been read after `steps`.
spec fn read_steps(state: MultistatusView, steps: Seq<XmlStep>) -> MultistatusView
    decreases steps.len(),
{
    if steps.len() == 0 {
        state
    } else {
        match read_steps(state, steps.drop_last()).after(steps.last(), step_text(steps.last())) {
            Ok(next) => next,
            Err(_) => state,
        }
    }
}

/// A response element comes to one entry, or to none where its href is empty or missing:
/// the entry is a directory exactly where the response holds a collection element, and has
/// size zero where it reports no length.
pub proof fn law_one_entry_per_response(
    state: MultistatusView,
    open: Seq<char>,
    body: Seq<XmlStep>,
    close: Seq<char>,
    rest: Seq<XmlStep>,
) -> (entry: EntryFound)
    requires
        state.target is None,
        local_part(open) == "response"@,
        local_part(close) == "response"@,
        forall|i: int| 0 <= i < body.len() ==> inside(#[trigger] body[i]),
    ensures
        entries_of(
            state,
            seq![XmlStep::Start(open)] + body + seq![XmlStep::End(close)] + rest,
        ) == entries_of(
            MultistatusView {
                entries: if entry.href.len() > 0 {
                    state.entries.push(entry)
                } else {
                    state.entries
                },
                current: None,
                target: None,
            },
            rest,
        ),
        entry.is_dir <==> begins(body, "collection"@) || stands_alone(body, "collection"@),
        !begins(body, "getcontentlength"@) ==> entry.size == 0,
        !begins(body, "href"@) ==> entry.href.len() == 0,
{
    reveal_strlit("response");
    reveal_strlit("href");
    reveal_strlit("collection");
    reveal_strlit("getcontentlength");
    assert("response"@.len() == 8 && "href"@.len() == 4 && "collection"@.len() == 10
        && "getcontentlength"@.len() == 16);
    let fresh = EntryFound { href: Seq::empty(), is_dir: false, size: 0 };
    let s1 = MultistatusView { current: Some(fresh), ..state };
    let steps = seq![XmlStep::Start(open)] + body + seq![XmlStep::End(close)] + rest;
    lemma_step(state, steps, s1);
    let tail = seq![XmlStep::End(close)] + rest;
    assert(steps.skip(1) =~= body + tail);
    lemma_body(s1, body, body.len() as int, tail);
    let s2 = read_steps(s1, body.take(body.len() as int));
    assert(body.take(body.len() as int) =~= body);
    assert((body + tail).skip(body.len() as int) =~= tail);
    let s3 = MultistatusView { target: None, ..s2.complete() };
    lemma_step(s2, tail, s3);
    assert(tail.skip(1) =~= rest);
    s2.current->0
}

/// Reading the first `n` steps inside of a response.
proof fn lemma_body(state: MultistatusView, body: Seq<XmlStep>, n: int, tail: Seq<XmlStep>)
    requires
        state.target is None,
        state.current == Some(EntryFound { href: Seq::empty(), is_dir: false, size: 0 }),
        0 <= n <= body.len(),
        forall|i: int| 0 <= i < body.len() ==> inside(#[trigger] body[i]),
    ensures
        ({
            let done = body.take(n);
            let now = read_steps(state, done);
            &&& entries_of(state, body + tail) == entries_of(now, (body + tail).skip(n))
            &&& now.entries == state.entries
            &&& now.current is Some
            &&& now.current->0.is_dir <==> begins(done, "collection"@) || stands_alone(
                done,
                "collection"@,
            )
            &&& !begins(done, "getcontentlength"@) ==> now.current->0.size == 0 && now.target
                != Some(TextTarget::Size)
            &&& !begins(done, "href"@) ==> now.current->0.href.len() == 0 && now.target != Some(
                TextTarget::Href,
            )
        }),
    decreases n,
{
    reveal_strlit("response");
    reveal_strlit("href");
    reveal_strlit("collection");
    reveal_strlit("getcontentlength");
    assert("response"@.len() == 8 && "href"@.len() == 4 && "collection"@.len() == 10
        && "getcontentlength"@.len() == 16);
    let done = body.take(n);
    if n == 0 {
        assert((body + tail).skip(0) =~= body + tail);
    } else {
        lemma_body(state, body, n - 1, tail);
        let earlier = body.take(n - 1);
        let step = body[n - 1];
        assert(done.drop_last() =~= earlier);
        assert(done.last() == step);
        assert(inside(step));
        let before = read_steps(state, earlier);
        let now = read_steps(state, done);
        let todo = (body + tail).skip(n - 1);
        assert(todo[0] == step);
        assert(before.after(step, step_text(step)) == Ok::<MultistatusView, Seq<char>>(now));
        lemma_step(before, todo, now);
        assert(todo.skip(1) =~= (body + tail).skip(n));
        lemma_one_more(earlier, step, "collection"@);
        lemma_one_more(earlier, step, "getcontentlength"@);
        lemma_one_more(earlier, step, "href"@);
        assert(done =~= earlier.push(step));
    }
}

proof fn lemma_one_more(steps: Seq<XmlStep>, step: XmlStep, local: Seq<char>)
    ensures
        begins(steps.push(step), local) <==> begins(steps, local) || (step matches XmlStep::Start(
            name,
        ) && local_part(name) == local),
        stands_alone(steps.push(step), local) <==> stands_alone(steps, local) || (
        step matches XmlStep::Empty(name) && local_part(name) == local),
{
    let more = steps.push(step);
    assert(more[steps.len() as int] == step);
    assert forall|i: int| 0 <= i < steps.len() implies #[trigger] more[i] == steps[i] by {}
    if begins(steps, local) {
        let i = choose|i: int|
            0 <= i < steps.len() && (#[trigger] steps[i] matches XmlStep::Start(name)
                && local_part(name) == local);
        assert(more[i] == steps[i]);
    }
    if stands_alone(steps, local) {
        let i = choose|i: int|
            0 <= i < steps.len() && (#[trigger] steps[i] matches XmlStep::Empty(name)
                && local_part(name) == local);
        assert(more[i] == steps[i]);
    }
}

/// What a server says of one resource: its href and the text of its length, each with its
/// escapes, and whether it is a collection.
pub struct ReportedResource {
    pub href: Seq<char>,
    pub is_dir: bool,
    pub length: Option<Seq<char>>,
}

impl ReportedResource {
    /// Its texts can be read, and it has an href.
    pub open spec fn readable(self) -> bool {
        &&& unescaped(self.href) matches Ok(href) && href.len() > 0
        &&& self.length matches Some(raw) ==> unescaped(raw) is Ok
    }

    /// The entry it comes to. A length that is missing or no number counts as zero.
    pub open spec fn entry(self) -> EntryFound {
        EntryFound {
            href: unescaped(self.href)->Ok_0,
            is_dir: self.is_dir,
            size: match self.length {
                Some(raw) => match text::parse_decimal(text::trim(unescaped(raw)->Ok_0)) {
                    Some(size) => size,
                    None => 0,
                },
                None => 0,
            },
        }
    }

    /// The events of its response, with `prefix` in front of the elements' names.
    pub open spec fn steps(self, prefix: Seq<char>) -> Seq<XmlStep> {
        seq![
            XmlStep::Start(prefix + "response"@),
            XmlStep::Start(prefix + "href"@),
            XmlStep::Text(self.href),
            XmlStep::End(prefix + "href"@),
        ] + (if self.is_dir {
            seq![XmlStep::Empty(prefix + "collection"@)]
        } else {
            Seq::empty()
        }) + (match self.length {
            Some(raw) => seq![
                XmlStep::Start(prefix + "getcontentlength"@),
                XmlStep::Text(raw),
                XmlStep::End(prefix + "getcontentlength"@),
            ],
            None => Seq::empty(),
        }) + seq![XmlStep::End(prefix + "response"@)]
    }
}

/// A namespace prefix with its colon, or no prefix at all.
pub open spec fn is_prefix(prefix: Seq<char>) -> bool {
    prefix.len() == 0 || (prefix.last() == ':' && !prefix.drop_last().contains(':'))
}

/// The events of a whole reply.
pub open spec fn reply_steps(prefix: Seq<char>, resources: Seq<ReportedResource>) -> Seq<XmlStep>
    decreases resources.len(),
{
    if resources.len() == 0 {
        seq![XmlStep::End(prefix + "multistatus"@), XmlStep::Eof]
    } else {
        resources[0].steps(prefix) + reply_steps(prefix, resources.skip(1))
    }
}

/// A whole reply reads back as what it was written from: one entry for each resource, in
/// the same order, whatever prefix its elements have.
pub proof fn law_reply_is_read(prefix: Seq<char>, resources: Seq<ReportedResource>)
    requires
        is_prefix(prefix),
        forall|i: int| 0 <= i < resources.len() ==> (#[trigger] resources[i]).readable(),
    ensures
        entries_of(
            MultistatusView::start(),
            seq![XmlStep::Start(prefix + "multistatus"@)] + reply_steps(prefix, resources),
        ) == Ok::<Seq<EntryFound>, Seq<char>>(
            Seq::new(resources.len(), |i: int| resources[i].entry()),
        ),
{
    lemma_names(prefix);
    let state = MultistatusView::start();
    let steps = seq![XmlStep::Start(prefix + "multistatus"@)] + reply_steps(prefix, resources);
    lemma_step(state, steps, state);
    assert(steps.skip(1) =~= reply_steps(prefix, resources));
    lemma_reply(state, prefix, resources);
    assert(Seq::<EntryFound>::empty() + Seq::new(resources.len(), |i: int| resources[i].entry())
        =~= Seq::new(resources.len(), |i: int| resources[i].entry()));
}

proof fn lemma_reply(
    state: MultistatusView,
    prefix: Seq<char>,
    resources: Seq<ReportedResource>,
)
    requires
        state.current is None,
        state.target is None,
        is_prefix(prefix),
        forall|i: int| 0 <= i < resources.len() ==> (#[trigger] resources[i]).readable(),
    ensures
        entries_of(state, reply_steps(prefix, resources)) == Ok::<Seq<EntryFound>, Seq<char>>(
            state.entries + Seq::new(resources.len(), |i: int| resources[i].entry()),
        ),
    decreases resources.len(),
{
    let all = Seq::new(resources.len(), |i: int| resources[i].entry());
    if resources.len() == 0 {
        lemma_names(prefix);
        let steps = reply_steps(prefix, resources);
        lemma_step(state, steps, state);
        assert(steps.skip(1)[0] is Eof);
        assert(state.entries + all =~= state.entries);
    } else {
        let rest = resources.skip(1);
        assert(resources[0].readable());
        law_response_is_read(state, prefix, resources[0], reply_steps(prefix, rest));
        let next = MultistatusView {
            entries: state.entries.push(resources[0].entry()),
            ..state
        };
        assert forall|i: int| 0 <= i < rest.len() implies (#[trigger] rest[i]).readable() by {
            assert(resources[i + 1].readable());
        }
        lemma_reply(next, prefix, rest);
        assert(next.entries + Seq::new(rest.len(), |i: int| rest[i].entry()) =~= state.entries
            + all);
    }
}

/// A response reads back as the entry it was written from, whatever follows it.
pub proof fn law_response_is_read(
    state: MultistatusView,
    prefix: Seq<char>,
    resource: ReportedResource,
    rest: Seq<XmlStep>,
)
    requires
        state.current is None,
        state.target is None,
        is_prefix(prefix),
        resource.readable(),
    ensures
        entries_of(state, resource.steps(prefix) + rest) == entries_of(
            MultistatusView { entries: state.entries.push(resource.entry()), ..state },
            rest,
        ),
{
    lemma_names(prefix);
    let href = unescaped(resource.href)->Ok_0;
    let steps = resource.steps(prefix) + rest;
    let fresh = EntryFound { href: Seq::empty(), is_dir: false, size: 0 };
    let s1 = MultistatusView { current: Some(fresh), ..state };
    let s2 = MultistatusView { target: Some(TextTarget::Href), ..s1 };
    let s3 = s2.told(href);
    lemma_step(state, steps, s1);
    lemma_step(s1, steps.skip(1), s2);
    lemma_step(s2, steps.skip(1).skip(1), s3);
    let t3 = steps.skip(1).skip(1).skip(1);
    lemma_step(s3, t3, s3);
    let t4 = t3.skip(1);
    let s4 = if resource.is_dir {
        s3.collection()
    } else {
        s3
    };
    let t5 = if resource.is_dir {
        lemma_step(s3, t4, s4);
        t4.skip(1)
    } else {
        t4
    };
    let (s5, t6) = match resource.length {
        Some(raw) => {
            let listening = MultistatusView { target: Some(TextTarget::Size), ..s4 };
            let told = listening.told(unescaped(raw)->Ok_0);
            lemma_step(s4, t5, listening);
            lemma_step(listening, t5.skip(1), told);
            lemma_step(told, t5.skip(1).skip(1), told);
            (told, t5.skip(1).skip(1).skip(1))
        },
        None => (s4, t5),
    };
    lemma_step(s5, t6, s5.complete());
    assert(t6.skip(1) =~= rest);
}

/// The local parts of the names that matter, whatever their prefix.
proof fn lemma_names(prefix: Seq<char>)
    requires
        is_prefix(prefix),
    ensures
        local_part(prefix + "response"@) == "response"@,
        local_part(prefix + "href"@) == "href"@,
        local_part(prefix + "collection"@) == "collection"@,
        local_part(prefix + "getcontentlength"@) == "getcontentlength"@,
        local_part(prefix + "multistatus"@) == "multistatus"@,
        "response"@.len() == 8,
        "href"@.len() == 4,
        "collection"@.len() == 10,
        "getcontentlength"@.len() == 16,
        "multistatus"@.len() == 11,
{
    reveal_strlit("response");
    reveal_strlit("href");
    reveal_strlit("collection");
    reveal_strlit("getcontentlength");
    reveal_strlit("multistatus");
    lemma_local_part(prefix, "response"@);
    lemma_local_part(prefix, "href"@);
    lemma_local_part(prefix, "collection"@);
    lemma_local_part(prefix, "getcontentlength"@);
    lemma_local_part(prefix, "multistatus"@);
}

proof fn lemma_local_part(prefix: Seq<char>, local: Seq<char>)
    requires
        is_prefix(prefix),
        forall|i: int| 0 <= i < local.len() ==> #[trigger] local[i] != ':',
    ensures
        local_part(prefix + local) == local,
{
    let name = prefix + local;
    if prefix.len() == 0 {
        assert(name =~= local);
        assert forall|j: int| 0 <= j implies !text::occurs_at(name, seq![':'], j) by {
            text::lemma_occurs_char(name, ':', j);
        }
        text::lemma_find_from_none(name, seq![':'], 0);
    } else {
        let i = prefix.len() - 1;
        text::lemma_occurs_char(name, ':', i);
        assert forall|j: int| 0 <= j < i implies !text::occurs_at(name, seq![':'], j) by {
            text::lemma_occurs_char(name, ':', j);
            assert(prefix.drop_last()[j] == name[j]);
        }
        text::lemma_find_from_is(name, seq![':'], 0, i);
        assert(name.skip(i + 1) =~= local);
    }
}

proof fn lemma_step(state: MultistatusView, steps: Seq<XmlStep>, next: MultistatusView)
    requires
        steps.len() > 0,
        !(steps[0] is Eof),
        state.after(steps[0], step_text(steps[0])) == Ok::<MultistatusView, Seq<char>>(next),
    ensures
        entries_of(state, steps) == entries_of(next, steps.skip(1)),
{
}

/// The local part of a name is what stands behind the first colon; a name without one is its own.
pub proof fn law_local_part(prefix: Seq<char>, local: Seq<char>)
    requires
        !prefix.contains(':'),
    ensures
        local_part(prefix + seq![':'] + local) == local,
        local_part(prefix) == prefix,
{
    text::law_split_once_char(prefix, ':', local);
    assert forall|j: int| 0 <= j implies !text::occurs_at(prefix, seq![':'], j) by {
        text::lemma_occurs_char(prefix, ':', j);
        if j < prefix.len() {
            assert(prefix.contains(prefix[j]));
        }
    }
    text::lemma_find_from_none(prefix, seq![':'], 0);
}

/// A reply that is malformed somewhere, or holds a text that is wanted and cannot be read, is
/// reported as a whole: nothing of what came before is listed.
pub proof fn law_broken_reply_is_reported(
    state: MultistatusView,
    e: Seq<char>,
    raw: Seq<char>,
    rest: Seq<XmlStep>,
)
    ensures
        entries_of(state, seq![XmlStep::Failed(e)] + rest) == Err::<Seq<EntryFound>, Seq<char>>(
            "Couldn't parse the server's reply: "@ + e,
        ),
        state.target is Some && state.current is Some && unescaped(raw) is Err ==> entries_of(
            state,
            seq![XmlStep::Text(raw)] + rest,
        ) == Err::<Seq<EntryFound>, Seq<char>>(
            "Couldn't parse the server's reply: "@ + unescaped(raw)->Err_0,
        ),
{
    assert((seq![XmlStep::Failed(e)] + rest)[0] == XmlStep::Failed(e));
    assert((seq![XmlStep::Text(raw)] + rest)[0] == XmlStep::Text(raw));
}

/// The end of the document ends the reading: only responses that are complete by then are
/// listed, whatever might follow.
pub proof fn law_reading_ends_with_the_document(state: MultistatusView, rest: Seq<XmlStep>)
    ensures
        entries_of(state, seq![XmlStep::Eof] + rest) == Ok::<Seq<EntryFound>, Seq<char>>(
            state.entries,
        ),
{
    assert((seq![XmlStep::Eof] + rest)[0] == XmlStep::Eof);
}

/// Of the text of an element only what comes first is taken: once a text was, another one and
/// anything that is neither text nor a tag change nothing.
pub proof fn law_text_is_taken_once(
    state: MultistatusView,
    raw: Seq<char>,
    more: Seq<char>,
    rest: Seq<XmlStep>,
)
    requires
        unescaped(raw) is Ok,
    ensures
        entries_of(
            state,
            seq![XmlStep::Text(raw), XmlStep::Other, XmlStep::Text(more)] + rest,
        ) == entries_of(state, seq![XmlStep::Text(raw)] + rest),
{
    let long = seq![XmlStep::Text(raw), XmlStep::Other, XmlStep::Text(more)] + rest;
    let short = seq![XmlStep::Text(raw)] + rest;
    let next = state.after(XmlStep::Text(raw), unescaped(raw))->Ok_0;
    lemma_step(state, long, next);
    lemma_step(state, short, next);
    lemma_step(next, long.skip(1), next);
    lemma_step(next, long.skip(1).skip(1), next);
    assert(short.skip(1) =~= rest);
    assert(long.skip(1).skip(1).skip(1) =~= rest);
}

/// Elements that say nothing of what is listed change nothing, wherever they stand.
pub proof fn law_other_elements_do_not_matter(
    state: MultistatusView,
    name: Seq<char>,
    rest: Seq<XmlStep>,
)
    requires
        local_part(name) != "response"@,
        local_part(name) != "href"@,
        local_part(name) != "getcontentlength"@,
        local_part(name) != "collection"@,
    ensures
        entries_of(state, seq![XmlStep::Start(name)] + rest) == entries_of(state, rest),
        entries_of(state, seq![XmlStep::Empty(name)] + rest) == entries_of(state, rest),
        entries_of(state, seq![XmlStep::Other] + rest) == entries_of(state, rest),
        state.target is None ==> entries_of(state, seq![XmlStep::End(name)] + rest) == entries_of(
            state,
            rest,
        ),
{
    let a = seq![XmlStep::Start(name)] + rest;
    let b = seq![XmlStep::Empty(name)] + rest;
    let c = seq![XmlStep::Other] + rest;
    let d = seq![XmlStep::End(name)] + rest;
    lemma_step(state, a, state);
    lemma_step(state, b, state);
    lemma_step(state, c, state);
    assert(a.skip(1) =~= rest);
    assert(b.skip(1) =~= rest);
    assert(c.skip(1) =~= rest);
    if state.target is None {
        lemma_step(state, d, state);
        assert(d.skip(1) =~= rest);
    }
}

/// An entry says what its fields hold, and a list of them says so one by one.
pub proof fn law_entries_say_what_they_hold(entries: Seq<PropfindEntry>, i: int)
    requires
        0 <= i < entries.len(),
    ensures
        found(entries).len() == entries.len(),
        found(entries)[i].href == entries[i].href@,
        found(entries)[i].is_dir == entries[i].is_dir,
        found(entries)[i].size == entries[i].size,
{
}

/// Inside of a response, an href element gives the response its href and a length element its
/// size, whatever came before, and each leaves everything else as it is. The prefixes of the
/// names may differ, and a size may have white space around it.
pub proof fn law_elements_are_read(
    state: MultistatusView,
    entry: EntryFound,
    open: Seq<char>,
    raw: Seq<char>,
    close: Seq<char>,
    rest: Seq<XmlStep>,
)
    requires
        state.current == Some(entry),
        state.target is None,
        local_part(close) == local_part(open),
        unescaped(raw) is Ok,
    ensures
        ({
            let steps = seq![XmlStep::Start(open), XmlStep::Text(raw), XmlStep::End(close)] + rest;
            let value = unescaped(raw)->Ok_0;
            &&& local_part(open) == "href"@ ==> entries_of(state, steps) == entries_of(
                MultistatusView {
                    current: Some(
                        EntryFound { href: value, is_dir: entry.is_dir, size: entry.size },
                    ),
                    ..state
                },
                rest,
            )
            &&& local_part(open) == "getcontentlength"@ ==> (text::parse_decimal(
                text::trim(value),
            ) matches Some(n) ==> entries_of(state, steps) == entries_of(
                MultistatusView {
                    current: Some(
                        EntryFound { href: entry.href, is_dir: entry.is_dir, size: n },
                    ),
                    ..state
                },
                rest,
            ))
            &&& local_part(open) == "getcontentlength"@ && text::parse_decimal(
                text::trim(value),
            ) is None ==> entries_of(state, steps) == entries_of(
                MultistatusView {
                    current: Some(
                        EntryFound { href: entry.href, is_dir: entry.is_dir, size: 0 },
                    ),
                    ..state
                },
                rest,
            )
        }),
{
    lemma_names(Seq::empty());
    let steps = seq![XmlStep::Start(open), XmlStep::Text(raw), XmlStep::End(close)] + rest;
    let value = unescaped(raw)->Ok_0;
    if local_part(open) == "href"@ || local_part(open) == "getcontentlength"@ {
        let listening = MultistatusView {
            target: Some(
                if local_part(open) == "href"@ {
                    TextTarget::Href
                } else {
                    TextTarget::Size
                },
            ),
            ..state
        };
        let told = listening.told(value);
        lemma_step(state, steps, listening);
        lemma_step(listening, steps.skip(1), told);
        lemma_step(told, steps.skip(1).skip(1), told);
        assert(steps.skip(1).skip(1).skip(1) =~= rest);
    }
}

/// Inside of a response, a collection element makes it a directory and leaves everything else as
/// it is, whether it closes itself or not.
pub proof fn law_collection_is_a_directory(
    state: MultistatusView,
    entry: EntryFound,
    name: Seq<char>,
    rest: Seq<XmlStep>,
)
    requires
        state.current == Some(entry),
        local_part(name) == "collection"@,
    ensures
        ({
            let next = MultistatusView {
                current: Some(EntryFound { href: entry.href, is_dir: true, size: entry.size }),
                ..state
            };
            &&& entries_of(state, seq![XmlStep::Empty(name)] + rest) == entries_of(next, rest)
            &&& entries_of(state, seq![XmlStep::Start(name)] + rest) == entries_of(next, rest)
        }),
{
    lemma_names(Seq::empty());
    let next = state.collection();
    let a = seq![XmlStep::Empty(name)] + rest;
    let b = seq![XmlStep::Start(name)] + rest;
    lemma_step(state, a, next);
    lemma_step(state, b, next);
    assert(a.skip(1) =~= rest);
    assert(b.skip(1) =~= rest);
}

/// A response starts with nothing known of it and ends as an entry, unless it has no href; the end
/// of a response that has not started makes no entry.
pub proof fn law_responses_start_and_end(
    state: MultistatusView,
    name: Seq<char>,
    rest: Seq<XmlStep>,
)
    requires
        local_part(name) == "response"@,
    ensures
        entries_of(state, seq![XmlStep::Start(name)] + rest) == entries_of(
            MultistatusView {
                current: Some(EntryFound { href: Seq::empty(), is_dir: false, size: 0 }),
                ..state
            },
            rest,
        ),
        entries_of(state, seq![XmlStep::End(name)] + rest) == entries_of(
            MultistatusView {
                entries: match state.current {
                    Some(entry) => if entry.href.len() > 0 {
                        state.entries + seq![entry]
                    } else {
                        state.entries
                    },
                    None => state.entries,
                },
                current: None,
                target: None,
            },
            rest,
        ),
{
    lemma_names(Seq::empty());
    let a = seq![XmlStep::Start(name)] + rest;
    let b = seq![XmlStep::End(name)] + rest;
    let fresh = EntryFound { href: Seq::empty(), is_dir: false, size: 0 };
    lemma_step(state, a, MultistatusView { current: Some(fresh), ..state });
    let done = MultistatusView { target: None, ..state.complete() };
    lemma_step(state, b, done);
    assert(a.skip(1) =~= rest);
    assert(b.skip(1) =~= rest);
    if let Some(entry) = state.current {
        assert(state.entries.push(entry) =~= state.entries + seq![entry]);
    }
}

/// Outside of a response there is nothing to be told: collections and texts change nothing.
pub proof fn law_nothing_is_read_outside(
    state: MultistatusView,
    name: Seq<char>,
    raw: Seq<char>,
    rest: Seq<XmlStep>,
)
    requires
        state.current is None,
        state.target is None,
        local_part(name) == "collection"@,
    ensures
        entries_of(state, seq![XmlStep::Empty(name)] + rest) == entries_of(state, rest),
        entries_of(state, seq![XmlStep::Text(raw)] + rest) == entries_of(state, rest),
{
    let a = seq![XmlStep::Empty(name)] + rest;
    let b = seq![XmlStep::Text(raw)] + rest;
    lemma_step(state, a, state);
    lemma_step(state, b, state);
    assert(a.skip(1) =~= rest);
    assert(b.skip(1) =~= rest);
}

/// Results and events say what they hold.
pub proof fn law_events_say_what_they_hold(s: String)
    ensures
        result_view(Ok(s)) == Ok::<Seq<char>, Seq<char>>(s@),
        result_view(Err(s)) == Err::<Seq<char>, Seq<char>>(s@),
        XmlEvent::Start(s)@ == XmlStep::Start(s@),
        XmlEvent::Empty(s)@ == XmlStep::Empty(s@),
        XmlEvent::End(s)@ == XmlStep::End(s@),
        XmlEvent::Text(s)@ == XmlStep::Text(s@),
        XmlEvent::Failed(s)@ == XmlStep::Failed(s@),
        XmlEvent::Other@ == XmlStep::Other,
        XmlEvent::Eof@ == XmlStep::Eof,
{
}

} // verus!
