//! The element tree of a scene file.

use crate::text::copied;
use quick_xml::events::{BytesStart, Event};
use quick_xml::reader::Reader;
use vstd::prelude::*;

verus! {

/// `quick_xml::reader::Reader`, held as it is.
#[verifier::external_type_specification]
#[verifier::external_body]
#[verifier::reject_recursive_types(R)]
pub struct ExReader<R>(Reader<R>);

/// An attribute: its name and its value.
pub struct XmlAttr {
    pub key: String,
    pub value: String,
}

/// A tag: its name and its attributes, each of which may be malformed.
pub struct XmlTag {
    pub name: String,
    pub attrs: Vec<Result<XmlAttr, String>>,
}

/// What is read from a document next.
pub enum XmlEvent {
    Start(XmlTag),
    Empty(XmlTag),
    End,
    /// Text, comments and the like.
    Other,
    /// The document is malformed.
    Failed(String),
    Eof,
}

/// An attribute, or what is wrong with it.
pub enum AttrModel {
    Good(Seq<char>, Seq<char>),
    Bad(Seq<char>),
}

pub struct TagModel {
    pub name: Seq<char>,
    pub attrs: Seq<AttrModel>,
}

/// A piece of a document.
pub enum EventModel {
    Start(TagModel),
    Empty(TagModel),
    End,
    Other,
    Failed(Seq<char>),
    Eof,
}

pub open spec fn attr_model(a: Result<XmlAttr, String>) -> AttrModel {
    match a {
        Ok(x) => AttrModel::Good(x.key@, x.value@),
        Err(e) => AttrModel::Bad(e@),
    }
}

impl View for XmlTag {
    type V = TagModel;

    open spec fn view(&self) -> TagModel {
        TagModel {
            name: self.name@,
            attrs: self.attrs@.map_values(|a: Result<XmlAttr, String>| attr_model(a)),
        }
    }
}

impl View for XmlEvent {
    type V = EventModel;

    open spec fn view(&self) -> EventModel {
        match self {
            XmlEvent::Start(t) => EventModel::Start(t@),
            XmlEvent::Empty(t) => EventModel::Empty(t@),
            XmlEvent::End => EventModel::End,
            XmlEvent::Other => EventModel::Other,
            XmlEvent::Failed(e) => EventModel::Failed(e@),
            XmlEvent::Eof => EventModel::Eof,
        }
    }
}

/// A piece of a document as it is cut: of a tag, its name and the text behind the name.
pub enum RawEvent {
    Start(String, String),
    Empty(String, String),
    End,
    Other,
    Failed(String),
    Eof,
}

/// A piece of a document as it is cut.
pub enum RawModel {
    Start(Seq<char>, Seq<char>),
    Empty(Seq<char>, Seq<char>),
    End,
    Other,
    Failed(Seq<char>),
    Eof,
}

impl View for RawEvent {
    type V = RawModel;

    open spec fn view(&self) -> RawModel {
        match self {
            RawEvent::Start(n, t) => RawModel::Start(n@, t@),
            RawEvent::Empty(n, t) => RawModel::Empty(n@, t@),
            RawEvent::End => RawModel::End,
            RawEvent::Other => RawModel::Other,
            RawEvent::Failed(e) => RawModel::Failed(e@),
            RawEvent::Eof => RawModel::Eof,
        }
    }
}

/// The pieces of a document, in order, as `quick_xml` cuts it with white space around text
/// dropped: up to the end of the document, which is not among them, or up to and with the first
/// failure.
pub uninterp spec fn xml_events(xml: Seq<char>) -> Seq<RawModel>;

/// The pieces that a reader has not handed out yet.
pub uninterp spec fn pending_events(r: Reader<&[u8]>) -> Seq<RawModel>;

/// The attributes of a tag, from its name and the text behind the name, as `quick_xml` reads them.
pub uninterp spec fn xml_attributes(name: Seq<char>, text: Seq<char>) -> Seq<AttrModel>;

/// `Reader::from_str`, with `Config::trim_text` set: a reader that has every piece of the document
/// still to hand out.
#[verifier::external_body]
fn open_document(xml: &str) -> (r: Reader<&[u8]>)
    ensures
        pending_events(r) == xml_events(xml@),
{
    let mut reader = Reader::from_str(xml);
    reader.config_mut().trim_text(true);
    reader
}

/// `Reader::read_event`: hands out the next piece of the document, or that it has ended, as often
/// as it is asked. A failure is the last piece: what a reader does behind one is not stated. Text
/// is taken as UTF-8, which the document is.
#[verifier::external_body]
fn read_event(reader: &mut Reader<&[u8]>) -> (r: RawEvent)
    ensures
        pending_events(*old(reader)).len() == 0 ==> r is Eof && pending_events(*final(reader)).len()
            == 0,
        pending_events(*old(reader)).len() > 0 ==> r@ == pending_events(*old(reader))[0] && !(
        r is Eof),
        pending_events(*old(reader)).len() > 0 && r is Failed ==> pending_events(
            *old(reader),
        ).len() == 1,
        pending_events(*old(reader)).len() > 0 && !(r is Failed) ==> pending_events(*final(reader))
            == pending_events(*old(reader)).skip(1),
{
    let text = |b: &[u8]| String::from_utf8_lossy(b).into_owned();
    match reader.read_event() {
        Ok(Event::Start(e)) => RawEvent::Start(text(e.name().0), text(e.attributes_raw())),
        Ok(Event::Empty(e)) => RawEvent::Empty(text(e.name().0), text(e.attributes_raw())),
        Ok(Event::End(_)) => RawEvent::End,
        Ok(Event::Eof) => RawEvent::Eof,
        Ok(_) => RawEvent::Other,
        Err(e) => RawEvent::Failed(e.to_string()),
    }
}

/// `BytesStart::attributes` on the tag of this name with this text behind it: its attributes in
/// order, each with its value as `Attribute::unescape_value` gives it, or what is wrong with it.
#[verifier::external_body]
fn read_attributes(name: &str, text: &str) -> (r: Vec<Result<XmlAttr, String>>)
    ensures
        r@.map_values(|a: Result<XmlAttr, String>| attr_model(a)) == xml_attributes(name@, text@),
{
    BytesStart::from_content(format!("{}{}", name, text), name.len()).attributes().map(|a| {
        let a = a.map_err(|x| x.to_string())?;
        let value = a.unescape_value().map_err(|x| x.to_string())?.into_owned();
        Ok(XmlAttr { key: String::from_utf8_lossy(a.key.0).into_owned(), value })
    }).collect()
}

/// A piece of a document, with the attributes of a tag told apart.
pub open spec fn read_piece(e: RawModel) -> EventModel {
    match e {
        RawModel::Start(n, t) => EventModel::Start(
            TagModel { name: n, attrs: xml_attributes(n, t) },
        ),
        RawModel::Empty(n, t) => EventModel::Empty(
            TagModel { name: n, attrs: xml_attributes(n, t) },
        ),
        RawModel::End => EventModel::End,
        RawModel::Other => EventModel::Other,
        RawModel::Failed(x) => EventModel::Failed(x),
        RawModel::Eof => EventModel::Eof,
    }
}

/// The pieces of a document with their attributes.
pub open spec fn document(xml: Seq<char>) -> Seq<EventModel> {
    xml_events(xml).map_values(|e: RawModel| read_piece(e))
}

/// Reads the attributes of a piece that is a tag.
fn with_attributes(e: RawEvent) -> (r: XmlEvent)
    ensures
        r@ == read_piece(e@),
{
    match e {
        RawEvent::Start(name, text) => {
            let attrs = read_attributes(name.as_str(), text.as_str());
            XmlEvent::Start(XmlTag { name, attrs })
        },
        RawEvent::Empty(name, text) => {
            let attrs = read_attributes(name.as_str(), text.as_str());
            XmlEvent::Empty(XmlTag { name, attrs })
        },
        RawEvent::End => XmlEvent::End,
        RawEvent::Other => XmlEvent::Other,
        RawEvent::Failed(x) => XmlEvent::Failed(x),
        RawEvent::Eof => XmlEvent::Eof,
    }
}

/// An element: its tag, its attributes and its children.
pub struct Node {
    pub tag: Seq<char>,
    pub attrs: Seq<(Seq<char>, Seq<char>)>,
    pub children: Seq<Node>,
}

/// What can be wrong with a scene file.
pub enum SceneError {
    /// It is not well-formed: what the reader says.
    Malformed(String),
    /// An end without a start.
    Unbalanced,
    /// No element at all.
    Empty,
    /// The outermost element is not a scene.
    NotAScene,
}

pub enum ErrorModel {
    Malformed(Seq<char>),
    Unbalanced,
    Empty,
    NotAScene,
}

impl View for SceneError {
    type V = ErrorModel;

    open spec fn view(&self) -> ErrorModel {
        match self {
            SceneError::Malformed(e) => ErrorModel::Malformed(e@),
            SceneError::Unbalanced => ErrorModel::Unbalanced,
            SceneError::Empty => ErrorModel::Empty,
            SceneError::NotAScene => ErrorModel::NotAScene,
        }
    }
}

/// The attributes of a tag, if none of them is malformed; else what is wrong with the first that
/// is.
pub open spec fn good_attrs(a: Seq<AttrModel>) -> Result<Seq<(Seq<char>, Seq<char>)>, Seq<char>>
    decreases a.len(),
{
    if a.len() == 0 {
        Ok(Seq::empty())
    } else {
        match good_attrs(a.drop_last()) {
            Err(e) => Err(e),
            Ok(before) => match a.last() {
                AttrModel::Good(k, v) => Ok(before.push((k, v))),
                AttrModel::Bad(e) => Err(e),
            },
        }
    }
}

/// The element that a tag opens.
pub open spec fn element_of(t: TagModel) -> Result<Node, Seq<char>> {
    match good_attrs(t.attrs) {
        Err(e) => Err(e),
        Ok(attrs) => Ok(Node { tag: t.name, attrs, children: Seq::empty() }),
    }
}

/// A tree while it is being built: the elements that are open, outermost first, and the last one
/// that stands outside all others.
pub struct Growing {
    pub open: Seq<Node>,
    pub root: Option<Node>,
}

/// A finished element becomes the last child of the innermost open one, or the root.
pub open spec fn attached(g: Growing, el: Node) -> Growing {
    if g.open.len() > 0 {
        let p = g.open.last();
        Growing {
            open: g.open.drop_last().push(Node { children: p.children.push(el), ..p }),
            root: g.root,
        }
    } else {
        Growing { open: g.open, root: Some(el) }
    }
}

/// The tree after one more piece of the document.
pub open spec fn grown(g: Growing, e: EventModel) -> Result<Growing, ErrorModel> {
    match e {
        EventModel::Start(t) => match element_of(t) {
            Err(x) => Err(ErrorModel::Malformed(x)),
            Ok(el) => Ok(Growing { open: g.open.push(el), root: g.root }),
        },
        EventModel::Empty(t) => match element_of(t) {
            Err(x) => Err(ErrorModel::Malformed(x)),
            Ok(el) => Ok(attached(g, el)),
        },
        EventModel::End => if g.open.len() == 0 {
            Err(ErrorModel::Unbalanced)
        } else {
            Ok(attached(Growing { open: g.open.drop_last(), root: g.root }, g.open.last()))
        },
        EventModel::Other => Ok(g),
        EventModel::Failed(x) => Err(ErrorModel::Malformed(x)),
        EventModel::Eof => Ok(g),
    }
}

/// The tree after these pieces, or the first error.
pub open spec fn growing(events: Seq<EventModel>) -> Result<Growing, ErrorModel>
    decreases events.len(),
{
    if events.len() == 0 {
        Ok(Growing { open: Seq::empty(), root: None })
    } else {
        match growing(events.drop_last()) {
            Err(e) => Err(e),
            Ok(g) => grown(g, events.last()),
        }
    }
}

/// The root of the tree of a document.
pub open spec fn tree(events: Seq<EventModel>) -> Result<Node, ErrorModel> {
    match growing(events) {
        Err(e) => Err(e),
        Ok(g) => match g.root {
            Some(r) => Ok(r),
            None => Err(ErrorModel::Empty),
        },
    }
}

/// An element of a scene file.
pub struct Element {
    pub tag: String,
    pub attrs: Vec<(String, String)>,
    pub children: Vec<Element>,
}

impl Element {
    /// The element as a value.
    pub open spec fn node(&self) -> Node
        decreases self,
    {
        Node {
            tag: self.tag@,
            attrs: self.attrs@.map_values(|a: (String, String)| (a.0@, a.1@)),
            children: Seq::new(
                self.children@.len(),
                |i: int|
                    if 0 <= i < self.children@.len() {
                        self.children@[i].node()
                    } else {
                        arbitrary()
                    },
            ),
        }
    }
}

/// The elements as values.
pub open spec fn nodes(v: Seq<Element>) -> Seq<Node> {
    v.map_values(|e: Element| e.node())
}

pub proof fn lemma_node_children(el: &Element)
    ensures
        el.node().children == nodes(el.children@),
{
    assert(el.node().children =~= nodes(el.children@));
}

/// Makes an element of a tag.
pub fn make_element(t: &XmlTag) -> (r: Result<Element, SceneError>)
    ensures
        match element_of(t@) {
            Ok(n) => r matches Ok(e) && e.node() == n,
            Err(x) => r matches Err(e) && e@ == ErrorModel::Malformed(x),
        },
{
    let ghost all = t@.attrs;
    let ghost views = |a: (String, String)| (a.0@, a.1@);
    let mut attrs: Vec<(String, String)> = Vec::new();
    let mut i: usize = 0;
    assert(all.take(0) =~= Seq::<AttrModel>::empty());
    assert(attrs@.map_values(views) =~= Seq::empty());
    while i < t.attrs.len()
        invariant
            i <= t.attrs@.len(),
            all == t@.attrs,
            views == |a: (String, String)| (a.0@, a.1@),
            good_attrs(all.take(i as int)) == Ok::<Seq<(Seq<char>, Seq<char>)>, Seq<char>>(
                attrs@.map_values(views),
            ),
        decreases t.attrs@.len() - i,
    {
        proof {
            assert(all.take(i + 1).drop_last() =~= all.take(i as int));
            assert(all[i as int] == attr_model(t.attrs@[i as int]));
        }
        match &t.attrs[i] {
            Ok(a) => {
                let ghost before = attrs@;
                attrs.push((copied(a.key.as_str()), copied(a.value.as_str())));
                assert(attrs@.map_values(views) =~= before.map_values(views).push(
                    (a.key@, a.value@),
                ));
            },
            Err(e) => {
                proof {
                    lemma_bad_attr(all, i as int);
                }
                return Err(SceneError::Malformed(copied(e.as_str())));
            },
        }
        i += 1;
    }
    assert(all.take(i as int) =~= all);
    let e = Element { tag: copied(t.name.as_str()), attrs, children: Vec::new() };
    assert(e.node().children =~= Seq::<Node>::empty());
    Ok(e)
}

proof fn lemma_bad_attr(a: Seq<AttrModel>, i: int)
    requires
        0 <= i < a.len(),
        good_attrs(a.take(i)) is Ok,
        a[i] is Bad,
    ensures
        good_attrs(a) == Err::<Seq<(Seq<char>, Seq<char>)>, Seq<char>>(a[i]->Bad_0),
    decreases a.len(),
{
    if i == a.len() - 1 {
        assert(a.drop_last() =~= a.take(i));
    } else {
        assert(a.drop_last().take(i) =~= a.take(i));
        lemma_bad_attr(a.drop_last(), i);
    }
}

/// The value of a tree while it is being built.
spec fn growing_model(stack: Seq<Element>, root: Option<Element>) -> Growing {
    Growing {
        open: nodes(stack),
        root: match root {
            Some(r) => Some(r.node()),
            None => None,
        },
    }
}

/// Puts a finished element where it belongs: under the innermost open one, or at the root.
pub fn attach(stack: &mut Vec<Element>, root: &mut Option<Element>, el: Element)
    ensures
        nodes(final(stack)@) == attached(
            Growing { open: nodes(old(stack)@), root: None },
            el.node(),
        ).open,
        old(stack)@.len() > 0 ==> *final(root) == *old(root),
        old(stack)@.len() == 0 ==> *final(root) == Some(el) && final(stack)@.len() == 0,
{
    match stack.pop() {
        Some(mut parent) => {
            let ghost before = parent;
            proof {
                lemma_node_children(&before);
            }
            parent.children.push(el);
            proof {
                lemma_node_children(&parent);
                assert(nodes(parent.children@) =~= nodes(before.children@).push(el.node()));
            }
            let ghost rest = stack@;
            stack.push(parent);
            proof {
                assert(nodes(old(stack)@).drop_last() =~= nodes(rest));
                assert(nodes(old(stack)@).last() == before.node());
                assert(nodes(stack@) =~= nodes(rest).push(parent.node()));
            }
        },
        None => {
            *root = Some(el);
            assert(nodes(stack@) =~= nodes(old(stack)@));
        },
    }
}

/// The pieces of a document as values.
pub open spec fn event_models(v: Seq<XmlEvent>) -> Seq<EventModel> {
    v.map_values(|e: XmlEvent| e@)
}

/// The tree of the pieces of a document.
pub fn tree_of(events: &Vec<XmlEvent>) -> (r: Result<Element, SceneError>)
    ensures
        match tree(event_models(events@)) {
            Ok(n) => r matches Ok(e) && e.node() == n,
            Err(x) => r matches Err(e) && e@ == x,
        },
{
    let ghost all = event_models(events@);
    let mut stack: Vec<Element> = Vec::new();
    let mut root: Option<Element> = None;
    let mut i: usize = 0;
    proof {
        assert(all.take(0) =~= Seq::<EventModel>::empty());
        assert(nodes(stack@) =~= Seq::<Node>::empty());
    }
    while i < events.len()
        invariant
            i <= events@.len(),
            all == event_models(events@),
            growing(all.take(i as int)) == Ok::<Growing, ErrorModel>(growing_model(stack@, root)),
        decreases events@.len() - i,
    {
        let ghost g = growing_model(stack@, root);
        proof {
            assert(all.take(i + 1).drop_last() =~= all.take(i as int));
            assert(all[i as int] == events@[i as int]@);
            if grown(g, all[i as int]) is Err {
                lemma_growing_stops(all, i as int);
            }
        }
        match &events[i] {
            XmlEvent::Start(t) => {
                match make_element(t) {
                    Ok(el) => {
                        let ghost before = stack@;
                        stack.push(el);
                        assert(nodes(stack@) =~= nodes(before).push(el.node()));
                    },
                    Err(x) => {
                        return Err(x);
                    },
                }
            },
            XmlEvent::Empty(t) => {
                match make_element(t) {
                    Ok(el) => {
                        attach(&mut stack, &mut root, el);
                    },
                    Err(x) => {
                        return Err(x);
                    },
                }
            },
            XmlEvent::End => {
                let ghost before = stack@;
                match stack.pop() {
                    Some(el) => {
                        proof {
                            assert(nodes(before).drop_last() =~= nodes(stack@));
                            assert(nodes(before).last() == el.node());
                        }
                        attach(&mut stack, &mut root, el);
                    },
                    None => {
                        return Err(SceneError::Unbalanced);
                    },
                }
            },
            XmlEvent::Failed(x) => {
                return Err(SceneError::Malformed(copied(x.as_str())));
            },
            XmlEvent::Other => {},
            XmlEvent::Eof => {},
        }
        i += 1;
    }
    assert(all.take(i as int) =~= all);
    match root {
        Some(r) => Ok(r),
        None => Err(SceneError::Empty),
    }
}

/// The first error is the one that stays.
proof fn lemma_growing_stops(all: Seq<EventModel>, i: int)
    requires
        0 <= i < all.len(),
        growing(all.take(i)) is Ok,
        grown(growing(all.take(i))->Ok_0, all[i]) is Err,
    ensures
        growing(all) == Err::<Growing, ErrorModel>(
            grown(growing(all.take(i))->Ok_0, all[i])->Err_0,
        ),
    decreases all.len(),
{
    if i == all.len() - 1 {
        assert(all.drop_last() =~= all.take(i));
    } else {
        assert(all.drop_last().take(i) =~= all.take(i));
        lemma_growing_stops(all.drop_last(), i);
    }
}

/// The element tree of a document.
pub fn parse_tree(xml: &str) -> (r: Result<Element, SceneError>)
    ensures
        match tree(document(xml@)) {
            Ok(n) => r matches Ok(e) && e.node() == n,
            Err(x) => r matches Err(e) && e@ == x,
        },
{
    let mut reader = open_document(xml);
    let ghost all = xml_events(xml@);
    let ghost read = |e: RawModel| read_piece(e);
    let mut events: Vec<XmlEvent> = Vec::new();
    proof {
        assert(event_models(events@) + all.map_values(read) =~= document(xml@));
    }
    loop
        invariant
            read == |e: RawModel| read_piece(e),
            event_models(events@) + pending_events(reader).map_values(read) == document(xml@),
        decreases pending_events(reader).len(),
    {
        let ghost before = pending_events(reader);
        let ghost done = events@;
        let raw = read_event(&mut reader);
        let last = matches!(raw, RawEvent::Failed(_));
        match raw {
            RawEvent::Eof => {
                proof {
                    assert(event_models(events@) =~= document(xml@));
                }
                return tree_of(&events);
            },
            raw => {
                let e = with_attributes(raw);
                events.push(e);
                proof {
                    assert(event_models(events@) =~= event_models(done).push(e@));
                }
                if last {
                    proof {
                        assert(event_models(events@) =~= event_models(done) + before.map_values(
                            read,
                        ));
                    }
                    return tree_of(&events);
                }
                proof {
                    assert(event_models(events@) + pending_events(reader).map_values(read)
                        =~= event_models(done) + before.map_values(read));
                }
            },
        }
    }
}

} // verus!
