use vstd::prelude::*;
use crate::document::{
    attribute_value, attributes_view, find_attribute, lemma_key_index, lemma_map_view, unique_keys, DataView,
    ElementData, ElementMap, ElementView, XmlElement,
};

verus! {

broadcast use vstd::std_specs::vec::group_vec_axioms, vstd::seq::group_seq_axioms;

/// One event of a tag-nested document, as a streaming reader yields it.
#[derive(Clone, Debug, PartialEq, Eq)]
pub enum DocEvent {
    Start { name: String, attributes: Vec<(String, String)> },
    Text(String),
    End,
}

/// Mathematical content of a `DocEvent`.
pub enum EventView {
    Start(Seq<char>, Seq<(Seq<char>, Seq<char>)>),
    Text(Seq<char>),
    End,
}

impl View for DocEvent {
    type V = EventView;

    open spec fn view(&self) -> EventView {
        match self {
            DocEvent::Start { name, attributes } => EventView::Start(
                name@,
                attributes_view(attributes@),
            ),
            DocEvent::Text(t) => EventView::Text(t@),
            DocEvent::End => EventView::End,
        }
    }
}

/// A sequence of events that does not describe one well-nested element.
#[derive(PartialEq, Eq, Structural, Debug, Clone, Copy)]
pub enum DocumentError {
    UnexpectedEvent,
}

pub open spec fn events_view(evs: Seq<DocEvent>) -> Seq<EventView> {
    evs.map_values(|e: DocEvent| e@)
}

pub open spec fn leaf(name: Seq<char>, attributes: Seq<(Seq<char>, Seq<char>)>, t: Seq<char>) -> ElementView {
    ElementView { name, attributes, data: DataView::Text(t) }
}

/// The element that starts at `pos`, and the position just past its end.
///
/// A start event with unique attribute names is followed by text and an end,
/// by an end (empty text), or by child elements up to the closing end.
pub open spec fn parse_element(evs: Seq<EventView>, pos: int) -> Option<(ElementView, int)>
    decreases evs.len() - pos, 0int,
{
    if 0 <= pos && pos + 1 < evs.len() {
        match evs[pos] {
            EventView::Start(name, attrs) => {
                if !unique_keys(attrs) {
                    None
                } else {
                    match evs[pos + 1] {
                        EventView::Text(t) => {
                            if pos + 2 < evs.len() && evs[pos + 2] is End {
                                Some((leaf(name, attrs, t), pos + 3))
                            } else {
                                None
                            }
                        },
                        EventView::End => Some((leaf(name, attrs, Seq::empty()), pos + 2)),
                        EventView::Start(_, _) => match parse_children(evs, pos + 1) {
                            Some((kids, q)) => Some(
                                (
                                    ElementView {
                                        name,
                                        attributes: attrs,
                                        data: DataView::Nested(kids),
                                    },
                                    q + 1,
                                ),
                            ),
                            None => None,
                        },
                    }
                }
            },
            _ => None,
        }
    } else {
        None
    }
}

/// The elements that follow one another from `pos` up to an end event, and
/// the position of that end event.
pub open spec fn parse_children(evs: Seq<EventView>, pos: int) -> Option<(Seq<ElementView>, int)>
    decreases evs.len() - pos, 1int,
{
    if 0 <= pos < evs.len() {
        if evs[pos] is End {
            Some((Seq::empty(), pos))
        } else {
            match parse_element(evs, pos) {
                Some((e, p)) => {
                    if pos < p <= evs.len() {
                        match parse_children(evs, p) {
                            Some((rest, q)) => Some((seq![e] + rest, q)),
                            None => None,
                        }
                    } else {
                        None
                    }
                },
                None => None,
            }
        }
    } else {
        None
    }
}


/// A copy of `a`.
fn copy_attributes(a: &Vec<(String, String)>) -> (r: Vec<(String, String)>)
    ensures
        attributes_view(r@) == attributes_view(a@),
{
    let mut r: Vec<(String, String)> = Vec::new();
    let mut i: usize = 0;
    while i < a.len()
        invariant
            i <= a@.len(),
            attributes_view(r@) == attributes_view(a@.take(i as int)),
        decreases a@.len() - i,
    {
        let ghost before = r@;
        r.push((a[i].0.clone(), a[i].1.clone()));
        proof {
            assert(attributes_view(r@) =~= attributes_view(before).push(
                (a@[i as int].0@, a@[i as int].1@),
            ));
            assert(a@.take(i + 1) =~= a@.take(i as int).push(a@[i as int]));
            assert(attributes_view(r@) =~= attributes_view(a@.take(i + 1)));
        }
        i = i + 1;
    }
    proof {
        assert(a@.take(i as int) =~= a@);
    }
    r
}

/// Whether no attribute name of `a` occurs twice.
fn keys_unique(a: &Vec<(String, String)>) -> (r: bool)
    ensures
        r == unique_keys(attributes_view(a@)),
{
    let ghost v = attributes_view(a@);
    let mut j: usize = 0;
    while j < a.len()
        invariant
            j <= a@.len(),
            v == attributes_view(a@),
            forall|x: int, y: int| 0 <= x < y < j ==> v[x].0 != v[y].0,
        decreases a@.len() - j,
    {
        let mut i: usize = 0;
        while i < j
            invariant
                i <= j < a@.len(),
                v == attributes_view(a@),
                forall|x: int| 0 <= x < i ==> v[x].0 != v[j as int].0,
            decreases j - i,
        {
            if a[i].0 == a[j].0 {
                proof {
                    assert(v[i as int].0 == v[j as int].0);
                }
                return false;
            }
            i = i + 1;
        }
        j = j + 1;
    }
    true
}

/// Reads the element that starts at `pos`; returns it with the position
/// just past its end event.
pub fn parse_element_at(evs: &Vec<DocEvent>, pos: usize) -> (r: Result<(XmlElement, usize), DocumentError>)
    ensures
        match r {
            Ok((e, p)) => parse_element(events_view(evs@), pos as int) == Some((e@, p as int)),
            Err(_) => parse_element(events_view(evs@), pos as int) is None,
        },
    decreases evs@.len() - pos, 0int,
{
    let ghost ev = events_view(evs@);
    if pos >= evs.len() || pos + 1 >= evs.len() {
        return Err(DocumentError::UnexpectedEvent);
    }
    match &evs[pos] {
        DocEvent::Start { name, attributes } => {
            if !keys_unique(attributes) {
                return Err(DocumentError::UnexpectedEvent);
            }
            let attrs = copy_attributes(attributes);
            match &evs[pos + 1] {
                DocEvent::Text(t) => {
                    if pos + 2 < evs.len() && matches!(evs[pos + 2], DocEvent::End) {
                        let e = XmlElement {
                            attributes: attrs,
                            name: name.clone(),
                            data: ElementData::String(t.clone()),
                        };
                        Ok((e, pos + 3))
                    } else {
                        Err(DocumentError::UnexpectedEvent)
                    }
                },
                DocEvent::End => {
                    let e = XmlElement {
                        attributes: attrs,
                        name: name.clone(),
                        data: ElementData::String(String::new()),
                    };
                    Ok((e, pos + 2))
                },
                DocEvent::Start { .. } => {
                    match parse_children_at(evs, pos + 1) {
                        Ok((map, q)) => {
                            let e = XmlElement {
                                attributes: attrs,
                                name: name.clone(),
                                data: ElementData::Nested(map),
                            };
                            Ok((e, q + 1))
                        },
                        Err(err) => Err(err),
                    }
                },
            }
        },
        _ => Err(DocumentError::UnexpectedEvent),
    }
}

/// Reads the elements from `pos` up to an end event; returns them with the
/// position of that end event.
pub fn parse_children_at(evs: &Vec<DocEvent>, pos: usize) -> (r: Result<(ElementMap, usize), DocumentError>)
    ensures
        match r {
            Ok((m, q)) => parse_children(events_view(evs@), pos as int) == Some((m@, q as int))
                && q < evs@.len(),
            Err(_) => parse_children(events_view(evs@), pos as int) is None,
        },
    decreases evs@.len() - pos, 1int,
{
    let ghost ev = events_view(evs@);
    let mut map = ElementMap::new();
    let mut cur = pos;
    loop
        invariant
            pos <= cur,
            ev == events_view(evs@),
            map@.len() <= cur - pos,
            cur - pos <= evs@.len(),
            parse_children(ev, pos as int) == match parse_children(ev, cur as int) {
                Some((rest, q)) => Some((map@ + rest, q)),
                None => None,
            },
        decreases evs@.len() - cur,
    {
        if cur >= evs.len() {
            return Err(DocumentError::UnexpectedEvent);
        }
        if matches!(evs[cur], DocEvent::End) {
            proof {
                assert(map@ + Seq::<ElementView>::empty() =~= map@);
            }
            return Ok((map, cur));
        }
        match parse_element_at(evs, cur) {
            Ok((e, p)) => {
                if !(cur < p && p <= evs.len()) {
                    return Err(DocumentError::UnexpectedEvent);
                }
                let ghost before = map@;
                let ghost ee = e@;
                map.push(e);
                proof {
                    match parse_children(ev, p as int) {
                        Some((rest, q)) => {
                            assert(before + (seq![ee] + rest) =~= before.push(ee) + rest);
                        },
                        None => {},
                    }
                }
                cur = p;
            },
            Err(err) => {
                return Err(err);
            },
        }
    }
}


/// The events that describe `e`: its start, its text (none when empty) or its
/// children, and its end.
pub open spec fn element_events(e: ElementView) -> Seq<EventView>
    decreases e,
{
    seq![EventView::Start(e.name, e.attributes)] + match e.data {
        DataView::Text(t) => if t.len() == 0 {
            Seq::empty()
        } else {
            seq![EventView::Text(t)]
        },
        DataView::Nested(kids) => children_events(kids),
    } + seq![EventView::End]
}

/// The events of each element of `kids`, one after another.
pub open spec fn children_events(kids: Seq<ElementView>) -> Seq<EventView>
    decreases kids,
{
    if kids.len() == 0 {
        Seq::empty()
    } else {
        element_events(kids[0]) + children_events(kids.drop_first())
    }
}

/// A tree that reading can produce: attribute names are unique and every
/// nested element has at least one child.
pub open spec fn tree_ok(e: ElementView) -> bool
    decreases e,
{
    &&& unique_keys(e.attributes)
    &&& match e.data {
        DataView::Text(_) => true,
        DataView::Nested(kids) => kids.len() > 0 && trees_ok(kids),
    }
}

pub open spec fn trees_ok(kids: Seq<ElementView>) -> bool
    decreases kids,
{
    kids.len() > 0 ==> tree_ok(kids[0]) && trees_ok(kids.drop_first())
}

proof fn lemma_children_events_push(kids: Seq<ElementView>, e: ElementView)
    ensures
        children_events(kids.push(e)) == children_events(kids) + element_events(e),
    decreases kids.len(),
{
    if kids.len() == 0 {
        assert(kids.push(e).drop_first() =~= Seq::<ElementView>::empty());
        assert(kids.push(e)[0] == e);
        assert(children_events(Seq::<ElementView>::empty()) =~= Seq::<EventView>::empty());
        assert(children_events(kids.push(e)) =~= element_events(e));
    } else {
        lemma_children_events_push(kids.drop_first(), e);
        assert(kids.push(e).drop_first() =~= kids.drop_first().push(e));
        assert(kids.push(e)[0] == kids[0]);
        assert(children_events(kids.push(e)) =~= children_events(kids) + element_events(e));
    }
}

/// Appends the events that describe `e` to `out`.
pub fn write_element_events(e: &XmlElement, out: &mut Vec<DocEvent>)
    ensures
        events_view(final(out)@) == events_view(old(out)@) + element_events(e@),
    decreases e,
{
    let ghost start = events_view(out@).push(EventView::Start(e@.name, e@.attributes));
    out.push(DocEvent::Start { name: e.name.clone(), attributes: copy_attributes(&e.attributes) });
    proof {
        assert(events_view(out@) =~= start);
    }
    let ghost middle: Seq<EventView>;
    match &e.data {
        ElementData::String(s) => {
            if s.as_str().unicode_len() > 0 {
                out.push(DocEvent::Text(s.clone()));
                proof {
                    middle = seq![EventView::Text(s@)];
                    assert(events_view(out@) =~= start + middle);
                }
            } else {
                proof {
                    middle = Seq::empty();
                    assert(events_view(out@) =~= start + middle);
                }
            }
        },
        ElementData::Nested(m) => {
            proof {
                lemma_map_view(*m);
            }
            let mut i: usize = 0;
            while i < m.elements.len()
                invariant
                    i <= m.elements@.len(),
                    e.data == ElementData::Nested(*m),
                    m@.len() == m.elements@.len(),
                    forall|j: int| 0 <= j < m.elements@.len() ==> #[trigger] m@[j] == m.elements@[j]@,
                    events_view(out@) == start + children_events(m@.take(i as int)),
                decreases m.elements@.len() - i,
            {
                proof {
                    let d = e.data;
                    let md = *m;
                    assert(d == ElementData::Nested(md));
                    assert(decreases_to!(*e => d));
                    assert(decreases_to!(d => d->Nested_0));
                    assert(decreases_to!(md => md.elements));
                    assert(decreases_to!(md.elements => md.elements@));
                    assert(0 <= i < md.elements@.len());
                    assert(decreases_to!(md.elements@ => md.elements@[i as int]));
                    assert(decreases_to!(*e => m.elements@[i as int]));
                }
                write_element_events(&m.elements[i], out);
                proof {
                    assert(m@.take(i + 1) =~= m@.take(i as int).push(m@[i as int]));
                    lemma_children_events_push(m@.take(i as int), m@[i as int]);
                }
                i = i + 1;
            }
            proof {
                assert(m@.take(i as int) =~= m@);
                middle = children_events(m@);
            }
        },
    }
    let ghost before_end = events_view(out@);
    out.push(DocEvent::End);
    proof {
        assert(events_view(out@) =~= before_end.push(EventView::End));
        assert(element_events(e@) =~= seq![EventView::Start(e@.name, e@.attributes)] + middle
            + seq![EventView::End]);
    }
}


proof fn lemma_parse_element_ok(evs: Seq<EventView>, pos: int)
    requires
        parse_element(evs, pos) is Some,
    ensures
        tree_ok((parse_element(evs, pos)->0).0),
        pos < (parse_element(evs, pos)->0).1 <= evs.len(),
    decreases evs.len() - pos, 0int,
{
    match evs[pos + 1] {
        EventView::Start(_, _) => {
            lemma_parse_children_ok(evs, pos + 1);
        },
        _ => {},
    }
}

proof fn lemma_parse_children_ok(evs: Seq<EventView>, pos: int)
    requires
        parse_children(evs, pos) is Some,
    ensures
        trees_ok((parse_children(evs, pos)->0).0),
        pos <= (parse_children(evs, pos)->0).1 < evs.len(),
        evs[(parse_children(evs, pos)->0).1] is End,
        !(evs[pos] is End) ==> (parse_children(evs, pos)->0).0.len() > 0,
    decreases evs.len() - pos, 1int,
{
    if !(evs[pos] is End) {
        let (e, p) = parse_element(evs, pos)->0;
        lemma_parse_element_ok(evs, pos);
        lemma_parse_children_ok(evs, p);
        let rest = (parse_children(evs, p)->0).0;
        assert((seq![e] + rest)[0] == e);
        assert((seq![e] + rest).drop_first() =~= rest);
    }
}

proof fn lemma_element_round_trip(e: ElementView, evs: Seq<EventView>, pos: int)
    requires
        tree_ok(e),
        0 <= pos,
        pos + element_events(e).len() <= evs.len(),
        evs.subrange(pos, pos + element_events(e).len()) == element_events(e),
    ensures
        parse_element(evs, pos) == Some((e, pos + element_events(e).len())),
    decreases e,
{
    let ev = element_events(e);
    assert(evs[pos] == ev[0]);
    assert(evs[pos + 1] == ev[1]);
    match e.data {
        DataView::Text(t) => {
            if t.len() == 0 {
                assert(t =~= Seq::<char>::empty());
            } else {
                assert(evs[pos + 2] == ev[2]);
            }
        },
        DataView::Nested(kids) => {
            let c = children_events(kids);
            assert(ev =~= seq![EventView::Start(e.name, e.attributes)] + c + seq![EventView::End]);
            assert forall|i: int| 0 <= i < c.len() implies evs[pos + 1 + i] == c[i] by {
                assert(evs.subrange(pos, pos + ev.len())[1 + i] == ev[1 + i]);
            }
            assert(evs.subrange(pos + 1, pos + 1 + c.len()) =~= c);
            assert(evs[pos + 1 + c.len()] == ev[1 + c.len() as int]);
            assert(element_events(kids[0])[0] == EventView::Start(kids[0].name, kids[0].attributes));
            assert(c[0] == element_events(kids[0])[0]);
            lemma_children_round_trip(kids, evs, pos + 1);
        },
    }
}

proof fn lemma_children_round_trip(kids: Seq<ElementView>, evs: Seq<EventView>, pos: int)
    requires
        trees_ok(kids),
        0 <= pos,
        pos + children_events(kids).len() < evs.len(),
        evs.subrange(pos, pos + children_events(kids).len()) == children_events(kids),
        evs[pos + children_events(kids).len()] is End,
    ensures
        parse_children(evs, pos) == Some((kids, pos + children_events(kids).len())),
    decreases kids,
{
    let c = children_events(kids);
    if kids.len() == 0 {
        assert(c.len() == 0);
    } else {
        let first = element_events(kids[0]);
        let rest = children_events(kids.drop_first());
        assert(c == first + rest);
        assert forall|i: int| 0 <= i < c.len() implies evs[pos + i] == c[i] by {
            assert(evs.subrange(pos, pos + c.len())[i] == c[i]);
        }
        assert(evs.subrange(pos, pos + first.len()) =~= first);
        assert forall|i: int| 0 <= i < rest.len() implies evs[pos + first.len() + i] == rest[i] by {
            assert(c[first.len() + i] == rest[i]);
        }
        assert(evs.subrange(pos + first.len(), pos + first.len() + rest.len()) =~= rest);
        assert(evs[pos] == first[0]);
        lemma_element_round_trip(kids[0], evs, pos);
        lemma_children_round_trip(kids.drop_first(), evs, pos + first.len());
        assert(seq![kids[0]] + kids.drop_first() =~= kids);
    }
}

/// Reading the events that describe a tree that reading produced gives that
/// tree back.
pub proof fn law_element_round_trip(evs: Seq<EventView>, pos: int)
    requires
        parse_element(evs, pos) is Some,
    ensures
        ({
            let e = (parse_element(evs, pos)->0).0;
            parse_element(element_events(e), 0) == Some((e, element_events(e).len() as int))
        }),
{
    let e = (parse_element(evs, pos)->0).0;
    lemma_parse_element_ok(evs, pos);
    assert(element_events(e).subrange(0, element_events(e).len() as int) =~= element_events(e));
    lemma_element_round_trip(e, element_events(e), 0);
}


/// The reader's depth after `ev`, from `depth` before it: a start opens one
/// level and an end closes one. `None` where an end closes a level that was
/// never opened, or where the depth would exceed `usize::MAX`.
pub fn depth_after(depth: usize, ev: &DocEvent) -> (r: Option<usize>)
    ensures
        r == match ev@ {
            EventView::Start(_, _) => if depth < usize::MAX {
                Some((depth + 1) as usize)
            } else {
                None
            },
            EventView::End => if depth > 0 {
                Some((depth - 1) as usize)
            } else {
                None
            },
            EventView::Text(_) => Some(depth),
        },
{
    match ev {
        DocEvent::Start { .. } => if depth < usize::MAX {
            Some(depth + 1)
        } else {
            None
        },
        DocEvent::End => if depth > 0 {
            Some(depth - 1)
        } else {
            None
        },
        DocEvent::Text(_) => Some(depth),
    }
}

/// A plugin: its identifying name, the file that implements it, and a body of
/// elements whose shape no schema fixes.
#[derive(Debug, Default)]
pub struct SdfPlugin {
    pub name: String,
    pub filename: String,
    pub elements: ElementMap,
}

pub struct PluginView {
    pub name: Seq<char>,
    pub filename: Seq<char>,
    pub elements: Seq<ElementView>,
}

impl View for SdfPlugin {
    type V = PluginView;

    open spec fn view(&self) -> PluginView {
        PluginView { name: self.name@, filename: self.filename@, elements: self.elements@ }
    }
}

/// The value of the attribute `k`, or the empty text where there is none.
pub open spec fn attribute_or_empty(a: Seq<(Seq<char>, Seq<char>)>, k: Seq<char>) -> Seq<char> {
    match attribute_value(a, k) {
        Some(v) => v,
        None => Seq::empty(),
    }
}

/// The plugin that the events from the first one describe, and the position
/// just past its end: a start event whose `name` and `filename` attributes
/// identify it, then its elements up to the closing end.
pub open spec fn parse_plugin(evs: Seq<EventView>) -> Option<(PluginView, int)> {
    if evs.len() > 0 {
        match evs[0] {
            EventView::Start(_, attrs) => match parse_children(evs, 1) {
                Some((kids, q)) => Some(
                    (
                        PluginView {
                            name: attribute_or_empty(attrs, "name"@),
                            filename: attribute_or_empty(attrs, "filename"@),
                            elements: kids,
                        },
                        q + 1,
                    ),
                ),
                None => None,
            },
            _ => None,
        }
    } else {
        None
    }
}

/// The events that describe a plugin: a `plugin` start carrying its name and
/// file, its elements, and an end.
pub open spec fn plugin_events(p: PluginView) -> Seq<EventView> {
    seq![EventView::Start("plugin"@, seq![("name"@, p.name), ("filename"@, p.filename)])]
        + children_events(p.elements) + seq![EventView::End]
}

fn attribute_text(attrs: &Vec<(String, String)>, key: &str) -> (r: String)
    ensures
        r@ == attribute_or_empty(attributes_view(attrs@), key@),
{
    match find_attribute(attrs, &key.to_owned()) {
        Some(i) => attrs[i].1.clone(),
        None => String::new(),
    }
}

impl SdfPlugin {
    /// Reads a plugin from the events that start at the first one.
    pub fn from_events(evs: &Vec<DocEvent>) -> (r: Result<(SdfPlugin, usize), DocumentError>)
        ensures
            match r {
                Ok((p, q)) => parse_plugin(events_view(evs@)) == Some((p@, q as int)),
                Err(_) => parse_plugin(events_view(evs@)) is None,
            },
    {
        if evs.len() == 0 {
            return Err(DocumentError::UnexpectedEvent);
        }
        match &evs[0] {
            DocEvent::Start { attributes, .. } => {
                match parse_children_at(evs, 1) {
                    Ok((elements, q)) => {
                        let p = SdfPlugin {
                            name: attribute_text(attributes, "name"),
                            filename: attribute_text(attributes, "filename"),
                            elements,
                        };
                        Ok((p, q + 1))
                    },
                    Err(err) => Err(err),
                }
            },
            _ => Err(DocumentError::UnexpectedEvent),
        }
    }

    /// The events that describe this plugin.
    pub fn to_events(&self) -> (r: Vec<DocEvent>)
        ensures
            events_view(r@) == plugin_events(self@),
    {
        let mut attrs: Vec<(String, String)> = Vec::new();
        attrs.push(("name".to_owned(), self.name.clone()));
        attrs.push(("filename".to_owned(), self.filename.clone()));
        let mut out: Vec<DocEvent> = Vec::new();
        out.push(DocEvent::Start { name: "plugin".to_owned(), attributes: attrs });
        let ghost start = events_view(out@);
        proof {
            assert(attributes_view(attrs@) =~= seq![
                ("name"@, self.name@),
                ("filename"@, self.filename@),
            ]);
            assert(start =~= seq![
                EventView::Start(
                    "plugin"@,
                    seq![("name"@, self.name@), ("filename"@, self.filename@)],
                ),
            ]);
            lemma_map_view(self.elements);
        }
        let m = &self.elements;
        let mut i: usize = 0;
        while i < m.elements.len()
            invariant
                i <= m.elements@.len(),
                m@.len() == m.elements@.len(),
                forall|j: int| 0 <= j < m.elements@.len() ==> #[trigger] m@[j] == m.elements@[j]@,
                events_view(out@) == start + children_events(m@.take(i as int)),
            decreases m.elements@.len() - i,
        {
            write_element_events(&m.elements[i], &mut out);
            proof {
                assert(m@.take(i + 1) =~= m@.take(i as int).push(m@[i as int]));
                lemma_children_events_push(m@.take(i as int), m@[i as int]);
            }
            i = i + 1;
        }
        let ghost before_end = events_view(out@);
        out.push(DocEvent::End);
        proof {
            assert(m@.take(i as int) =~= m@);
            assert(events_view(out@) =~= before_end.push(EventView::End));
        }
        out
    }
}

/// Writing a plugin that was read and reading it again gives the same plugin:
/// name, file and every element, attribute and text.
pub proof fn law_plugin_round_trip(evs: Seq<EventView>)
    requires
        parse_plugin(evs) is Some,
    ensures
        ({
            let p = (parse_plugin(evs)->0).0;
            parse_plugin(plugin_events(p)) == Some((p, plugin_events(p).len() as int))
        }),
{
    let p = (parse_plugin(evs)->0).0;
    lemma_parse_children_ok(evs, 1);
    let w = plugin_events(p);
    let c = children_events(p.elements);
    let attrs = seq![("name"@, p.name), ("filename"@, p.filename)];
    assert(w[0] == EventView::Start("plugin"@, attrs));
    assert(w.subrange(1, 1 + c.len() as int) =~= c);
    assert(w[1 + c.len() as int] == EventView::End);
    lemma_children_round_trip(p.elements, w, 1);
    reveal_strlit("name");
    reveal_strlit("filename");
    assert("name"@ != "filename"@) by {
        assert("name"@.len() != "filename"@.len());
    }
    lemma_key_index(attrs, "name"@, 0);
    lemma_key_index(attrs, "filename"@, 1);
}

} // verus!
