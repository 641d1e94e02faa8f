use vstd::prelude::*;

verus! {

broadcast use vstd::std_specs::vec::group_vec_axioms, vstd::seq::group_seq_axioms;

/// Mathematical content of an element: its text, or its children in order.
pub enum DataView {
    Text(Seq<char>),
    Nested(Seq<ElementView>),
}

/// Mathematical content of an element tree node.
pub struct ElementView {
    pub name: Seq<char>,
    pub attributes: Seq<(Seq<char>, Seq<char>)>,
    pub data: DataView,
}

/// The payload of an element: leaf text or a nested, name-indexed map.
#[derive(Debug)]
pub enum ElementData {
    String(String),
    Nested(ElementMap),
}

/// One element of a generic document: tag name, attributes and data.
#[derive(Debug)]
pub struct XmlElement {
    /// Attribute names and values; names are unique.
    pub attributes: Vec<(String, String)>,
    pub name: String,
    pub data: ElementData,
}

/// Elements in insertion order, with the positions of each tag name.
#[derive(Debug)]
pub struct ElementMap {
    pub(crate) indexes: Vec<(String, Vec<usize>)>,
    pub(crate) elements: Vec<XmlElement>,
}

pub open spec fn attributes_view(a: Seq<(String, String)>) -> Seq<(Seq<char>, Seq<char>)> {
    a.map_values(|p: (String, String)| (p.0@, p.1@))
}

pub open spec fn element_view(e: XmlElement) -> ElementView
    decreases e,
{
    ElementView {
        name: e.name@,
        attributes: attributes_view(e.attributes@),
        data: data_view(e.data),
    }
}

pub open spec fn data_view(d: ElementData) -> DataView
    decreases d,
{
    match d {
        ElementData::String(s) => DataView::Text(s@),
        ElementData::Nested(m) => DataView::Nested(map_view(m)),
    }
}

pub open spec fn elements_view(s: Seq<XmlElement>) -> Seq<ElementView>
    decreases s,
{
    if s.len() == 0 {
        Seq::empty()
    } else {
        elements_view(s.drop_last()).push(element_view(s.last()))
    }
}

/// The elements of a map, in insertion order.
pub closed spec fn map_view(m: ElementMap) -> Seq<ElementView>
    decreases m,
{
    elements_view(m.elements@)
}

pub(crate) proof fn lemma_map_view(m: ElementMap)
    ensures
        m@ == elements_view(m.elements@),
        m@.len() == m.elements@.len(),
        forall|i: int| 0 <= i < m.elements@.len() ==> #[trigger] m@[i] == m.elements@[i]@,
{
    lemma_elements_view(m.elements@);
}

impl View for XmlElement {
    type V = ElementView;

    open spec fn view(&self) -> ElementView {
        element_view(*self)
    }
}

impl View for ElementMap {
    type V = Seq<ElementView>;

    open spec fn view(&self) -> Seq<ElementView> {
        map_view(*self)
    }
}


/// The elements of `s` whose tag name is `n`, in order.
pub open spec fn named(s: Seq<ElementView>, n: Seq<char>) -> Seq<ElementView>
    decreases s.len(),
{
    if s.len() == 0 {
        Seq::empty()
    } else if s.last().name == n {
        named(s.drop_last(), n).push(s.last())
    } else {
        named(s.drop_last(), n)
    }
}

/// The positions in `s` of the elements whose tag name is `n`, ascending.
pub open spec fn positions_of(s: Seq<ElementView>, n: Seq<char>) -> Seq<int>
    decreases s.len(),
{
    if s.len() == 0 {
        Seq::empty()
    } else if s.last().name == n {
        positions_of(s.drop_last(), n).push(s.len() - 1)
    } else {
        positions_of(s.drop_last(), n)
    }
}

pub open spec fn usizes_view(v: Seq<usize>) -> Seq<int> {
    v.map_values(|p: usize| p as int)
}

pub open spec fn refs_view(v: Seq<&XmlElement>) -> Seq<ElementView> {
    v.map_values(|e: &XmlElement| e@)
}

pub proof fn lemma_elements_view(s: Seq<XmlElement>)
    ensures
        elements_view(s).len() == s.len(),
        forall|i: int| 0 <= i < s.len() ==> #[trigger] elements_view(s)[i] == s[i]@,
    decreases s.len(),
{
    if s.len() > 0 {
        lemma_elements_view(s.drop_last());
    }
}

proof fn lemma_elements_view_push(s: Seq<XmlElement>, e: XmlElement)
    ensures
        elements_view(s.push(e)) == elements_view(s).push(e@),
{
    assert(s.push(e).drop_last() =~= s);
}

proof fn lemma_push_named(s: Seq<ElementView>, e: ElementView, n: Seq<char>)
    ensures
        named(s.push(e), n) == (if e.name == n { named(s, n).push(e) } else { named(s, n) }),
        positions_of(s.push(e), n) == (if e.name == n {
            positions_of(s, n).push(s.len() as int)
        } else {
            positions_of(s, n)
        }),
{
    assert(s.push(e).drop_last() =~= s);
}

/// Each position lies in `s` and names an element called `n`; there is one
/// position for each element called `n`, and picking them gives `named`.
proof fn lemma_positions(s: Seq<ElementView>, n: Seq<char>)
    ensures
        positions_of(s, n).len() == named(s, n).len(),
        forall|j: int|
            0 <= j < positions_of(s, n).len() ==> {
                let p = #[trigger] positions_of(s, n)[j];
                &&& 0 <= p < s.len()
                &&& s[p] == named(s, n)[j]
                &&& s[p].name == n
            },
        forall|j: int, k: int|
            0 <= j < k < positions_of(s, n).len() ==> positions_of(s, n)[j] < positions_of(
                s,
                n,
            )[k],
        forall|i: int| 0 <= i < s.len() && s[i].name == n ==> positions_of(s, n).contains(i),
        (named(s, n).len() == 0) <==> (forall|i: int| 0 <= i < s.len() ==> s[i].name != n),
    decreases s.len(),
{
    if s.len() > 0 {
        let t = s.drop_last();
        lemma_positions(t, n);
        if s.last().name == n {
            assert(positions_of(s, n).last() == s.len() - 1);
        }
        assert forall|i: int| 0 <= i < s.len() && s[i].name == n implies positions_of(
            s,
            n,
        ).contains(i) by {
            if i < s.len() - 1 {
                assert(t[i] == s[i]);
                assert(positions_of(t, n).contains(i));
                let j = choose|j: int|
                    0 <= j < positions_of(t, n).len() && positions_of(t, n)[j] == i;
                assert(positions_of(s, n)[j] == positions_of(t, n)[j]);
            } else {
                assert(positions_of(s, n)[positions_of(s, n).len() - 1] == i);
            }
        }
        if named(s, n).len() == 0 {
            assert forall|i: int| 0 <= i < s.len() implies s[i].name != n by {
                if i < s.len() - 1 {
                    assert(t[i] == s[i]);
                }
            }
        }
    }
}

spec fn parts_wf(indexes: Seq<(String, Vec<usize>)>, elements: Seq<XmlElement>) -> bool {
    &&& forall|i: int|
        0 <= i < indexes.len() ==> {
            let (n, ps) = #[trigger] indexes[i];
            &&& usizes_view(ps@) == positions_of(elements_view(elements), n@)
            &&& ps@.len() > 0
        }
    &&& forall|i: int, j: int|
        0 <= i < j < indexes.len() ==> #[trigger] indexes[i].0@ != #[trigger] indexes[j].0@
    &&& forall|k: int|
        0 <= k < elements.len() ==> exists|i: int|
            0 <= i < indexes.len() && #[trigger] indexes[i].0@ == #[trigger] elements[k].name@
}

/// Appends `elem` to `elements` and records its position in `indexes`;
/// `entry` is where `indexes` lists the element's name, if it does.
fn push_parts(
    indexes: &mut Vec<(String, Vec<usize>)>,
    elements: &mut Vec<XmlElement>,
    elem: XmlElement,
    entry: Option<usize>,
)
    requires
        parts_wf(old(indexes)@, old(elements)@),
        old(elements)@.len() < usize::MAX,
        match entry {
            Some(i) => i < old(indexes)@.len() && old(indexes)@[i as int].0@ == elem.name@,
            None => forall|i: int|
                0 <= i < old(indexes)@.len() ==> old(indexes)@[i].0@ != elem.name@,
        },
    ensures
        parts_wf(final(indexes)@, final(elements)@),
        final(elements)@ == old(elements)@.push(elem),
{

        proof {
            lemma_elements_view(elements@);
        }
        let idx = elements.len();
        let name = elem.name.clone();
        let ghost old_elements = elements@;
        let ghost old_view = elements_view(old_elements);
        let ghost old_indexes = indexes@;
        let ghost e = elem@;
        elements.push(elem);
        proof {
            lemma_elements_view_push(old_elements, elements@.last());
            assert(elements@ =~= old_elements.push(elements@.last()));
            assert forall|n: Seq<char>| #[trigger] positions_of(elements_view(elements@), n) == (
            if e.name == n {
                positions_of(old_view, n).push(idx as int)
            } else {
                positions_of(old_view, n)
            }) by {
                lemma_push_named(old_view, e, n);
            }
        }
        match entry {
            Some(i) => {
                let mut entry_pair = indexes.remove(i);
                entry_pair.1.push(idx);
                indexes.insert(i, entry_pair);
                proof {
                    assert(usizes_view(indexes@[i as int].1@) =~= usizes_view(
                        old_indexes[i as int].1@,
                    ).push(idx as int));
                }
            },
            None => {
                let mut ps: Vec<usize> = Vec::new();
                ps.push(idx);
                indexes.push((name, ps));
                proof {
                    assert(usizes_view(ps@) =~= Seq::<int>::empty().push(idx as int));
                    lemma_positions(old_view, e.name);
                    assert(positions_of(old_view, e.name) =~= Seq::<int>::empty());
                }
            },
        }
        proof {
            lemma_elements_view(elements@);
            assert forall|k: int| 0 <= k < elements@.len() implies exists|i: int|
                0 <= i < indexes@.len() && #[trigger] indexes@[i].0@
                    == #[trigger] elements@[k].name@ by {
                if k < idx {
                    let i = choose|i: int|
                        0 <= i < old_indexes.len() && #[trigger] old_indexes[i].0@
                            == #[trigger] old_elements[k].name@;
                    assert(indexes@[i].0@ == elements@[k].name@);
                } else {
                    match entry {
                        Some(i) => assert(indexes@[i as int].0@ == elements@[k].name@),
                        None => assert(indexes@[indexes@.len() - 1].0@ == elements@[k].name@),
                    }
                }
            }
        }
}

/// Position of the first attribute named `k` in `a`, or -1.
pub open spec fn key_index(a: Seq<(Seq<char>, Seq<char>)>, k: Seq<char>) -> int
    decreases a.len(),
{
    if a.len() == 0 {
        -1
    } else if key_index(a.drop_last(), k) >= 0 {
        key_index(a.drop_last(), k)
    } else if a.last().0 == k {
        a.len() - 1
    } else {
        -1
    }
}

/// The value of the first attribute named `k`, if any.
pub open spec fn attribute_value(a: Seq<(Seq<char>, Seq<char>)>, k: Seq<char>) -> Option<
    Seq<char>,
> {
    if key_index(a, k) >= 0 {
        Some(a[key_index(a, k)].1)
    } else {
        None
    }
}

/// `a` with the attribute `k` set to `v`: replaced in place if present, else appended.
pub open spec fn with_attribute(a: Seq<(Seq<char>, Seq<char>)>, k: Seq<char>, v: Seq<char>) -> Seq<
    (Seq<char>, Seq<char>),
> {
    if key_index(a, k) >= 0 {
        a.update(key_index(a, k), (k, v))
    } else {
        a.push((k, v))
    }
}

/// No attribute name occurs twice.
pub open spec fn unique_keys(a: Seq<(Seq<char>, Seq<char>)>) -> bool {
    forall|i: int, j: int| 0 <= i < j < a.len() ==> a[i].0 != a[j].0
}

/// `e` with the attribute `k` set to `v`.
pub open spec fn element_with_attribute(e: ElementView, k: Seq<char>, v: Seq<char>) -> ElementView {
    ElementView { attributes: with_attribute(e.attributes, k, v), ..e }
}

/// `s` with the attribute `k` set to `v` on every element called `n`.
pub open spec fn with_attribute_on(
    s: Seq<ElementView>,
    n: Seq<char>,
    k: Seq<char>,
    v: Seq<char>,
) -> Seq<ElementView> {
    s.map_values(
        |e: ElementView|
            if e.name == n {
                element_with_attribute(e, k, v)
            } else {
                e
            },
    )
}

pub(crate) proof fn lemma_key_index(a: Seq<(Seq<char>, Seq<char>)>, k: Seq<char>, i: int)
    requires
        0 <= i <= a.len(),
        forall|j: int| 0 <= j < i ==> a[j].0 != k,
        i == a.len() || a[i].0 == k,
    ensures
        key_index(a, k) == (if i == a.len() { -1 } else { i }),
    decreases a.len(),
{
    if a.len() > 0 {
        let t = a.drop_last();
        if i == a.len() {
            lemma_key_index(t, k, t.len() as int);
        } else if i == a.len() - 1 {
            lemma_key_index(t, k, t.len() as int);
        } else {
            assert(t[i] == a[i]);
            lemma_key_index(t, k, i);
        }
    }
}

proof fn lemma_key_index_props(a: Seq<(Seq<char>, Seq<char>)>, k: Seq<char>)
    ensures
        -1 <= key_index(a, k) < a.len(),
        key_index(a, k) >= 0 ==> a[key_index(a, k)].0 == k,
        forall|j: int| 0 <= j < a.len() && (key_index(a, k) < 0 || j < key_index(a, k)) ==> a[j].0 != k,
    decreases a.len(),
{
    if a.len() > 0 {
        let t = a.drop_last();
        lemma_key_index_props(t, k);
        assert forall|j: int|
            0 <= j < a.len() && (key_index(a, k) < 0 || j < key_index(a, k)) implies a[j].0
            != k by {
            if j < t.len() {
                assert(t[j] == a[j]);
            }
        }
    }
}

/// Finds the first attribute of `attrs` named `key`.
pub(crate) fn find_attribute(attrs: &Vec<(String, String)>, key: &String) -> (r: Option<usize>)
    ensures
        match r {
            Some(i) => i < attrs@.len() && i == key_index(attributes_view(attrs@), key@)
                && attrs@[i as int].0@ == key@,
            None => key_index(attributes_view(attrs@), key@) == -1,
        },
{
    let ghost a = attributes_view(attrs@);
    let mut i: usize = 0;
    while i < attrs.len()
        invariant
            i <= attrs@.len(),
            a == attributes_view(attrs@),
            forall|j: int| 0 <= j < i ==> a[j].0 != key@,
        decreases attrs@.len() - i,
    {
        if attrs[i].0 == *key {
            proof {
                lemma_key_index(a, key@, i as int);
            }
            return Some(i);
        }
        i = i + 1;
    }
    proof {
        lemma_key_index(a, key@, i as int);
    }
    None
}

impl Default for ElementData {
    /// Empty text.
    fn default() -> (r: ElementData)
        ensures
            data_view(r) == DataView::Text(Seq::empty()),
    {
        ElementData::String(String::new())
    }
}

impl ElementData {
    /// The integer that the text denotes; `None` for nested data or text
    /// that is no decimal `i64`.
    pub fn as_i64(&self) -> (r: Option<i64>)
        ensures
            r == match data_view(*self) {
                DataView::Text(t) => crate::text::i64_of(t),
                DataView::Nested(_) => None,
            },
    {
        match self {
            ElementData::String(s) => crate::text::parse_i64(s.as_str()),
            ElementData::Nested(_) => None,
        }
    }
}

impl Default for XmlElement {
    /// An element with no name, no attributes and empty text.
    fn default() -> (r: XmlElement)
        ensures
            r@ == (ElementView {
                name: Seq::empty(),
                attributes: Seq::empty(),
                data: DataView::Text(Seq::empty()),
            }),
    {
        XmlElement::new(String::new())
    }
}

fn same_attributes(a: &Vec<(String, String)>, b: &Vec<(String, String)>) -> (r: bool)
    ensures
        r == (attributes_view(a@) == attributes_view(b@)),
{
    if a.len() != b.len() {
        return false;
    }
    let mut i: usize = 0;
    while i < a.len()
        invariant
            i <= a@.len(),
            a@.len() == b@.len(),
            forall|j: int| 0 <= j < i ==> #[trigger] attributes_view(a@)[j] == attributes_view(b@)[j],
        decreases a@.len() - i,
    {
        if a[i].0 != b[i].0 || a[i].1 != b[i].1 {
            proof {
                assert(attributes_view(a@)[i as int] != attributes_view(b@)[i as int]);
            }
            return false;
        }
        i = i + 1;
    }
    proof {
        assert(attributes_view(a@) =~= attributes_view(b@));
    }
    true
}

impl XmlElement {
    /// Whether the two trees have the same names, attributes, texts and
    /// children, in the same order.
    pub fn same_as(&self, other: &XmlElement) -> (r: bool)
        ensures
            r == (self@ == other@),
        decreases self,
    {
        if self.name != other.name || !same_attributes(&self.attributes, &other.attributes) {
            return false;
        }
        match (&self.data, &other.data) {
            (ElementData::String(a), ElementData::String(b)) => *a == *b,
            (ElementData::Nested(m), ElementData::Nested(n)) => {
                proof {
                    lemma_elements_view(m.elements@);
                    lemma_elements_view(n.elements@);
                }
                if m.elements.len() != n.elements.len() {
                    return false;
                }
                let mut i: usize = 0;
                while i < m.elements.len()
                    invariant
                        i <= m.elements@.len(),
                        self.data == ElementData::Nested(*m),
                        other.data == ElementData::Nested(*n),
                        m.elements@.len() == n.elements@.len(),
                        m@ == elements_view(m.elements@),
                        n@ == elements_view(n.elements@),
                        m@.len() == m.elements@.len(),
                        n@.len() == n.elements@.len(),
                        forall|j: int| 0 <= j < m.elements@.len() ==> #[trigger] m@[j] == m.elements@[j]@,
                        forall|j: int| 0 <= j < n.elements@.len() ==> #[trigger] n@[j] == n.elements@[j]@,
                        forall|j: int| 0 <= j < i ==> #[trigger] m@[j] == n@[j],
                    decreases m.elements@.len() - i,
                {
                    proof {
                        let d = self.data;
                        assert(decreases_to!(*self => d));
                        assert(decreases_to!(d => d->Nested_0));
                        assert(decreases_to!(m.elements => m.elements@));
                        assert(decreases_to!(*self => m.elements@[i as int]));
                    }
                    if !m.elements[i].same_as(&n.elements[i]) {
                        proof {
                            assert(m@[i as int] != n@[i as int]);
                            assert(m@ != n@);
                        }
                        return false;
                    }
                    i = i + 1;
                }
                proof {
                    assert(m@ =~= n@);
                }
                true
            },
            _ => false,
        }
    }
}

impl PartialEq for XmlElement {
    fn eq(&self, other: &XmlElement) -> (r: bool) {
        self.same_as(other)
    }
}

impl vstd::std_specs::cmp::PartialEqSpecImpl for XmlElement {
    open spec fn obeys_eq_spec() -> bool {
        true
    }

    open spec fn eq_spec(&self, other: &XmlElement) -> bool {
        self@ == other@
    }
}

impl Clone for XmlElement {
    fn clone(&self) -> XmlElement {
        self.deep_clone()
    }
}

impl Default for ElementMap {
    fn default() -> (r: ElementMap)
        ensures
            r@ == Seq::<ElementView>::empty(),
    {
        ElementMap::new()
    }
}

impl XmlElement {
    /// An element with the given name, no attributes and empty text.
    pub fn new(name: String) -> (r: XmlElement)
        ensures
            r@ == (ElementView {
                name: name@,
                attributes: Seq::empty(),
                data: DataView::Text(Seq::empty()),
            }),
    {
        let r = XmlElement { attributes: Vec::new(), name, data: ElementData::String(String::new()) };
        proof {
            assert(attributes_view(r.attributes@) =~= Seq::empty());
        }
        r
    }

    /// A copy of this element and everything under it.
    pub fn deep_clone(&self) -> (r: XmlElement)
        ensures
            r@ == self@,
        decreases self,
    {
        let mut attributes: Vec<(String, String)> = Vec::new();
        let mut i: usize = 0;
        while i < self.attributes.len()
            invariant
                i <= self.attributes@.len(),
                attributes_view(attributes@) == attributes_view(self.attributes@.take(i as int)),
            decreases self.attributes@.len() - i,
        {
            let ghost before = attributes@;
            attributes.push((self.attributes[i].0.clone(), self.attributes[i].1.clone()));
            proof {
                assert(self.attributes@.take(i + 1) =~= self.attributes@.take(i as int).push(
                    self.attributes@[i as int],
                ));
                assert(attributes_view(attributes@) =~= attributes_view(before).push(
                    (self.attributes@[i as int].0@, self.attributes@[i as int].1@),
                ));
                assert(attributes_view(attributes@) =~= attributes_view(
                    self.attributes@.take(i + 1),
                ));
            }
            i = i + 1;
        }
        proof {
            assert(self.attributes@.take(i as int) =~= self.attributes@);
        }
        let data = match &self.data {
            ElementData::String(t) => ElementData::String(t.clone()),
            ElementData::Nested(m) => {
                proof {
                    use_type_invariant(m);
                    lemma_elements_view(m.elements@);
                }
                let mut copy = ElementMap::new();
                let mut k: usize = 0;
                while k < m.elements.len()
                    invariant
                        k <= m.elements@.len(),
                        self.data == ElementData::Nested(*m),
                        m@ == elements_view(m.elements@),
                        m@.len() == m.elements@.len(),
                        forall|j: int| 0 <= j < m.elements@.len() ==> #[trigger] m@[j] == m.elements@[j]@,
                        copy@ == m@.take(k as int),
                    decreases m.elements@.len() - k,
                {
                    proof {
                        let d = self.data;
                        assert(decreases_to!(*self => d));
                        assert(decreases_to!(d => d->Nested_0));
                        assert(decreases_to!(m.elements => m.elements@));
                        assert(decreases_to!(*self => m.elements@[k as int]));
                    }
                    let e = m.elements[k].deep_clone();
                    copy.push(e);
                    proof {
                        assert(m@.take(k + 1) =~= m@.take(k as int).push(m@[k as int]));
                    }
                    k = k + 1;
                }
                proof {
                    assert(m@.take(k as int) =~= m@);
                }
                ElementData::Nested(copy)
            },
        };
        XmlElement { attributes, name: self.name.clone(), data }
    }

    /// The value of the attribute `key`, if the element has it.
    pub fn attribute(&self, key: &str) -> (r: Option<&String>)
        ensures
            match r {
                Some(v) => attribute_value(self@.attributes, key@) == Some(v@),
                None => attribute_value(self@.attributes, key@) is None,
            },
    {
        let k = key.to_owned();
        match find_attribute(&self.attributes, &k) {
            Some(i) => Some(&self.attributes[i].1),
            None => None,
        }
    }

    /// Sets the attribute `key` to `value`, in place if it is present.
    pub fn set_attribute(&mut self, key: String, value: String)
        ensures
            final(self)@ == element_with_attribute(old(self)@, key@, value@),
    {
        let ghost k = key@;
        let ghost v = value@;
        match find_attribute(&self.attributes, &key) {
            Some(i) => {
                self.attributes.set(i, (key, value));
            },
            None => {
                self.attributes.push((key, value));
            },
        }
        proof {
            assert(attributes_view(self.attributes@) =~= with_attribute(
                attributes_view(old(self).attributes@),
                k,
                v,
            ));
        }
    }
}

proof fn lemma_positions_same_names(s: Seq<ElementView>, t: Seq<ElementView>, n: Seq<char>)
    requires
        s.len() == t.len(),
        forall|i: int| 0 <= i < s.len() ==> s[i].name == t[i].name,
    ensures
        positions_of(s, n) == positions_of(t, n),
    decreases s.len(),
{
    if s.len() > 0 {
        lemma_positions_same_names(s.drop_last(), t.drop_last(), n);
    }
}

proof fn lemma_with_attribute_reads_back(a: Seq<(Seq<char>, Seq<char>)>, k: Seq<char>, v: Seq<char>)
    ensures
        attribute_value(with_attribute(a, k, v), k) == Some(v),
{
    lemma_key_index_props(a, k);
    let i = key_index(a, k);
    if i >= 0 {
        let b = a.update(i, (k, v));
        assert forall|j: int| 0 <= j < i implies b[j].0 != k by {
            assert(b[j] == a[j]);
        }
        lemma_key_index(b, k, i);
    } else {
        let b = a.push((k, v));
        assert forall|j: int| 0 <= j < a.len() implies b[j].0 != k by {
            assert(b[j] == a[j]);
        }
        lemma_key_index(b, k, a.len() as int);
    }
}

/// After a push, the elements called `n` are those of before, followed by the
/// pushed element when it is called `n`: so, after any sequence of pushes,
/// `get_all(n)` lists the pushed elements called `n` in the order of pushing.
pub proof fn law_push_extends_named(s: Seq<ElementView>, e: ElementView, n: Seq<char>)
    ensures
        named(s.push(e), n) == (if e.name == n { named(s, n).push(e) } else { named(s, n) }),
{
    lemma_push_named(s, e, n);
}

/// The elements called `n` are exactly those of the sequence whose name is `n`,
/// in order; each of them is called `n`, and no other element is left out.
pub proof fn law_named_is_filter(s: Seq<ElementView>, n: Seq<char>)
    ensures
        named(s, n) == s.filter(|e: ElementView| e.name == n),
        forall|j: int| 0 <= j < named(s, n).len() ==> #[trigger] named(s, n)[j].name == n,
        (named(s, n).len() == 0) <==> (forall|i: int| 0 <= i < s.len() ==> s[i].name != n),
    decreases s.len(),
{
    let f = |e: ElementView| e.name == n;
    lemma_positions(s, n);
    if s.len() > 0 {
        law_named_is_filter(s.drop_last(), n);
        assert(named(s.drop_last(), n) == s.drop_last().filter(f));
        reveal(Seq::filter);
        assert(s.filter(f) == (if f(s.last()) {
            s.drop_last().filter(f).push(s.last())
        } else {
            s.drop_last().filter(f)
        }));
    }
}

/// Setting an attribute on every element called `n` keeps the number, order and
/// names of all elements, and each element called `n` then carries the attribute.
pub proof fn law_attribute_update_keeps_index(
    s: Seq<ElementView>,
    n: Seq<char>,
    k: Seq<char>,
    v: Seq<char>,
)
    ensures
        with_attribute_on(s, n, k, v).len() == s.len(),
        forall|i: int|
            0 <= i < s.len() ==> #[trigger] with_attribute_on(s, n, k, v)[i].name == s[i].name,
        named(with_attribute_on(s, n, k, v), n).len() == named(s, n).len(),
        forall|j: int|
            0 <= j < named(s, n).len() ==> #[trigger] named(with_attribute_on(s, n, k, v), n)[j]
                == element_with_attribute(named(s, n)[j], k, v),
        forall|j: int|
            0 <= j < named(s, n).len() ==> attribute_value(
                #[trigger] named(with_attribute_on(s, n, k, v), n)[j].attributes,
                k,
            ) == Some(v),
    decreases s.len(),
{
    let t = with_attribute_on(s, n, k, v);
    if s.len() > 0 {
        law_attribute_update_keeps_index(s.drop_last(), n, k, v);
        assert(t.drop_last() =~= with_attribute_on(s.drop_last(), n, k, v));
    }
    assert forall|j: int| 0 <= j < named(s, n).len() implies attribute_value(
        #[trigger] named(t, n)[j].attributes,
        k,
    ) == Some(v) by {
        lemma_with_attribute_reads_back(named(s, n)[j].attributes, k, v);
    }
}

impl ElementMap {
    /// The index lists, for each tag name present, every position holding that
    /// name, ascending; names are listed once.
    pub closed spec fn well_formed(&self) -> bool {
        parts_wf(self.indexes@, self.elements@)
    }

    #[verifier::type_invariant]
    spec fn inv(&self) -> bool {
        self.well_formed()
    }

    pub fn new() -> (r: ElementMap)
        ensures
            r@ == Seq::<ElementView>::empty(),
    {
        ElementMap { indexes: Vec::new(), elements: Vec::new() }
    }

    /// Position in `indexes` of the entry for `name`, if there is one.
    fn find_entry(&self, name: &String) -> (r: Option<usize>)
        ensures
            match r {
                Some(i) => i < self.indexes@.len() && self.indexes@[i as int].0@ == name@,
                None => forall|i: int|
                    0 <= i < self.indexes@.len() ==> self.indexes@[i].0@ != name@,
            },
    {
        proof {
            use_type_invariant(self);
        }
        let mut i: usize = 0;
        while i < self.indexes.len()
            invariant
                i <= self.indexes@.len(),
                forall|j: int| 0 <= j < i ==> self.indexes@[j].0@ != name@,
            decreases self.indexes@.len() - i,
        {
            if self.indexes[i].0 == *name {
                return Some(i);
            }
            i = i + 1;
        }
        None
    }

    /// The first element called `name`, if there is one.
    pub fn get(&self, name: &str) -> (r: Option<&XmlElement>)
        ensures
            match r {
                Some(e) => named(self@, name@).len() > 0 && e@ == named(self@, name@)[0],
                None => named(self@, name@).len() == 0,
            },
    {
        proof {
            use_type_invariant(self);
            lemma_positions(self@, name@);
            lemma_elements_view(self.elements@);
        }
        let key = name.to_owned();
        match self.find_entry(&key) {
            Some(i) => {
                let p = self.indexes[i].1[0];
                proof {
                    assert(usizes_view(self.indexes@[i as int].1@)[0] == p);
                }
                Some(&self.elements[p])
            },
            None => {
                proof {
                    assert forall|k: int| 0 <= k < self@.len() implies self@[k].name != name@ by {
                        let i = choose|i: int|
                            0 <= i < self.indexes@.len() && #[trigger] self.indexes@[i].0@
                                == #[trigger] self.elements@[k].name@;
                    }
                }
                None
            },
        }
    }

    /// Every element called `name`, in insertion order; `None` where there is none.
    pub fn get_all(&self, name: &str) -> (r: Option<Vec<&XmlElement>>)
        ensures
            match r {
                Some(v) => named(self@, name@).len() > 0 && refs_view(v@) == named(self@, name@),
                None => named(self@, name@).len() == 0,
            },
    {
        proof {
            use_type_invariant(self);
            lemma_positions(self@, name@);
            lemma_elements_view(self.elements@);
        }
        let key = name.to_owned();
        match self.find_entry(&key) {
            Some(i) => {
                let ps = &self.indexes[i].1;
                let ghost want = named(self@, name@);
                let mut out: Vec<&XmlElement> = Vec::new();
                let mut j: usize = 0;
                while j < ps.len()
                    invariant
                        j <= ps@.len(),
                        ps == &self.indexes@[i as int].1,
                        usizes_view(ps@) == positions_of(self@, name@),
                        want == named(self@, name@),
                        want.len() == ps@.len(),
                        refs_view(out@) == want.take(j as int),
                    decreases ps@.len() - j,
                {
                    let p = ps[j];
                    proof {
                        lemma_positions(self@, name@);
                        lemma_elements_view(self.elements@);
                        assert(usizes_view(ps@)[j as int] == p);
                        assert(self.elements@[p as int]@ == want[j as int]);
                    }
                    let ghost before = out@;
                    out.push(&self.elements[p]);
                    proof {
                        assert(out@ == before.push(&self.elements@[p as int]));
                        assert(refs_view(out@) =~= refs_view(before).push(want[j as int]));
                    }
                    proof {
                        assert(refs_view(out@) =~= want.take(j + 1));
                    }
                    j = j + 1;
                }
                proof {
                    assert(want.take(j as int) =~= want);
                }
                Some(out)
            },
            None => {
                proof {
                    assert forall|k: int| 0 <= k < self@.len() implies self@[k].name != name@ by {
                        let i = choose|i: int|
                            0 <= i < self.indexes@.len() && #[trigger] self.indexes@[i].0@
                                == #[trigger] self.elements@[k].name@;
                    }
                }
                None
            },
        }
    }

    /// All elements, in insertion order.
    pub fn all(&self) -> (r: &[XmlElement])
        ensures
            elements_view(r@) == self@,
    {
        self.elements.as_slice()
    }

    /// Sets the attribute `key` to `value` on every element called `name`;
    /// no element moves and no name changes, so the index stays valid.
    pub fn set_attribute_each(&mut self, name: &str, key: String, value: String)
        ensures
            final(self)@ == with_attribute_on(old(self)@, name@, key@, value@),
    {
        proof {
            use_type_invariant(&*self);
            lemma_elements_view(self.elements@);
        }
        let tag = name.to_owned();
        let mut taken = ElementMap::new();
        std::mem::swap(self, &mut taken);
        let ElementMap { indexes, mut elements } = taken;
        let ghost old_elements = elements@;
        let ghost want = with_attribute_on(old(self)@, name@, key@, value@);
        let mut k: usize = 0;
        while k < elements.len()
            invariant
                k <= elements@.len(),
                elements@.len() == old_elements.len(),
                old_elements.len() == old(self)@.len(),
                want == with_attribute_on(old(self)@, name@, key@, value@),
                forall|i: int| 0 <= i < old_elements.len() ==> old(self)@[i] == #[trigger] old_elements[i]@,
                tag@ == name@,
                forall|i: int| 0 <= i < k ==> #[trigger] elements@[i]@ == want[i],
                forall|i: int| k <= i < elements@.len() ==> #[trigger] elements@[i] == old_elements[i],
            decreases elements@.len() - k,
        {
            if elements[k].name == tag {
                let mut tmp = XmlElement::new(String::new());
                elements.set_and_swap(k, &mut tmp);
                tmp.set_attribute(key.clone(), value.clone());
                elements.set_and_swap(k, &mut tmp);
            }
            k = k + 1;
        }
        proof {
            lemma_elements_view(elements@);
            assert(elements_view(elements@) =~= want);
            assert forall|n: Seq<char>| #[trigger] positions_of(elements_view(elements@), n)
                == positions_of(old(self)@, n) by {
                lemma_positions_same_names(elements_view(elements@), old(self)@, n);
            }
            assert forall|i: int| 0 <= i < elements@.len() implies #[trigger] elements@[i].name@
                == old_elements[i].name@ by {
                assert(elements_view(elements@)[i] == elements@[i]@);
            }
        }
        *self = ElementMap { indexes, elements };
    }

    /// Replaces the data of the first element called `name`, if there is one;
    /// returns whether there was. Names and positions do not change.
    pub fn set_first_data(&mut self, name: &str, data: ElementData) -> (r: bool)
        ensures
            r == (named(old(self)@, name@).len() > 0),
            r ==> ({
                let p = positions_of(old(self)@, name@)[0];
                final(self)@ == old(self)@.update(
                    p,
                    ElementView { data: data_view(data), ..old(self)@[p] },
                )
            }),
            !r ==> final(self)@ == old(self)@,
    {
        proof {
            use_type_invariant(&*self);
            lemma_positions(self@, name@);
            lemma_elements_view(self.elements@);
        }
        let key = name.to_owned();
        match self.find_entry(&key) {
            Some(i) => {
                let p = self.indexes[i].1[0];
                proof {
                    assert(usizes_view(self.indexes@[i as int].1@)[0] == p);
                }
                let ghost dv = data_view(data);
                let mut taken = ElementMap::new();
                std::mem::swap(self, &mut taken);
                let ElementMap { indexes, mut elements } = taken;
                let ghost old_elements = elements@;
                let mut tmp = XmlElement::new(String::new());
                elements.set_and_swap(p, &mut tmp);
                tmp.data = data;
                let ghost changed = tmp@;
                elements.set_and_swap(p, &mut tmp);
                proof {
                    assert(changed == ElementView { data: dv, ..old(self)@[p as int] });
                    lemma_elements_view(elements@);
                    assert(elements_view(elements@) =~= old(self)@.update(p as int, changed));
                    assert forall|n: Seq<char>| #[trigger] positions_of(elements_view(elements@), n)
                        == positions_of(old(self)@, n) by {
                        lemma_positions_same_names(elements_view(elements@), old(self)@, n);
                    }
                    assert forall|k: int| 0 <= k < elements@.len() implies #[trigger] elements@[k].name@
                        == old_elements[k].name@ by {
                        assert(elements_view(elements@)[k] == elements@[k]@);
                    }
                }
                *self = ElementMap { indexes, elements };
                true
            },
            None => {
                proof {
                    assert forall|k: int| 0 <= k < self@.len() implies self@[k].name != name@ by {
                        let i = choose|i: int|
                            0 <= i < self.indexes@.len() && #[trigger] self.indexes@[i].0@
                                == #[trigger] self.elements@[k].name@;
                    }
                }
                false
            },
        }
    }

    /// The number of elements.
    pub fn len(&self) -> (r: usize)
        ensures
            r == self@.len(),
    {
        proof {
            lemma_elements_view(self.elements@);
        }
        self.elements.len()
    }

    /// Appends `elem` and records its position under its tag name.
    pub fn push(&mut self, elem: XmlElement)
        requires
            old(self)@.len() < usize::MAX,
        ensures
            final(self)@ == old(self)@.push(elem@),
    {
        proof {
            use_type_invariant(&*self);
            lemma_elements_view(self.elements@);
        }
        let ghost e = elem@;
        let entry = self.find_entry(&elem.name);
        let mut taken = ElementMap::new();
        std::mem::swap(self, &mut taken);
        let ElementMap { mut indexes, mut elements } = taken;
        push_parts(&mut indexes, &mut elements, elem, entry);
        proof {
            lemma_elements_view_push(old(self).elements@, elements@.last());
        }
        *self = ElementMap { indexes, elements };
    }
}

} // verus!
