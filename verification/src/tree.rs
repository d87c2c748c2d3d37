use vstd::prelude::*;

verus! {

/// A run of characters, the form in which the library holds all text.
pub type Text = Vec<char>;

/// One attribute of an element.
#[derive(Clone, Debug)]
pub struct Attribute {
    pub name: Text,
    pub value: Text,
}

/// A node of a document tree.
#[derive(Debug)]
pub enum SvgNode {
    Element(SvgElement),
    Comment(Text),
    CData(Text),
    Text(Text),
    ProcessingInstruction(Text, Option<Text>),
}

/// An element of a document tree.
#[derive(Debug)]
pub struct SvgElement {
    pub prefix: Option<Text>,
    pub namespace: Option<Text>,
    pub namespaces: Option<Vec<(Text, Text)>>,
    pub name: Text,
    pub attributes: Vec<Attribute>,
    pub children: Vec<SvgNode>,
}

/// The mathematical model of a node.
pub ghost enum SNode {
    Element(SElement),
    Comment(Seq<char>),
    CData(Seq<char>),
    Text(Seq<char>),
    ProcessingInstruction(Seq<char>, Option<Seq<char>>),
}

/// The mathematical model of an element.
pub ghost struct SElement {
    pub prefix: Option<Seq<char>>,
    pub namespace: Option<Seq<char>>,
    pub namespaces: Option<Seq<(Seq<char>, Seq<char>)>>,
    pub name: Seq<char>,
    pub attributes: Seq<(Seq<char>, Seq<char>)>,
    pub children: Seq<SNode>,
}

pub open spec fn opt_text_view(t: Option<Text>) -> Option<Seq<char>> {
    match t {
        Some(v) => Some(v@),
        None => None,
    }
}

impl SvgNode {
    pub open spec fn view(&self) -> SNode
        decreases self,
    {
        match self {
            SvgNode::Element(e) => SNode::Element(e.view_element()),
            SvgNode::Comment(t) => SNode::Comment(t@),
            SvgNode::CData(t) => SNode::CData(t@),
            SvgNode::Text(t) => SNode::Text(t@),
            SvgNode::ProcessingInstruction(n, d) => SNode::ProcessingInstruction(n@, opt_text_view(*d)),
        }
    }
}

pub open spec fn view_nodes(nodes: Seq<SvgNode>) -> Seq<SNode>
    decreases nodes,
{
    if nodes.len() == 0 {
        Seq::empty()
    } else {
        view_nodes(nodes.drop_last()).push(nodes.last().view())
    }
}

impl SvgElement {
    pub open spec fn view_element(&self) -> SElement
        decreases self,
    {
        SElement {
            prefix: opt_text_view(self.prefix),
            namespace: opt_text_view(self.namespace),
            namespaces: match self.namespaces {
                Some(ns) => Some(ns@.map_values(|p: (Text, Text)| (p.0@, p.1@))),
                None => None,
            },
            name: self.name@,
            attributes: self.attributes@.map_values(|a: Attribute| (a.name@, a.value@)),
            children: view_nodes(self.children@),
        }
    }
}

/// The model of a list of nodes has one node for each node, in order.
pub broadcast proof fn lemma_view_nodes(nodes: Seq<SvgNode>)
    ensures
        #[trigger] view_nodes(nodes).len() == nodes.len(),
        forall|i: int| 0 <= i < nodes.len() ==> #[trigger] view_nodes(nodes)[i] == nodes[i].view(),
    decreases nodes.len(),
{
    if nodes.len() > 0 {
        lemma_view_nodes(nodes.drop_last());
    }
}

/// The model of a list of attributes.
pub open spec fn attrs_view(attrs: Seq<Attribute>) -> Seq<(Seq<char>, Seq<char>)> {
    attrs.map_values(|a: Attribute| (a.name@, a.value@))
}

/// An element that is `e` with other children.
pub open spec fn with_children(e: SElement, children: Seq<SNode>) -> SElement {
    SElement { children, ..e }
}

/// An element that is `e` with other attributes.
pub open spec fn with_attributes(e: SElement, attributes: Seq<(Seq<char>, Seq<char>)>) -> SElement {
    SElement { attributes, ..e }
}

/* ------------------------------------------------------------------ */
/*  Attributes                                                        */
/* ------------------------------------------------------------------ */

/// The position of the first attribute named `k` at or after `i`.
pub open spec fn attr_index_from(attrs: Seq<(Seq<char>, Seq<char>)>, k: Seq<char>, i: int) -> Option<int>
    decreases attrs.len() - i,
{
    if i < 0 || i >= attrs.len() {
        None
    } else if attrs[i].0 == k {
        Some(i)
    } else {
        attr_index_from(attrs, k, i + 1)
    }
}

/// The position of the attribute named `k`.
pub open spec fn attr_index(attrs: Seq<(Seq<char>, Seq<char>)>, k: Seq<char>) -> Option<int> {
    attr_index_from(attrs, k, 0)
}

/// The value of the attribute named `k`, as a map lookup gives it.
pub open spec fn attr_get(attrs: Seq<(Seq<char>, Seq<char>)>, k: Seq<char>) -> Option<Seq<char>> {
    match attr_index(attrs, k) {
        Some(i) => Some(attrs[i].1),
        None => None,
    }
}

/// Whether there is an attribute named `k`.
pub open spec fn attr_has(attrs: Seq<(Seq<char>, Seq<char>)>, k: Seq<char>) -> bool {
    attr_index(attrs, k) is Some
}

/// The attributes with `k` set to `v`: an attribute named `k` keeps its place and takes the
/// new value, as a map insertion does; otherwise the attribute is added at the end.
pub open spec fn attr_insert(
    attrs: Seq<(Seq<char>, Seq<char>)>,
    k: Seq<char>,
    v: Seq<char>,
) -> Seq<(Seq<char>, Seq<char>)> {
    match attr_index(attrs, k) {
        Some(i) => attrs.update(i, (k, v)),
        None => attrs.push((k, v)),
    }
}

/// The attributes without any named `k`.
pub open spec fn attr_remove(attrs: Seq<(Seq<char>, Seq<char>)>, k: Seq<char>) -> Seq<
    (Seq<char>, Seq<char>),
>
    decreases attrs.len(),
{
    if attrs.len() == 0 {
        attrs
    } else if attrs.last().0 == k {
        attr_remove(attrs.drop_last(), k)
    } else {
        attr_remove(attrs.drop_last(), k).push(attrs.last())
    }
}

pub proof fn lemma_attr_index_from(attrs: Seq<(Seq<char>, Seq<char>)>, k: Seq<char>, i: int)
    requires
        0 <= i,
    ensures
        attr_index_from(attrs, k, i) matches Some(j) ==> i <= j < attrs.len() && attrs[j].0 == k
            && forall|m: int| i <= m < j ==> attrs[m].0 != k,
        attr_index_from(attrs, k, i) is None ==> forall|m: int| i <= m < attrs.len() ==> attrs[m].0 != k,
    decreases attrs.len() - i,
{
    if i < attrs.len() && attrs[i].0 != k {
        lemma_attr_index_from(attrs, k, i + 1);
    }
}

pub proof fn lemma_attr_index(attrs: Seq<(Seq<char>, Seq<char>)>, k: Seq<char>)
    ensures
        attr_index(attrs, k) matches Some(j) ==> 0 <= j < attrs.len() && attrs[j].0 == k && forall|
            m: int,
        | 0 <= m < j ==> attrs[m].0 != k,
        attr_index(attrs, k) is None ==> forall|m: int| 0 <= m < attrs.len() ==> attrs[m].0 != k,
{
    lemma_attr_index_from(attrs, k, 0);
}

proof fn lemma_attr_get_push(attrs: Seq<(Seq<char>, Seq<char>)>, a: (Seq<char>, Seq<char>), k: Seq<char>)
    ensures
        attr_get(attrs.push(a), k) == match attr_get(attrs, k) {
            Some(v) => Some(v),
            None => if a.0 == k {
                Some(a.1)
            } else {
                None
            },
        },
{
    let p = attrs.push(a);
    lemma_attr_index(attrs, k);
    lemma_attr_index(p, k);
    assert(forall|m: int| 0 <= m < attrs.len() ==> p[m] == attrs[m]);
    match attr_index(attrs, k) {
        Some(j) => {
            assert(p[j].0 == k);
            if let Some(j2) = attr_index(p, k) {
                assert(j2 <= j);
                assert(j2 == j);
            }
        },
        None => {
            if a.0 == k {
                assert(p[attrs.len() as int].0 == k);
            }
        },
    }
}

/// Removing an attribute: it reads as absent afterwards, and every other attribute reads
/// as before.
pub proof fn law_attr_get_remove(attrs: Seq<(Seq<char>, Seq<char>)>, k: Seq<char>, other: Seq<char>)
    ensures
        attr_get(attr_remove(attrs, k), k) is None,
        other != k ==> attr_get(attr_remove(attrs, k), other) == attr_get(attrs, other),
    decreases attrs.len(),
{
    if attrs.len() > 0 {
        law_attr_get_remove(attrs.drop_last(), k, other);
        let r = attr_remove(attrs.drop_last(), k);
        assert(attrs.drop_last().push(attrs.last()) =~= attrs);
        lemma_attr_get_push(attrs.drop_last(), attrs.last(), other);
        if attrs.last().0 != k {
            lemma_attr_get_push(r, attrs.last(), k);
            lemma_attr_get_push(r, attrs.last(), other);
        }
    }
}

/// Setting an attribute: it reads as the value set, and every other attribute reads as
/// before.
pub proof fn law_attr_get_insert(
    attrs: Seq<(Seq<char>, Seq<char>)>,
    k: Seq<char>,
    v: Seq<char>,
    other: Seq<char>,
)
    ensures
        attr_get(attr_insert(attrs, k, v), k) == Some(v),
        other != k ==> attr_get(attr_insert(attrs, k, v), other) == attr_get(attrs, other),
{
    lemma_attr_index(attrs, k);
    lemma_attr_index(attrs, other);
    let r = attr_insert(attrs, k, v);
    lemma_attr_index(r, k);
    lemma_attr_index(r, other);
    match attr_index(attrs, k) {
        Some(i) => {
            assert(r[i].0 == k);
            if let Some(j) = attr_index(r, k) {
                assert(j == i);
            }
            if other != k {
                match attr_index(attrs, other) {
                    Some(j) => {
                        assert(r[j].0 == other);
                        if let Some(j2) = attr_index(r, other) {
                            assert(j2 == j);
                        }
                    },
                    None => {},
                }
            }
        },
        None => {
            lemma_attr_get_push(attrs, (k, v), k);
            lemma_attr_get_push(attrs, (k, v), other);
        },
    }
}

/// The position of the attribute named `key`.
pub fn find_attr(attrs: &Vec<Attribute>, key: &str) -> (r: Option<usize>)
    ensures
        match r {
            Some(i) => attr_index(attrs_view(attrs@), key@) == Some(i as int) && i < attrs@.len(),
            None => attr_index(attrs_view(attrs@), key@) is None,
        },
{
    let k = crate::text::chars_of(key);
    let ghost av = attrs_view(attrs@);
    let mut i: usize = 0;
    while i < attrs.len()
        invariant
            i <= attrs.len(),
            av == attrs_view(attrs@),
            k@ == key@,
            attr_index(av, key@) == attr_index_from(av, key@, i as int),
        decreases attrs.len() - i,
    {
        assert(av[i as int].0 == attrs@[i as int].name@);
        if crate::text::eq_chars(attrs[i].name.as_slice(), k.as_slice()) {
            return Some(i);
        }
        i += 1;
    }
    None
}

/// The value of the attribute named `key`, if there is one.
pub fn get_attr<'a>(attrs: &'a Vec<Attribute>, key: &str) -> (r: Option<&'a Vec<char>>)
    ensures
        match r {
            Some(v) => attr_get(attrs_view(attrs@), key@) == Some(v@),
            None => attr_get(attrs_view(attrs@), key@) is None,
        },
{
    match find_attr(attrs, key) {
        Some(i) => Some(&attrs[i].value),
        None => None,
    }
}

/// Whether there is an attribute named `key`.
pub fn has_attr(attrs: &Vec<Attribute>, key: &str) -> (r: bool)
    ensures
        r == attr_has(attrs_view(attrs@), key@),
{
    find_attr(attrs, key).is_some()
}

/// Removes every attribute named `key`.
pub fn remove_attr(attrs: &mut Vec<Attribute>, key: &str)
    ensures
        attrs_view(final(attrs)@) == attr_remove(attrs_view(old(attrs)@), key@),
{
    let k = crate::text::chars_of(key);
    let mut old_attrs: Vec<Attribute> = Vec::new();
    std::mem::swap(&mut old_attrs, attrs);
    let ghost ov = attrs_view(old_attrs@);
    for a in it: old_attrs.into_iter()
        invariant
            it.seq() == old_attrs@,
            k@ == key@,
            ov == attrs_view(old_attrs@),
            attrs_view(attrs@) == attr_remove(ov.take(it.index() as int), key@),
    {
        let ghost i = it.index() as int;
        assert(ov.take(i + 1).drop_last() =~= ov.take(i));
        assert(ov.take(i + 1).last() == (a.name@, a.value@));
        if !crate::text::eq_chars(a.name.as_slice(), k.as_slice()) {
            let ghost before = attrs_view(attrs@);
            attrs.push(a);
            assert(attrs_view(attrs@) =~= before.push(ov[i]));
        }
    }
    assert(ov.take(ov.len() as int) =~= ov);
}

/// Sets the attribute named `key` to `value`, in place if it exists, else at the end.
pub fn insert_attr(attrs: &mut Vec<Attribute>, key: Vec<char>, value: Vec<char>)
    ensures
        attrs_view(final(attrs)@) == attr_insert(attrs_view(old(attrs)@), key@, value@),
{
    let s = crate::text::string_of(key.as_slice());
    match find_attr(attrs, s.as_str()) {
        Some(i) => {
            let ghost before = attrs_view(attrs@);
            attrs.set(i, Attribute { name: key, value });
            assert(attrs_view(attrs@) =~= before.update(i as int, (s@, value@)));
        },
        None => {
            let ghost before = attrs_view(attrs@);
            attrs.push(Attribute { name: key, value });
            assert(attrs_view(attrs@) =~= before.push((s@, value@)));
        },
    }
}

/// Whether no attribute is named `k`.
pub open spec fn attr_absent(attrs: Seq<(Seq<char>, Seq<char>)>, k: Seq<char>) -> bool {
    forall|m: int| 0 <= m < attrs.len() ==> (#[trigger] attrs[m]).0 != k
}

/// Removing `k` leaves no attribute named `k`, adds no name, and changes nothing where
/// there was none.
pub proof fn lemma_attr_remove_absent(
    attrs: Seq<(Seq<char>, Seq<char>)>,
    k: Seq<char>,
    other: Seq<char>,
)
    ensures
        attr_absent(attr_remove(attrs, k), k),
        attr_absent(attrs, other) ==> attr_absent(attr_remove(attrs, k), other),
        attr_absent(attrs, k) ==> attr_remove(attrs, k) == attrs,
    decreases attrs.len(),
{
    if attrs.len() > 0 {
        let front = attrs.drop_last();
        lemma_attr_remove_absent(front, k, other);
        let r = attr_remove(front, k);
        assert(attr_absent(attrs, other) ==> attr_absent(front, other)) by {
            if attr_absent(attrs, other) {
                assert forall|m: int| 0 <= m < front.len() implies (#[trigger] front[m]).0 != other by {
                    assert(front[m] == attrs[m]);
                }
            }
        }
        assert(attr_absent(attrs, k) ==> attr_absent(front, k)) by {
            if attr_absent(attrs, k) {
                assert forall|m: int| 0 <= m < front.len() implies (#[trigger] front[m]).0 != k by {
                    assert(front[m] == attrs[m]);
                }
            }
        }
        if attrs.last().0 != k {
            let p = r.push(attrs.last());
            assert forall|m: int| 0 <= m < p.len() implies (#[trigger] p[m]).0 != k by {
                if m < r.len() {
                    assert(p[m] == r[m]);
                }
            }
            if attr_absent(attrs, other) {
                assert(attrs[attrs.len() - 1] == attrs.last());
                assert forall|m: int| 0 <= m < p.len() implies (#[trigger] p[m]).0 != other by {
                    if m < r.len() {
                        assert(p[m] == r[m]);
                    }
                }
            }
            assert(front.push(attrs.last()) =~= attrs);
        } else {
            if attr_absent(attrs, k) {
                assert(attrs[attrs.len() - 1] == attrs.last());
            }
        }
    }
}

/// Setting `k` adds no other name, and setting it to the value it has changes nothing.
pub proof fn lemma_attr_insert_absent(
    attrs: Seq<(Seq<char>, Seq<char>)>,
    k: Seq<char>,
    v: Seq<char>,
    other: Seq<char>,
)
    ensures
        other != k && attr_absent(attrs, other) ==> attr_absent(attr_insert(attrs, k, v), other),
        attr_get(attrs, k) == Some(v) ==> attr_insert(attrs, k, v) == attrs,
{
    lemma_attr_index(attrs, k);
    let r = attr_insert(attrs, k, v);
    if other != k && attr_absent(attrs, other) {
        assert forall|m: int| 0 <= m < r.len() implies (#[trigger] r[m]).0 != other by {
            match attr_index(attrs, k) {
                Some(i) => {
                    if m != i {
                        assert(r[m] == attrs[m]);
                    }
                },
                None => {
                    if m < attrs.len() {
                        assert(r[m] == attrs[m]);
                    }
                },
            }
        }
    }
    if attr_get(attrs, k) == Some(v) {
        if let Some(i) = attr_index(attrs, k) {
            assert(attrs.update(i, (k, v)) =~= attrs);
        }
    }
}

} // verus!
