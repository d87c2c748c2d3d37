use vstd::prelude::*;
use crate::cleanup::{decimal_attribute, is_decimal_attribute};
use crate::css::texts_view;
use crate::text::{
    copy_chars, eq_str, find_char, index_of, lemma_index_of, split_on, split_on_char, sub_chars, trim,
    trimmed,
};
use crate::tree::{
    attr_get, attrs_view, get_attr, lemma_view_nodes, view_nodes, Attribute, SElement, SNode,
    SvgElement, SvgNode,
};

verus! {

broadcast use lemma_view_nodes;

/// Which attribute texts a scan of a tree collects.
#[derive(Clone, Copy)]
pub enum QueryKind {
    /// The `opacity` attribute values and the values of `opacity` declarations in inline
    /// styles: the texts that the hidden-element pass reads as numbers.
    Opacity,
    /// The values of the attributes whose numbers are rounded.
    Decimal,
}

/// The text as a one-element list, or the empty list.
pub open spec fn opt_texts(o: Option<Seq<char>>) -> Seq<Seq<char>> {
    match o {
        Some(v) => seq![v],
        None => Seq::empty(),
    }
}

/// The value that a (trimmed) style declaration gives `opacity`, if it is one.
pub open spec fn decl_opacity(d: Seq<char>) -> Option<Seq<char>> {
    if d.len() == 0 {
        None
    } else {
        match index_of(d, ':') {
            Some(i) => if trim(d.take(i)) == "opacity"@ {
                Some(trim(d.skip(i + 1)))
            } else {
                None
            },
            None => None,
        }
    }
}

/// The opacity values that the `;`-separated parts of a style set, in order.
pub open spec fn opacity_decls(parts: Seq<Seq<char>>) -> Seq<Seq<char>>
    decreases parts.len(),
{
    if parts.len() == 0 {
        Seq::empty()
    } else {
        opacity_decls(parts.drop_last()) + opt_texts(decl_opacity(trim(parts.last())))
    }
}

/// The values of the numeric attributes, in order.
pub open spec fn decimal_texts(attrs: Seq<(Seq<char>, Seq<char>)>) -> Seq<Seq<char>>
    decreases attrs.len(),
{
    if attrs.len() == 0 {
        Seq::empty()
    } else {
        decimal_texts(attrs.drop_last()) + if is_decimal_attribute(attrs.last().0) {
            seq![attrs.last().1]
        } else {
            Seq::empty()
        }
    }
}

/// The texts of one element's attributes that a scan collects.
pub open spec fn kind_texts(kind: QueryKind, attrs: Seq<(Seq<char>, Seq<char>)>) -> Seq<Seq<char>> {
    match kind {
        QueryKind::Opacity => opt_texts(attr_get(attrs, "opacity"@)) + match attr_get(
            attrs,
            "style"@,
        ) {
            Some(s) => opacity_decls(split_on(s, ';')),
            None => Seq::empty(),
        },
        QueryKind::Decimal => decimal_texts(attrs),
    }
}

/// The texts that a scan collects from `e` and its descendants, in document order.
pub open spec fn tree_texts(e: SElement, kind: QueryKind) -> Seq<Seq<char>>
    decreases e,
{
    kind_texts(kind, e.attributes) + nodes_texts(e.children, kind)
}

pub open spec fn nodes_texts(s: Seq<SNode>, kind: QueryKind) -> Seq<Seq<char>>
    decreases s,
{
    if s.len() == 0 {
        Seq::empty()
    } else {
        nodes_texts(s.drop_last(), kind) + node_texts(s.last(), kind)
    }
}

pub open spec fn node_texts(n: SNode, kind: QueryKind) -> Seq<Seq<char>>
    decreases n,
{
    match n {
        SNode::Element(c) => tree_texts(c, kind),
        _ => Seq::empty(),
    }
}

/// Appends `t` to `out`.
fn push_text(out: &mut Vec<Vec<char>>, t: Vec<char>)
    ensures
        texts_view(final(out)@) == texts_view(old(out)@).push(t@),
{
    let ghost before = texts_view(out@);
    out.push(t);
    assert(texts_view(out@) =~= before.push(t@));
}

/// Appends the opacity value of a trimmed style declaration, if it sets one.
fn push_decl_opacity(d: &[char], out: &mut Vec<Vec<char>>)
    ensures
        texts_view(final(out)@) == texts_view(old(out)@) + opt_texts(decl_opacity(d@)),
{
    let ghost before = texts_view(out@);
    if d.len() == 0 {
        assert(before + opt_texts(decl_opacity(d@)) =~= before);
        return;
    }
    proof {
        lemma_index_of(d@, ':');
    }
    match find_char(d, ':') {
        None => {
            assert(before + opt_texts(decl_opacity(d@)) =~= before);
        },
        Some(i) => {
            let head = sub_chars(d, 0, i);
            let tail = sub_chars(d, i + 1, d.len());
            assert(head@ == d@.take(i as int));
            assert(tail@ == d@.skip(i + 1));
            let p = trimmed(head.as_slice());
            if eq_str(p.as_slice(), "opacity") {
                let v = trimmed(tail.as_slice());
                push_text(out, v);
                assert(opt_texts(decl_opacity(d@)) =~= seq![trim(d@.skip(i + 1))]);
            } else {
                assert(before + opt_texts(decl_opacity(d@)) =~= before);
            }
        },
    }
}

/// Appends the opacity values that an inline style sets.
fn push_style_opacities(style: &[char], out: &mut Vec<Vec<char>>)
    ensures
        texts_view(final(out)@) == texts_view(old(out)@) + opacity_decls(split_on(style@, ';')),
{
    let parts = split_on_char(style, ';');
    let ghost ps = split_on(style@, ';');
    let ghost start = texts_view(out@);
    assert(texts_view(parts@) == ps);
    let mut k: usize = 0;
    while k < parts.len()
        invariant
            k <= parts.len(),
            texts_view(parts@) == ps,
            texts_view(out@) == start + opacity_decls(ps.take(k as int)),
        decreases parts.len() - k,
    {
        assert(ps[k as int] == parts@[k as int]@);
        assert(ps.take(k + 1).drop_last() =~= ps.take(k as int));
        let d = trimmed(parts[k].as_slice());
        let ghost before = texts_view(out@);
        push_decl_opacity(d.as_slice(), out);
        assert(texts_view(out@) =~= start + opacity_decls(ps.take(k + 1)));
        k += 1;
    }
    assert(ps.take(k as int) =~= ps);
}

/// Appends the values of the numeric attributes.
fn push_decimal_values(attrs: &Vec<Attribute>, out: &mut Vec<Vec<char>>)
    ensures
        texts_view(final(out)@) == texts_view(old(out)@) + decimal_texts(attrs_view(attrs@)),
{
    let ghost av = attrs_view(attrs@);
    let ghost start = texts_view(out@);
    let mut k: usize = 0;
    while k < attrs.len()
        invariant
            k <= attrs.len(),
            av == attrs_view(attrs@),
            texts_view(out@) == start + decimal_texts(av.take(k as int)),
        decreases attrs.len() - k,
    {
        assert(av.take(k + 1).drop_last() =~= av.take(k as int));
        assert(av.take(k + 1).last() == (attrs@[k as int].name@, attrs@[k as int].value@));
        if decimal_attribute(attrs[k].name.as_slice()) {
            let v = copy_chars(attrs[k].value.as_slice());
            push_text(out, v);
            assert(texts_view(out@) =~= start + decimal_texts(av.take(k + 1)));
        } else {
            assert(texts_view(out@) =~= start + decimal_texts(av.take(k + 1)));
        }
        k += 1;
    }
    assert(av.take(k as int) =~= av);
}

/// Appends the texts that a scan collects from one element's attributes.
fn push_kind_texts(attrs: &Vec<Attribute>, kind: QueryKind, out: &mut Vec<Vec<char>>)
    ensures
        texts_view(final(out)@) == texts_view(old(out)@) + kind_texts(kind, attrs_view(attrs@)),
{
    let ghost start = texts_view(out@);
    match kind {
        QueryKind::Opacity => {
            match get_attr(attrs, "opacity") {
                Some(v) => {
                    push_text(out, copy_chars(v.as_slice()));
                },
                None => {},
            }
            let ghost mid = texts_view(out@);
            assert(mid =~= start + opt_texts(attr_get(attrs_view(attrs@), "opacity"@)));
            match get_attr(attrs, "style") {
                Some(s) => {
                    push_style_opacities(s.as_slice(), out);
                },
                None => {},
            }
            assert(texts_view(out@) =~= start + kind_texts(kind, attrs_view(attrs@)));
        },
        QueryKind::Decimal => {
            push_decimal_values(attrs, out);
        },
    }
}

/// Appends the texts that a scan of `e` and its descendants collects, in document order.
pub fn collect_texts(e: &SvgElement, kind: QueryKind, out: &mut Vec<Vec<char>>)
    ensures
        texts_view(final(out)@) == texts_view(old(out)@) + tree_texts(e.view_element(), kind),
    decreases e,
{
    let ghost start = texts_view(out@);
    push_kind_texts(&e.attributes, kind, out);
    let ghost own = kind_texts(kind, attrs_view(e.attributes@));
    let ghost cv = e.children@;
    let mut i: usize = 0;
    while i < e.children.len()
        invariant
            i <= e.children.len(),
            cv == e.children@,
            own == kind_texts(kind, attrs_view(e.attributes@)),
            texts_view(out@) == start + own + nodes_texts(view_nodes(cv.take(i as int)), kind),
        decreases e.children.len() - i,
    {
        let ghost x = view_nodes(cv.take(i as int));
        let ghost nv = cv[i as int].view();
        proof {
            assert(cv.take(i + 1).drop_last() =~= cv.take(i as int));
            assert(view_nodes(cv.take(i + 1)) == x.push(nv));
            assert(x.push(nv).drop_last() =~= x);
            assert(nodes_texts(x.push(nv), kind) == nodes_texts(x, kind) + node_texts(nv, kind));
        }
        match &e.children[i] {
            SvgNode::Element(c) => {
                proof {
                    assert(decreases_to!(e => c));
                }
                assert(cv[i as int].view() == SNode::Element(c.view_element()));
                collect_texts(c, kind, out);
                assert(texts_view(out@) =~= start + own + nodes_texts(
                    view_nodes(cv.take(i + 1)),
                    kind,
                ));
            },
            _ => {
                assert(nodes_texts(view_nodes(cv.take(i + 1)), kind) =~= nodes_texts(x, kind));
            },
        }
        i += 1;
    }
    assert(cv.take(i as int) =~= cv);
}

} // verus!
