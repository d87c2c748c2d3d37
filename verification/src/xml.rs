use vstd::prelude::*;
use crate::tree::{Attribute, SvgElement, SvgNode, SElement};

verus! {

#[verifier::external_type_specification]
#[verifier::external_body]
pub struct ExXmlElement(xmltree::Element);

#[verifier::external_type_specification]
#[verifier::external_body]
pub struct ExXmlNode(xmltree::XMLNode);

/// The tree that `xmltree::Element::parse` reads from a document, in the library's model,
/// or the message of its error.
pub uninterp spec fn xml_parse_outcome(input: Seq<char>) -> Result<SElement, Seq<char>>;

/// The bytes that `xmltree::Element::write_with_config` writes for a tree, without
/// indentation and without an XML declaration, or the message of its error.
pub uninterp spec fn xml_write_outcome(root: SElement) -> Result<Seq<u8>, Seq<char>>;

/// The name with which an element's tag opens: its prefix and `:`, then its local name.
pub open spec fn tag_name(e: SElement) -> Seq<char> {
    match e.prefix {
        Some(p) => p + seq![':'] + e.name,
        None => e.name,
    }
}

/// A character that no tag name begins with: `?`, a line feed, a carriage return.
pub open spec fn cannot_open_tag(c: char) -> bool {
    c == '?' || c == '\n' || c == '\r'
}

/// The message of the error that `String::from_utf8` gives for bytes that are not UTF-8.
pub uninterp spec fn utf8_error_message(bytes: Seq<u8>) -> Seq<char>;

/// Converts an `xmltree` element into the library's tree, field by field; the attributes
/// keep their order (the crate is built with its `attribute-order` feature), the namespace
/// declarations come in the sorted order of their map.
#[verifier::external_body]
fn element_from_xml(e: xmltree::Element) -> SvgElement {
    SvgElement {
        prefix: e.prefix.map(|p| p.chars().collect()),
        namespace: e.namespace.map(|n| n.chars().collect()),
        namespaces: e.namespaces.map(|ns| ns.0.into_iter().map(|(k, v)| (k.chars().collect(), v.chars().collect())).collect()),
        name: e.name.chars().collect(),
        attributes: e.attributes.into_iter().map(|(k, v)| Attribute { name: k.chars().collect(), value: v.chars().collect() }).collect(),
        children: e.children.into_iter().map(node_from_xml).collect(),
    }
}

/// Converts one `xmltree` node, variant for variant.
#[verifier::external_body]
fn node_from_xml(n: xmltree::XMLNode) -> SvgNode {
    match n {
        xmltree::XMLNode::Element(e) => SvgNode::Element(element_from_xml(e)),
        xmltree::XMLNode::Comment(t) => SvgNode::Comment(t.chars().collect()),
        xmltree::XMLNode::CData(t) => SvgNode::CData(t.chars().collect()),
        xmltree::XMLNode::Text(t) => SvgNode::Text(t.chars().collect()),
        xmltree::XMLNode::ProcessingInstruction(n, d) => SvgNode::ProcessingInstruction(n.chars().collect(), d.map(|d| d.chars().collect())),
    }
}

/// Converts the library's tree into an `xmltree` element, field by field.
#[verifier::external_body]
fn element_to_xml(e: &SvgElement) -> xmltree::Element {
    xmltree::Element {
        prefix: e.prefix.as_ref().map(|p| p.iter().collect()),
        namespace: e.namespace.as_ref().map(|n| n.iter().collect()),
        namespaces: e.namespaces.as_ref().map(|ns| xmltree::Namespace(ns.iter().map(|(k, v)| (k.iter().collect(), v.iter().collect())).collect())),
        name: e.name.iter().collect(),
        attributes: e.attributes.iter().map(|a| (a.name.iter().collect(), a.value.iter().collect())).collect(),
        children: e.children.iter().map(node_to_xml).collect(),
    }
}

/// Converts one node of the library's tree, variant for variant.
#[verifier::external_body]
fn node_to_xml(n: &SvgNode) -> xmltree::XMLNode {
    match n {
        SvgNode::Element(e) => xmltree::XMLNode::Element(element_to_xml(e)),
        SvgNode::Comment(t) => xmltree::XMLNode::Comment(t.iter().collect()),
        SvgNode::CData(t) => xmltree::XMLNode::CData(t.iter().collect()),
        SvgNode::Text(t) => xmltree::XMLNode::Text(t.iter().collect()),
        SvgNode::ProcessingInstruction(n, d) => xmltree::XMLNode::ProcessingInstruction(n.iter().collect(), d.as_ref().map(|d| d.iter().collect())),
    }
}

/// Calls `xmltree::Element::parse` on the document and converts its tree; the error is
/// the message that its `Display` gives. The contract claims only that the outcome is a
/// function of the document (attributes keep their order, namespaces sit in a sorted map).
/// The crate's `unreachable!` after the parse is not reached: its reader reports a document
/// without a root element as an error. The root's tag name is not empty and begins with a
/// name-start character, which the `xml` reader demands of an opening tag (so not `?`, a
/// line feed or a carriage return).
#[verifier::external_body]
pub(crate) fn parse_xml(input: &str) -> (r: Result<SvgElement, String>)
    ensures
        match r {
            Ok(e) => xml_parse_outcome(input@) == Ok::<SElement, Seq<char>>(e.view_element())
                && tag_name(e.view_element()).len() > 0 && !cannot_open_tag(
                tag_name(e.view_element())[0],
            ),
            Err(m) => xml_parse_outcome(input@) == Err::<SElement, Seq<char>>(m@),
        },
{
    match xmltree::Element::parse(input.as_bytes()) {
        Ok(root) => Ok(element_from_xml(root)),
        Err(e) => Err(e.to_string()),
    }
}

/// Calls `xmltree::Element::write_with_config` with indentation and the XML declaration
/// turned off; the error is the message that its `Display` gives. The contract claims that
/// the outcome is a function of the tree, and that the bytes begin with the root's opening
/// tag: the `xml` writer emits no declaration when told so and no indentation, so `<` and
/// the tag name come first (an empty name is followed by ` `, `/` or `>`).
#[verifier::external_body]
pub(crate) fn write_xml(root: &SvgElement) -> (r: Result<Vec<u8>, String>)
    ensures
        match r {
            Ok(b) => xml_write_outcome(root.view_element()) == Ok::<Seq<u8>, Seq<char>>(b@)
                && b@.len() >= 2 && b@[0] == 60u8 && (b@[1] < 128u8 && cannot_open_tag(
                (b@[1] as u32) as char,
            ) ==> tag_name(root.view_element()).len() > 0 && tag_name(root.view_element())[0] == (
            b@[1] as u32) as char),
            Err(m) => xml_write_outcome(root.view_element()) == Err::<Seq<u8>, Seq<char>>(m@),
        },
{
    let mut buf = Vec::new();
    let config = xmltree::EmitterConfig::new().perform_indent(false).write_document_declaration(false);
    match element_to_xml(root).write_with_config(&mut buf, config) {
        Ok(()) => Ok(buf),
        Err(e) => Err(e.to_string()),
    }
}

/// Calls `String::from_utf8`, which succeeds exactly on valid UTF-8 and then holds the
/// decoded characters; the error is the message that its `Display` gives.
#[verifier::external_body]
pub(crate) fn decode_utf8(bytes: Vec<u8>) -> (r: Result<String, String>)
    ensures
        match r {
            Ok(s) => vstd::utf8::valid_utf8(bytes@) && s@ == vstd::utf8::decode_utf8(bytes@),
            Err(m) => !vstd::utf8::valid_utf8(bytes@) && m@ == utf8_error_message(bytes@),
        },
{
    match String::from_utf8(bytes) {
        Ok(s) => Ok(s),
        Err(e) => Err(e.to_string()),
    }
}

} // verus!
