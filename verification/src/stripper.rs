use vstd::prelude::*;
use crate::cleanup::{
    colors_element, comments_fn, hidden_fn, map_element, map_elements, metadata_fn, optimize_colors,
    pairs_view, prune, prune_element, remove_all_empty_groups, remove_empty_groups_spec, round_fn,
    strip_namespaces_fn, strip_whitespace, ws_element, HeaderRule, PruneRule,
};
use crate::component::{
    apply_icon_style, apply_icon_style_spec, clean_component_root, clean_component_root_spec,
    component_root_error, inline_component_styles, inline_styles_spec, unwrap_element,
    unwrap_redundant_groups, validate_component_root,
};
use crate::css::{texts_view, SResult};
use crate::error::SvgStripError;
use crate::icon::IconSize;
use crate::queries::{collect_texts, tree_texts, QueryKind};
use crate::references::{strip_unused_ids, strip_unused_ids_spec};
use crate::text::{chars_of, eq_str, starts_with, starts_with_chars, string_of};
use crate::tree::{attrs_view, with_attributes, Attribute, SElement, SvgElement};
use crate::xml::{decode_utf8, parse_xml, utf8_error_message, write_xml, xml_parse_outcome, xml_write_outcome};

verus! {

broadcast use vstd::string::group_string_axioms;

/// Which optimizations run.
#[derive(Debug, Clone)]
pub struct StripConfig {
    pub remove_metadata: bool,
    pub remove_comments: bool,
    pub remove_hidden: bool,
    pub strip_ids: bool,
    pub remove_empty_groups: bool,
    pub strip_whitespace: bool,
    pub inline_mode: bool,
    pub component_mode: bool,
    pub icon_size: Option<IconSize>,
    pub color_shrink: bool,
    pub decimal_precision: Option<u8>,
}

impl Default for StripConfig {
    /// Every clean-up on; no inline, component or icon mode; no rounding.
    fn default() -> (r: Self)
        ensures
            r.remove_metadata && r.remove_comments && r.remove_hidden && r.strip_ids
                && r.remove_empty_groups && r.strip_whitespace && r.color_shrink,
            !r.inline_mode && !r.component_mode,
            r.icon_size is None,
            r.decimal_precision is None,
    {
        Self {
            remove_metadata: true,
            remove_comments: true,
            remove_hidden: true,
            strip_ids: true,
            remove_empty_groups: true,
            strip_whitespace: true,
            inline_mode: false,
            component_mode: false,
            icon_size: None,
            color_shrink: true,
            decimal_precision: None,
        }
    }
}

/// What an optimization reports.
#[derive(Debug)]
pub struct OptimizeStats {
    pub colors_shrunk: bool,
}

impl Default for OptimizeStats {
    /// Nothing reported yet.
    fn default() -> (r: Self)
        ensures
            !r.colors_shrunk,
    {
        Self { colors_shrunk: false }
    }
}

/// What the library needs to know of numbers, which it does not read itself: the opacity
/// texts that read as the number zero, and the rounded form of numeric attribute values.
#[derive(Debug, Clone)]
pub struct NumberFacts {
    /// The opacity texts that read as the number zero.
    pub zero_opacity: Vec<String>,
    /// Numeric attribute values, each with its rounded form; a value that is not listed
    /// stays as it is.
    pub rounded: Vec<(String, String)>,
}

/// The texts whose numeric meaning an optimization asks about.
#[derive(Debug)]
pub struct NumberQueries {
    /// The `opacity` values, and the `opacity` declarations of inline styles, of the tree
    /// that the hidden-element pass reads.
    pub opacity_values: Vec<String>,
    /// The values of the numeric attributes of that tree.
    pub decimal_values: Vec<String>,
}

/// The model of a list of strings.
pub open spec fn strings_view(v: Seq<String>) -> Seq<Seq<char>> {
    v.map_values(|s: String| s@)
}

/// The model of a table of pairs of strings.
pub open spec fn string_pairs_view(v: Seq<(String, String)>) -> Seq<(Seq<char>, Seq<char>)> {
    v.map_values(|p: (String, String)| (p.0@, p.1@))
}

impl NumberFacts {
    /// The opacity texts that read as zero, as texts.
    pub open spec fn zero(&self) -> Seq<Seq<char>> {
        strings_view(self.zero_opacity@)
    }

    /// The rounding table, as texts.
    pub open spec fn table(&self) -> Seq<(Seq<char>, Seq<char>)> {
        string_pairs_view(self.rounded@)
    }
}

/// Whether component mode is on, as icon mode implies it.
pub open spec fn component_mode_of(c: StripConfig) -> bool {
    c.component_mode || c.icon_size is Some
}

/// The attributes without those whose name begins with `xmlns`.
pub open spec fn without_xmlns(attrs: Seq<(Seq<char>, Seq<char>)>) -> Seq<(Seq<char>, Seq<char>)>
    decreases attrs.len(),
{
    if attrs.len() == 0 {
        attrs
    } else if starts_with(attrs.last().0, "xmlns"@) {
        without_xmlns(attrs.drop_last())
    } else {
        without_xmlns(attrs.drop_last()).push(attrs.last())
    }
}

/// The tree after the passes that come before hidden elements are removed: component
/// checks, namespaces, metadata, comments, and the component's styles and root.
pub open spec fn prepare_spec(c: StripConfig, e: SElement) -> SResult<SElement> {
    let component = component_mode_of(c);
    if component && component_root_error(e) is Some {
        Err(component_root_error(e)->0)
    } else {
        let e1 = if (c.inline_mode || component) && e.name == "svg"@ {
            map_elements(with_attributes(e, without_xmlns(e.attributes)), strip_namespaces_fn())
        } else {
            e
        };
        let e2 = if c.remove_metadata {
            prune(e1, metadata_fn())
        } else {
            e1
        };
        let e3 = if c.remove_comments {
            prune(e2, comments_fn())
        } else {
            e2
        };
        if component {
            match inline_styles_spec(e3) {
                Err(m) => Err(m),
                Ok(e4) => clean_component_root_spec(e4),
            }
        } else {
            Ok(e3)
        }
    }
}

/// The tree after the remaining passes, given the numeric facts; the flag tells whether a
/// color was shortened.
pub open spec fn finish_spec(
    c: StripConfig,
    e: SElement,
    zero: Seq<Seq<char>>,
    table: Seq<(Seq<char>, Seq<char>)>,
) -> SResult<(SElement, bool)> {
    let e5 = if c.remove_hidden {
        prune(e, hidden_fn(zero))
    } else {
        e
    };
    let e6 = if c.strip_ids {
        strip_unused_ids_spec(e5)
    } else {
        e5
    };
    let e7 = if c.remove_empty_groups {
        remove_empty_groups_spec(e6)
    } else {
        e6
    };
    let e8 = if c.strip_whitespace {
        ws_element(e7)
    } else {
        e7
    };
    let (e9, shrunk) = if c.color_shrink {
        colors_element(e8)
    } else {
        (e8, false)
    };
    let e10 = if c.decimal_precision is Some {
        map_elements(e9, round_fn(table))
    } else {
        e9
    };
    let e11 = if component_mode_of(c) {
        unwrap_element(e10)
    } else {
        e10
    };
    match c.icon_size {
        Some(size) => match apply_icon_style_spec(e11, size@) {
            Err(m) => Err(m),
            Ok(e12) => Ok((e12, shrunk)),
        },
        None => Ok((e11, shrunk)),
    }
}

/// The optimized tree and whether a color was shortened.
pub open spec fn optimize_spec(
    c: StripConfig,
    e: SElement,
    zero: Seq<Seq<char>>,
    table: Seq<(Seq<char>, Seq<char>)>,
) -> SResult<(SElement, bool)> {
    match prepare_spec(c, e) {
        Err(m) => Err(m),
        Ok(a) => finish_spec(c, a, zero, table),
    }
}

/// `s` without line feeds and carriage returns.
pub open spec fn without_line_breaks(s: Seq<char>) -> Seq<char>
    decreases s.len(),
{
    if s.len() == 0 {
        s
    } else if s.last() == '\n' || s.last() == '\r' {
        without_line_breaks(s.drop_last())
    } else {
        without_line_breaks(s.drop_last()).push(s.last())
    }
}

/// The minified document and whether a color was shortened: the document as `xmltree`
/// reads it, optimized, written by `xmltree` and decoded, without line breaks.
pub open spec fn strip_spec(
    c: StripConfig,
    input: Seq<char>,
    zero: Seq<Seq<char>>,
    table: Seq<(Seq<char>, Seq<char>)>,
) -> SResult<(Seq<char>, bool)> {
    match xml_parse_outcome(input) {
        Err(m) => Err(m),
        Ok(t) => match optimize_spec(c, t, zero, table) {
            Err(m) => Err(m),
            Ok((t2, shrunk)) => match xml_write_outcome(t2) {
                Err(m) => Err(m),
                Ok(bytes) => if vstd::utf8::valid_utf8(bytes) {
                    Ok((without_line_breaks(vstd::utf8::decode_utf8(bytes)), shrunk))
                } else {
                    Err(utf8_error_message(bytes))
                },
            },
        },
    }
}

/// The opacity texts and the numeric attribute values of the document as `xmltree` reads
/// it, after the passes that come before hidden elements are removed.
pub open spec fn queries_spec(c: StripConfig, input: Seq<char>) -> SResult<
    (Seq<Seq<char>>, Seq<Seq<char>>),
> {
    match xml_parse_outcome(input) {
        Err(m) => Err(m),
        Ok(t) => match prepare_spec(c, t) {
            Err(m) => Err(m),
            Ok(a) => Ok((tree_texts(a, QueryKind::Opacity), tree_texts(a, QueryKind::Decimal))),
        },
    }
}

proof fn lemma_no_line_breaks(s: Seq<char>)
    ensures
        !without_line_breaks(s).contains('\n'),
        !without_line_breaks(s).contains('\r'),
    decreases s.len(),
{
    if s.len() > 0 {
        lemma_no_line_breaks(s.drop_last());
        let r = without_line_breaks(s.drop_last());
        if !(s.last() == '\n' || s.last() == '\r') {
            assert forall|i: int| 0 <= i < r.push(s.last()).len() implies r.push(s.last())[i] != '\n'
                && r.push(s.last())[i] != '\r' by {
                if i < r.len() {
                    assert(r.push(s.last())[i] == r[i]);
                    assert(r.contains(r[i]));
                }
            }
        }
    }
}

/// The minified document is a single line: it holds no line feed and no carriage return.
pub proof fn law_output_single_line(
    c: StripConfig,
    input: Seq<char>,
    zero: Seq<Seq<char>>,
    table: Seq<(Seq<char>, Seq<char>)>,
)
    ensures
        strip_spec(c, input, zero, table) matches Ok((out, _)) ==> !out.contains('\n')
            && !out.contains('\r'),
{
    if let Ok(t) = xml_parse_outcome(input) {
        if let Ok((t2, _)) = optimize_spec(c, t, zero, table) {
            if let Ok(bytes) = xml_write_outcome(t2) {
                lemma_no_line_breaks(vstd::utf8::decode_utf8(bytes));
            }
        }
    }
}

/// Asking for the numbers of a document fails exactly as stripping it would before its
/// numbers matter: where the queries fail, stripping fails with the same message, whatever
/// the facts; where they succeed, the document was read and prepared.
pub proof fn law_queries_fail_as_strip(
    c: StripConfig,
    input: Seq<char>,
    zero: Seq<Seq<char>>,
    table: Seq<(Seq<char>, Seq<char>)>,
)
    ensures
        queries_spec(c, input) matches Err(m) ==> strip_spec(c, input, zero, table) == Err::<
            (Seq<char>, bool),
            Seq<char>,
        >(m),
        queries_spec(c, input) is Ok ==> (xml_parse_outcome(input) matches Ok(t) && prepare_spec(
            c,
            t,
        ) is Ok),
{
}

/// Removes line feeds and carriage returns.
pub fn remove_line_breaks(s: &str) -> (r: String)
    ensures
        r@ == without_line_breaks(s@),
{
    let v = chars_of(s);
    let mut out: Vec<char> = Vec::new();
    let mut i: usize = 0;
    while i < v.len()
        invariant
            i <= v.len(),
            out@ == without_line_breaks(v@.take(i as int)),
        decreases v.len() - i,
    {
        assert(v@.take(i + 1).drop_last() =~= v@.take(i as int));
        if v[i] != '\n' && v[i] != '\r' {
            out.push(v[i]);
        }
        i += 1;
    }
    assert(v@.take(i as int) =~= v@);
    string_of(out.as_slice())
}

fn strip_xmlns_attributes(attrs: Vec<Attribute>) -> (r: Vec<Attribute>)
    ensures
        attrs_view(r@) == without_xmlns(attrs_view(attrs@)),
{
    let ghost ov = attrs_view(attrs@);
    let xmlns = chars_of("xmlns");
    let mut out: Vec<Attribute> = Vec::new();
    for a in it: attrs.into_iter()
        invariant
            it.seq() == attrs@,
            ov == attrs_view(attrs@),
            xmlns@ == "xmlns"@,
            attrs_view(out@) == without_xmlns(ov.take(it.index() as int)),
    {
        let ghost i = it.index() as int;
        assert(ov[i] == (a.name@, a.value@));
        assert(ov.take(i + 1).drop_last() =~= ov.take(i));
        let ghost before = attrs_view(out@);
        if !starts_with_chars(a.name.as_slice(), xmlns.as_slice()) {
            out.push(a);
            assert(attrs_view(out@) =~= before.push(ov[i]));
        }
    }
    assert(ov.take(ov.len() as int) =~= ov);
    out
}

/// The texts of a list of strings.
fn strings_to_texts(v: &Vec<String>) -> (r: Vec<Vec<char>>)
    ensures
        texts_view(r@) == strings_view(v@),
{
    let mut out: Vec<Vec<char>> = Vec::new();
    let mut i: usize = 0;
    while i < v.len()
        invariant
            i <= v.len(),
            texts_view(out@) == strings_view(v@.take(i as int)),
        decreases v.len() - i,
    {
        let ghost before = out@;
        let t = chars_of(v[i].as_str());
        assert(t@ == v@[i as int]@);
        out.push(t);
        assert(out@ == before.push(t));
        assert(v@.take(i + 1) =~= v@.take(i as int).push(v@[i as int]));
        assert(texts_view(out@) =~= texts_view(before).push(t@));
        assert(strings_view(v@.take(i + 1)) =~= strings_view(v@.take(i as int)).push(v@[i as int]@));
        i += 1;
    }
    assert(v@.take(i as int) =~= v@);
    out
}

/// The texts of a table of pairs of strings.
fn string_pairs_to_texts(v: &Vec<(String, String)>) -> (r: Vec<(Vec<char>, Vec<char>)>)
    ensures
        pairs_view(r@) == string_pairs_view(v@),
{
    let mut out: Vec<(Vec<char>, Vec<char>)> = Vec::new();
    let mut i: usize = 0;
    while i < v.len()
        invariant
            i <= v.len(),
            pairs_view(out@) == string_pairs_view(v@.take(i as int)),
        decreases v.len() - i,
    {
        let ghost before = out@;
        let a = chars_of(v[i].0.as_str());
        let b = chars_of(v[i].1.as_str());
        assert(a@ == v@[i as int].0@ && b@ == v@[i as int].1@);
        out.push((a, b));
        assert(out@ == before.push((a, b)));
        assert(v@.take(i + 1) =~= v@.take(i as int).push(v@[i as int]));
        assert(pairs_view(out@) =~= pairs_view(before).push((a@, b@)));
        assert(string_pairs_view(v@.take(i + 1)) =~= string_pairs_view(v@.take(i as int)).push(
            (v@[i as int].0@, v@[i as int].1@),
        ));
        i += 1;
    }
    assert(v@.take(i as int) =~= v@);
    out
}

/// The strings of a list of texts.
fn texts_to_strings(v: &Vec<Vec<char>>) -> (r: Vec<String>)
    ensures
        strings_view(r@) == texts_view(v@),
{
    let mut out: Vec<String> = Vec::new();
    let mut i: usize = 0;
    while i < v.len()
        invariant
            i <= v.len(),
            strings_view(out@) == texts_view(v@.take(i as int)),
        decreases v.len() - i,
    {
        let ghost before = out@;
        let t = string_of(v[i].as_slice());
        assert(t@ == v@[i as int]@);
        out.push(t);
        assert(out@ == before.push(t));
        assert(v@.take(i + 1) =~= v@.take(i as int).push(v@[i as int]));
        assert(strings_view(out@) =~= strings_view(before).push(t@));
        assert(texts_view(v@.take(i + 1)) =~= texts_view(v@.take(i as int)).push(v@[i as int]@));
        i += 1;
    }
    assert(v@.take(i as int) =~= v@);
    out
}

/// Minifies SVG documents by a fixed configuration.
pub struct SvgStripper {
    config: StripConfig,
}

impl Default for SvgStripper {
    /// A stripper with the default configuration.
    fn default() -> (r: Self)
        ensures
            ({
                let c = r.settings();
                &&& c.remove_metadata && c.remove_comments && c.remove_hidden && c.strip_ids
                &&& c.remove_empty_groups && c.strip_whitespace && c.color_shrink
                &&& !c.inline_mode && !c.component_mode
                &&& c.icon_size is None && c.decimal_precision is None
            }),
    {
        Self::new()
    }
}

impl SvgStripper {
    /// The configuration.
    pub closed spec fn settings(&self) -> StripConfig {
        self.config
    }

    /// A stripper with the default configuration.
    pub fn new() -> (r: Self)
        ensures
            ({
                let c = r.settings();
                &&& c.remove_metadata && c.remove_comments && c.remove_hidden && c.strip_ids
                &&& c.remove_empty_groups && c.strip_whitespace && c.color_shrink
                &&& !c.inline_mode && !c.component_mode
                &&& c.icon_size is None && c.decimal_precision is None
            }),
    {
        Self { config: StripConfig::default() }
    }

    /// A stripper with the given configuration.
    pub fn with_config(config: StripConfig) -> (r: Self)
        ensures
            r.settings() == config,
    {
        Self { config }
    }

    /// Runs the passes that come before hidden elements are removed.
    pub fn prepare(&self, root: SvgElement) -> (r: Result<SvgElement, SvgStripError>)
        ensures
            match r {
                Ok(t) => prepare_spec(self.settings(), root.view_element()) == Ok::<
                    SElement,
                    Seq<char>,
                >(t.view_element()),
                Err(e) => prepare_spec(self.settings(), root.view_element()) == Err::<
                    SElement,
                    Seq<char>,
                >(e@),
            },
    {
        let component_mode = self.config.component_mode || self.config.icon_size.is_some();
        if component_mode {
            validate_component_root(&root)?;
        }
        let mut root = root;
        if (self.config.inline_mode || component_mode) && eq_str(root.name.as_slice(), "svg") {
            let SvgElement { prefix, namespace, namespaces, name, attributes, children } = root;
            let attributes = strip_xmlns_attributes(attributes);
            let kept = SvgElement { prefix, namespace, namespaces, name, attributes, children };
            root = map_element(kept, &HeaderRule::StripNamespaces);
        }
        if self.config.remove_metadata {
            root = prune_element(root, &PruneRule::Metadata);
        }
        if self.config.remove_comments {
            root = prune_element(root, &PruneRule::Comments);
        }
        if component_mode {
            root = inline_component_styles(root)?;
            root = clean_component_root(root)?;
        }
        Ok(root)
    }

    /// The texts whose numeric meaning optimizing `input` depends on: the opacity values
    /// that the hidden-element pass reads, and the values of the numeric attributes.
    pub fn number_queries(&self, input: &str) -> (r: Result<NumberQueries, SvgStripError>)
        ensures
            match r {
                Ok(q) => queries_spec(self.settings(), input@) == Ok::<
                    (Seq<Seq<char>>, Seq<Seq<char>>),
                    Seq<char>,
                >((strings_view(q.opacity_values@), strings_view(q.decimal_values@))),
                Err(e) => queries_spec(self.settings(), input@) == Err::<
                    (Seq<Seq<char>>, Seq<Seq<char>>),
                    Seq<char>,
                >(e@),
            },
    {
        let root = match parse_xml(input) {
            Ok(root) => root,
            Err(m) => {
                return Err(SvgStripError::new(m));
            },
        };
        let root = self.prepare(root)?;
        let mut opacity: Vec<Vec<char>> = Vec::new();
        collect_texts(&root, QueryKind::Opacity, &mut opacity);
        let mut decimal: Vec<Vec<char>> = Vec::new();
        collect_texts(&root, QueryKind::Decimal, &mut decimal);
        assert(texts_view(opacity@) =~= tree_texts(root.view_element(), QueryKind::Opacity));
        assert(texts_view(decimal@) =~= tree_texts(root.view_element(), QueryKind::Decimal));
        Ok(
            NumberQueries {
                opacity_values: texts_to_strings(&opacity),
                decimal_values: texts_to_strings(&decimal),
            },
        )
    }

    /// Optimizes a tree, given the facts about its numbers: minification, and the
    /// component and icon transformations that the configuration asks for.
    pub fn optimize(&self, root: SvgElement, facts: &NumberFacts) -> (r: Result<
        (SvgElement, OptimizeStats),
        SvgStripError,
    >)
        ensures
            match r {
                Ok((t, stats)) => optimize_spec(
                    self.settings(),
                    root.view_element(),
                    facts.zero(),
                    facts.table(),
                ) == Ok::<(SElement, bool), Seq<char>>((t.view_element(), stats.colors_shrunk)),
                Err(e) => optimize_spec(
                    self.settings(),
                    root.view_element(),
                    facts.zero(),
                    facts.table(),
                ) == Err::<(SElement, bool), Seq<char>>(e@),
            },
    {
        let zero = strings_to_texts(&facts.zero_opacity);
        let table = string_pairs_to_texts(&facts.rounded);
        let mut root = self.prepare(root)?;
        let ghost a = root.view_element();
        let mut stats = OptimizeStats::default();
        if self.config.remove_hidden {
            root = prune_element(root, &PruneRule::Hidden(&zero));
        }
        if self.config.strip_ids {
            root = strip_unused_ids(root);
        }
        if self.config.remove_empty_groups {
            root = remove_all_empty_groups(root);
        }
        if self.config.strip_whitespace {
            root = strip_whitespace(root);
        }
        if self.config.color_shrink {
            let (t, shrunk) = optimize_colors(root);
            root = t;
            stats.colors_shrunk = shrunk;
        }
        if self.config.decimal_precision.is_some() {
            root = map_element(root, &HeaderRule::RoundDecimals(&table));
        }
        if self.config.component_mode || self.config.icon_size.is_some() {
            root = unwrap_redundant_groups(root);
        }
        if let Some(icon_size) = &self.config.icon_size {
            root = apply_icon_style(root, icon_size)?;
        }
        Ok((root, stats))
    }

    /// Parses, optimizes and writes out an SVG document, given the facts about its numbers.
    pub fn strip_str(&self, input: &str, facts: &NumberFacts) -> (r: Result<
        (String, OptimizeStats),
        SvgStripError,
    >)
        ensures
            match r {
                Ok((s, stats)) => strip_spec(self.settings(), input@, facts.zero(), facts.table())
                    == Ok::<(Seq<char>, bool), Seq<char>>((s@, stats.colors_shrunk)) && s@.len()
                    >= 2 && s@[0] == '<' && s@[1] != '?',
                Err(e) => strip_spec(self.settings(), input@, facts.zero(), facts.table()) == Err::<
                    (Seq<char>, bool),
                    Seq<char>,
                >(e@),
            },
    {
        let root = match parse_xml(input) {
            Ok(root) => root,
            Err(m) => {
                return Err(SvgStripError::new(m));
            },
        };
        let ghost parsed = root.view_element();
        let (root, stats) = self.optimize(root, facts)?;
        let bytes = match write_xml(&root) {
            Ok(b) => b,
            Err(m) => {
                return Err(SvgStripError::new(m));
            },
        };
        let ghost bv = bytes@;
        let text = match decode_utf8(bytes) {
            Ok(t) => t,
            Err(m) => {
                return Err(SvgStripError::new(m));
            },
        };
        proof {
            crate::laws::lemma_optimize_tag(self.settings(), parsed, facts.zero(), facts.table());
            crate::laws::lemma_decode_head(bv);
            crate::laws::lemma_line_breaks_keep_head(text@);
        }
        Ok((remove_line_breaks(text.as_str()), stats))
    }
}

} // verus!
