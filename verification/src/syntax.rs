//! Package imports in Typst source.

use typst_syntax::ast;
use typst_syntax::SyntaxNode;
use vstd::prelude::*;

use crate::package::{spec_of, PackageSpec, SpecView};
use crate::syntax_laws::{file_imports, law_every_file_counts};
use crate::text::{is_typst_source, typst_source};

verus! {

/// A node of a Typst syntax tree.
#[verifier::external_type_specification]
#[verifier::external_body]
pub struct ExSyntaxNode(SyntaxNode);

/// What stands after the keyword of an `import` or `include` statement.
#[derive(Debug)]
pub enum ImportSource {
    /// A string literal, with its escape sequences resolved.
    Literal(String),
    /// Any other expression.
    Computed,
}

/// What an [`ImportSource`] says.
pub enum SourceView {
    /// A string literal, with its escape sequences resolved.
    Literal(Seq<char>),
    /// A string token without its quotes. Parsing makes none.
    Unquoted,
    /// Any other expression.
    Computed,
}

impl View for ImportSource {
    type V = SourceView;

    open spec fn view(&self) -> SourceView {
        match self {
            ImportSource::Literal(text) => SourceView::Literal(text@),
            ImportSource::Computed => SourceView::Computed,
        }
    }
}

/// What one node of a syntax tree says of imports.
pub struct NodeView {
    /// The source of the import, where the node is an `import` statement.
    pub import: Option<SourceView>,
    /// The source of the inclusion, where the node is an `include` statement.
    pub inclusion: Option<SourceView>,
}

/// A file, as it was found: its name, and its text where it could be read.
#[derive(Debug)]
pub struct SourceFile {
    pub name: String,
    pub text: Option<String>,
}

/// What a [`SourceFile`] says.
pub struct FileView {
    pub name: Seq<char>,
    pub text: Option<Seq<char>>,
}

impl View for SourceFile {
    type V = FileView;

    open spec fn view(&self) -> FileView {
        FileView {
            name: self.name@,
            text: match self.text {
                Some(text) => Some(text@),
                None => None,
            },
        }
    }
}

/// The nodes of the tree below and including a node, each before its children.
pub uninterp spec fn subtree(node: SyntaxNode) -> Seq<NodeView>;

/// The nodes of the tree that `typst_syntax::parse` makes of a text.
pub uninterp spec fn source_nodes(text: Seq<char>) -> Seq<NodeView>;

/// The nodes of several trees, one tree after the other.
pub open spec fn forest(nodes: Seq<&SyntaxNode>) -> Seq<NodeView>
    decreases nodes.len(),
{
    if nodes.len() == 0 {
        Seq::empty()
    } else {
        forest(nodes.drop_last()) + subtree(*nodes.last())
    }
}

/// Whether every string literal among the sources has its quotes.
pub open spec fn quoted(nodes: Seq<NodeView>) -> bool {
    forall|i: int|
        0 <= i < nodes.len() ==> (#[trigger] nodes[i]).import != Some(SourceView::Unquoted)
            && nodes[i].inclusion != Some(SourceView::Unquoted)
}

/// The package that a source names: a literal that starts with `@` and reads
/// as a package specification.
pub open spec fn extracted_spec(source: SourceView) -> Option<SpecView> {
    match source {
        SourceView::Literal(text) => if text.len() > 0 && text[0] == '@' {
            spec_of(text)
        } else {
            None
        },
        _ => None,
    }
}

/// The package that a source names, if there is a source, as a sequence.
pub open spec fn source_specs(source: Option<SourceView>) -> Seq<SpecView> {
    match source {
        Some(s) => match extracted_spec(s) {
            Some(spec) => seq![spec],
            None => Seq::empty(),
        },
        None => Seq::empty(),
    }
}

/// The packages that one node names.
pub open spec fn node_specs(node: NodeView) -> Seq<SpecView> {
    source_specs(node.import) + source_specs(node.inclusion)
}

/// The packages that some nodes name, in the order of the nodes.
pub open spec fn specs_in(nodes: Seq<NodeView>) -> Seq<SpecView>
    decreases nodes.len(),
{
    if nodes.len() == 0 {
        Seq::empty()
    } else {
        specs_in(nodes.drop_last()) + node_specs(nodes.last())
    }
}

/// The packages that a Typst source text imports, in the order of the text.
pub open spec fn text_specs(text: Seq<char>) -> Seq<SpecView> {
    specs_in(source_nodes(text))
}

/// The packages that a file imports: those of its text, where it is a Typst
/// source file that could be read.
pub open spec fn file_specs(file: FileView) -> Seq<SpecView> {
    match file.text {
        Some(text) => if typst_source(file.name) {
            text_specs(text)
        } else {
            Seq::empty()
        },
        None => Seq::empty(),
    }
}

/// The packages that several files import, file by file.
pub open spec fn files_specs(files: Seq<FileView>) -> Seq<SpecView>
    decreases files.len(),
{
    if files.len() == 0 {
        Seq::empty()
    } else {
        files_specs(files.drop_last()) + file_specs(files.last())
    }
}

/// What a list of specifications says.
pub open spec fn spec_views(specs: Seq<PackageSpec>) -> Seq<SpecView> {
    specs.map_values(|spec: PackageSpec| spec@)
}

/// What a list of files says.
pub open spec fn file_views(files: Seq<SourceFile>) -> Seq<FileView> {
    files.map_values(|file: SourceFile| file@)
}

/// What an optional source says.
pub open spec fn source_view(source: Option<ImportSource>) -> Option<SourceView> {
    match source {
        Some(s) => Some(s@),
        None => None,
    }
}

/// Parses Typst source with `typst_syntax::parse`.
///
/// Taken on trust: the tree depends on the text alone, and its nodes are called
/// `source_nodes` of the text; a string token of a parsed tree has its quotes.
pub assume_specification[ typst_syntax::parse ](text: &str) -> (node: SyntaxNode)
    ensures
        subtree(node) == source_nodes(text@),
        quoted(subtree(node)),
;

/// The children of a node, from `SyntaxNode::children`.
///
/// Taken on trust: the tree below a node is the node itself, followed by the
/// trees below its children in order.
#[verifier::external_body]
fn children(node: &SyntaxNode) -> (nodes: Vec<&SyntaxNode>)
    ensures
        subtree(*node).len() == 1 + forest(nodes@).len(),
        subtree(*node).skip(1) == forest(nodes@),
{
    node.children().collect()
}

/// The source of an `import` statement, from `SyntaxNode::cast`,
/// `ModuleImport::source` and `Str::get`.
///
/// Taken on trust: this is what the first node of the tree says.
/// `Str::get` panics on a token without quotes, so there must be none.
#[verifier::external_body]
fn import_source(node: &SyntaxNode) -> (source: Option<ImportSource>)
    requires
        subtree(*node)[0].import != Some(SourceView::Unquoted),
    ensures
        source_view(source) == subtree(*node)[0].import,
{
    let statement = node.cast::<ast::ModuleImport>()?;
    Some(match statement.source() {
        ast::Expr::Str(text) => ImportSource::Literal(text.get().to_string()),
        _ => ImportSource::Computed,
    })
}

/// The source of an `include` statement, from `SyntaxNode::cast`,
/// `ModuleInclude::source` and `Str::get`.
///
/// Taken on trust: this is what the first node of the tree says.
/// `Str::get` panics on a token without quotes, so there must be none.
#[verifier::external_body]
fn inclusion_source(node: &SyntaxNode) -> (source: Option<ImportSource>)
    requires
        subtree(*node)[0].inclusion != Some(SourceView::Unquoted),
    ensures
        source_view(source) == subtree(*node)[0].inclusion,
{
    let statement = node.cast::<ast::ModuleInclude>()?;
    Some(match statement.source() {
        ast::Expr::Str(text) => ImportSource::Literal(text.get().to_string()),
        _ => ImportSource::Computed,
    })
}

/// Extracts a package specification from the source of an import: a string
/// literal of the form `@namespace/name:version`.
pub fn try_extract_spec(expr: &ImportSource) -> (spec: Option<PackageSpec>)
    ensures
        spec is Some == extracted_spec(expr@) is Some,
        spec matches Some(s) ==> extracted_spec(expr@) == Some(s@),
{
    match expr {
        ImportSource::Literal(text) => {
            let text = text.as_str();
            if !text.is_empty() && text.get_char(0) == '@' {
                PackageSpec::parse(text)
            } else {
                None
            }
        },
        ImportSource::Computed => None,
    }
}

/// Adds the packages that one node names.
pub fn collect_node(
    import: &Option<ImportSource>,
    inclusion: &Option<ImportSource>,
    imports: &mut Vec<PackageSpec>,
)
    ensures
        spec_views(final(imports)@) == spec_views(old(imports)@) + node_specs(
            NodeView { import: source_view(*import), inclusion: source_view(*inclusion) },
        ),
{
    let ghost start = spec_views(imports@);
    if let Some(source) = import {
        if let Some(spec) = try_extract_spec(source) {
            imports.push(spec);
        }
    }
    assert(spec_views(imports@) =~= start + source_specs(source_view(*import)));
    if let Some(source) = inclusion {
        if let Some(spec) = try_extract_spec(source) {
            imports.push(spec);
        }
    }
    assert(spec_views(imports@) =~= start + source_specs(source_view(*import)) + source_specs(
        source_view(*inclusion),
    ));
}

/// The packages of two rows of nodes are those of the first, then those of the
/// second.
pub proof fn lemma_specs_in_concat(a: Seq<NodeView>, b: Seq<NodeView>)
    ensures
        specs_in(a + b) == specs_in(a) + specs_in(b),
    decreases b.len(),
{
    if b.len() == 0 {
        assert(a + b =~= a);
    } else {
        lemma_specs_in_concat(a, b.drop_last());
        assert((a + b).drop_last() =~= a + b.drop_last());
    }
}

proof fn lemma_forest_part(nodes: Seq<&SyntaxNode>, i: int)
    requires
        0 <= i < nodes.len(),
    ensures
        forest(nodes.take(i + 1)) == forest(nodes.take(i)) + subtree(*nodes[i]),
        forest(nodes.take(i + 1)).len() <= forest(nodes).len(),
        quoted(forest(nodes)) ==> quoted(forest(nodes.take(i + 1))),
    decreases nodes.len(),
{
    assert(nodes.take(i + 1).drop_last() =~= nodes.take(i));
    if i + 1 == nodes.len() {
        assert(nodes.take(i + 1) =~= nodes);
    } else {
        lemma_forest_part(nodes.drop_last(), i);
        assert(nodes.drop_last().take(i + 1) =~= nodes.take(i + 1));
        assert(nodes.drop_last().take(i) =~= nodes.take(i));
        let whole = forest(nodes);
        let part = forest(nodes.drop_last());
        assert(forall|j: int| 0 <= j < part.len() ==> #[trigger] part[j] == whole[j]);
    }
}

/// Adds the packages that a syntax tree imports, in the order of the source.
pub fn collect_imports(node: &SyntaxNode, imports: &mut Vec<PackageSpec>)
    requires
        quoted(subtree(*node)),
    ensures
        spec_views(final(imports)@) == spec_views(old(imports)@) + specs_in(subtree(*node)),
    decreases subtree(*node).len(),
{
    let ghost start = spec_views(imports@);
    let ghost all = subtree(*node);
    let nodes = children(node);
    collect_node(&import_source(node), &inclusion_source(node), imports);
    proof {
        assert(all =~= seq![all[0]] + all.skip(1));
        reveal_with_fuel(specs_in, 2);
        assert(specs_in(seq![all[0]]) =~= node_specs(all[0]));
        assert(spec_views(imports@) =~= start + specs_in(seq![all[0]]) + specs_in(
            forest(nodes@.take(0)),
        ));
        assert(quoted(forest(nodes@))) by {
            assert(forall|j: int|
                0 <= j < forest(nodes@).len() ==> #[trigger] forest(nodes@)[j] == all[j + 1]);
        }
    }
    for i in 0..nodes.len()
        invariant
            quoted(forest(nodes@)),
            all == subtree(*node),
            all == seq![all[0]] + forest(nodes@),
            spec_views(imports@) == start + specs_in(seq![all[0]]) + specs_in(
                forest(nodes@.take(i as int)),
            ),
        decreases nodes.len() - i,
    {
        proof {
            lemma_forest_part(nodes@, i as int);
            lemma_specs_in_concat(forest(nodes@.take(i as int)), subtree(*nodes@[i as int]));
            let upto = forest(nodes@.take(i as int));
            let tree = subtree(*nodes@[i as int]);
            assert(forall|j: int| 0 <= j < tree.len() ==> #[trigger] tree[j] == (upto + tree)[upto.len() + j]);
        }
        collect_imports(nodes[i], imports);
        assert(spec_views(imports@) =~= start + specs_in(seq![all[0]]) + specs_in(
            forest(nodes@.take(i + 1)),
        ));
    }
    proof {
        assert(nodes@.take(nodes.len() as int) =~= nodes@);
        lemma_specs_in_concat(seq![all[0]], forest(nodes@));
        assert(spec_views(imports@) =~= start + specs_in(all));
    }
}

/// The packages that a Typst source text imports.
pub fn imports_in(text: &str) -> (imports: Vec<PackageSpec>)
    ensures
        spec_views(imports@) == text_specs(text@),
{
    let mut imports: Vec<PackageSpec> = Vec::new();
    collect_imports(&typst_syntax::parse(text), &mut imports);
    assert(spec_views(imports@) =~= text_specs(text@));
    imports
}

/// Finds all package imports in the Typst source files among some files.
pub fn find_imports(files: &Vec<SourceFile>) -> (imports: Vec<PackageSpec>)
    ensures
        spec_views(imports@) == files_specs(file_views(files@)),
        forall|spec: SpecView| #[trigger]
            spec_views(imports@).contains(spec) <==> exists|i: int|
                0 <= i < files@.len() && file_imports((#[trigger] files@[i])@, spec),
{
    proof {
        assert forall|spec: SpecView| #[trigger]
            files_specs(file_views(files@)).contains(spec) <==> exists|i: int|
            0 <= i < files@.len() && file_imports((#[trigger] files@[i])@, spec) by {
            let views = file_views(files@);
            law_every_file_counts(views, spec);
            if exists|i: int| 0 <= i < views.len() && file_imports(#[trigger] views[i], spec) {
                let i = choose|i: int|
                    0 <= i < views.len() && file_imports(#[trigger] views[i], spec);
                assert(file_imports(files@[i]@, spec));
            }
            if exists|i: int| 0 <= i < files@.len() && file_imports((#[trigger] files@[i])@, spec) {
                let i = choose|i: int|
                    0 <= i < files@.len() && file_imports((#[trigger] files@[i])@, spec);
                assert(file_imports(views[i], spec));
            }
        }
    }
    let mut imports: Vec<PackageSpec> = Vec::new();
    assert(spec_views(imports@) =~= files_specs(file_views(files@).take(0)));
    for i in 0..files.len()
        invariant
            spec_views(imports@) == files_specs(file_views(files@).take(i as int)),
    {
        let ghost start = spec_views(imports@);
        if is_typst_source(files[i].name.as_str()) {
            if let Some(text) = &files[i].text {
                collect_imports(&typst_syntax::parse(text.as_str()), &mut imports);
            }
        }
        proof {
            let views = file_views(files@);
            assert(views.take(i + 1).drop_last() =~= views.take(i as int));
            assert(spec_views(imports@) =~= start + file_specs(views[i as int]));
        }
    }
    assert(file_views(files@).take(files.len() as int) =~= file_views(files@));
    imports
}

} // verus!
