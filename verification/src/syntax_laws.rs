//! Which imports are found in texts and files.

use vstd::prelude::*;

use crate::package::{spec_of, SpecView};
use crate::syntax::{
    extracted_spec, file_specs, files_specs, lemma_specs_in_concat, node_specs, source_nodes,
    source_specs, specs_in, text_specs, FileView, NodeView, SourceView,
};
use crate::seqs::lemma_concat_contains;
use crate::world_laws::law_source_names;

verus! {

/// A string literal names the package that it reads as, whatever its text is, and nothing
/// but a string literal names a package.
pub proof fn law_literals_name_packages(source: SourceView)
    ensures
        source matches SourceView::Literal(text) ==> extracted_spec(source) == spec_of(text),
        !(source is Literal) ==> extracted_spec(source) is None,
{
}

/// Whether the source of a statement is a string literal that reads as a package.
pub open spec fn reads_as(source: Option<SourceView>, spec: SpecView) -> bool {
    source matches Some(SourceView::Literal(text)) && spec_of(text) == Some(spec)
}

/// Whether a node is an `import` or an `include` statement for a package.
pub open spec fn imports_package(node: NodeView, spec: SpecView) -> bool {
    reads_as(node.import, spec) || reads_as(node.inclusion, spec)
}

proof fn lemma_node_specs(node: NodeView, spec: SpecView)
    ensures
        node_specs(node).contains(spec) <==> imports_package(node, spec),
{
    lemma_concat_contains(source_specs(node.import), source_specs(node.inclusion), spec);
    lemma_source_specs(node.import, spec);
    lemma_source_specs(node.inclusion, spec);
}

proof fn lemma_source_specs(source: Option<SourceView>, spec: SpecView)
    ensures
        source_specs(source).contains(spec) <==> reads_as(source, spec),
{
    if let Some(s) = source {
        law_literals_name_packages(s);
        if let Some(found) = extracted_spec(s) {
            assert(source_specs(source)[0] == found);
        }
    }
}

/// What some nodes import is exactly what one of them imports, however many there are.
pub proof fn law_every_statement_counts(nodes: Seq<NodeView>, spec: SpecView)
    ensures
        specs_in(nodes).contains(spec) <==> exists|i: int|
            0 <= i < nodes.len() && imports_package(#[trigger] nodes[i], spec),
    decreases nodes.len(),
{
    if nodes.len() > 0 {
        let front = nodes.drop_last();
        law_every_statement_counts(front, spec);
        lemma_concat_contains(specs_in(front), node_specs(nodes.last()), spec);
        lemma_node_specs(nodes.last(), spec);
        if specs_in(front).contains(spec) {
            let i = choose|i: int|
                0 <= i < front.len() && imports_package(#[trigger] front[i], spec);
            assert(imports_package(nodes[i], spec));
        }
        if imports_package(nodes.last(), spec) {
            assert(imports_package(nodes[nodes.len() - 1], spec));
        }
        if exists|i: int| 0 <= i < nodes.len() && imports_package(#[trigger] nodes[i], spec) {
            let i = choose|i: int|
                0 <= i < nodes.len() && imports_package(#[trigger] nodes[i], spec);
            if i < front.len() {
                assert(imports_package(front[i], spec));
            }
        }
    }
}

/// A text imports exactly the packages that an `import` or `include` statement in it
/// names, at whatever depth and in whatever place the statement stands.
pub proof fn law_text_imports(text: Seq<char>, spec: SpecView)
    ensures
        text_specs(text).contains(spec) <==> exists|i: int|
            0 <= i < source_nodes(text).len() && imports_package(
                #[trigger] source_nodes(text)[i],
                spec,
            ),
{
    law_every_statement_counts(source_nodes(text), spec);
}

/// How many packages a statement names.
pub open spec fn named_count(source: Option<SourceView>) -> nat {
    if exists|spec: SpecView| reads_as(source, spec) {
        1
    } else {
        0
    }
}

/// Each statement counts as often as it stands there, in the order of the text.
pub proof fn law_statements_count_in_order(a: Seq<NodeView>, b: Seq<NodeView>, node: NodeView)
    ensures
        specs_in(a + b) == specs_in(a) + specs_in(b),
        specs_in(seq![node]).len() == named_count(node.import) + named_count(node.inclusion),
{
    lemma_specs_in_concat(a, b);
    assert(seq![node].drop_last() =~= Seq::empty());
    assert(specs_in(seq![node].drop_last()) =~= Seq::empty());
    assert(specs_in(seq![node]) =~= node_specs(node));
    lemma_source_count(node.import);
    lemma_source_count(node.inclusion);
}

proof fn lemma_source_count(source: Option<SourceView>)
    ensures
        source_specs(source).len() == named_count(source),
{
    if let Some(s) = source {
        law_literals_name_packages(s);
        if let Some(spec) = extracted_spec(s) {
            assert(reads_as(source, spec));
        } else {
            assert(forall|spec: SpecView| !reads_as(source, spec));
        }
    }
}

/// Whether a file is a source file that could be read and that imports a package.
pub open spec fn file_imports(file: FileView, spec: SpecView) -> bool {
    &&& file.name.len() > 4 && ".typ"@.is_suffix_of(file.name)
    &&& file.text matches Some(text)
    &&& text_specs(text).contains(spec)
}

/// What some files import is exactly what one of the source files among them imports,
/// wherever it stands among them and however many there are.
pub proof fn law_every_file_counts(files: Seq<FileView>, spec: SpecView)
    ensures
        files_specs(files).contains(spec) <==> exists|i: int|
            0 <= i < files.len() && file_imports(#[trigger] files[i], spec),
    decreases files.len(),
{
    if files.len() > 0 {
        let front = files.drop_last();
        law_every_file_counts(front, spec);
        law_source_names(files.last().name);
        lemma_concat_contains(files_specs(front), file_specs(files.last()), spec);
        if files_specs(front).contains(spec) {
            let i = choose|i: int| 0 <= i < front.len() && file_imports(#[trigger] front[i], spec);
            assert(file_imports(files[i], spec));
        }
        if file_imports(files.last(), spec) {
            assert(file_imports(files[files.len() - 1], spec));
        }
        if exists|i: int| 0 <= i < files.len() && file_imports(#[trigger] files[i], spec) {
            let i = choose|i: int| 0 <= i < files.len() && file_imports(#[trigger] files[i], spec);
            if i < front.len() {
                assert(file_imports(front[i], spec));
            }
        }
    }
}

/// Files are read one after the other: what stands in some has no say in what is found in
/// the others. Of one file, it is what its text imports that is found.
pub proof fn law_files_count_in_order(a: Seq<FileView>, b: Seq<FileView>, file: FileView)
    ensures
        files_specs(a + b) == files_specs(a) + files_specs(b),
        file.name.len() > 4 && ".typ"@.is_suffix_of(file.name) && file.text is Some
            ==> files_specs(seq![file]) == text_specs(file.text->0),
        !(file.name.len() > 4 && ".typ"@.is_suffix_of(file.name) && file.text is Some)
            ==> files_specs(seq![file]).len() == 0,
    decreases b.len(),
{
    if b.len() == 0 {
        assert(a + b =~= a);
        assert(files_specs(a) + files_specs(b) =~= files_specs(a));
        law_source_names(file.name);
        assert(seq![file].drop_last() =~= Seq::empty());
        assert(files_specs(seq![file].drop_last()) =~= Seq::empty());
        assert(files_specs(seq![file]) =~= file_specs(file));
    } else {
        law_files_count_in_order(a, b.drop_last(), file);
        assert((a + b).drop_last() =~= a + b.drop_last());
        assert(files_specs(a + b) =~= files_specs(a) + files_specs(b));
    }
}

} // verus!
