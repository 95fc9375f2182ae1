//! Analysis of a forest of nodes: every node under its absolute path, every
//! label resolved, and the dependencies between nodes indexed both ways.
use super::closure::{lemma_family, lemma_long_run_is_family, long_run_end};
use super::laws::lemma_analyse_wf;
use super::order::{
    is_proper_prefix, lemma_between_extends, lemma_lex_asymmetric, lemma_proper_prefix_is_less,
    lex_lt,
};
pub use super::render::fmt_path_node;
use super::render::path_text;
pub use super::report::{LabelView, SymbolAssoc, Xref};
use super::resolve::{
    absolute, absolute_report, add_edges, add_label, add_labels, add_uses, analyse, append_at,
    dependents, dependents_of_each, detached, family_end, follow, gather_node, gather_nodes,
    index_upto, leading_label, merge, merge_all, merge_one, merged, props_references,
    props_symbols, reference_keys, resolution, tail, upsert, uses_upto, value_references,
    value_symbols, values_references, values_symbols, AnalysisView, DiagnosticView, Gathered,
    Indexed, Labels,
};
use super::table::{index_of, Assoc, Key, Table};
use super::view::{is_reference_rooted, join, view_all, PathView};
use super::{lemma_array_view, lemma_node_view, Node, NodeName, Path, Symbol, Value};
use vstd::prelude::*;
use vstd::string::*;

verus! {

/// Something worth reporting that does not stop the analysis.
#[derive(Debug, PartialEq)]
pub enum Diagnostic {
    /// `label` stood for `conflict` and now stands for `path`, and the two
    /// resolve to different nodes.
    Conflict { label: Symbol, path: Path, conflict: Path },
    /// A reference names a label that nothing defines.
    UndefinedLabel { label: Symbol },
    /// Resolving a reference to `label` leads through labels without end.
    CyclicLabel { label: Symbol },
}

impl View for Diagnostic {
    type V = DiagnosticView;

    open spec fn view(&self) -> DiagnosticView {
        match self {
            Diagnostic::Conflict { label, path, conflict } => DiagnosticView::Conflict {
                label: label@,
                path: path@,
                conflict: conflict@,
            },
            Diagnostic::UndefinedLabel { label } => DiagnosticView::UndefinedLabel {
                label: label@,
            },
            Diagnostic::CyclicLabel { label } => DiagnosticView::CyclicLabel { label: label@ },
        }
    }
}

impl Clone for Diagnostic {
    fn clone(&self) -> (r: Self)
        ensures
            r@ == self@,
    {
        match self {
            Diagnostic::Conflict { label, path, conflict } => Diagnostic::Conflict {
                label: label.clone(),
                path: path.clone(),
                conflict: conflict.clone(),
            },
            Diagnostic::UndefinedLabel { label } => Diagnostic::UndefinedLabel {
                label: label.clone(),
            },
            Diagnostic::CyclicLabel { label } => Diagnostic::CyclicLabel { label: label.clone() },
        }
    }
}

/// The model of a table whose values have a view.
pub open spec fn viewed<K: Key, V: View>(table: Table<K, V>) -> Assoc<K::Unit, V::V> {
    Assoc { keys: table.model().keys, vals: view_all(table.vals()) }
}

/// The model of a table of path lists.
pub open spec fn listed<K: Key>(table: Table<K, Vec<Path>>) -> Assoc<K::Unit, Seq<PathView>> {
    Assoc {
        keys: table.model().keys,
        vals: Seq::new(table.vals().len(), |i: int| view_all(table.vals()[i]@)),
    }
}

/// What a resolution reports, as a sequence: empty or one diagnostic.
pub open spec fn report_view(report: Option<Diagnostic>) -> Seq<DiagnosticView> {
    match report {
        Some(d) => seq![d@],
        None => Seq::empty(),
    }
}

/// The absolute form of `path` by the label table `labels`, with what the
/// resolution reports.
pub fn resolve_in(labels: &Table<Symbol, Path>, path: Path) -> (r: (Path, Option<Diagnostic>))
    requires
        labels.wf(),
    ensures
        r.0@ == absolute(viewed(*labels), path@),
        report_view(r.1) == absolute_report(viewed(*labels), path@),
{
    let ghost table = viewed(*labels);
    let (start, _) = path.split();
    let asked = match start {
        NodeName::Reference(label) => label,
        NodeName::Symbol(_, _) => {
            return (path, None);
        },
    };
    let mut steps = labels.len();
    let mut current = path.clone();
    loop
        invariant
            labels.wf(),
            table == viewed(*labels),
            steps <= table.len(),
            is_reference_rooted(path@),
            asked@ == leading_label(path@),
            follow(table, current@, steps as nat) == resolution(table, path@),
        decreases steps,
    {
        let (first, rest) = current.split();
        let label = match first {
            NodeName::Reference(label) => label,
            NodeName::Symbol(_, _) => {
                return (current, None);
            },
        };
        assert(view_all(rest@) == tail(current@));
        match labels.find(&label) {
            Err(_) => {
                return (current, Some(Diagnostic::UndefinedLabel { label }));
            },
            Ok(i) => {
                if steps == 0 {
                    return (path, Some(Diagnostic::CyclicLabel { label: asked }));
                }
                let target = labels.value(i).clone();
                current = target.join(rest);
                steps = steps - 1;
            },
        }
    }
}

/// Path names, labels, dependents and symbols for a set of nodes.
#[derive(Debug)]
pub struct Analysis {
    paths: Table<Path, Node>,
    labels: Table<Symbol, Path>,
    reverse: Table<Path, Vec<Path>>,
    symbols: Table<Symbol, Vec<Path>>,
    diagnostics: Vec<Diagnostic>,
}

impl View for Analysis {
    type V = AnalysisView;

    closed spec fn view(&self) -> AnalysisView {
        AnalysisView {
            paths: viewed(self.paths),
            labels: viewed(self.labels),
            reverse: listed(self.reverse),
            symbols: listed(self.symbols),
            diagnostics: view_all(self.diagnostics@),
        }
    }
}

/// Model of the analysis of nothing.
pub open spec fn nothing_analysed() -> AnalysisView {
    AnalysisView {
        paths: Assoc::empty(),
        labels: Assoc::empty(),
        reverse: Assoc::empty(),
        symbols: Assoc::empty(),
        diagnostics: Seq::empty(),
    }
}

impl Default for Analysis {
    /// The analysis of nothing.
    fn default() -> (a: Analysis)
        ensures
            a.wf(),
            a@ == nothing_analysed(),
    {
        let a = Analysis {
            paths: Table::new(),
            labels: Table::new(),
            reverse: Table::new(),
            symbols: Table::new(),
            diagnostics: Vec::new(),
        };
        proof {
            assert(a@.paths.vals =~= Seq::empty());
            assert(a@.labels.vals =~= Seq::empty());
            assert(a@.reverse.vals =~= Seq::empty());
            assert(a@.symbols.vals =~= Seq::empty());
            assert(a@.diagnostics =~= Seq::empty());
        }
        a
    }
}

impl Analysis {
    /// The four tables are sorted by key.
    pub closed spec fn tables_wf(&self) -> bool {
        &&& self.paths.wf()
        &&& self.labels.wf()
        &&& self.reverse.wf()
        &&& self.symbols.wf()
    }

    /// Paths, labels and diagnostics: what gathering and merging work on.
    pub open spec fn gathered(&self) -> Gathered {
        Gathered { paths: self@.paths, labels: self@.labels, diagnostics: self@.diagnostics }
    }

    /// Stores a node under a path, or merges it into the node that the path
    /// holds already.
    fn upsert(&mut self, key: Path, node: Node)
        requires
            old(self).tables_wf(),
        ensures
            final(self).tables_wf(),
            final(self)@ == (AnalysisView {
                paths: upsert(old(self)@.paths, key@, node@),
                ..old(self)@
            }),
    {
        let ghost before = self@.paths;
        match self.paths.find(&key) {
            Ok(i) => {
                let ghost incoming = node;
                let mut node = node;
                let extant = self.paths.value_mut(i);
                let ghost was = extant@;
                extant.labels.append(&mut node.labels);
                extant.props.append(&mut node.props);
                proof {
                    lemma_node_view(*extant);
                    lemma_node_view(old(self).paths.vals()[i as int]);
                    lemma_node_view(incoming);
                    assert(view_all(extant.labels@) =~= was.labels + incoming@.labels);
                    assert(view_all(extant.props@) =~= was.props + incoming@.props);
                    assert(extant@ == merged(was, incoming@));
                }
                assert(self@.paths.vals =~= before.vals.update(i as int, merged(was, incoming@)));
            },
            Err(at) => {
                self.paths.insert(at, key, node);
                assert(self@.paths.vals =~= before.vals.insert(at as int, node@));
            },
        }
    }
}

impl Analysis {
    /// Adds what a resolution reported to the diagnostics.
    fn report(&mut self, report: Option<Diagnostic>)
        requires
            old(self).tables_wf(),
        ensures
            final(self).tables_wf(),
            final(self)@ == (AnalysisView {
                diagnostics: old(self)@.diagnostics + report_view(report),
                ..old(self)@
            }),
    {
        if let Some(d) = report {
            self.diagnostics.push(d);
        }
        assert(self@.diagnostics =~= old(self)@.diagnostics + report_view(report));
    }

    /// Records that `label` stands for `path`, and reports a conflict where
    /// it stood for a path that resolves to another node.
    fn add_label(&mut self, label: Symbol, path: &Path)
        requires
            old(self).tables_wf(),
        ensures
            final(self).tables_wf(),
            final(self).gathered() == add_label(old(self).gathered(), label@, path@),
            final(self)@.reverse == old(self)@.reverse,
            final(self)@.symbols == old(self)@.symbols,
    {
        let ghost before = self@;
        match self.labels.find(&label) {
            Err(at) => {
                self.labels.insert(at, label, path.clone());
                assert(self@.labels.vals =~= before.labels.vals.insert(at as int, path@));
            },
            Ok(i) => {
                let conflict = self.labels.replace(i, path.clone());
                assert(self@.labels.vals =~= before.labels.vals.update(i as int, path@));
                assert(self@.labels == before.labels.put(label@, path@));
                let (was, was_report) = resolve_in(&self.labels, conflict.clone());
                let (now, now_report) = resolve_in(&self.labels, path.clone());
                let differ = !was.same(&now);
                self.report(was_report);
                self.report(now_report);
                if differ {
                    self.report(
                        Some(Diagnostic::Conflict { label, path: path.clone(), conflict }),
                    );
                } else {
                    self.report(None);
                }
            },
        }
    }

    /// Gathers nodes, with all below them, as children of `parent`: each
    /// node is stored under a path that starts at the root or at a
    /// reference.
    fn gather(&mut self, parent: &Path, nodes: Vec<Node>)
        requires
            old(self).tables_wf(),
        ensures
            final(self).tables_wf(),
            final(self).gathered() == gather_nodes(
                old(self).gathered(),
                parent@,
                view_all(nodes@),
            ),
            final(self)@.reverse == old(self)@.reverse,
            final(self)@.symbols == old(self)@.symbols,
        decreases nodes,
    {
        let ghost start = self.gathered();
        let ghost forest = view_all(nodes@);
        proof {
            assert(forest.subrange(0, 0) =~= Seq::empty());
        }
        for node in it: nodes
            invariant
                self.tables_wf(),
                it.seq() == nodes@,
                forest == view_all(nodes@),
                self.gathered() == gather_nodes(
                    start,
                    parent@,
                    forest.subrange(0, it.index() as int),
                ),
                self@.reverse == old(self)@.reverse,
                self@.symbols == old(self)@.symbols,
        {
            let ghost whole = node;
            let ghost sofar = self.gathered();
            let Node { labels, name, props, nodes: children } = node;
            // the pathname for this node
            let mut step: Vec<NodeName> = Vec::new();
            step.push(name.clone());
            proof {
                lemma_node_view(whole);
                assert(view_all(step@) =~= seq![whole@.name]);
            }
            let path = parent.clone().join(step);
            // catalogue the labels on this path
            let mut j: usize = 0;
            proof {
                assert(whole@.labels.subrange(0, 0) =~= Seq::empty());
            }
            while j < labels.len()
                invariant
                    self.tables_wf(),
                    j <= labels.len(),
                    view_all(labels@) == whole@.labels,
                    self.gathered() == add_labels(
                        sofar,
                        whole@.labels.subrange(0, j as int),
                        path@,
                    ),
                    self@.reverse == old(self)@.reverse,
                    self@.symbols == old(self)@.symbols,
                decreases labels.len() - j,
            {
                proof {
                    let upto = whole@.labels.subrange(0, j + 1);
                    assert(upto.drop_last() =~= whole@.labels.subrange(0, j as int));
                    assert(upto.last() == labels@[j as int]@);
                }
                self.add_label(labels[j].clone(), &path);
                j += 1;
            }
            proof {
                assert(whole@.labels.subrange(0, j as int) =~= whole@.labels);
            }
            // catalogue the path and node
            let childless = Node { labels, name, props, nodes: Vec::new() };
            proof {
                lemma_node_view(childless);
                assert(childless@.nodes =~= Seq::empty());
                assert(childless@ == detached(whole@));
            }
            let ghost labelled = self.gathered();
            self.upsert(path.clone(), childless);
            let ghost stored = self.gathered();
            // gather the children
            self.gather(&path, children);
            proof {
                let upto = forest.subrange(0, it.index() + 1);
                assert(upto.drop_last() =~= forest.subrange(0, it.index() as int));
                assert(upto.last() == whole@);
                assert(labelled == add_labels(sofar, whole@.labels, path@));
                assert(stored == (Gathered {
                    paths: upsert(labelled.paths, path@, detached(whole@)),
                    ..labelled
                }));
                assert(self.gathered() == gather_nodes(stored, path@, whole@.nodes));
                assert(gather_node(sofar, parent@, whole@) == self.gathered());
                assert(gather_nodes(start, parent@, upto) == gather_node(
                    gather_nodes(start, parent@, upto.drop_last()),
                    parent@,
                    upto.last(),
                ));
            }
        }
        proof {
            assert(forest.subrange(0, nodes@.len() as int) =~= forest);
        }
    }
}

/// Appends to `out` the labels that `value` refers to.
fn search_value_refs(value: &Value, out: &mut Vec<Symbol>)
    ensures
        view_all(final(out)@) == view_all(old(out)@) + value_references(value@),
    decreases value,
{
    match value {
        Value::Reference(s) => {
            out.push(s.clone());
            assert(view_all(out@) =~= view_all(old(out)@) + value_references(value@));
        },
        Value::Array(a) => {
            proof {
                lemma_array_view(*a);
            }
            search_values_refs(a, out);
        },
        _ => {
            assert(view_all(out@) =~= view_all(old(out)@) + value_references(value@));
        },
    }
}

/// Appends to `out` the labels that `values` refer to, in order.
fn search_values_refs(values: &Vec<Value>, out: &mut Vec<Symbol>)
    ensures
        view_all(final(out)@) == view_all(old(out)@) + values_references(view_all(values@)),
    decreases values,
{
    let ghost all = view_all(values@);
    let mut i: usize = 0;
    proof {
        assert(all.subrange(0, 0) =~= Seq::empty());
        assert(view_all(out@) =~= view_all(old(out)@) + values_references(all.subrange(0, 0)));
    }
    while i < values.len()
        invariant
            i <= values.len(),
            all == view_all(values@),
            view_all(out@) == view_all(old(out)@) + values_references(all.subrange(0, i as int)),
        decreases values.len() - i,
    {
        search_value_refs(&values[i], out);
        proof {
            let upto = all.subrange(0, i + 1);
            assert(upto.drop_last() =~= all.subrange(0, i as int));
            assert(upto.last() == values@[i as int]@);
            assert(view_all(out@) =~= view_all(old(out)@) + values_references(upto));
        }
        i += 1;
    }
    proof {
        assert(all.subrange(0, i as int) =~= all);
    }
}

/// The labels that the property values of `node` refer to, in order.
pub fn refs_in_node(node: &Node) -> (r: Vec<Symbol>)
    ensures
        view_all(r@) == props_references(node@.props),
{
    let ghost props = node@.props;
    let mut out: Vec<Symbol> = Vec::new();
    let mut i: usize = 0;
    proof {
        lemma_node_view(*node);
        assert(props.subrange(0, 0) =~= Seq::empty());
        assert(view_all(out@) =~= props_references(props.subrange(0, 0)));
    }
    while i < node.props.len()
        invariant
            i <= node.props.len(),
            props == view_all(node.props@),
            view_all(out@) == props_references(props.subrange(0, i as int)),
        decreases node.props.len() - i,
    {
        search_values_refs(&node.props[i].value, &mut out);
        proof {
            let upto = props.subrange(0, i + 1);
            assert(upto.drop_last() =~= props.subrange(0, i as int));
            assert(upto.last() == node.props@[i as int]@);
        }
        i += 1;
    }
    proof {
        assert(props.subrange(0, i as int) =~= props);
    }
    out
}

/// Appends to `out` the symbols that `value` uses.
fn search_value_symbols(value: &Value, out: &mut Vec<Symbol>)
    ensures
        view_all(final(out)@) == view_all(old(out)@) + value_symbols(value@),
    decreases value,
{
    match value {
        Value::Symbol(s) => {
            out.push(s.clone());
            assert(view_all(out@) =~= view_all(old(out)@) + value_symbols(value@));
        },
        Value::Array(a) => {
            proof {
                lemma_array_view(*a);
            }
            search_values_symbols(a, out);
        },
        Value::Expr(operands) => {
            let mut i: usize = 0;
            assert(view_all(out@) =~= view_all(old(out)@) + value_symbols(value@).subrange(0, 0));
            while i < operands.len()
                invariant
                    i <= operands.len(),
                    value_symbols(value@) == view_all(operands@),
                    view_all(out@) == view_all(old(out)@) + value_symbols(value@).subrange(
                        0,
                        i as int,
                    ),
                decreases operands.len() - i,
            {
                let ghost before = view_all(out@);
                out.push(operands[i].clone());
                proof {
                    assert(view_all(out@) =~= before.push(operands@[i as int]@));
                    assert(value_symbols(value@).subrange(0, i + 1) =~= value_symbols(
                        value@,
                    ).subrange(0, i as int).push(operands@[i as int]@));
                }
                i += 1;
                assert(view_all(out@) =~= view_all(old(out)@) + value_symbols(value@).subrange(
                    0,
                    i as int,
                ));
            }
            assert(value_symbols(value@).subrange(0, i as int) =~= value_symbols(value@));
        },
        _ => {
            assert(view_all(out@) =~= view_all(old(out)@) + value_symbols(value@));
        },
    }
}

/// Appends to `out` the symbols that `values` use, in order.
fn search_values_symbols(values: &Vec<Value>, out: &mut Vec<Symbol>)
    ensures
        view_all(final(out)@) == view_all(old(out)@) + values_symbols(view_all(values@)),
    decreases values,
{
    let ghost all = view_all(values@);
    let mut i: usize = 0;
    proof {
        assert(all.subrange(0, 0) =~= Seq::empty());
        assert(view_all(out@) =~= view_all(old(out)@) + values_symbols(all.subrange(0, 0)));
    }
    while i < values.len()
        invariant
            i <= values.len(),
            all == view_all(values@),
            view_all(out@) == view_all(old(out)@) + values_symbols(all.subrange(0, i as int)),
        decreases values.len() - i,
    {
        search_value_symbols(&values[i], out);
        proof {
            let upto = all.subrange(0, i + 1);
            assert(upto.drop_last() =~= all.subrange(0, i as int));
            assert(upto.last() == values@[i as int]@);
            assert(view_all(out@) =~= view_all(old(out)@) + values_symbols(upto));
        }
        i += 1;
    }
    proof {
        assert(all.subrange(0, i as int) =~= all);
    }
}

/// The symbols that the property values of `node` use, in order: symbols
/// that stand alone or in an array, and the operands of expressions.
pub fn symbols_in_node(node: &Node) -> (r: Vec<Symbol>)
    ensures
        view_all(r@) == props_symbols(node@.props),
{
    let ghost props = node@.props;
    let mut out: Vec<Symbol> = Vec::new();
    let mut i: usize = 0;
    proof {
        lemma_node_view(*node);
        assert(props.subrange(0, 0) =~= Seq::empty());
        assert(view_all(out@) =~= props_symbols(props.subrange(0, 0)));
    }
    while i < node.props.len()
        invariant
            i <= node.props.len(),
            props == view_all(node.props@),
            view_all(out@) == props_symbols(props.subrange(0, i as int)),
        decreases node.props.len() - i,
    {
        search_values_symbols(&node.props[i].value, &mut out);
        proof {
            let upto = props.subrange(0, i + 1);
            assert(upto.drop_last() =~= props.subrange(0, i as int));
            assert(upto.last() == node.props@[i as int]@);
        }
        i += 1;
    }
    proof {
        assert(props.subrange(0, i as int) =~= props);
    }
    out
}

/// Appends `item` to the list under `key`, which starts empty.
fn append_to<K: Key>(table: &mut Table<K, Vec<Path>>, key: K, item: Path)
    requires
        old(table).wf(),
    ensures
        final(table).wf(),
        listed(*final(table)) == append_at(listed(*old(table)), key.units(), item@),
{
    let ghost before = listed(*table);
    match table.find(&key) {
        Ok(i) => {
            let list = table.value_mut(i);
            let ghost was = view_all(list@);
            list.push(item);
            assert(view_all(list@) =~= was.push(item@));
            assert(listed(*table).vals =~= before.vals.update(i as int, was.push(item@)));
        },
        Err(at) => {
            let mut list: Vec<Path> = Vec::new();
            list.push(item);
            assert(view_all(list@) =~= seq![item@]);
            table.insert(at, key, list);
            assert(listed(*table).vals =~= before.vals.insert(at as int, seq![item@]));
        },
    }
}

impl Analysis {
    /// The paths of the path table that a reference leads, in order.
    fn reference_paths(&self) -> (r: Vec<Path>)
        requires
            self.tables_wf(),
        ensures
            view_all(r@) == reference_keys(self@.paths.keys),
    {
        let ghost keys = self@.paths.keys;
        let mut references: Vec<Path> = Vec::new();
        let mut i: usize = 0;
        proof {
            assert(keys.subrange(0, 0) =~= Seq::empty());
            assert(view_all(references@) =~= reference_keys(keys.subrange(0, 0)));
        }
        while i < self.paths.len()
            invariant
                self.tables_wf(),
                keys == self@.paths.keys,
                i <= keys.len(),
                view_all(references@) == reference_keys(keys.subrange(0, i as int)),
            decreases keys.len() - i,
        {
            let path = self.paths.key(i);
            proof {
                let upto = keys.subrange(0, i + 1);
                assert(upto.drop_last() =~= keys.subrange(0, i as int));
                assert(upto.last() == path@);
            }
            if path.is_reference() {
                let ghost before = view_all(references@);
                references.push(path.clone());
                assert(view_all(references@) =~= before.push(path@));
            }
            i += 1;
        }
        proof {
            assert(keys.subrange(0, i as int) =~= keys);
        }
        references
    }

    /// Moves each node that was gathered under a reference to the node that
    /// the reference stands for. No path that resolves starts with a
    /// reference afterwards.
    fn merge(&mut self)
        requires
            old(self).tables_wf(),
        ensures
            final(self).tables_wf(),
            final(self).gathered() == merge(old(self).gathered()),
            final(self)@.reverse == old(self)@.reverse,
            final(self)@.symbols == old(self)@.symbols,
    {
        let ghost start = self.gathered();
        let references = self.reference_paths();
        let ghost refs = view_all(references@);
        let mut k: usize = 0;
        proof {
            assert(refs.subrange(0, 0) =~= Seq::empty());
        }
        while k < references.len()
            invariant
                self.tables_wf(),
                k <= references.len(),
                refs == view_all(references@),
                self.gathered() == merge_all(start, refs.subrange(0, k as int)),
                self@.reverse == old(self)@.reverse,
                self@.symbols == old(self)@.symbols,
            decreases references.len() - k,
        {
            let path = references[k].clone();
            let ghost sofar = self.gathered();
            proof {
                let upto = refs.subrange(0, k + 1);
                assert(upto.drop_last() =~= refs.subrange(0, k as int));
                assert(upto.last() == path@);
            }
            match self.paths.find(&path) {
                Ok(i) => {
                    let ghost before = self@.paths;
                    let (_, node) = self.paths.remove(i);
                    assert(self@.paths.vals =~= before.vals.remove(i as int));
                    assert(self@.paths == sofar.paths.delete(path@));
                    let (target, report) = resolve_in(&self.labels, path);
                    self.upsert(target, node);
                    self.report(report);
                    assert(self.gathered() == merge_one(sofar, path@));
                },
                Err(_) => {
                    assert(self.gathered() == merge_one(sofar, path@));
                },
            }
            k += 1;
        }
        proof {
            assert(refs.subrange(0, k as int) =~= refs);
        }
    }

    /// Builds the reverse table: for each node the nodes that refer to it.
    fn index(&mut self)
        requires
            old(self).tables_wf(),
        ensures
            final(self).tables_wf(),
            final(self)@ == ({
                let indexed = index_upto(
                    old(self)@.labels,
                    old(self)@.paths,
                    Indexed {
                        reverse: old(self)@.reverse,
                        diagnostics: old(self)@.diagnostics,
                    },
                    old(self)@.paths.len(),
                );
                AnalysisView {
                    reverse: indexed.reverse,
                    diagnostics: indexed.diagnostics,
                    ..old(self)@
                }
            }),
    {
        let ghost labels = self@.labels;
        let ghost paths = self@.paths;
        let ghost start = Indexed { reverse: self@.reverse, diagnostics: self@.diagnostics };
        let mut n: usize = 0;
        while n < self.paths.len()
            invariant
                self.tables_wf(),
                n <= paths.len(),
                self@ == (AnalysisView {
                    reverse: index_upto(labels, paths, start, n as nat).reverse,
                    diagnostics: index_upto(labels, paths, start, n as nat).diagnostics,
                    ..old(self)@
                }),
                labels == old(self)@.labels,
                paths == old(self)@.paths,
            decreases paths.len() - n,
        {
            let from = self.paths.key(n).clone();
            let refers = refs_in_node(self.paths.value(n));
            let ghost labels_found = props_references(paths.vals[n as int].props);
            let ghost sofar = index_upto(labels, paths, start, n as nat);
            let mut j: usize = 0;
            proof {
                assert(labels_found.subrange(0, 0) =~= Seq::empty());
            }
            while j < refers.len()
                invariant
                    self.tables_wf(),
                    j <= refers.len(),
                    view_all(refers@) == labels_found,
                    from@ == paths.keys[n as int],
                    labels == old(self)@.labels,
                    paths == old(self)@.paths,
                    n < paths.len(),
                    self@ == (AnalysisView {
                        reverse: add_edges(
                            labels,
                            sofar,
                            from@,
                            labels_found.subrange(0, j as int),
                        ).reverse,
                        diagnostics: add_edges(
                            labels,
                            sofar,
                            from@,
                            labels_found.subrange(0, j as int),
                        ).diagnostics,
                        ..old(self)@
                    }),
                decreases refers.len() - j,
            {
                proof {
                    let upto = labels_found.subrange(0, j + 1);
                    assert(upto.drop_last() =~= labels_found.subrange(0, j as int));
                    assert(upto.last() == refers@[j as int]@);
                }
                let (target, report) = resolve_in(&self.labels, Path::reference(&refers[j]));
                append_to(&mut self.reverse, target, from.clone());
                self.report(report);
                j += 1;
            }
            proof {
                assert(labels_found.subrange(0, j as int) =~= labels_found);
            }
            n += 1;
        }
    }

    /// Builds the symbol table: for each symbol the nodes that use it.
    fn index_symbols(&mut self)
        requires
            old(self).tables_wf(),
        ensures
            final(self).tables_wf(),
            final(self)@ == (AnalysisView {
                symbols: uses_upto(old(self)@.paths, old(self)@.symbols, old(self)@.paths.len()),
                ..old(self)@
            }),
    {
        let ghost paths = self@.paths;
        let ghost start = self@.symbols;
        let mut n: usize = 0;
        while n < self.paths.len()
            invariant
                self.tables_wf(),
                n <= paths.len(),
                paths == old(self)@.paths,
                self@ == (AnalysisView {
                    symbols: uses_upto(paths, start, n as nat),
                    ..old(self)@
                }),
            decreases paths.len() - n,
        {
            let from = self.paths.key(n).clone();
            let used = symbols_in_node(self.paths.value(n));
            let ghost found = props_symbols(paths.vals[n as int].props);
            let ghost sofar = uses_upto(paths, start, n as nat);
            let mut j: usize = 0;
            proof {
                assert(found.subrange(0, 0) =~= Seq::empty());
            }
            while j < used.len()
                invariant
                    self.tables_wf(),
                    j <= used.len(),
                    view_all(used@) == found,
                    from@ == paths.keys[n as int],
                    paths == old(self)@.paths,
                    n < paths.len(),
                    self@ == (AnalysisView {
                        symbols: add_uses(sofar, from@, found.subrange(0, j as int)),
                        ..old(self)@
                    }),
                decreases used.len() - j,
            {
                proof {
                    let upto = found.subrange(0, j + 1);
                    assert(upto.drop_last() =~= found.subrange(0, j as int));
                    assert(upto.last() == used@[j as int]@);
                }
                append_to(&mut self.symbols, used[j].clone(), from.clone());
                j += 1;
            }
            proof {
                assert(found.subrange(0, j as int) =~= found);
            }
            n += 1;
        }
    }
}

impl Analysis {
    /// The tables are sorted, and every stored path is its own absolute
    /// form.
    pub open spec fn wf(&self) -> bool {
        self.tables_wf() && self@.wf()
    }

    /// The analysis of a forest of nodes, which may come from several
    /// sources one after the other.
    pub fn new(nodes: Vec<Node>) -> (a: Analysis)
        ensures
            a.wf(),
            a@ == analyse(view_all(nodes@)),
    {
        let mut analysis = Analysis::default();
        analysis.gather(&Path::root(), nodes);
        analysis.merge();
        analysis.index();
        analysis.index_symbols();
        proof {
            lemma_analyse_wf(view_all(nodes@));
        }
        analysis
    }

    /// The absolute form of a path that may start with a reference: the
    /// path that starts at the root and leads to the same node.
    /// Labels may stand for paths that start with references themselves:
    /// they are followed until a path without a leading reference is
    /// reached. A path whose label is not defined is left as far as it was
    /// resolved; one whose labels lead in a circle is left unchanged.
    pub fn absolute(&self, path: Path) -> (r: Path)
        requires
            self.wf(),
        ensures
            r@ == absolute(self@.labels, path@),
    {
        resolve_in(&self.labels, path).0
    }

    /// The absolute form of `path`, with the diagnostic that resolving it
    /// gives rise to, if any.
    pub fn resolve(&self, path: Path) -> (r: (Path, Option<Diagnostic>))
        requires
            self.wf(),
        ensures
            r.0@ == absolute(self@.labels, path@),
            report_view(r.1) == absolute_report(self@.labels, path@),
    {
        resolve_in(&self.labels, path)
    }

    /// The node at a path, which is resolved first.
    pub fn node_at(&self, path: &Path) -> (r: Option<&Node>)
        requires
            self.wf(),
        ensures
            match r {
                Some(node) => self@.paths.get(absolute(self@.labels, path@)) == Some(node@),
                None => self@.paths.get(absolute(self@.labels, path@)) is None,
            },
    {
        let (target, _) = resolve_in(&self.labels, path.clone());
        match self.paths.find(&target) {
            Ok(i) => Some(self.paths.value(i)),
            Err(_) => None,
        }
    }

    /// The nodes below a node, each with its path, in path order: none for
    /// a path that is not stored, else the entries that follow the path in
    /// the table for as long as their paths are longer than it, which are
    /// the entries that lie below it.
    pub fn children(&self, path: &Path) -> (r: Vec<(&Path, &Node)>)
        requires
            self.wf(),
        ensures
            !self@.paths.has(path@) ==> r@.len() == 0,
            self@.paths.has(path@) ==> ({
                let i = index_of(self@.paths.keys, path@);
                &&& i + r@.len() < self@.paths.keys.len()
                &&& i + 1 + r@.len() == family_end(self@.paths.keys, path@, i + 1)
                &&& forall|j: int|
                    0 <= j < r@.len() ==> (#[trigger] r@[j]).0@ == self@.paths.keys[i + 1 + j]
                        && r@[j].1@ == self@.paths.vals[i + 1 + j]
                &&& forall|m: int|
                    0 <= m < self@.paths.keys.len() ==> (is_proper_prefix(
                        path@,
                        #[trigger] self@.paths.keys[m],
                    ) <==> i < m <= i + r@.len())
            }),
    {
        let ghost keys = self@.paths.keys;
        let base = path.len();
        let mut out: Vec<(&Path, &Node)> = Vec::new();
        match self.paths.find(path) {
            Err(_) => out,
            Ok(i) => {
                let count = self.paths.len();
                let mut j: usize = i + 1;
                while j < count && self.paths.key(j).len() > base
                    invariant
                        self.tables_wf(),
                        self@.paths.wf(),
                        keys == self@.paths.keys,
                        count == keys.len(),
                        i < j <= keys.len(),
                        out@.len() == j - i - 1,
                        forall|n: int|
                            0 <= n < out@.len() ==> (#[trigger] out@[n]).0@ == keys[i + 1 + n]
                                && out@[n].1@ == self@.paths.vals[i + 1 + n],
                        long_run_end(keys, base as nat, j as int) == long_run_end(
                            keys,
                            base as nat,
                            i + 1,
                        ),
                    decreases keys.len() - j,
                {
                    out.push((self.paths.key(j), self.paths.value(j)));
                    j += 1;
                }
                proof {
                    lemma_long_run_is_family(self@.paths, i as int, i + 1);
                    lemma_family(keys, path@, i + 1);
                    assert forall|m: int| 0 <= m < keys.len() implies (is_proper_prefix(
                        path@,
                        #[trigger] keys[m],
                    ) <==> i < m <= i + out@.len()) by {
                        if is_proper_prefix(path@, keys[m]) {
                            lemma_proper_prefix_is_less(path@, keys[m]);
                            lemma_lex_asymmetric(path@, keys[m]);
                            if m < i {
                                assert(lex_lt(keys[m], keys[i as int]));
                            } else if m > j {
                                assert(lex_lt(keys[i as int], keys[j as int]));
                                assert(lex_lt(keys[j as int], keys[m]));
                                lemma_between_extends(path@, keys[j as int], keys[m]);
                            }
                        }
                    }
                }
                out
            },
        }
    }

    /// Appends to `out` the dependents of `start` through at most `depth`
    /// levels, deepest first.
    fn dependents_within(&self, start: &Path, depth: usize, out: &mut Vec<Path>)
        requires
            self.wf(),
        ensures
            view_all(final(out)@) == view_all(old(out)@) + dependents(
                self@.reverse,
                start@,
                depth as nat,
            ),
        decreases depth,
    {
        match self.reverse.find(start) {
            Err(_) => {
                assert(view_all(out@) =~= view_all(old(out)@) + Seq::<PathView>::empty());
            },
            Ok(i) => {
                if depth == 0 {
                    assert(view_all(out@) =~= view_all(old(out)@) + Seq::<PathView>::empty());
                } else {
                    let direct = self.reverse.value(i);
                    let ghost all = view_all(direct@);
                    assert(self@.reverse.get(start@) == Some(all));
                    let mut k: usize = 0;
                    proof {
                        assert(all.subrange(0, 0) =~= Seq::empty());
                        assert(view_all(out@) =~= view_all(old(out)@) + dependents_of_each(
                            self@.reverse,
                            all.subrange(0, 0),
                            (depth - 1) as nat,
                        ));
                    }
                    while k < direct.len()
                        invariant
                            self.wf(),
                            depth > 0,
                            k <= direct.len(),
                            all == view_all(direct@),
                            view_all(out@) == view_all(old(out)@) + dependents_of_each(
                                self@.reverse,
                                all.subrange(0, k as int),
                                (depth - 1) as nat,
                            ),
                        decreases direct.len() - k,
                    {
                        self.dependents_within(&direct[k], depth - 1, out);
                        let ghost between = view_all(out@);
                        out.push(direct[k].clone());
                        proof {
                            let upto = all.subrange(0, k + 1);
                            assert(upto.drop_last() =~= all.subrange(0, k as int));
                            assert(upto.last() == direct@[k as int]@);
                            assert(view_all(out@) =~= between.push(direct@[k as int]@));
                            assert(view_all(out@) =~= view_all(old(out)@) + dependents_of_each(
                                self@.reverse,
                                upto,
                                (depth - 1) as nat,
                            ));
                        }
                        k += 1;
                    }
                    proof {
                        assert(all.subrange(0, k as int) =~= all);
                    }
                }
            },
        }
    }

    /// All dependents of a node, direct and indirect, deepest first: for
    /// each direct dependent in recorded order, its own dependents come
    /// before it. A node that is reached along several chains occurs once
    /// for each chain. Chains are followed through as many levels as the
    /// reverse table has entries, which covers every chain that does not
    /// run in a circle.
    pub fn dependents(&self, start: &Path) -> (r: Vec<Path>)
        requires
            self.wf(),
        ensures
            view_all(r@) == dependents(self@.reverse, start@, self@.reverse.len()),
    {
        let mut out: Vec<Path> = Vec::new();
        assert(view_all(out@) =~= Seq::<PathView>::empty());
        self.dependents_within(start, self.reverse.len(), &mut out);
        assert(view_all(out@) =~= dependents(self@.reverse, start@, self@.reverse.len()));
        out
    }
}

impl Analysis {
    /// The number of nodes, each under its path.
    pub fn node_count(&self) -> (n: usize)
        requires
            self.wf(),
        ensures
            n == self@.paths.len(),
    {
        self.paths.len()
    }

    /// The path and the node at index `i` of the path table, which is
    /// sorted by path.
    pub fn entry(&self, i: usize) -> (r: (&Path, &Node))
        requires
            self.wf(),
            i < self@.paths.len(),
        ensures
            r.0@ == self@.paths.keys[i as int],
            r.1@ == self@.paths.vals[i as int],
    {
        (self.paths.key(i), self.paths.value(i))
    }

    /// The number of labels.
    pub fn label_count(&self) -> (n: usize)
        requires
            self.wf(),
        ensures
            n == self@.labels.len(),
    {
        self.labels.len()
    }

    /// The label at index `i` of the label table, which is sorted by
    /// label, and the path that it stands for.
    pub fn label_entry(&self, i: usize) -> (r: (&Symbol, &Path))
        requires
            self.wf(),
            i < self@.labels.len(),
        ensures
            r.0@ == self@.labels.keys[i as int],
            r.1@ == self@.labels.vals[i as int],
    {
        (self.labels.key(i), self.labels.value(i))
    }

    /// The path that `label` stands for, if the label is defined.
    pub fn label_path(&self, label: &Symbol) -> (r: Option<&Path>)
        requires
            self.wf(),
        ensures
            match r {
                Some(path) => self@.labels.get(label@) == Some(path@),
                None => self@.labels.get(label@) is None,
            },
    {
        match self.labels.find(label) {
            Ok(i) => Some(self.labels.value(i)),
            Err(_) => None,
        }
    }

    /// The paths of the nodes that refer to the node at `path`, in the
    /// order in which the references were found, if there are any.
    pub fn direct_dependents(&self, path: &Path) -> (r: Option<&Vec<Path>>)
        requires
            self.wf(),
        ensures
            match r {
                Some(list) => self@.reverse.get(path@) == Some(view_all(list@)),
                None => self@.reverse.get(path@) is None,
            },
    {
        match self.reverse.find(path) {
            Ok(i) => Some(self.reverse.value(i)),
            Err(_) => None,
        }
    }

    /// The number of symbols that property values use.
    pub fn symbol_count(&self) -> (n: usize)
        requires
            self.wf(),
        ensures
            n == self@.symbols.len(),
    {
        self.symbols.len()
    }

    /// The symbol at index `i` of the symbol table, which is sorted by
    /// symbol, and the paths of the nodes that use it.
    pub fn symbol_entry(&self, i: usize) -> (r: (&Symbol, &Vec<Path>))
        requires
            self.wf(),
            i < self@.symbols.len(),
        ensures
            r.0@ == self@.symbols.keys[i as int],
            view_all(r.1@) == self@.symbols.vals[i as int],
    {
        (self.symbols.key(i), self.symbols.value(i))
    }

    /// What the analysis found worth reporting, in the order in which it
    /// was found.
    pub fn diagnostics(&self) -> (r: &Vec<Diagnostic>)
        ensures
            view_all(r@) == self@.diagnostics,
    {
        &self.diagnostics
    }
}

/// A diagnostic as one line of text.
pub open spec fn diagnostic_text(d: DiagnosticView) -> Seq<char> {
    match d {
        DiagnosticView::Conflict { label, path, conflict } => "Conflict: label "@ + label
            + " refers to "@ + path_text(path) + " and "@ + path_text(conflict),
        DiagnosticView::UndefinedLabel { label } => "Undefined label: "@ + label,
        DiagnosticView::CyclicLabel { label } => "Cyclic label: "@ + label,
    }
}

impl Diagnostic {
    /// The diagnostic as one line of text.
    pub fn to_text(&self) -> (r: String)
        ensures
            r@ == diagnostic_text(self@),
    {
        let mut out = String::new();
        match self {
            Diagnostic::Conflict { label, path, conflict } => {
                out.append("Conflict: label ");
                out.append(label.to_text().as_str());
                out.append(" refers to ");
                out.append(path.to_text().as_str());
                out.append(" and ");
                out.append(conflict.to_text().as_str());
            },
            Diagnostic::UndefinedLabel { label } => {
                out.append("Undefined label: ");
                out.append(label.to_text().as_str());
            },
            Diagnostic::CyclicLabel { label } => {
                out.append("Cyclic label: ");
                out.append(label.to_text().as_str());
            },
        }
        assert(out@ =~= diagnostic_text(self@));
        out
    }
}

} // verus!
