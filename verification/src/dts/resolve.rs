//! What analysing a forest of nodes means, stated over the models: how
//! paths are assigned, labels resolved, fragments merged and the indexes
//! built.
use super::order::{is_proper_prefix, Ranked};
use super::table::Assoc;
use super::view::{
    is_reference_rooted, join, reference_path, root_path, NameView, NodeView, PathView, PropView,
    ValueView,
};
use vstd::prelude::*;

verus! {

/// Model of a diagnostic: something worth reporting that does not stop the
/// analysis.
pub ghost enum DiagnosticView {
    /// `label` stood for `conflict` and now stands for `path`, and the two
    /// resolve to different nodes.
    Conflict { label: Seq<char>, path: PathView, conflict: PathView },
    /// A reference names a label that nothing defines.
    UndefinedLabel { label: Seq<char> },
    /// Resolving a reference to `label` leads through labels without end.
    CyclicLabel { label: Seq<char> },
}

/// The label table: for each label the path of the node that carries it.
pub type Labels = Assoc<char, PathView>;

/// The path table: for each path its node, without children.
pub type Paths = Assoc<NameView, NodeView>;

/// The reverse dependency table: for each path the paths of the nodes that
/// refer to it, in the order in which the references were found.
pub type Edges = Assoc<NameView, Seq<PathView>>;

/// The symbol usage table: for each symbol the paths of the nodes that use
/// it.
pub type Uses = Assoc<char, Seq<PathView>>;

/// How following the leading reference of a path ends.
pub ghost enum Outcome {
    /// At a path that no reference leads.
    Resolved(PathView),
    /// At a path led by a reference to a label that is not defined.
    Undefined(PathView, Seq<char>),
    /// Not within the steps allowed: the labels refer to one another in a
    /// circle.
    Endless,
}

/// The label that leads `path`, for a path that a reference leads.
pub open spec fn leading_label(path: PathView) -> Seq<char> {
    path[0]->Reference_0
}

/// The segments of `path` after the first.
pub open spec fn tail(path: PathView) -> Seq<NameView> {
    path.subrange(1, path.len() as int)
}

/// Follows the leading reference of `path` through the label table, at most
/// `steps` times: each step puts the labelled path in place of the
/// reference and joins the remaining segments to it.
pub open spec fn follow(labels: Labels, path: PathView, steps: nat) -> Outcome
    decreases steps,
{
    if !is_reference_rooted(path) {
        Outcome::Resolved(path)
    } else {
        match labels.get(leading_label(path)) {
            None => Outcome::Undefined(path, leading_label(path)),
            Some(target) => if steps == 0 {
                Outcome::Endless
            } else {
                follow(labels, join(target, tail(path)), (steps - 1) as nat)
            },
        }
    }
}

/// How resolving `path` ends, with as many steps allowed as there are
/// labels: more are needed only where labels refer to one another in a
/// circle.
pub open spec fn resolution(labels: Labels, path: PathView) -> Outcome {
    follow(labels, path, labels.len())
}

/// The absolute form of `path`: where following its leading reference
/// ends. A path that no reference leads is its own absolute form; so is one
/// whose resolution does not end.
pub open spec fn absolute(labels: Labels, path: PathView) -> PathView {
    match resolution(labels, path) {
        Outcome::Resolved(p) => p,
        Outcome::Undefined(p, _) => p,
        Outcome::Endless => path,
    }
}

/// What resolving `path` reports: nothing where it resolves, else the
/// label that is undefined or the label whose resolution does not end.
pub open spec fn absolute_report(labels: Labels, path: PathView) -> Seq<DiagnosticView> {
    match resolution(labels, path) {
        Outcome::Resolved(_) => Seq::empty(),
        Outcome::Undefined(_, label) => seq![DiagnosticView::UndefinedLabel { label }],
        Outcome::Endless => seq![DiagnosticView::CyclicLabel { label: leading_label(path) }],
    }
}

/// The state while nodes are gathered.
pub ghost struct Gathered {
    pub paths: Paths,
    pub labels: Labels,
    pub diagnostics: Seq<DiagnosticView>,
}

/// The state before anything is gathered.
pub open spec fn nothing_gathered() -> Gathered {
    Gathered { paths: Assoc::empty(), labels: Assoc::empty(), diagnostics: Seq::empty() }
}

/// Records that `label` stands for `path`. Where the label stood for
/// another path before, both are resolved against the new table, and a
/// conflict is reported if they resolve differently; the new path stands
/// either way.
pub open spec fn add_label(st: Gathered, label: Seq<char>, path: PathView) -> Gathered {
    let labels = st.labels.put(label, path);
    match st.labels.get(label) {
        None => Gathered { labels, ..st },
        Some(conflict) => Gathered {
            labels,
            diagnostics: st.diagnostics + absolute_report(labels, conflict) + absolute_report(
                labels,
                path,
            ) + (if absolute(labels, conflict) != absolute(labels, path) {
                seq![DiagnosticView::Conflict { label, path, conflict }]
            } else {
                Seq::empty()
            }),
            ..st
        },
    }
}

/// Records each of `labels`, in order, as standing for `path`.
pub open spec fn add_labels(st: Gathered, labels: Seq<Seq<char>>, path: PathView) -> Gathered
    decreases labels.len(),
{
    if labels.len() == 0 {
        st
    } else {
        add_label(add_labels(st, labels.drop_last(), path), labels.last(), path)
    }
}

/// A node that takes over what a later declaration of the same path adds:
/// its labels and its properties go behind those already there.
pub open spec fn merged(extant: NodeView, incoming: NodeView) -> NodeView {
    NodeView {
        labels: extant.labels + incoming.labels,
        props: extant.props + incoming.props,
        ..extant
    }
}

/// The node without its children.
pub open spec fn detached(node: NodeView) -> NodeView {
    NodeView { nodes: Seq::empty(), ..node }
}

/// Stores `node` under `key`, or merges it into the node already there.
pub open spec fn upsert(paths: Paths, key: PathView, node: NodeView) -> Paths {
    match paths.get(key) {
        Some(extant) => paths.put(key, merged(extant, node)),
        None => paths.put(key, node),
    }
}

/// Gathers one node whose parent has the path `parent`: assigns it its
/// path, records its labels, stores it without its children, and gathers
/// the children below that path.
pub open spec fn gather_node(st: Gathered, parent: PathView, node: NodeView) -> Gathered
    decreases node,
{
    let path = join(parent, seq![node.name]);
    let labelled = add_labels(st, node.labels, path);
    let stored = Gathered { paths: upsert(labelled.paths, path, detached(node)), ..labelled };
    gather_nodes(stored, path, node.nodes)
}

/// Gathers `nodes`, first to last, as children of `parent`.
pub open spec fn gather_nodes(st: Gathered, parent: PathView, nodes: Seq<NodeView>) -> Gathered
    decreases nodes,
{
    if nodes.len() == 0 {
        st
    } else {
        gather_node(gather_nodes(st, parent, nodes.drop_last()), parent, nodes.last())
    }
}

/// Those of `keys` that a reference leads, in order.
pub open spec fn reference_keys(keys: Seq<PathView>) -> Seq<PathView>
    decreases keys.len(),
{
    if keys.len() == 0 {
        Seq::empty()
    } else if is_reference_rooted(keys.last()) {
        reference_keys(keys.drop_last()).push(keys.last())
    } else {
        reference_keys(keys.drop_last())
    }
}

/// Moves the node stored under `path` to the absolute form of `path`,
/// merging it into a node that is already there.
pub open spec fn merge_one(st: Gathered, path: PathView) -> Gathered {
    match st.paths.get(path) {
        Some(node) => Gathered {
            paths: upsert(st.paths.delete(path), absolute(st.labels, path), node),
            diagnostics: st.diagnostics + absolute_report(st.labels, path),
            ..st
        },
        None => st,
    }
}

/// Moves the nodes stored under `refs`, first to last.
pub open spec fn merge_all(st: Gathered, refs: Seq<PathView>) -> Gathered
    decreases refs.len(),
{
    if refs.len() == 0 {
        st
    } else {
        merge_one(merge_all(st, refs.drop_last()), refs.last())
    }
}

/// Moves every node that was gathered under a path led by a reference to
/// the absolute form of that path, in path order.
pub open spec fn merge(st: Gathered) -> Gathered {
    merge_all(st, reference_keys(st.paths.keys))
}

/// The labels that a value refers to: the value's own where it is a
/// reference, those of its items where it is an array.
pub open spec fn value_references(value: ValueView) -> Seq<Seq<char>>
    decreases value,
{
    match value {
        ValueView::Reference(s) => seq![s],
        ValueView::Array(items) => values_references(items),
        _ => Seq::empty(),
    }
}

/// The labels that `values` refer to, in order.
pub open spec fn values_references(values: Seq<ValueView>) -> Seq<Seq<char>>
    decreases values,
{
    if values.len() == 0 {
        Seq::empty()
    } else {
        values_references(values.drop_last()) + value_references(values.last())
    }
}

/// The labels that the values of `props` refer to, in order.
pub open spec fn props_references(props: Seq<PropView>) -> Seq<Seq<char>>
    decreases props.len(),
{
    if props.len() == 0 {
        Seq::empty()
    } else {
        props_references(props.drop_last()) + values_references(props.last().value)
    }
}

/// The symbols that a value uses: the value's own where it is a symbol,
/// the operands of an expression, and those of the items of an array.
pub open spec fn value_symbols(value: ValueView) -> Seq<Seq<char>>
    decreases value,
{
    match value {
        ValueView::Symbol(s) => seq![s],
        ValueView::Array(items) => values_symbols(items),
        ValueView::Expr(operands) => operands,
        _ => Seq::empty(),
    }
}

/// The symbols that `values` use, in order.
pub open spec fn values_symbols(values: Seq<ValueView>) -> Seq<Seq<char>>
    decreases values,
{
    if values.len() == 0 {
        Seq::empty()
    } else {
        values_symbols(values.drop_last()) + value_symbols(values.last())
    }
}

/// The symbols that the values of `props` use, in order.
pub open spec fn props_symbols(props: Seq<PropView>) -> Seq<Seq<char>>
    decreases props.len(),
{
    if props.len() == 0 {
        Seq::empty()
    } else {
        props_symbols(props.drop_last()) + values_symbols(props.last().value)
    }
}

/// The table with `item` appended to the list under `key`, which starts
/// empty.
pub open spec fn append_at<T: Ranked>(
    lists: Assoc<T, Seq<PathView>>,
    key: Seq<T>,
    item: PathView,
) -> Assoc<T, Seq<PathView>> {
    match lists.get(key) {
        Some(list) => lists.put(key, list.push(item)),
        None => lists.put(key, seq![item]),
    }
}

/// The state while the reverse dependency table is built.
pub ghost struct Indexed {
    pub reverse: Edges,
    pub diagnostics: Seq<DiagnosticView>,
}

/// Records that the node at `from` refers to `label`: `from` becomes a
/// dependent of the absolute form of the reference.
pub open spec fn add_edge(
    labels: Labels,
    ix: Indexed,
    from: PathView,
    label: Seq<char>,
) -> Indexed {
    Indexed {
        reverse: append_at(ix.reverse, absolute(labels, reference_path(label)), from),
        diagnostics: ix.diagnostics + absolute_report(labels, reference_path(label)),
    }
}

/// Records that the node at `from` refers to each of `refs`, in order.
pub open spec fn add_edges(
    labels: Labels,
    ix: Indexed,
    from: PathView,
    refs: Seq<Seq<char>>,
) -> Indexed
    decreases refs.len(),
{
    if refs.len() == 0 {
        ix
    } else {
        add_edge(labels, add_edges(labels, ix, from, refs.drop_last()), from, refs.last())
    }
}

/// The reverse dependency table after the first `n` entries of `paths`
/// have been scanned.
pub open spec fn index_upto(labels: Labels, paths: Paths, ix: Indexed, n: nat) -> Indexed
    decreases n,
{
    if n == 0 {
        ix
    } else {
        add_edges(
            labels,
            index_upto(labels, paths, ix, (n - 1) as nat),
            paths.keys[n - 1],
            props_references(paths.vals[n - 1].props),
        )
    }
}

/// Records that the node at `from` uses each of `symbols`, in order.
pub open spec fn add_uses(uses: Uses, from: PathView, symbols: Seq<Seq<char>>) -> Uses
    decreases symbols.len(),
{
    if symbols.len() == 0 {
        uses
    } else {
        append_at(add_uses(uses, from, symbols.drop_last()), symbols.last(), from)
    }
}

/// The symbol usage table after the first `n` entries of `paths` have been
/// scanned.
pub open spec fn uses_upto(paths: Paths, uses: Uses, n: nat) -> Uses
    decreases n,
{
    if n == 0 {
        uses
    } else {
        add_uses(
            uses_upto(paths, uses, (n - 1) as nat),
            paths.keys[n - 1],
            props_symbols(paths.vals[n - 1].props),
        )
    }
}

/// Model of a finished analysis.
pub ghost struct AnalysisView {
    pub paths: Paths,
    pub labels: Labels,
    pub reverse: Edges,
    pub symbols: Uses,
    pub diagnostics: Seq<DiagnosticView>,
}

/// The analysis of a forest: its nodes gathered below the root, fragments
/// merged into the nodes that their labels name, then both indexes built
/// over the merged nodes in path order.
pub open spec fn analyse(forest: Seq<NodeView>) -> AnalysisView {
    let gathered = gather_nodes(nothing_gathered(), root_path(), forest);
    let merged = merge(gathered);
    let indexed = index_upto(
        merged.labels,
        merged.paths,
        Indexed { reverse: Assoc::empty(), diagnostics: merged.diagnostics },
        merged.paths.len(),
    );
    AnalysisView {
        paths: merged.paths,
        labels: merged.labels,
        reverse: indexed.reverse,
        symbols: uses_upto(merged.paths, Assoc::empty(), merged.paths.len()),
        diagnostics: indexed.diagnostics,
    }
}

/// The dependents of `start`, deepest first, following the reverse table
/// through at most `depth` levels: for each direct dependent in recorded
/// order, first its own dependents, then the dependent itself. A node that
/// is reached along several chains occurs once for each chain.
pub open spec fn dependents(reverse: Edges, start: PathView, depth: nat) -> Seq<PathView>
    decreases depth, 0nat,
{
    match reverse.get(start) {
        None => Seq::empty(),
        Some(direct) => if depth == 0 {
            Seq::empty()
        } else {
            dependents_of_each(reverse, direct, (depth - 1) as nat)
        },
    }
}

/// For each of `direct` in order: its dependents, then itself.
pub open spec fn dependents_of_each(reverse: Edges, direct: Seq<PathView>, depth: nat) -> Seq<
    PathView,
>
    decreases depth, 1 + direct.len(),
{
    if direct.len() == 0 {
        Seq::empty()
    } else {
        dependents_of_each(reverse, direct.drop_last(), depth) + dependents(
            reverse,
            direct.last(),
            depth,
        ).push(direct.last())
    }
}

/// Where the run of keys that extend `path` ends, for the run that starts
/// at index `from`.
pub open spec fn family_end(keys: Seq<PathView>, path: PathView, from: int) -> int
    decreases keys.len() - from,
{
    if 0 <= from < keys.len() && is_proper_prefix(path, keys[from]) {
        family_end(keys, path, from + 1)
    } else {
        from
    }
}

} // verus!
