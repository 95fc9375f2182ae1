//! What holds of every analysis: it is a function of the forest and well
//! formed; stored paths are their own absolute forms; fragments stay behind
//! only where their labels do not resolve; the nodes below a node follow it
//! without a gap; and dependents come deepest first, once for each chain.
use super::bounds::{anchored_targets, lemma_steps_suffice};
use super::closure::{lemma_gather_nodes_closed, lemma_merge_closed, parent_closed};
use super::order::{
    is_proper_prefix, lemma_between_extends, lemma_lex_asymmetric, lemma_proper_prefix_is_less,
    lex_lt, Ranked,
};
use super::resolve::{
    absolute, absolute_report, add_edges, add_label, add_labels, add_uses, analyse, append_at,
    dependents, dependents_of_each, detached, follow, gather_node, gather_nodes, index_upto,
    leading_label, merge, merge_all, merge_one, merged, nothing_gathered, props_references,
    props_symbols, reference_keys, resolution, tail, upsert, uses_upto, AnalysisView,
    DiagnosticView, Edges, Gathered, Indexed, Labels, Outcome, Paths, Uses,
};
use super::table::{ascending, index_of, lemma_rank_exists, rank, Assoc};
use super::view::{
    anchored, is_reference_rooted, join, lemma_join_anchored, reference_path, root_path,
    NodeView, PathView,
};
use vstd::prelude::*;

verus! {

/// Following a reference ends at a path that no reference leads, or at one
/// whose leading label is not defined.
pub proof fn lemma_follow_ends(labels: Labels, path: PathView, steps: nat)
    ensures
        match follow(labels, path, steps) {
            Outcome::Resolved(q) => !is_reference_rooted(q),
            Outcome::Undefined(q, l) => is_reference_rooted(q) && leading_label(q) == l
                && labels.get(l) is None,
            Outcome::Endless => is_reference_rooted(path),
        },
    decreases steps,
{
    if is_reference_rooted(path) {
        match labels.get(leading_label(path)) {
            None => {},
            Some(target) => {
                if steps > 0 {
                    lemma_follow_ends(
                        labels,
                        join(target, tail(path)),
                        (steps - 1) as nat,
                    );
                }
            },
        }
    }
}

/// The absolute form of a path is its own absolute form.
pub proof fn lemma_absolute_idempotent(labels: Labels, path: PathView)
    ensures
        absolute(labels, absolute(labels, path)) == absolute(labels, path),
{
    lemma_follow_ends(labels, path, labels.len());
}

/// A path that is its own absolute form and is led by a reference is one
/// that does not resolve: its label is undefined, or resolving it does not
/// end.
pub proof fn lemma_settled_reference(labels: Labels, path: PathView)
    requires
        absolute(labels, path) == path,
    ensures
        is_reference_rooted(path) <==> !(resolution(labels, path) is Resolved),
        is_reference_rooted(path) ==> labels.get(leading_label(path)) is None || resolution(
            labels,
            path,
        ) is Endless,
{
    lemma_follow_ends(labels, path, labels.len());
}

/// `key` occurs in `refs` at index `n` or later.
pub open spec fn occurs_from(refs: Seq<PathView>, n: int, key: PathView) -> bool {
    exists|j: int| n <= j < refs.len() && #[trigger] refs[j] == key
}

/// Every stored path is its own absolute form, or is among `refs[n..]`.
pub open spec fn settled_but(st: Gathered, refs: Seq<PathView>, n: int) -> bool {
    forall|k: PathView| #[trigger]
        st.paths.has(k) ==> absolute(st.labels, k) == k || occurs_from(refs, n, k)
}

/// Every path that a reference leads is among the reference keys.
pub proof fn lemma_reference_keys_complete(keys: Seq<PathView>, i: int)
    requires
        0 <= i < keys.len(),
        is_reference_rooted(keys[i]),
    ensures
        occurs_from(reference_keys(keys), 0, keys[i]),
    decreases keys.len(),
{
    let refs = reference_keys(keys);
    if i == keys.len() - 1 {
        assert(refs[refs.len() - 1] == keys[i]);
    } else {
        let front = keys.drop_last();
        lemma_reference_keys_complete(front, i);
        let j = choose|j: int| 0 <= j < reference_keys(front).len() && reference_keys(front)[j]
            == front[i];
        assert(refs[j] == keys[i]);
    }
}

/// Moving the first `n` of `refs` keeps the tables sorted and the labels as
/// they are, and leaves no path unsettled but those still to be moved.
pub proof fn lemma_merge_all_settles(st: Gathered, refs: Seq<PathView>, n: int)
    requires
        st.paths.wf(),
        settled_but(st, refs, 0),
        0 <= n <= refs.len(),
    ensures
        merge_all(st, refs.subrange(0, n)).paths.wf(),
        merge_all(st, refs.subrange(0, n)).labels == st.labels,
        settled_but(merge_all(st, refs.subrange(0, n)), refs, n),
    decreases n,
{
    if n > 0 {
        let upto = refs.subrange(0, n);
        assert(upto.drop_last() =~= refs.subrange(0, n - 1));
        assert(upto.last() == refs[n - 1]);
        lemma_merge_all_settles(st, refs, n - 1);
        let before = merge_all(st, refs.subrange(0, n - 1));
        let path = refs[n - 1];
        let after = merge_one(before, path);
        assert(merge_all(st, upto) == after);
        match before.paths.get(path) {
            Some(node) => {
                let target = absolute(before.labels, path);
                let removed = before.paths.delete(path);
                before.paths.lemma_delete(path);
                match removed.get(target) {
                    Some(extant) => {
                        removed.lemma_put(target, merged(extant, node));
                    },
                    None => {
                        removed.lemma_put(target, node);
                    },
                }
                lemma_absolute_idempotent(before.labels, path);
                assert forall|k: PathView| #[trigger] after.paths.has(k) implies absolute(
                    after.labels,
                    k,
                ) == k || occurs_from(refs, n, k) by {
                    if k != target {
                        assert(before.paths.has(k));
                        if absolute(before.labels, k) != k {
                            let j = choose|j: int| n - 1 <= j < refs.len() && refs[j] == k;
                            assert(refs[j] == k);
                        }
                    }
                }
            },
            None => {
                assert forall|k: PathView| #[trigger] after.paths.has(k) implies absolute(
                    after.labels,
                    k,
                ) == k || occurs_from(refs, n, k) by {
                    if absolute(before.labels, k) != k {
                        let j = choose|j: int| n - 1 <= j < refs.len() && refs[j] == k;
                        assert(refs[j] == k);
                    }
                }
            },
        }
    } else {
        assert(refs.subrange(0, 0) =~= Seq::<PathView>::empty());
    }
}

/// After merging, every stored path is its own absolute form.
pub proof fn lemma_merge_settles(st: Gathered)
    requires
        st.paths.wf(),
    ensures
        merge(st).paths.wf(),
        merge(st).labels == st.labels,
        forall|k: PathView| #[trigger]
            merge(st).paths.has(k) ==> absolute(st.labels, k) == k,
{
    let refs = reference_keys(st.paths.keys);
    assert forall|k: PathView| #[trigger] st.paths.has(k) implies absolute(st.labels, k) == k
        || occurs_from(refs, 0, k) by {
        if is_reference_rooted(k) {
            let i = index_of(st.paths.keys, k);
            lemma_reference_keys_complete(st.paths.keys, i);
        }
    }
    lemma_merge_all_settles(st, refs, refs.len() as int);
    assert(refs.subrange(0, refs.len() as int) =~= refs);
    let done = merge(st);
    assert forall|k: PathView| #[trigger] done.paths.has(k) implies absolute(st.labels, k)
        == k by {
        if absolute(st.labels, k) != k {
            assert(occurs_from(refs, refs.len() as int, k));
        }
    }
}

/// Every stored node is without children: what was below it is stored
/// under paths of its own.
pub open spec fn flat(paths: Paths) -> bool {
    forall|i: int| 0 <= i < paths.vals.len() ==> (#[trigger] paths.vals[i]).nodes.len() == 0
}

/// Storing a node without children in a flat table keeps the table flat.
pub proof fn lemma_upsert_flat(paths: Paths, key: PathView, node: NodeView)
    requires
        paths.wf(),
        flat(paths),
        node.nodes.len() == 0,
    ensures
        flat(upsert(paths, key, node)),
{
    let out = upsert(paths, key, node);
    if paths.has(key) {
        let at = index_of(paths.keys, key);
        assert forall|i: int| 0 <= i < out.vals.len() implies (#[trigger] out.vals[i]).nodes.len()
            == 0 by {
            if i != at {
                assert(out.vals[i] == paths.vals[i]);
            } else {
                assert(paths.vals[at].nodes.len() == 0);
            }
        }
    } else {
        let r = rank(paths.keys, key);
        lemma_rank_exists(paths.keys, key);
        assert forall|i: int| 0 <= i < out.vals.len() implies (#[trigger] out.vals[i]).nodes.len()
            == 0 by {
            if i < r {
                assert(out.vals[i] == paths.vals[i]);
            } else if i > r {
                assert(out.vals[i] == paths.vals[i - 1]);
            }
        }
    }
}

/// Gathering a node keeps the table flat.
pub proof fn lemma_gather_node_flat(st: Gathered, parent: PathView, node: NodeView)
    requires
        st.paths.wf(),
        st.labels.wf(),
        flat(st.paths),
    ensures
        flat(gather_node(st, parent, node).paths),
    decreases node,
{
    let path = join(parent, seq![node.name]);
    lemma_add_labels_wf(st, node.labels, path);
    let labelled = add_labels(st, node.labels, path);
    lemma_upsert_wf(labelled.paths, path, detached(node));
    lemma_upsert_flat(labelled.paths, path, detached(node));
    let stored = Gathered { paths: upsert(labelled.paths, path, detached(node)), ..labelled };
    lemma_gather_nodes_flat(stored, path, node.nodes);
}

/// Gathering nodes keeps the table flat.
pub proof fn lemma_gather_nodes_flat(st: Gathered, parent: PathView, nodes: Seq<NodeView>)
    requires
        st.paths.wf(),
        st.labels.wf(),
        flat(st.paths),
    ensures
        flat(gather_nodes(st, parent, nodes).paths),
    decreases nodes,
{
    if nodes.len() > 0 {
        lemma_gather_nodes_wf(st, parent, nodes.drop_last());
        lemma_gather_nodes_flat(st, parent, nodes.drop_last());
        lemma_gather_node_flat(gather_nodes(st, parent, nodes.drop_last()), parent, nodes.last());
    }
}

/// Moving nodes keeps the table flat.
pub proof fn lemma_merge_all_flat(st: Gathered, refs: Seq<PathView>)
    requires
        st.paths.wf(),
        flat(st.paths),
    ensures
        merge_all(st, refs).paths.wf(),
        flat(merge_all(st, refs).paths),
    decreases refs.len(),
{
    if refs.len() > 0 {
        lemma_merge_all_flat(st, refs.drop_last());
        let before = merge_all(st, refs.drop_last());
        let path = refs.last();
        match before.paths.get(path) {
            Some(node) => {
                let at = index_of(before.paths.keys, path);
                assert(node == before.paths.vals[at]);
                before.paths.lemma_delete(path);
                let removed = before.paths.delete(path);
                assert forall|i: int| 0 <= i < removed.vals.len() implies (
                #[trigger] removed.vals[i]).nodes.len() == 0 by {
                    if i < at {
                        assert(removed.vals[i] == before.paths.vals[i]);
                    } else {
                        assert(removed.vals[i] == before.paths.vals[i + 1]);
                    }
                }
                lemma_upsert_wf(removed, absolute(before.labels, path), node);
                lemma_upsert_flat(removed, absolute(before.labels, path), node);
            },
            None => {},
        }
    }
}

/// Every path under which a node is stored is anchored.
pub open spec fn anchored_keys(paths: Paths) -> bool {
    forall|k: PathView| #[trigger] paths.has(k) ==> anchored(k)
}

impl AnalysisView {
    /// The tables are sorted by key; the stored nodes are without
    /// children; every stored path and every path that a label stands for
    /// is anchored; with each path its parent is stored, unless that is the
    /// root; and every stored path is its own absolute form.
    pub open spec fn wf(self) -> bool {
        &&& self.paths.wf()
        &&& self.labels.wf()
        &&& self.reverse.wf()
        &&& self.symbols.wf()
        &&& flat(self.paths)
        &&& anchored_keys(self.paths)
        &&& anchored_targets(self.labels)
        &&& parent_closed(self.paths)
        &&& forall|k: PathView| #[trigger] self.paths.has(k) ==> absolute(self.labels, k) == k
    }
}

/// Following an anchored path through anchored targets ends at an anchored
/// path.
pub proof fn lemma_follow_anchored(labels: Labels, path: PathView, steps: nat)
    requires
        labels.wf(),
        anchored_targets(labels),
        anchored(path),
    ensures
        match follow(labels, path, steps) {
            Outcome::Resolved(q) => anchored(q),
            Outcome::Undefined(q, _) => anchored(q),
            Outcome::Endless => true,
        },
    decreases steps,
{
    if is_reference_rooted(path) {
        match labels.get(leading_label(path)) {
            Some(target) => {
                assert(target == labels.vals[index_of(labels.keys, leading_label(path))]);
                lemma_join_anchored(target, tail(path));
                if steps > 0 {
                    lemma_follow_anchored(
                        labels,
                        join(target, tail(path)),
                        (steps - 1) as nat,
                    );
                }
            },
            None => {},
        }
    }
}

/// The absolute form of an anchored path is anchored.
pub proof fn lemma_absolute_anchored(labels: Labels, path: PathView)
    requires
        labels.wf(),
        anchored_targets(labels),
        anchored(path),
    ensures
        anchored(absolute(labels, path)),
{
    lemma_follow_anchored(labels, path, labels.len());
}

/// Storing a value in a table whose values are anchored keeps them so.
pub proof fn lemma_put_anchored(labels: Labels, label: Seq<char>, path: PathView)
    requires
        labels.wf(),
        anchored_targets(labels),
        anchored(path),
    ensures
        anchored_targets(labels.put(label, path)),
{
    let out = labels.put(label, path);
    labels.lemma_put(label, path);
    assert forall|i: int| 0 <= i < out.vals.len() implies anchored(#[trigger] out.vals[i]) by {
        if labels.has(label) {
            if i != index_of(labels.keys, label) {
                assert(out.vals[i] == labels.vals[i]);
            }
        } else {
            let r = rank(labels.keys, label);
            lemma_rank_exists(labels.keys, label);
            if i < r {
                assert(out.vals[i] == labels.vals[i]);
            } else if i > r {
                assert(out.vals[i] == labels.vals[i - 1]);
            }
        }
    }
}

/// Recording labels for an anchored path keeps the targets anchored.
pub proof fn lemma_add_labels_anchored(st: Gathered, labels: Seq<Seq<char>>, path: PathView)
    requires
        st.labels.wf(),
        anchored_targets(st.labels),
        anchored(path),
    ensures
        anchored_targets(add_labels(st, labels, path).labels),
    decreases labels.len(),
{
    if labels.len() > 0 {
        lemma_add_labels_wf(st, labels.drop_last(), path);
        lemma_add_labels_anchored(st, labels.drop_last(), path);
        lemma_put_anchored(add_labels(st, labels.drop_last(), path).labels, labels.last(), path);
    }
}

/// Storing a node under an anchored path keeps the stored paths anchored.
pub proof fn lemma_upsert_anchored(paths: Paths, key: PathView, node: NodeView)
    requires
        paths.wf(),
        anchored_keys(paths),
        anchored(key),
    ensures
        anchored_keys(upsert(paths, key, node)),
{
    let out = upsert(paths, key, node);
    match paths.get(key) {
        Some(extant) => paths.lemma_put(key, merged(extant, node)),
        None => paths.lemma_put(key, node),
    }
    assert forall|k: PathView| #[trigger] out.has(k) implies anchored(k) by {
        if k != key {
            assert(paths.has(k));
        }
    }
}

/// Gathering a node below an anchored path keeps stored paths and targets
/// anchored.
pub proof fn lemma_gather_node_anchored(st: Gathered, parent: PathView, node: NodeView)
    requires
        st.paths.wf(),
        st.labels.wf(),
        anchored_keys(st.paths),
        anchored_targets(st.labels),
        anchored(parent),
    ensures
        anchored_keys(gather_node(st, parent, node).paths),
        anchored_targets(gather_node(st, parent, node).labels),
    decreases node,
{
    let path = join(parent, seq![node.name]);
    lemma_join_anchored(parent, seq![node.name]);
    lemma_add_labels_wf(st, node.labels, path);
    lemma_add_labels_anchored(st, node.labels, path);
    let labelled = add_labels(st, node.labels, path);
    lemma_upsert_wf(labelled.paths, path, detached(node));
    lemma_upsert_anchored(labelled.paths, path, detached(node));
    let stored = Gathered { paths: upsert(labelled.paths, path, detached(node)), ..labelled };
    lemma_gather_nodes_anchored(stored, path, node.nodes);
}

/// Gathering nodes below an anchored path keeps stored paths and targets
/// anchored.
pub proof fn lemma_gather_nodes_anchored(st: Gathered, parent: PathView, nodes: Seq<NodeView>)
    requires
        st.paths.wf(),
        st.labels.wf(),
        anchored_keys(st.paths),
        anchored_targets(st.labels),
        anchored(parent),
    ensures
        anchored_keys(gather_nodes(st, parent, nodes).paths),
        anchored_targets(gather_nodes(st, parent, nodes).labels),
    decreases nodes,
{
    if nodes.len() > 0 {
        lemma_gather_nodes_wf(st, parent, nodes.drop_last());
        lemma_gather_nodes_anchored(st, parent, nodes.drop_last());
        lemma_gather_node_anchored(
            gather_nodes(st, parent, nodes.drop_last()),
            parent,
            nodes.last(),
        );
    }
}

/// Moving nodes to the absolute forms of their paths keeps the stored
/// paths anchored.
pub proof fn lemma_merge_all_anchored(st: Gathered, refs: Seq<PathView>)
    requires
        st.paths.wf(),
        st.labels.wf(),
        anchored_keys(st.paths),
        anchored_targets(st.labels),
    ensures
        merge_all(st, refs).paths.wf(),
        merge_all(st, refs).labels == st.labels,
        anchored_keys(merge_all(st, refs).paths),
    decreases refs.len(),
{
    if refs.len() > 0 {
        lemma_merge_all_anchored(st, refs.drop_last());
        let before = merge_all(st, refs.drop_last());
        let path = refs.last();
        match before.paths.get(path) {
            Some(node) => {
                before.paths.lemma_delete(path);
                assert(before.paths.has(path));
                lemma_absolute_anchored(before.labels, path);
                let removed = before.paths.delete(path);
                assert forall|k: PathView| #[trigger] removed.has(k) implies anchored(k) by {
                    assert(before.paths.has(k));
                }
                lemma_upsert_wf(removed, absolute(before.labels, path), node);
                lemma_upsert_anchored(removed, absolute(before.labels, path), node);
            },
            None => {},
        }
    }
}

/// Recording labels keeps the label table sorted and the path table as it
/// is.
pub proof fn lemma_add_labels_wf(st: Gathered, labels: Seq<Seq<char>>, path: PathView)
    requires
        st.labels.wf(),
    ensures
        add_labels(st, labels, path).labels.wf(),
        add_labels(st, labels, path).paths == st.paths,
    decreases labels.len(),
{
    if labels.len() > 0 {
        lemma_add_labels_wf(st, labels.drop_last(), path);
        add_labels(st, labels.drop_last(), path).labels.lemma_put(labels.last(), path);
    }
}

/// Storing a node keeps the path table sorted.
pub proof fn lemma_upsert_wf(paths: Paths, key: PathView, node: NodeView)
    requires
        paths.wf(),
    ensures
        upsert(paths, key, node).wf(),
{
    match paths.get(key) {
        Some(extant) => paths.lemma_put(key, merged(extant, node)),
        None => paths.lemma_put(key, node),
    }
}

/// Gathering a node keeps both tables sorted.
pub proof fn lemma_gather_node_wf(st: Gathered, parent: PathView, node: NodeView)
    requires
        st.paths.wf(),
        st.labels.wf(),
    ensures
        gather_node(st, parent, node).paths.wf(),
        gather_node(st, parent, node).labels.wf(),
    decreases node,
{
    let path = join(parent, seq![node.name]);
    lemma_add_labels_wf(st, node.labels, path);
    let labelled = add_labels(st, node.labels, path);
    lemma_upsert_wf(labelled.paths, path, detached(node));
    let stored = Gathered { paths: upsert(labelled.paths, path, detached(node)), ..labelled };
    lemma_gather_nodes_wf(stored, path, node.nodes);
}

/// Gathering nodes keeps both tables sorted.
pub proof fn lemma_gather_nodes_wf(st: Gathered, parent: PathView, nodes: Seq<NodeView>)
    requires
        st.paths.wf(),
        st.labels.wf(),
    ensures
        gather_nodes(st, parent, nodes).paths.wf(),
        gather_nodes(st, parent, nodes).labels.wf(),
    decreases nodes,
{
    if nodes.len() > 0 {
        lemma_gather_nodes_wf(st, parent, nodes.drop_last());
        lemma_gather_node_wf(gather_nodes(st, parent, nodes.drop_last()), parent, nodes.last());
    }
}

/// Appending to a list keeps the table of lists sorted.
pub proof fn lemma_append_at_wf<T: Ranked>(
    lists: Assoc<T, Seq<PathView>>,
    key: Seq<T>,
    item: PathView,
)
    requires
        lists.wf(),
    ensures
        append_at(lists, key, item).wf(),
{
    match lists.get(key) {
        Some(list) => lists.lemma_put(key, list.push(item)),
        None => lists.lemma_put(key, seq![item]),
    }
}

/// Recording references keeps the reverse table sorted.
pub proof fn lemma_add_edges_wf(labels: Labels, ix: Indexed, from: PathView, refs: Seq<Seq<char>>)
    requires
        ix.reverse.wf(),
    ensures
        add_edges(labels, ix, from, refs).reverse.wf(),
    decreases refs.len(),
{
    if refs.len() > 0 {
        lemma_add_edges_wf(labels, ix, from, refs.drop_last());
        lemma_append_at_wf(
            add_edges(labels, ix, from, refs.drop_last()).reverse,
            absolute(labels, reference_path(refs.last())),
            from,
        );
    }
}

/// Scanning the nodes for references keeps the reverse table sorted.
pub proof fn lemma_index_wf(labels: Labels, paths: Paths, ix: Indexed, n: nat)
    requires
        ix.reverse.wf(),
    ensures
        index_upto(labels, paths, ix, n).reverse.wf(),
    decreases n,
{
    if n > 0 {
        lemma_index_wf(labels, paths, ix, (n - 1) as nat);
        lemma_add_edges_wf(
            labels,
            index_upto(labels, paths, ix, (n - 1) as nat),
            paths.keys[n - 1],
            props_references(paths.vals[n - 1].props),
        );
    }
}

/// Recording uses keeps the symbol table sorted.
pub proof fn lemma_add_uses_wf(uses: Uses, from: PathView, symbols: Seq<Seq<char>>)
    requires
        uses.wf(),
    ensures
        add_uses(uses, from, symbols).wf(),
    decreases symbols.len(),
{
    if symbols.len() > 0 {
        lemma_add_uses_wf(uses, from, symbols.drop_last());
        lemma_append_at_wf(add_uses(uses, from, symbols.drop_last()), symbols.last(), from);
    }
}

/// Scanning the nodes for symbols keeps the symbol table sorted.
pub proof fn lemma_uses_wf(paths: Paths, uses: Uses, n: nat)
    requires
        uses.wf(),
    ensures
        uses_upto(paths, uses, n).wf(),
    decreases n,
{
    if n > 0 {
        lemma_uses_wf(paths, uses, (n - 1) as nat);
        lemma_add_uses_wf(
            uses_upto(paths, uses, (n - 1) as nat),
            paths.keys[n - 1],
            props_symbols(paths.vals[n - 1].props),
        );
    }
}

/// The analysis of any forest is well formed: its tables are sorted, and
/// every path under which it stores a node is its own absolute form.
pub proof fn lemma_analyse_wf(forest: Seq<NodeView>)
    ensures
        analyse(forest).wf(),
{
    let gathered = gather_nodes(nothing_gathered(), root_path(), forest);
    lemma_gather_nodes_wf(nothing_gathered(), root_path(), forest);
    lemma_gather_nodes_flat(nothing_gathered(), root_path(), forest);
    lemma_merge_all_flat(gathered, reference_keys(gathered.paths.keys));
    lemma_gather_nodes_anchored(nothing_gathered(), root_path(), forest);
    lemma_gather_nodes_closed(nothing_gathered(), root_path(), forest);
    lemma_merge_all_anchored(gathered, reference_keys(gathered.paths.keys));
    lemma_merge_closed(gathered);
    lemma_merge_settles(gathered);
    let merged = merge(gathered);
    lemma_index_wf(
        merged.labels,
        merged.paths,
        Indexed { reverse: Assoc::empty(), diagnostics: merged.diagnostics },
        merged.paths.len(),
    );
    lemma_uses_wf(merged.paths, Assoc::empty(), merged.paths.len());
}

/// Fixed point: a path under which the analysis of a forest stores a node
/// is its own absolute form.
pub proof fn lemma_stored_paths_are_absolute(forest: Seq<NodeView>, path: PathView)
    requires
        analyse(forest).paths.has(path),
    ensures
        absolute(analyse(forest).labels, path) == path,
{
    lemma_analyse_wf(forest);
}

/// Reference roots: a path under which the analysis of a forest stores a
/// node is led by a reference exactly if it does not resolve, because its
/// label is not defined or because resolving it does not end.
pub proof fn lemma_reference_roots_do_not_resolve(forest: Seq<NodeView>, path: PathView)
    requires
        analyse(forest).paths.has(path),
    ensures
        is_reference_rooted(path) <==> !(resolution(analyse(forest).labels, path) is Resolved),
        is_reference_rooted(path) ==> analyse(forest).labels.get(leading_label(path)) is None
            || resolution(analyse(forest).labels, path) is Endless,
{
    lemma_analyse_wf(forest);
    lemma_settled_reference(analyse(forest).labels, path);
}

/// No dangling reference roots: where every path under which the analysis
/// of a forest stores a node resolves, none of them is led by a reference.
pub proof fn lemma_no_reference_roots(forest: Seq<NodeView>)
    requires
        forall|path: PathView| #[trigger]
            analyse(forest).paths.has(path) ==> resolution(analyse(forest).labels, path)
                is Resolved,
    ensures
        forall|path: PathView| #[trigger]
            analyse(forest).paths.has(path) ==> !is_reference_rooted(path),
{
    assert forall|path: PathView| #[trigger]
        analyse(forest).paths.has(path) implies !is_reference_rooted(path) by {
        lemma_reference_roots_do_not_resolve(forest, path);
    }
}

/// Idempotence: the analysis is a function of the forest, so two analyses
/// of equal forests have the same paths, labels, dependents, symbols and
/// diagnostics.
pub proof fn lemma_equal_forests_equal_analyses(
    one: AnalysisView,
    other: AnalysisView,
    forest: Seq<NodeView>,
    again: Seq<NodeView>,
)
    requires
        one == analyse(forest),
        other == analyse(again),
        forest == again,
    ensures
        one.paths == other.paths,
        one.labels == other.labels,
        one.reverse == other.reverse,
        one.symbols == other.symbols,
        one.diagnostics == other.diagnostics,
{
}

/// Contiguity: in a table sorted by path, the entries that lie below the
/// entry at index `i` follow it without a gap: whatever stands between it
/// and one of them lies below it too, and nothing before it does.
pub proof fn lemma_descendants_are_contiguous(keys: Seq<PathView>, i: int, m: int, j: int)
    requires
        ascending(keys),
        0 <= i < keys.len(),
        0 <= m < keys.len(),
        0 <= j < keys.len(),
        is_proper_prefix(keys[i], keys[m]),
    ensures
        i < m,
        i < j <= m ==> is_proper_prefix(keys[i], keys[j]),
{
    lemma_proper_prefix_is_less(keys[i], keys[m]);
    lemma_lex_asymmetric(keys[i], keys[m]);
    if m < i {
        assert(lex_lt(keys[m], keys[i]));
    }
    if i < j < m {
        assert(lex_lt(keys[i], keys[j]));
        assert(lex_lt(keys[j], keys[m]));
        lemma_between_extends(keys[i], keys[j], keys[m]);
    }
}

/// A table that holds two different keys has two entries at least.
pub proof fn lemma_two_keys<T: Ranked, W>(table: Assoc<T, W>, a: Seq<T>, b: Seq<T>)
    requires
        table.has(a),
        table.has(b),
        a != b,
    ensures
        table.len() >= 2,
{
    let i = index_of(table.keys, a);
    let j = index_of(table.keys, b);
    assert(i != j);
}

/// Dependents of a linear chain: where `a` alone depends on `b`, `b` alone
/// on `c`, and nothing on `a`, the dependents of `c` are `a`, then `b`:
/// the deepest first.
pub proof fn lemma_dependents_of_chain(reverse: Edges, a: PathView, b: PathView, c: PathView)
    requires
        reverse.get(c) == Some(seq![b]),
        reverse.get(b) == Some(seq![a]),
        reverse.get(a) is None,
    ensures
        dependents(reverse, c, reverse.len()) == seq![a, b],
{
    lemma_two_keys(reverse, b, c);
    let depth = reverse.len();
    let below_c = seq![b];
    let below_b = seq![a];
    assert(below_c.drop_last() =~= Seq::<PathView>::empty());
    assert(below_b.drop_last() =~= Seq::<PathView>::empty());
    assert(below_c.last() == b);
    assert(below_b.last() == a);
    let d2 = (depth - 2) as nat;
    let d1 = (depth - 1) as nat;
    assert(dependents(reverse, a, d2) =~= Seq::<PathView>::empty());
    assert(dependents_of_each(reverse, below_b.drop_last(), d2) =~= Seq::<PathView>::empty());
    assert(dependents_of_each(reverse, below_b, d2) =~= seq![a]);
    assert(dependents(reverse, b, d1) == dependents_of_each(reverse, below_b, d2));
    assert(dependents_of_each(reverse, below_c.drop_last(), d1) =~= Seq::<PathView>::empty());
    assert(dependents_of_each(reverse, below_c, d1) =~= seq![a, b]);
    assert(dependents(reverse, c, depth) == dependents_of_each(reverse, below_c, d1));
}

/// How often `item` occurs in `items`.
pub open spec fn occurrences(items: Seq<PathView>, item: PathView) -> nat
    decreases items.len(),
{
    if items.len() == 0 {
        0
    } else {
        occurrences(items.drop_last(), item) + if items.last() == item {
            1nat
        } else {
            0nat
        }
    }
}

/// How many chains of dependents lead from `start` to `target`, through at
/// most `depth` levels.
pub open spec fn chains(reverse: Edges, start: PathView, target: PathView, depth: nat) -> nat
    decreases depth, 0nat,
{
    match reverse.get(start) {
        None => 0,
        Some(direct) => if depth == 0 {
            0
        } else {
            chains_through(reverse, direct, target, (depth - 1) as nat)
        },
    }
}

/// How many chains lead to `target` through each of `direct` in turn:
/// the chains from it, and one more where it is the target itself.
pub open spec fn chains_through(
    reverse: Edges,
    direct: Seq<PathView>,
    target: PathView,
    depth: nat,
) -> nat
    decreases depth, 1 + direct.len(),
{
    if direct.len() == 0 {
        0
    } else {
        chains_through(reverse, direct.drop_last(), target, depth) + chains(
            reverse,
            direct.last(),
            target,
            depth,
        ) + if direct.last() == target {
            1nat
        } else {
            0nat
        }
    }
}

/// Occurrences add up over concatenation.
pub proof fn lemma_occurrences_add(first: Seq<PathView>, second: Seq<PathView>, item: PathView)
    ensures
        occurrences(first + second, item) == occurrences(first, item) + occurrences(second, item),
    decreases second.len(),
{
    if second.len() == 0 {
        assert(first + second =~= first);
    } else {
        assert((first + second).drop_last() =~= first + second.drop_last());
        assert((first + second).last() == second.last());
        lemma_occurrences_add(first, second.drop_last(), item);
    }
}

/// Dependents are not deduplicated: a node occurs among the dependents of
/// `start` once for each chain of dependents that leads from `start` to
/// it.
pub proof fn lemma_dependents_once_per_chain(
    reverse: Edges,
    start: PathView,
    target: PathView,
    depth: nat,
)
    ensures
        occurrences(dependents(reverse, start, depth), target) == chains(
            reverse,
            start,
            target,
            depth,
        ),
    decreases depth, 0nat,
{
    match reverse.get(start) {
        None => {},
        Some(direct) => {
            if depth > 0 {
                lemma_each_once_per_chain(reverse, direct, target, (depth - 1) as nat);
            }
        },
    }
}

/// The same for the dependents of each of `direct` in turn.
pub proof fn lemma_each_once_per_chain(
    reverse: Edges,
    direct: Seq<PathView>,
    target: PathView,
    depth: nat,
)
    ensures
        occurrences(dependents_of_each(reverse, direct, depth), target) == chains_through(
            reverse,
            direct,
            target,
            depth,
        ),
    decreases depth, 1 + direct.len(),
{
    if direct.len() > 0 {
        lemma_each_once_per_chain(reverse, direct.drop_last(), target, depth);
        lemma_dependents_once_per_chain(reverse, direct.last(), target, depth);
        let front = dependents_of_each(reverse, direct.drop_last(), depth);
        let own = dependents(reverse, direct.last(), depth);
        lemma_occurrences_add(front, own.push(direct.last()), target);
        assert(own.push(direct.last()).drop_last() =~= own);
    }
}

/// In the analysis of any forest, the steps allowed for resolving a path
/// suffice: where following an anchored path ends at all, after however
/// many steps, resolving it ends at the same path.
pub proof fn lemma_resolution_is_following(forest: Seq<NodeView>, path: PathView, steps: nat)
    requires
        anchored(path),
        !(follow(analyse(forest).labels, path, steps) is Endless),
    ensures
        resolution(analyse(forest).labels, path) == follow(analyse(forest).labels, path, steps),
{
    lemma_analyse_wf(forest);
    lemma_steps_suffice(analyse(forest).labels, path, steps);
}

/// Last write wins: whatever a label stood for, once it is given to a
/// path it stands for that path.
pub proof fn lemma_label_stands_for_last(st: Gathered, label: Seq<char>, path: PathView)
    requires
        st.labels.wf(),
    ensures
        add_label(st, label, path).labels.get(label) == Some(path),
        add_label(st, label, path).paths == st.paths,
        forall|other: Seq<char>|
            other != label ==> add_label(st, label, path).labels.get(other) == st.labels.get(
                other,
            ),
{
    st.labels.lemma_put(label, path);
}

/// Label conflict: where a label that stands for one path is given to
/// another, a conflict is reported, behind what resolving the two paths
/// reports, exactly if the two resolve differently by the new table.
pub proof fn lemma_label_conflict(
    st: Gathered,
    label: Seq<char>,
    path: PathView,
    conflict: PathView,
)
    requires
        st.labels.wf(),
        st.labels.get(label) == Some(conflict),
    ensures
        ({
            let out = add_label(st, label, path);
            let reports = st.diagnostics + absolute_report(out.labels, conflict)
                + absolute_report(out.labels, path);
            if absolute(out.labels, conflict) != absolute(out.labels, path) {
                out.diagnostics == reports.push(DiagnosticView::Conflict { label, path, conflict })
            } else {
                out.diagnostics == reports
            }
        }),
{
    let out = add_label(st, label, path);
    let reports = st.diagnostics + absolute_report(out.labels, conflict) + absolute_report(
        out.labels,
        path,
    );
    assert(reports + seq![DiagnosticView::Conflict { label, path, conflict }] =~= reports.push(
        DiagnosticView::Conflict { label, path, conflict },
    ));
    assert(reports + Seq::<DiagnosticView>::empty() =~= reports);
}

} // verus!
