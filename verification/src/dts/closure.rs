//! Every node of an analysis has its parent stored too, unless the parent
//! is a root that no source declares. So the nodes below a node are those
//! that follow it in the path table for as long as the paths are longer
//! than its own.
use super::bounds::{anchored_targets, lemma_steps_suffice};
use super::laws::{
    anchored_keys, lemma_absolute_idempotent, lemma_add_labels_anchored, lemma_add_labels_wf,
    lemma_follow_ends, lemma_gather_nodes_anchored, lemma_gather_nodes_wf, lemma_merge_settles,
    lemma_upsert_anchored, lemma_upsert_wf,
};
use super::order::{
    is_proper_prefix, lemma_lex_asymmetric, lemma_lex_total, lemma_proper_prefix_is_less, lex_lt,
    lex_lt_at, Ranked,
};
use super::resolve::{
    absolute, add_labels, detached, family_end, follow, gather_node, gather_nodes,
    leading_label, merge, merge_all, merge_one, merged, reference_keys, resolution, tail, upsert,
    Gathered, Labels, Outcome, Paths,
};
use super::table::{index_of, lemma_rank_exists, rank};
use super::view::{
    anchored, is_reference_rooted, join, lemma_join_anchored, lemma_join_plain, parent,
    root_name, root_path, NameView, NodeView, PathView,
};
use vstd::prelude::*;

verus! {

/// `path` is stored, or it is the root.
pub open spec fn hosted(paths: Paths, path: PathView) -> bool {
    paths.has(path) || path == root_path()
}

/// The parent of every stored path of more than one segment is stored,
/// unless it is the root.
pub open spec fn parent_closed(paths: Paths) -> bool {
    forall|k: PathView| #[trigger] paths.has(k) && k.len() >= 2 ==> hosted(paths, parent(k))
}

/// Every path that a label stands for is stored, or is `pending`.
pub open spec fn targets_stored_but(st: Gathered, pending: PathView) -> bool {
    forall|i: int|
        0 <= i < st.labels.vals.len() ==> st.paths.has(#[trigger] st.labels.vals[i])
            || st.labels.vals[i] == pending
}

/// Every path that a label stands for is stored.
pub open spec fn targets_stored(st: Gathered) -> bool {
    forall|i: int| 0 <= i < st.labels.vals.len() ==> st.paths.has(#[trigger] st.labels.vals[i])
}

/// Whatever `before` stores, `after` stores too.
pub open spec fn kept(before: Paths, after: Paths) -> bool {
    forall|k: PathView| #[trigger] before.has(k) ==> after.has(k)
}

/// Recording labels for `path` leaves every target stored but `path`.
pub proof fn lemma_add_labels_targets(st: Gathered, labels: Seq<Seq<char>>, path: PathView)
    requires
        st.labels.wf(),
        targets_stored(st),
    ensures
        targets_stored_but(add_labels(st, labels, path), path),
    decreases labels.len(),
{
    if labels.len() > 0 {
        lemma_add_labels_targets(st, labels.drop_last(), path);
        lemma_add_labels_wf(st, labels.drop_last(), path);
        let before = add_labels(st, labels.drop_last(), path);
        let label = labels.last();
        let out = add_labels(st, labels, path);
        before.labels.lemma_put(label, path);
        assert forall|i: int| 0 <= i < out.labels.vals.len() implies out.paths.has(
            #[trigger] out.labels.vals[i],
        ) || out.labels.vals[i] == path by {
            if before.labels.has(label) {
                if i != index_of(before.labels.keys, label) {
                    assert(out.labels.vals[i] == before.labels.vals[i]);
                }
            } else {
                let r = rank(before.labels.keys, label);
                lemma_rank_exists(before.labels.keys, label);
                if i < r {
                    assert(out.labels.vals[i] == before.labels.vals[i]);
                } else if i > r {
                    assert(out.labels.vals[i] == before.labels.vals[i - 1]);
                }
            }
        }
    }
}

/// Storing a node under a path whose parent is stored keeps the table
/// closed, and keeps what was stored.
pub proof fn lemma_upsert_closed(paths: Paths, key: PathView, node: NodeView)
    requires
        paths.wf(),
        parent_closed(paths),
        key.len() >= 2 ==> hosted(paths, parent(key)),
    ensures
        parent_closed(upsert(paths, key, node)),
        kept(paths, upsert(paths, key, node)),
        upsert(paths, key, node).has(key),
{
    let out = upsert(paths, key, node);
    match paths.get(key) {
        Some(extant) => paths.lemma_put(key, merged(extant, node)),
        None => paths.lemma_put(key, node),
    }
    assert forall|k: PathView| #[trigger] out.has(k) && k.len() >= 2 implies hosted(
        out,
        parent(k),
    ) by {
        if k != key {
            assert(paths.has(k));
        }
        if paths.has(parent(k)) {
            assert(out.has(parent(k)));
        }
    }
}

/// Gathering a node below a stored path keeps the table closed and the
/// targets stored, and keeps what was stored.
pub proof fn lemma_gather_node_closed(st: Gathered, above: PathView, node: NodeView)
    requires
        st.paths.wf(),
        st.labels.wf(),
        anchored_keys(st.paths),
        anchored_targets(st.labels),
        anchored(above),
        parent_closed(st.paths),
        targets_stored(st),
        hosted(st.paths, above),
    ensures
        parent_closed(gather_node(st, above, node).paths),
        targets_stored(gather_node(st, above, node)),
        kept(st.paths, gather_node(st, above, node).paths),
    decreases node,
{
    let path = join(above, seq![node.name]);
    lemma_join_anchored(above, seq![node.name]);
    if !node.name.is_anchor() {
        lemma_join_plain(above, seq![node.name]);
        assert(path =~= above.push(node.name));
        assert(parent(path) =~= above);
    } else {
        assert(seq![node.name].last() == node.name);
        assert(path.len() == 1);
    }
    lemma_add_labels_wf(st, node.labels, path);
    lemma_add_labels_anchored(st, node.labels, path);
    lemma_add_labels_targets(st, node.labels, path);
    let labelled = add_labels(st, node.labels, path);
    lemma_upsert_wf(labelled.paths, path, detached(node));
    lemma_upsert_anchored(labelled.paths, path, detached(node));
    lemma_upsert_closed(labelled.paths, path, detached(node));
    let stored = Gathered { paths: upsert(labelled.paths, path, detached(node)), ..labelled };
    assert(targets_stored(stored)) by {
        assert forall|i: int| 0 <= i < stored.labels.vals.len() implies stored.paths.has(
            #[trigger] stored.labels.vals[i],
        ) by {
            if labelled.paths.has(labelled.labels.vals[i]) {
            }
        }
    }
    lemma_gather_nodes_closed(stored, path, node.nodes);
    let out = gather_nodes(stored, path, node.nodes);
    assert forall|k: PathView| #[trigger] st.paths.has(k) implies out.paths.has(k) by {
        assert(stored.paths.has(k));
    }
}

/// Gathering nodes below a stored path keeps the table closed and the
/// targets stored, and keeps what was stored.
pub proof fn lemma_gather_nodes_closed(st: Gathered, above: PathView, nodes: Seq<NodeView>)
    requires
        st.paths.wf(),
        st.labels.wf(),
        anchored_keys(st.paths),
        anchored_targets(st.labels),
        anchored(above),
        parent_closed(st.paths),
        targets_stored(st),
        hosted(st.paths, above),
    ensures
        parent_closed(gather_nodes(st, above, nodes).paths),
        targets_stored(gather_nodes(st, above, nodes)),
        kept(st.paths, gather_nodes(st, above, nodes).paths),
    decreases nodes,
{
    if nodes.len() > 0 {
        let before = gather_nodes(st, above, nodes.drop_last());
        lemma_gather_nodes_closed(st, above, nodes.drop_last());
        lemma_gather_nodes_wf(st, above, nodes.drop_last());
        lemma_gather_nodes_anchored(st, above, nodes.drop_last());
        if st.paths.has(above) {
            assert(before.paths.has(above));
        }
        lemma_gather_node_closed(before, above, nodes.last());
        let out = gather_node(before, above, nodes.last());
        assert forall|k: PathView| #[trigger] st.paths.has(k) implies out.paths.has(k) by {
            assert(before.paths.has(k));
        }
    }
}

/// `k` is the absolute form of a path that `gathered` stores.
pub open spec fn image_in(labels: Labels, gathered: Paths, k: PathView) -> bool {
    exists|g: PathView| gathered.has(g) && #[trigger] absolute(labels, g) == k
}

/// While nodes are moved, every stored path is a gathered path or the
/// absolute form of one, and every gathered path is still stored or its
/// absolute form is.
pub proof fn lemma_merge_all_images(st: Gathered, refs: Seq<PathView>)
    requires
        st.paths.wf(),
        st.labels.wf(),
    ensures
        merge_all(st, refs).paths.wf(),
        merge_all(st, refs).labels == st.labels,
        forall|k: PathView| #[trigger]
            merge_all(st, refs).paths.has(k) ==> st.paths.has(k) || image_in(
                st.labels,
                st.paths,
                k,
            ),
        forall|g: PathView| #[trigger]
            st.paths.has(g) ==> merge_all(st, refs).paths.has(g) || merge_all(
                st,
                refs,
            ).paths.has(absolute(st.labels, g)),
    decreases refs.len(),
{
    if refs.len() > 0 {
        lemma_merge_all_images(st, refs.drop_last());
        let before = merge_all(st, refs.drop_last());
        let r = refs.last();
        let after = merge_one(before, r);
        let labels = st.labels;
        match before.paths.get(r) {
            Some(node) => {
                let target = absolute(labels, r);
                let removed = before.paths.delete(r);
                before.paths.lemma_delete(r);
                lemma_upsert_wf(removed, target, node);
                match removed.get(target) {
                    Some(extant) => removed.lemma_put(target, merged(extant, node)),
                    None => removed.lemma_put(target, node),
                }
                lemma_absolute_idempotent(labels, r);
                assert forall|k: PathView| #[trigger] after.paths.has(k) implies st.paths.has(k)
                    || image_in(labels, st.paths, k) by {
                    if k == target {
                        assert(before.paths.has(r));
                        if st.paths.has(r) {
                            assert(absolute(labels, r) == k);
                        } else {
                            let g = choose|g: PathView|
                                st.paths.has(g) && #[trigger] absolute(labels, g) == r;
                            lemma_absolute_idempotent(labels, g);
                            assert(absolute(labels, g) == k);
                        }
                    } else {
                        assert(before.paths.has(k));
                    }
                }
                assert forall|g: PathView| #[trigger] st.paths.has(g) implies after.paths.has(g)
                    || after.paths.has(absolute(labels, g)) by {
                    lemma_absolute_idempotent(labels, g);
                    if before.paths.has(g) {
                        if g != r {
                            assert(removed.has(g));
                            assert(after.paths.has(g));
                        }
                    } else {
                        let image = absolute(labels, g);
                        assert(before.paths.has(image));
                        if image != r {
                            assert(removed.has(image));
                            assert(after.paths.has(image));
                        }
                    }
                }
            },
            None => {},
        }
    }
}

/// After merging, the stored paths are the absolute forms of the gathered
/// paths.
pub proof fn lemma_merge_images(st: Gathered, k: PathView)
    requires
        st.paths.wf(),
        st.labels.wf(),
    ensures
        merge(st).paths.has(k) <==> image_in(st.labels, st.paths, k),
{
    let refs = reference_keys(st.paths.keys);
    lemma_merge_all_images(st, refs);
    lemma_merge_settles(st);
    let done = merge(st);
    if done.paths.has(k) {
        if st.paths.has(k) {
            assert(absolute(st.labels, k) == k);
        }
    }
    if image_in(st.labels, st.paths, k) {
        let g = choose|g: PathView| st.paths.has(g) && #[trigger] absolute(st.labels, g) == k;
        if done.paths.has(g) {
            assert(absolute(st.labels, g) == g);
        }
    }
}

/// What following `path` gives, with the name `last` appended to the path
/// at which it ends.
pub open spec fn extended(outcome: Outcome, last: NameView) -> Outcome {
    match outcome {
        Outcome::Resolved(q) => Outcome::Resolved(q.push(last)),
        Outcome::Undefined(q, label) => Outcome::Undefined(q.push(last), label),
        Outcome::Endless => Outcome::Endless,
    }
}

/// Following a path with one more segment ends at the path with that
/// segment more.
pub proof fn lemma_follow_push(labels: Labels, path: PathView, last: NameView, steps: nat)
    requires
        labels.wf(),
        anchored_targets(labels),
        anchored(path),
        !last.is_anchor(),
    ensures
        follow(labels, path.push(last), steps) == extended(follow(labels, path, steps), last),
    decreases steps,
{
    let longer = path.push(last);
    assert(longer[0] == path[0]);
    if is_reference_rooted(path) {
        match labels.get(leading_label(path)) {
            Some(target) => {
                assert(target == labels.vals[index_of(labels.keys, leading_label(path))]);
                if steps > 0 {
                    assert(tail(longer) =~= tail(path).push(last));
                    assert(tail(longer).last() == last);
                    assert(tail(longer).drop_last() =~= tail(path));
                    lemma_join_anchored(target, tail(path));
                    lemma_follow_push(
                        labels,
                        join(target, tail(path)),
                        last,
                        (steps - 1) as nat,
                    );
                }
            },
            None => {},
        }
    }
}

/// The absolute form of a path with one more segment is the absolute form
/// of the path, with that segment more.
pub proof fn lemma_absolute_push(labels: Labels, path: PathView, last: NameView)
    requires
        labels.wf(),
        anchored_targets(labels),
        anchored(path),
        !last.is_anchor(),
    ensures
        absolute(labels, path.push(last)) == absolute(labels, path).push(last),
{
    lemma_follow_push(labels, path, last, labels.len());
}

/// The parent of the absolute form of a gathered path is the absolute form
/// of a gathered path too, or the root.
pub proof fn lemma_image_parent(st: Gathered, g: PathView, steps: nat)
    requires
        st.paths.wf(),
        st.labels.wf(),
        anchored_keys(st.paths),
        anchored_targets(st.labels),
        parent_closed(st.paths),
        targets_stored(st),
        st.paths.has(g),
        match follow(st.labels, g, steps) {
            Outcome::Resolved(k) => k.len() >= 2,
            Outcome::Undefined(k, _) => k.len() >= 2,
            Outcome::Endless => false,
        },
    ensures
        image_in(st.labels, st.paths, parent(absolute(st.labels, g))) || parent(
            absolute(st.labels, g),
        ) == root_path(),
    decreases steps,
{
    let labels = st.labels;
    lemma_steps_suffice(labels, g, steps);
    if g.len() >= 2 {
        let above = parent(g);
        assert(g =~= above.push(g.last()));
        lemma_absolute_push(labels, above, g.last());
        assert(absolute(labels, g).drop_last() =~= absolute(labels, above));
        if st.paths.has(above) {
            assert(image_in(labels, st.paths, absolute(labels, above)));
        }
    } else {
        // one segment: a reference to a label that stands for a gathered path
        let target = labels.get(leading_label(g))->0;
        let at = index_of(labels.keys, leading_label(g));
        assert(target == labels.vals[at]);
        assert(tail(g) =~= Seq::<NameView>::empty());
        assert(join(target, tail(g)) == target);
        lemma_steps_suffice(labels, target, (steps - 1) as nat);
        lemma_image_parent(st, target, (steps - 1) as nat);
    }
}

/// After merging, the table of paths is closed.
pub proof fn lemma_merge_closed(st: Gathered)
    requires
        st.paths.wf(),
        st.labels.wf(),
        anchored_keys(st.paths),
        anchored_targets(st.labels),
        parent_closed(st.paths),
        targets_stored(st),
    ensures
        parent_closed(merge(st).paths),
{
    let done = merge(st);
    assert forall|k: PathView| #[trigger] done.paths.has(k) && k.len() >= 2 implies hosted(
        done.paths,
        parent(k),
    ) by {
        lemma_merge_images(st, k);
        let g = choose|g: PathView| st.paths.has(g) && #[trigger] absolute(st.labels, g) == k;
        lemma_follow_ends(st.labels, g, st.labels.len());
        if resolution(st.labels, g) is Endless {
            // the path is its own absolute form
            if st.paths.has(parent(g)) {
                lemma_absolute_parent_of_endless(st.labels, g);
                assert(image_in(st.labels, st.paths, parent(k)));
            }
        } else {
            lemma_image_parent(st, g, st.labels.len());
        }
        lemma_merge_images(st, parent(k));
    }
}

/// Where resolving a path does not end, resolving its parent does not end
/// either: both are their own absolute forms.
pub proof fn lemma_absolute_parent_of_endless(labels: Labels, path: PathView)
    requires
        labels.wf(),
        anchored_targets(labels),
        anchored(path),
        path.len() >= 2,
        resolution(labels, path) is Endless,
    ensures
        absolute(labels, parent(path)) == parent(path),
{
    assert(path =~= parent(path).push(path.last()));
    lemma_follow_push(labels, parent(path), path.last(), labels.len());
}

/// Where the run of keys of more than `base` segments ends, for the run
/// that starts at index `from`.
pub open spec fn long_run_end(keys: Seq<PathView>, base: nat, from: int) -> int
    decreases keys.len() - from,
{
    if 0 <= from < keys.len() && keys[from].len() > base {
        long_run_end(keys, base, from + 1)
    } else {
        from
    }
}

/// In a closed table, what a stored path starts with is stored too, or is
/// the root.
pub proof fn lemma_ancestor_hosted(paths: Paths, k: PathView, n: int)
    requires
        parent_closed(paths),
        hosted(paths, k),
        1 <= n <= k.len(),
    ensures
        hosted(paths, k.subrange(0, n)),
    decreases k.len() - n,
{
    if n == k.len() {
        assert(k.subrange(0, n) =~= k);
    } else if paths.has(k) {
        assert(parent(k).subrange(0, n) =~= k.subrange(0, n));
        if parent(k) == root_path() {
            assert(k.subrange(0, n) =~= parent(k));
        } else {
            lemma_ancestor_hosted(paths, parent(k), n);
        }
    }
}

/// No name comes before the name of the root.
pub proof fn lemma_root_name_is_least(name: NameView)
    ensures
        !name.below(root_name()),
{
    match name {
        NameView::Plain(s, _) => {
            if lex_lt(s, Seq::<char>::empty()) {
                let at = choose|at: int| lex_lt_at(s, Seq::<char>::empty(), at);
                assert(lex_lt_at(s, Seq::<char>::empty(), at));
            }
        },
        NameView::Reference(_) => {},
    }
}

/// In a closed table sorted by path, the entries that follow an entry for
/// as long as their paths are longer than its own are the entries that lie
/// below it.
pub proof fn lemma_long_run_is_family(paths: Paths, i: int, from: int)
    requires
        paths.wf(),
        parent_closed(paths),
        0 <= i < from <= paths.keys.len(),
        forall|m: int| i < m < from ==> is_proper_prefix(paths.keys[i], #[trigger] paths.keys[m]),
    ensures
        long_run_end(paths.keys, paths.keys[i].len(), from) == family_end(
            paths.keys,
            paths.keys[i],
            from,
        ),
    decreases paths.keys.len() - from,
{
    let keys = paths.keys;
    let p = keys[i];
    if from < keys.len() {
        let k = keys[from];
        if is_proper_prefix(p, k) {
            lemma_long_run_is_family(paths, i, from + 1);
        } else if k.len() > p.len() {
            // what `k` starts with, as long as `p`, would stand between the two
            let a = k.subrange(0, p.len() as int);
            assert(keys[from] == k);
            assert(paths.has(k));
            assert(lex_lt(p, k));
            if p.len() == 0 {
                assert(is_proper_prefix(p, k));
            }
            lemma_ancestor_hosted(paths, k, p.len() as int);
            assert(is_proper_prefix(a, k));
            lemma_proper_prefix_is_less(a, k);
            lemma_lex_total(a, p);
            if a == p {
                assert(is_proper_prefix(p, k));
            } else if lex_lt(a, p) {
                let d = choose|d: int| lex_lt_at(a, p, d);
                assert(lex_lt_at(k, p, d));
                lemma_lex_asymmetric(p, k);
            } else {
                if paths.has(a) {
                    let m = index_of(keys, a);
                    if m <= i {
                        if m < i {
                            assert(lex_lt(keys[m], keys[i]));
                        }
                        lemma_lex_asymmetric(p, a);
                    }
                    if m >= from {
                        if m > from {
                            assert(lex_lt(keys[from], keys[m]));
                        }
                        lemma_lex_asymmetric(a, k);
                    }
                    assert(is_proper_prefix(p, keys[m]));
                } else {
                    lemma_root_name_is_least(p[0]);
                }
            }
        }
    }
}

/// A family ends within the table, not before its start; its entries lie
/// below the entry that heads it, and the entry behind it does not.
pub proof fn lemma_family(keys: Seq<PathView>, path: PathView, from: int)
    requires
        0 <= from <= keys.len(),
    ensures
        from <= family_end(keys, path, from) <= keys.len(),
        forall|m: int|
            from <= m < family_end(keys, path, from) ==> is_proper_prefix(
                path,
                #[trigger] keys[m],
            ),
        family_end(keys, path, from) < keys.len() ==> !is_proper_prefix(
            path,
            keys[family_end(keys, path, from)],
        ),
    decreases keys.len() - from,
{
    if from < keys.len() && is_proper_prefix(path, keys[from]) {
        lemma_family(keys, path, from + 1);
    }
}

} // verus!
