//! Why the bounds lose nothing: labels are followed through as many steps
//! as there are labels, and dependents through as many levels as there are
//! entries in the reverse table. Whatever a longer search would find, the
//! bounded one finds too, unless the search would never end.
use super::resolve::{dependents, dependents_of_each, follow, leading_label, tail, Edges, Labels};
use super::table::index_of;
use super::view::{
    anchored, is_reference_rooted, join, lemma_join_anchored, lemma_join_plain, PathView,
};
use vstd::prelude::*;
use vstd::seq_lib::seq_to_set_is_finite;
use vstd::set_lib::lemma_len_subset;

verus! {

/// A sequence that is longer than `pool` and holds items of `pool` only
/// holds some item twice.
pub proof fn lemma_pigeonhole<A>(items: Seq<A>, pool: Seq<A>) -> (r: (int, int))
    requires
        items.len() > pool.len(),
        forall|i: int| 0 <= i < items.len() ==> pool.contains(#[trigger] items[i]),
    ensures
        0 <= r.0 < r.1 < items.len(),
        items[r.0] == items[r.1],
{
    if items.no_duplicates() {
        items.unique_seq_to_set();
        pool.lemma_cardinality_of_set();
        seq_to_set_is_finite(pool);
        assert(items.to_set().subset_of(pool.to_set())) by {
            assert forall|a: A| items.to_set().contains(a) implies pool.to_set().contains(a) by {
                let i = choose|i: int| 0 <= i < items.len() && items[i] == a;
                assert(pool.contains(items[i]));
            }
        }
        lemma_len_subset(items.to_set(), pool.to_set());
    }
    let (i, j) = choose|i: int, j: int|
        0 <= i < items.len() && 0 <= j < items.len() && i != j && items[i] == items[j];
    if i < j {
        (i, j)
    } else {
        (j, i)
    }
}

/// Every path that a label stands for is anchored.
pub open spec fn anchored_targets(labels: Labels) -> bool {
    forall|i: int| 0 <= i < labels.vals.len() ==> anchored(#[trigger] labels.vals[i])
}

/// The label that following `label` leads to next: the one that leads the
/// path that `label` stands for, if a reference leads it.
pub open spec fn hop(labels: Labels, label: Seq<char>) -> Option<Seq<char>> {
    match labels.get(label) {
        Some(target) => if is_reference_rooted(target) {
            Some(leading_label(target))
        } else {
            None
        },
        None => None,
    }
}

/// Following `label` has not ended after `steps` steps: the label and the
/// `steps` labels that follow it are all defined.
pub open spec fn goes_on(labels: Labels, label: Seq<char>, steps: nat) -> bool
    decreases steps,
{
    labels.has(label) && (steps == 0 || match hop(labels, label) {
        Some(next) => goes_on(labels, next, (steps - 1) as nat),
        None => false,
    })
}

/// The label that is reached from `label` after `steps` steps.
pub open spec fn label_after(labels: Labels, label: Seq<char>, steps: nat) -> Seq<char>
    decreases steps,
{
    if steps == 0 {
        label
    } else {
        match hop(labels, label) {
            Some(next) => label_after(labels, next, (steps - 1) as nat),
            None => label,
        }
    }
}

/// Whether following a path ends within a number of steps is a matter of
/// its leading label alone.
pub proof fn lemma_endless_goes_on(labels: Labels, path: PathView, steps: nat)
    requires
        labels.wf(),
        anchored_targets(labels),
        anchored(path),
        is_reference_rooted(path),
    ensures
        follow(labels, path, steps) is Endless <==> goes_on(labels, leading_label(path), steps),
    decreases steps,
{
    let label = leading_label(path);
    match labels.get(label) {
        Some(target) => {
            assert(target == labels.vals[index_of(labels.keys, label)]);
            assert(anchored(target));
            if steps > 0 {
                let next = join(target, tail(path));
                lemma_join_plain(target, tail(path));
                lemma_join_anchored(target, tail(path));
                assert(next[0] == target[0]);
                if is_reference_rooted(target) {
                    lemma_endless_goes_on(labels, next, (steps - 1) as nat);
                }
            }
        },
        None => {},
    }
}

/// What goes on for some steps goes on for fewer.
pub proof fn lemma_goes_on_for_fewer(labels: Labels, label: Seq<char>, steps: nat, fewer: nat)
    requires
        goes_on(labels, label, steps),
        fewer <= steps,
    ensures
        goes_on(labels, label, fewer),
    decreases steps,
{
    if fewer > 0 {
        lemma_goes_on_for_fewer(
            labels,
            hop(labels, label)->0,
            (steps - 1) as nat,
            (fewer - 1) as nat,
        );
    }
}

/// Going on for `a + b` steps is going on for `a` steps and, from the
/// label reached then, for `b` more.
pub proof fn lemma_goes_on_split(labels: Labels, label: Seq<char>, a: nat, b: nat)
    ensures
        goes_on(labels, label, a + b) <==> goes_on(labels, label, a) && goes_on(
            labels,
            label_after(labels, label, a),
            b,
        ),
        goes_on(labels, label, a) ==> label_after(labels, label, a + b) == label_after(
            labels,
            label_after(labels, label, a),
            b,
        ),
    decreases a,
{
    if a > 0 {
        match hop(labels, label) {
            Some(next) => {
                lemma_goes_on_split(labels, next, (a - 1) as nat, b);
            },
            None => {},
        }
    }
}

/// From a label that leads back to itself, following never ends.
pub proof fn lemma_circle_goes_on(labels: Labels, label: Seq<char>, around: nat, steps: nat)
    requires
        around >= 1,
        goes_on(labels, label, around),
        label_after(labels, label, around) == label,
    ensures
        goes_on(labels, label, steps),
    decreases steps,
{
    if steps <= around {
        lemma_goes_on_for_fewer(labels, label, around, steps);
    } else {
        lemma_circle_goes_on(labels, label, around, (steps - around) as nat);
        lemma_goes_on_split(labels, label, around, (steps - around) as nat);
    }
}

/// Following that goes on for as many steps as there are labels goes on
/// for ever: some label has come twice by then.
pub proof fn lemma_goes_on_for_ever(labels: Labels, label: Seq<char>, steps: nat)
    requires
        goes_on(labels, label, labels.len()),
    ensures
        goes_on(labels, label, steps),
{
    let n = labels.len();
    let trace = Seq::new(n + 1, |i: int| label_after(labels, label, i as nat));
    assert forall|i: int| 0 <= i < trace.len() implies labels.keys.contains(
        #[trigger] trace[i],
    ) by {
        lemma_goes_on_split(labels, label, i as nat, (n - i) as nat);
        assert(labels.has(trace[i]));
        let at = index_of(labels.keys, trace[i]);
        assert(labels.keys[at] == trace[i]);
    }
    let (i, j) = lemma_pigeonhole(trace, labels.keys);
    let from = trace[i];
    let around = (j - i) as nat;
    lemma_goes_on_split(labels, label, i as nat, (n - i) as nat);
    lemma_goes_on_split(labels, label, i as nat, around);
    lemma_goes_on_for_fewer(labels, from, (n - i) as nat, around);
    if steps <= i {
        lemma_goes_on_for_fewer(labels, label, n, steps);
    } else {
        lemma_circle_goes_on(labels, from, around, (steps - i) as nat);
        lemma_goes_on_for_fewer(labels, label, n, i as nat);
        lemma_goes_on_split(labels, label, i as nat, (steps - i) as nat);
    }
}

/// Once following has ended, more steps change nothing.
pub proof fn lemma_follow_more(labels: Labels, path: PathView, steps: nat, more: nat)
    requires
        !(follow(labels, path, steps) is Endless),
        steps <= more,
    ensures
        follow(labels, path, more) == follow(labels, path, steps),
    decreases steps,
{
    if is_reference_rooted(path) {
        match labels.get(leading_label(path)) {
            Some(target) => {
                lemma_follow_more(
                    labels,
                    join(target, tail(path)),
                    (steps - 1) as nat,
                    (more - 1) as nat,
                );
            },
            None => {},
        }
    }
}

/// As many steps as there are labels suffice: where following an anchored
/// path ends at all, after however many steps, it ends within that many,
/// at the same path.
pub proof fn lemma_steps_suffice(labels: Labels, path: PathView, steps: nat)
    requires
        labels.wf(),
        anchored_targets(labels),
        anchored(path),
        !(follow(labels, path, steps) is Endless),
    ensures
        follow(labels, path, labels.len()) == follow(labels, path, steps),
{
    if is_reference_rooted(path) {
        lemma_endless_goes_on(labels, path, labels.len());
        lemma_endless_goes_on(labels, path, steps);
        if follow(labels, path, labels.len()) is Endless {
            lemma_goes_on_for_ever(labels, leading_label(path), steps);
        }
        if steps <= labels.len() {
            lemma_follow_more(labels, path, steps, labels.len());
        } else {
            lemma_follow_more(labels, path, labels.len(), steps);
        }
    }
}

/// No node depends on itself through any chain: `rank` falls from each
/// node to each of its direct dependents.
pub open spec fn falls_along_edges(reverse: Edges, rank: spec_fn(PathView) -> nat) -> bool {
    forall|i: int, j: int|
        0 <= i < reverse.keys.len() && 0 <= j < reverse.vals[i].len() ==> rank(
            #[trigger] reverse.vals[i][j],
        ) < rank(#[trigger] reverse.keys[i])
}

/// `chain` holds entries of the reverse table of falling rank, all of them
/// ranked above `next`.
pub open spec fn falling_chain(
    reverse: Edges,
    rank: spec_fn(PathView) -> nat,
    chain: Seq<PathView>,
    next: PathView,
) -> bool {
    &&& forall|i: int| 0 <= i < chain.len() ==> reverse.has(#[trigger] chain[i])
    &&& forall|i: int| 0 <= i < chain.len() ==> rank(#[trigger] chain[i]) > rank(next)
    &&& forall|i: int, j: int|
        0 <= i < j < chain.len() ==> rank(#[trigger] chain[i]) > rank(#[trigger] chain[j])
}

/// At the end of a falling chain, one level less is enough: the chain and
/// the levels left make up the number of entries, and a chain cannot be
/// longer than that.
pub proof fn lemma_level_to_spare(
    reverse: Edges,
    rank: spec_fn(PathView) -> nat,
    chain: Seq<PathView>,
    start: PathView,
    depth: nat,
)
    requires
        reverse.wf(),
        falls_along_edges(reverse, rank),
        falling_chain(reverse, rank, chain, start),
        depth + chain.len() >= reverse.len(),
    ensures
        dependents(reverse, start, depth + 1) == dependents(reverse, start, depth),
    decreases rank(start), 1nat, 0nat,
{
    match reverse.get(start) {
        None => {},
        Some(direct) => {
            let longer = chain.push(start);
            if longer.len() > reverse.keys.len() {
                assert forall|i: int| 0 <= i < longer.len() implies reverse.keys.contains(
                    #[trigger] longer[i],
                ) by {
                    assert(reverse.has(longer[i]));
                    let at = index_of(reverse.keys, longer[i]);
                    assert(reverse.keys[at] == longer[i]);
                }
                let (i, j) = lemma_pigeonhole(longer, reverse.keys);
                assert(rank(longer[i]) > rank(longer[j]));
            }
            lemma_each_level_to_spare(
                reverse,
                rank,
                longer,
                start,
                direct,
                direct.len(),
                (depth - 1) as nat,
            );
            assert(direct.subrange(0, direct.len() as int) =~= direct);
        },
    }
}

/// The same for the first `n` direct dependents of `from`.
pub proof fn lemma_each_level_to_spare(
    reverse: Edges,
    rank: spec_fn(PathView) -> nat,
    chain: Seq<PathView>,
    from: PathView,
    direct: Seq<PathView>,
    n: nat,
    depth: nat,
)
    requires
        reverse.wf(),
        falls_along_edges(reverse, rank),
        reverse.get(from) == Some(direct),
        n <= direct.len(),
        chain.len() > 0,
        chain.last() == from,
        falling_chain(reverse, rank, chain.drop_last(), from),
        depth + chain.len() >= reverse.len(),
    ensures
        dependents_of_each(reverse, direct.subrange(0, n as int), depth + 1)
            == dependents_of_each(reverse, direct.subrange(0, n as int), depth),
    decreases rank(from), 0nat, n,
{
    if n > 0 {
        let upto = direct.subrange(0, n as int);
        let one = direct[n - 1];
        assert(upto.drop_last() =~= direct.subrange(0, n - 1));
        assert(upto.last() == one);
        lemma_each_level_to_spare(reverse, rank, chain, from, direct, (n - 1) as nat, depth);
        let at = index_of(reverse.keys, from);
        assert(reverse.vals[at][n - 1] == one);
        assert(rank(one) < rank(from));
        assert(falling_chain(reverse, rank, chain, one)) by {
            assert forall|i: int| 0 <= i < chain.len() implies reverse.has(
                #[trigger] chain[i],
            ) by {
                if i < chain.len() - 1 {
                    assert(chain.drop_last()[i] == chain[i]);
                }
            }
            assert forall|i: int| 0 <= i < chain.len() implies rank(#[trigger] chain[i]) > rank(
                one,
            ) by {
                if i < chain.len() - 1 {
                    assert(chain.drop_last()[i] == chain[i]);
                }
            }
            assert forall|i: int, j: int| 0 <= i < j < chain.len() implies rank(
                #[trigger] chain[i],
            ) > rank(#[trigger] chain[j]) by {
                assert(chain.drop_last()[i] == chain[i]);
                if j < chain.len() - 1 {
                    assert(chain.drop_last()[j] == chain[j]);
                }
            }
        }
        lemma_level_to_spare(reverse, rank, chain, one, depth);
    }
}

/// As many levels as the reverse table has entries suffice: where no node
/// depends on itself through any chain, more levels find the same
/// dependents.
pub proof fn lemma_levels_suffice(
    reverse: Edges,
    rank: spec_fn(PathView) -> nat,
    start: PathView,
    depth: nat,
)
    requires
        reverse.wf(),
        falls_along_edges(reverse, rank),
        depth >= reverse.len(),
    ensures
        dependents(reverse, start, depth) == dependents(reverse, start, reverse.len()),
    decreases depth,
{
    if depth > reverse.len() {
        lemma_levels_suffice(reverse, rank, start, (depth - 1) as nat);
        lemma_level_to_spare(reverse, rank, Seq::empty(), start, (depth - 1) as nat);
    }
}

} // verus!
