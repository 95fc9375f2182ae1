//! Views of an analysis as text: the full dump, the outline by label, and
//! the cross reference of symbols.
use super::analysis::{symbols_in_node, Analysis};
use super::order::{lemma_lex_asymmetric, lemma_lex_total, lemma_lex_transitive, lex_lt};
use super::parser::{tree, SyntaxError};
use super::render::{
    delimited, fmt_delimited, fmt_path_node, path_node_text, path_text, symbols_text,
};
use super::resolve::{
    absolute, analyse, family_end, props_symbols, AnalysisView, Edges, Labels, Paths, Uses,
};
use super::syntax;
use super::syntax::{excerpt, SyntaxErrorView};
use super::table::{ascending, index_of, units_of, Assoc, Table};
use super::text::chars_of;
use super::view::{view_all, NodeView, PathView};
use super::{lemma_node_view, Node, Path, Symbol};
use vstd::prelude::*;
use vstd::string::*;

verus! {

/// Each of the paths as text.
pub open spec fn paths_text(paths: Seq<PathView>) -> Seq<Seq<char>> {
    Seq::new(paths.len(), |i: int| path_text(paths[i]))
}

/// The first `n` nodes, each under its path.
pub open spec fn nodes_section(paths: Paths, n: nat) -> Seq<char>
    decreases n,
{
    if n == 0 {
        Seq::empty()
    } else {
        nodes_section(paths, (n - 1) as nat) + path_node_text(
            Seq::empty(),
            paths.keys[n - 1],
            paths.vals[n - 1],
        )
    }
}

/// The first `n` labels, each on a line with the path it stands for.
pub open spec fn labels_section(labels: Labels, n: nat) -> Seq<char>
    decreases n,
{
    if n == 0 {
        Seq::empty()
    } else {
        labels_section(labels, (n - 1) as nat) + labels.keys[n - 1] + ": "@ + path_text(
            labels.vals[n - 1],
        ) + "\n"@
    }
}

/// One line for each of the first `n` of `deps`, behind four blanks.
pub open spec fn dependent_lines(deps: Seq<PathView>, n: nat) -> Seq<char>
    decreases n,
{
    if n == 0 {
        Seq::empty()
    } else {
        dependent_lines(deps, (n - 1) as nat) + "    "@ + path_text(deps[n - 1]) + "\n"@
    }
}

/// For each of the first `n` paths that has dependents: the path on a
/// line, then its direct dependents.
pub open spec fn dependents_section(paths: Paths, reverse: Edges, n: nat) -> Seq<char>
    decreases n,
{
    if n == 0 {
        Seq::empty()
    } else {
        dependents_section(paths, reverse, (n - 1) as nat) + match reverse.get(paths.keys[n - 1]) {
            Some(deps) => path_text(paths.keys[n - 1]) + "\n"@ + dependent_lines(deps, deps.len()),
            None => Seq::empty(),
        }
    }
}

/// The first `n` symbols, each on a line with the paths of the nodes that
/// use it.
pub open spec fn symbols_section(symbols: Uses, n: nat) -> Seq<char>
    decreases n,
{
    if n == 0 {
        Seq::empty()
    } else {
        symbols_section(symbols, (n - 1) as nat) + symbols.keys[n - 1] + delimited(
            paths_text(symbols.vals[n - 1]),
            " => "@,
            ", "@,
            "\n"@,
        )
    }
}

/// The full dump of an analysis: the nodes in path order, the label table,
/// the direct dependents of each node that has any, and the symbol table.
pub open spec fn dump(a: AnalysisView) -> Seq<char> {
    "Nodes\n"@ + nodes_section(a.paths, a.paths.len()) + "Labels\n"@ + labels_section(
        a.labels,
        a.labels.len(),
    ) + "Dependents\n"@ + dependents_section(a.paths, a.reverse, a.paths.len()) + "Symbols\n"@
        + symbols_section(a.symbols, a.symbols.len())
}

/// Each of the paths as text.
pub fn paths_to_text(paths: &Vec<Path>) -> (r: Vec<String>)
    ensures
        view_all(r@) == paths_text(view_all(paths@)),
{
    let mut out: Vec<String> = Vec::new();
    let mut i: usize = 0;
    while i < paths.len()
        invariant
            i <= paths.len(),
            out@.len() == i,
            forall|j: int| 0 <= j < i ==> (#[trigger] out@[j])@ == path_text(paths@[j]@),
        decreases paths.len() - i,
    {
        out.push(paths[i].to_text());
        i += 1;
    }
    assert(view_all(out@) =~= paths_text(view_all(paths@)));
    out
}

impl Analysis {
    /// The full dump of the analysis.
    pub fn to_text(&self) -> (r: String)
        requires
            self.wf(),
        ensures
            r@ == dump(self@),
    {
        let mut f = String::new();
        f.append("Nodes\n");
        let ghost head = f@;
        let mut i: usize = 0;
        assert(f@ =~= head + nodes_section(self@.paths, 0));
        while i < self.node_count()
            invariant
                self.wf(),
                i <= self@.paths.len(),
                f@ == head + nodes_section(self@.paths, i as nat),
            decreases self@.paths.len() - i,
        {
            let (path, node) = self.entry(i);
            proof {
                reveal_strlit("");
                assert(""@ =~= Seq::<char>::empty());
            }
            fmt_path_node("", path, node, &mut f);
            i += 1;
            assert(f@ =~= head + nodes_section(self@.paths, i as nat));
        }
        f.append("Labels\n");
        let ghost head = f@;
        let mut i: usize = 0;
        assert(f@ =~= head + labels_section(self@.labels, 0));
        while i < self.label_count()
            invariant
                self.wf(),
                i <= self@.labels.len(),
                f@ == head + labels_section(self@.labels, i as nat),
            decreases self@.labels.len() - i,
        {
            let (label, path) = self.label_entry(i);
            f.append(label.to_text().as_str());
            f.append(": ");
            f.append(path.to_text().as_str());
            f.append("\n");
            i += 1;
            assert(f@ =~= head + labels_section(self@.labels, i as nat));
        }
        f.append("Dependents\n");
        let ghost head = f@;
        let mut i: usize = 0;
        assert(f@ =~= head + dependents_section(self@.paths, self@.reverse, 0));
        while i < self.node_count()
            invariant
                self.wf(),
                i <= self@.paths.len(),
                f@ == head + dependents_section(self@.paths, self@.reverse, i as nat),
            decreases self@.paths.len() - i,
        {
            let ghost before = f@;
            let (path, _) = self.entry(i);
            if let Some(deps) = self.direct_dependents(path) {
                let ghost all = view_all(deps@);
                f.append(path.to_text().as_str());
                f.append("\n");
                let ghost top = f@;
                let mut k: usize = 0;
                assert(f@ =~= top + dependent_lines(all, 0));
                while k < deps.len()
                    invariant
                        k <= deps.len(),
                        all == view_all(deps@),
                        f@ == top + dependent_lines(all, k as nat),
                    decreases deps.len() - k,
                {
                    f.append("    ");
                    f.append(deps[k].to_text().as_str());
                    f.append("\n");
                    k += 1;
                    assert(f@ =~= top + dependent_lines(all, k as nat));
                }
                assert(f@ =~= before + (path_text(path@) + "\n"@ + dependent_lines(
                    all,
                    all.len(),
                )));
            } else {
                assert(f@ =~= before + Seq::<char>::empty());
            }
            i += 1;
            assert(f@ =~= head + dependents_section(self@.paths, self@.reverse, i as nat));
        }
        f.append("Symbols\n");
        let ghost head = f@;
        let mut i: usize = 0;
        assert(f@ =~= head + symbols_section(self@.symbols, 0));
        while i < self.symbol_count()
            invariant
                self.wf(),
                i <= self@.symbols.len(),
                f@ == head + symbols_section(self@.symbols, i as nat),
            decreases self@.symbols.len() - i,
        {
            let (symbol, paths) = self.symbol_entry(i);
            f.append(symbol.to_text().as_str());
            let users = paths_to_text(paths);
            fmt_delimited(&users, " => ", ", ", "\n", &mut f);
            i += 1;
            assert(f@ =~= head + symbols_section(self@.symbols, i as nat));
        }
        assert(f@ =~= dump(self@));
        f
    }
}

/// `s` without the occurrences of `c`.
pub open spec fn without(s: Seq<char>, c: char) -> Seq<char>
    decreases s.len(),
{
    if s.len() == 0 {
        Seq::empty()
    } else if s.last() == c {
        without(s.drop_last(), c)
    } else {
        without(s.drop_last(), c).push(s.last())
    }
}

/// The link to the section of `label`: the anchor is the label without
/// underscores.
pub open spec fn link_text(label: Seq<char>) -> Seq<char> {
    "[&"@ + label + "](#"@ + without(label, '_') + ")"@
}

/// The links to the sections of the first `n` of `labels`, one behind the
/// other.
pub open spec fn links_text(labels: Seq<Seq<char>>, n: nat) -> Seq<char>
    decreases n,
{
    if n == 0 {
        Seq::empty()
    } else {
        links_text(labels, (n - 1) as nat) + link_text(labels[n - 1])
    }
}

/// A descendant in the outline: in full where it has no label, else its
/// path and the links to the sections of its labels on one line.
pub open spec fn child_text(path: PathView, node: NodeView) -> Seq<char> {
    if node.labels.len() == 0 {
        path_node_text(Seq::empty(), path, node)
    } else {
        path_text(path) + " "@ + links_text(node.labels, node.labels.len()) + "\n"@
    }
}

/// The entries `from` to `to` of the path table as descendants in the
/// outline.
pub open spec fn family_text(paths: Paths, from: int, to: int) -> Seq<char>
    decreases to - from,
{
    if to <= from {
        Seq::empty()
    } else {
        family_text(paths, from, to - 1) + child_text(paths.keys[to - 1], paths.vals[to - 1])
    }
}

/// The descendants of the node stored under `path`, in path order, as they
/// stand in the outline; nothing where no node is stored under `path`
/// itself.
pub open spec fn descendants_text(paths: Paths, path: PathView) -> Seq<char> {
    if paths.has(path) {
        family_text(
            paths,
            index_of(paths.keys, path) + 1,
            family_end(paths.keys, path, index_of(paths.keys, path) + 1),
        )
    } else {
        Seq::empty()
    }
}

/// The section of one label in the outline: a heading, then the node that
/// the label resolves to, in full, and its descendants.
pub open spec fn label_section(a: AnalysisView, label: Seq<char>, path: PathView) -> Seq<char> {
    "## "@ + label + "\n"@ + match a.paths.get(absolute(a.labels, path)) {
        Some(node) => path_node_text(Seq::empty(), path, node) + descendants_text(a.paths, path),
        None => Seq::empty(),
    }
}

/// The sections of the first `n` labels, in the order of the label table.
pub open spec fn outline(a: AnalysisView, n: nat) -> Seq<char>
    decreases n,
{
    if n == 0 {
        Seq::empty()
    } else {
        outline(a, (n - 1) as nat) + label_section(a, a.labels.keys[n - 1], a.labels.vals[n - 1])
    }
}

/// Appends `label` without its underscores to `f`.
pub fn push_anchor(label: &Symbol, f: &mut String)
    ensures
        final(f)@ == old(f)@ + without(label@, '_'),
{
    let chars = chars_of(label.0.as_str());
    let mut i: usize = 0;
    proof {
        assert(chars@.subrange(0, 0) =~= Seq::<char>::empty());
        assert(f@ =~= old(f)@ + without(chars@.subrange(0, 0), '_'));
    }
    while i < chars.len()
        invariant
            i <= chars.len(),
            chars@ == label@,
            f@ == old(f)@ + without(chars@.subrange(0, i as int), '_'),
        decreases chars.len() - i,
    {
        proof {
            let upto = chars@.subrange(0, i + 1);
            assert(upto.drop_last() =~= chars@.subrange(0, i as int));
            assert(upto.last() == chars@[i as int]);
        }
        if chars[i] != '_' {
            f.push(chars[i]);
        }
        i += 1;
        assert(f@ =~= old(f)@ + without(chars@.subrange(0, i as int), '_'));
    }
    proof {
        assert(chars@.subrange(0, i as int) =~= chars@);
    }
}

/// Appends to `f` the links to the sections of `labels`.
fn push_links(labels: &Vec<Symbol>, f: &mut String)
    ensures
        final(f)@ == old(f)@ + links_text(view_all(labels@), labels@.len()),
{
    let ghost all = view_all(labels@);
    let mut m: usize = 0;
    assert(f@ =~= old(f)@ + links_text(all, 0));
    while m < labels.len()
        invariant
            m <= labels.len(),
            all == view_all(labels@),
            f@ == old(f)@ + links_text(all, m as nat),
        decreases labels.len() - m,
    {
        f.append("[&");
        f.append(labels[m].to_text().as_str());
        f.append("](#");
        push_anchor(&labels[m], f);
        f.append(")");
        m += 1;
        assert(f@ =~= old(f)@ + links_text(all, m as nat));
    }
}

/// Appends to `f` a descendant as it stands in the outline.
fn push_child(path: &Path, node: &Node, f: &mut String)
    ensures
        final(f)@ == old(f)@ + child_text(path@, node@),
{
    proof {
        lemma_node_view(*node);
        reveal_strlit("");
        assert(""@ =~= Seq::<char>::empty());
    }
    if node.labels.len() == 0 {
        fmt_path_node("", path, node, f);
    } else {
        f.append(path.to_text().as_str());
        f.append(" ");
        push_links(&node.labels, f);
        f.append("\n");
        assert(f@ =~= old(f)@ + child_text(path@, node@));
    }
}

/// Appends to `f` the descendants of the node stored under `path`, as they
/// stand in the outline.
fn push_descendants(analysis: &Analysis, path: &Path, f: &mut String)
    requires
        analysis.wf(),
    ensures
        final(f)@ == old(f)@ + descendants_text(analysis@.paths, path@),
{
    let ghost paths = analysis@.paths;
    let family = analysis.children(path);
    let ghost first = if paths.has(path@) {
        index_of(paths.keys, path@) + 1
    } else {
        0
    };
    let mut k: usize = 0;
    assert(f@ =~= old(f)@ + family_text(paths, first, first + 0));
    while k < family.len()
        invariant
            k <= family.len(),
            forall|j: int|
                0 <= j < family@.len() ==> (#[trigger] family@[j]).0@ == paths.keys[first + j]
                    && family@[j].1@ == paths.vals[first + j],
            f@ == old(f)@ + family_text(paths, first, first + k),
        decreases family.len() - k,
    {
        let (child_path, child) = family[k];
        push_child(child_path, child, f);
        k += 1;
        assert(f@ =~= old(f)@ + family_text(paths, first, first + k));
    }
}

/// Appends to `f` the section of `label`, which stands for `path`.
fn push_label_section(analysis: &Analysis, label: &Symbol, path: &Path, f: &mut String)
    requires
        analysis.wf(),
    ensures
        final(f)@ == old(f)@ + label_section(analysis@, label@, path@),
{
    f.append("## ");
    f.append(label.to_text().as_str());
    f.append("\n");
    let ghost heading = f@;
    if let Some(node) = analysis.node_at(path) {
        proof {
            reveal_strlit("");
            assert(""@ =~= Seq::<char>::empty());
        }
        fmt_path_node("", path, node, f);
        push_descendants(analysis, path, f);
        assert(f@ =~= heading + (path_node_text(Seq::empty(), path@, node@) + descendants_text(
            analysis@.paths,
            path@,
        )));
    }
    assert(f@ =~= old(f)@ + label_section(analysis@, label@, path@));
}

/// The outline of an analysis by label.
pub struct LabelView<'a>(&'a Analysis);

impl<'a> LabelView<'a> {
    /// The analysis that the view shows.
    pub closed spec fn analysis(&self) -> Analysis {
        *self.0
    }

    /// The outline of `analysis` by label.
    pub fn new<'b>(analysis: &'b Analysis) -> (r: Self) where 'b: 'a
        ensures
            r.analysis() == *analysis,
    {
        Self(analysis)
    }

    /// The outline as text: for every label, in the order of the label
    /// table, its node in full and then each descendant of the node in path
    /// order. A descendant that carries labels of its own is shown as one
    /// line of links to their sections; one without labels is shown in
    /// full.
    pub fn to_text(&self) -> (r: String)
        requires
            self.analysis().wf(),
        ensures
            r@ == outline(self.analysis()@, self.analysis()@.labels.len()),
    {
        let analysis = self.0;
        let mut f = String::new();
        let mut i: usize = 0;
        assert(f@ =~= outline(analysis@, 0));
        while i < analysis.label_count()
            invariant
                analysis.wf(),
                i <= analysis@.labels.len(),
                f@ == outline(analysis@, i as nat),
            decreases analysis@.labels.len() - i,
        {
            let (label, path) = analysis.label_entry(i);
            push_label_section(analysis, label, path, &mut f);
            i += 1;
        }
        f
    }
}

/// A node with the symbols that were picked among those that it uses: the
/// least of them, the others in ascending order, and the node under its
/// path.
#[derive(Debug)]
pub struct SymbolAssoc {
    pub first: Symbol,
    pub others: Vec<Symbol>,
    pub path: Path,
    pub node: Node,
}

/// A cross reference from symbols to nodes.
#[derive(Debug)]
pub struct Xref(pub Vec<SymbolAssoc>);

/// Model of a [`SymbolAssoc`].
pub ghost struct SymbolAssocView {
    pub first: Seq<char>,
    pub others: Seq<Seq<char>>,
    pub path: PathView,
    pub node: NodeView,
}

impl View for SymbolAssoc {
    type V = SymbolAssocView;

    open spec fn view(&self) -> SymbolAssocView {
        SymbolAssocView {
            first: self.first@,
            others: view_all(self.others@),
            path: self.path@,
            node: self.node@,
        }
    }
}

impl View for Xref {
    type V = Seq<SymbolAssocView>;

    open spec fn view(&self) -> Seq<SymbolAssocView> {
        view_all(self.0@)
    }
}

/// Whether symbol `j` of node `i` was picked; a verdict that is missing
/// counts as no.
pub open spec fn verdict(verdicts: Seq<Seq<bool>>, i: int, j: int) -> bool {
    0 <= i < verdicts.len() && 0 <= j < verdicts[i].len() && verdicts[i][j]
}

/// Those of the first `n` of `symbols` that were picked for node `i`, in
/// order.
pub open spec fn picked(symbols: Seq<Seq<char>>, verdicts: Seq<Seq<bool>>, i: int, n: nat) -> Seq<
    Seq<char>,
>
    decreases n,
{
    if n == 0 {
        Seq::empty()
    } else if verdict(verdicts, i, n - 1) {
        picked(symbols, verdicts, i, (n - 1) as nat).push(symbols[n - 1])
    } else {
        picked(symbols, verdicts, i, (n - 1) as nat)
    }
}

/// The table that holds each of `symbols` as a key.
pub open spec fn collected(symbols: Seq<Seq<char>>) -> Assoc<char, ()>
    decreases symbols.len(),
{
    if symbols.len() == 0 {
        Assoc::empty()
    } else {
        collected(symbols.drop_last()).put(symbols.last(), ())
    }
}

/// The symbols in ascending order, each once.
pub open spec fn sorted_set(symbols: Seq<Seq<char>>) -> Seq<Seq<char>> {
    collected(symbols).keys
}

/// What node `i` of the path table contributes to the cross reference:
/// nothing where none of its symbols was picked.
pub open spec fn assoc_for(paths: Paths, verdicts: Seq<Seq<bool>>, i: int) -> Option<
    SymbolAssocView,
> {
    let symbols = props_symbols(paths.vals[i].props);
    let chosen = sorted_set(picked(symbols, verdicts, i, symbols.len()));
    if chosen.len() == 0 {
        None
    } else {
        Some(
            SymbolAssocView {
                first: chosen[0],
                others: chosen.subrange(1, chosen.len() as int),
                path: paths.keys[i],
                node: paths.vals[i],
            },
        )
    }
}

/// Where an entry with the least symbol `first` goes into `sorted`: behind
/// every entry whose least symbol does not come after `first`.
pub open spec fn slot(sorted: Seq<SymbolAssocView>, first: Seq<char>) -> int
    decreases sorted.len(),
{
    if sorted.len() == 0 {
        0
    } else if lex_lt(first, sorted.last().first) {
        slot(sorted.drop_last(), first)
    } else {
        sorted.len() as int
    }
}

/// The cross reference of the first `n` nodes of the path table: their
/// contributions ordered by least symbol, those with the same least symbol
/// in path order.
pub open spec fn cross_reference(paths: Paths, verdicts: Seq<Seq<bool>>, n: nat) -> Seq<
    SymbolAssocView,
>
    decreases n,
{
    if n == 0 {
        Seq::empty()
    } else {
        let front = cross_reference(paths, verdicts, (n - 1) as nat);
        match assoc_for(paths, verdicts, n - 1) {
            Some(item) => front.insert(slot(front, item.first), item),
            None => front,
        }
    }
}

/// `verdict` is what `pred` may answer for `symbol`.
pub open spec fn judged<F: Fn(&str) -> bool>(pred: F, symbol: Seq<char>, verdict: bool) -> bool {
    exists|x: &str| x@ == symbol && call_ensures(pred, (x,), verdict)
}

/// `verdicts` holds, for each node and each symbol that it uses, what
/// `pred` may answer for the symbol.
pub open spec fn all_judged<F: Fn(&str) -> bool>(
    pred: F,
    paths: Paths,
    verdicts: Seq<Seq<bool>>,
) -> bool {
    &&& verdicts.len() == paths.len()
    &&& forall|i: int|
        0 <= i < verdicts.len() ==> (#[trigger] verdicts[i]).len() == props_symbols(
            paths.vals[i].props,
        ).len()
    &&& forall|i: int, j: int|
        0 <= i < verdicts.len() && 0 <= j < verdicts[i].len() ==> judged(
            pred,
            props_symbols(paths.vals[i].props)[j],
            #[trigger] verdicts[i][j],
        )
}

/// The views of the lists of verdicts.
pub open spec fn verdicts_view(verdicts: Seq<Vec<bool>>) -> Seq<Seq<bool>> {
    Seq::new(verdicts.len(), |i: int| verdicts[i]@)
}

/// The symbols that were picked for node `i`, in ascending order, each
/// once.
fn chosen_symbols(symbols: &Vec<Symbol>, verdicts: &Vec<Vec<bool>>, i: usize) -> (r: Vec<
    Symbol,
>)
    ensures
        view_all(r@) == sorted_set(
            picked(view_all(symbols@), verdicts_view(verdicts@), i as int, symbols@.len()),
        ),
{
    let ghost all = view_all(symbols@);
    let ghost marks = verdicts_view(verdicts@);
    let mut set: Table<Symbol, ()> = Table::new();
    let mut j: usize = 0;
    while j < symbols.len()
        invariant
            j <= symbols.len(),
            all == view_all(symbols@),
            marks == verdicts_view(verdicts@),
            set.wf(),
            set.model() == collected(picked(all, marks, i as int, j as nat)),
        decreases symbols.len() - j,
    {
        let wanted = i < verdicts.len() && j < verdicts[i].len() && verdicts[i][j];
        assert(wanted == verdict(marks, i as int, j as int));
        if wanted {
            proof {
                let upto = picked(all, marks, i as int, (j + 1) as nat);
                assert(upto.drop_last() =~= picked(all, marks, i as int, j as nat));
                assert(upto.last() == symbols@[j as int]@);
            }
            match set.find(&symbols[j]) {
                Ok(at) => {
                    let ghost before = set.model();
                    assert(before.vals.update(at as int, ()) =~= before.vals);
                },
                Err(at) => {
                    set.insert(at, symbols[j].clone(), ());
                },
            }
        }
        j += 1;
    }
    let keys = set.into_keys();
    assert(view_all(keys@) =~= units_of(keys@));
    keys
}

impl Xref {
    /// The cross reference of `analysis` for the symbols that `verdicts`
    /// picks: `verdicts[i][j]` says whether symbol `j` of the node at index
    /// `i` of the path table counts. Every node of which a symbol counts is
    /// listed under the least of them, with the others alongside, and the
    /// entries are ordered by that symbol.
    pub fn select(analysis: &Analysis, verdicts: &Vec<Vec<bool>>) -> (r: Xref)
        requires
            analysis.wf(),
        ensures
            r@ == cross_reference(
                analysis@.paths,
                verdicts_view(verdicts@),
                analysis@.paths.len(),
            ),
    {
        let ghost paths = analysis@.paths;
        let ghost marks = verdicts_view(verdicts@);
        let mut assocs: Vec<SymbolAssoc> = Vec::new();
        let mut i: usize = 0;
        assert(view_all(assocs@) =~= cross_reference(paths, marks, 0));
        while i < analysis.node_count()
            invariant
                analysis.wf(),
                paths == analysis@.paths,
                marks == verdicts_view(verdicts@),
                i <= paths.len(),
                view_all(assocs@) == cross_reference(paths, marks, i as nat),
            decreases paths.len() - i,
        {
            let (path, node) = analysis.entry(i);
            let used = symbols_in_node(node);
            let mut symbols = chosen_symbols(&used, verdicts, i);
            let ghost chosen = view_all(symbols@);
            if symbols.len() > 0 {
                let first = symbols.remove(0);
                assert(view_all(symbols@) =~= chosen.subrange(1, chosen.len() as int));
                let item = SymbolAssoc {
                    first,
                    others: symbols,
                    path: path.clone(),
                    node: node.clone(),
                };
                let ghost front = view_all(assocs@);
                let mut k: usize = assocs.len();
                proof {
                    assert(front.subrange(0, k as int) =~= front);
                }
                while k > 0 && item.first.before(&assocs[k - 1].first)
                    invariant
                        k <= assocs.len(),
                        front == view_all(assocs@),
                        slot(front, item@.first) == slot(front.subrange(0, k as int), item@.first),
                    decreases k,
                {
                    proof {
                        let upto = front.subrange(0, k as int);
                        assert(upto.drop_last() =~= front.subrange(0, k - 1));
                        assert(upto.last() == assocs@[k - 1]@);
                    }
                    k -= 1;
                }
                proof {
                    let upto = front.subrange(0, k as int);
                    if k > 0 {
                        assert(upto.last() == assocs@[k - 1]@);
                    }
                    assert(slot(front, item@.first) == k);
                }
                assocs.insert(k, item);
                assert(view_all(assocs@) =~= front.insert(k as int, item@));
            }
            i += 1;
        }
        Xref(assocs)
    }

    /// The cross reference of the symbols whose names match a predicate.
    ///
    /// The predicate is asked once for each symbol that each node uses;
    /// what comes of its answers is what [`Xref::select`] says.
    pub fn new<F: Fn(&str) -> bool>(analysis: &Analysis, pred: F) -> (r: Xref)
        requires
            analysis.wf(),
            forall|x: &str| call_requires(pred, (x,)),
        ensures
            exists|verdicts: Seq<Seq<bool>>|
                all_judged(pred, analysis@.paths, verdicts) && r@ == cross_reference(
                    analysis@.paths,
                    verdicts,
                    analysis@.paths.len(),
                ),
    {
        let ghost paths = analysis@.paths;
        let mut verdicts: Vec<Vec<bool>> = Vec::new();
        let mut i: usize = 0;
        while i < analysis.node_count()
            invariant
                analysis.wf(),
                paths == analysis@.paths,
                forall|x: &str| call_requires(pred, (x,)),
                i <= paths.len(),
                verdicts@.len() == i,
                forall|n: int|
                    0 <= n < i ==> (#[trigger] verdicts@[n])@.len() == props_symbols(
                        paths.vals[n].props,
                    ).len(),
                forall|n: int, j: int|
                    0 <= n < i && 0 <= j < verdicts@[n]@.len() ==> judged(
                        pred,
                        props_symbols(paths.vals[n].props)[j],
                        #[trigger] verdicts@[n]@[j],
                    ),
            decreases paths.len() - i,
        {
            let (_, node) = analysis.entry(i);
            let used = symbols_in_node(node);
            let mut answers: Vec<bool> = Vec::new();
            let mut j: usize = 0;
            while j < used.len()
                invariant
                    forall|x: &str| call_requires(pred, (x,)),
                    j <= used.len(),
                    answers@.len() == j,
                    forall|m: int|
                        0 <= m < j ==> judged(pred, used@[m]@, #[trigger] answers@[m]),
                decreases used.len() - j,
            {
                let name = used[j].0.as_str();
                let answer = pred(name);
                answers.push(answer);
                j += 1;
            }
            verdicts.push(answers);
            i += 1;
        }
        let r = Xref::select(analysis, &verdicts);
        proof {
            let marks = verdicts_view(verdicts@);
            assert(all_judged(pred, paths, marks)) by {
                assert forall|n: int| 0 <= n < marks.len() implies (#[trigger] marks[n]).len()
                    == props_symbols(paths.vals[n].props).len() by {
                    assert(marks[n] == verdicts@[n]@);
                }
                assert forall|n: int, j: int|
                    0 <= n < marks.len() && 0 <= j < marks[n].len() implies judged(
                    pred,
                    props_symbols(paths.vals[n].props)[j],
                    #[trigger] marks[n][j],
                ) by {
                    assert(marks[n][j] == verdicts@[n]@[j]);
                }
            }
        }
        r
    }
}

/// An entry of the cross reference as text: the least symbol and the
/// others with commas on one line, then the node under its path, behind
/// four blanks.
pub open spec fn assoc_text(item: SymbolAssocView) -> Seq<char> {
    item.first + (if item.others.len() == 0 {
        Seq::empty()
    } else {
        delimited(item.others, ", "@, ", "@, ""@)
    }) + "\n"@ + path_node_text("    "@, item.path, item.node)
}

/// The first `n` entries of a cross reference as text, an empty line
/// behind each.
pub open spec fn xref_text(items: Seq<SymbolAssocView>, n: nat) -> Seq<char>
    decreases n,
{
    if n == 0 {
        Seq::empty()
    } else {
        xref_text(items, (n - 1) as nat) + assoc_text(items[n - 1]) + "\n"@
    }
}

impl SymbolAssoc {
    /// The entry as text.
    pub fn to_text(&self) -> (r: String)
        ensures
            r@ == assoc_text(self@),
    {
        let mut f = String::new();
        f.append(self.first.to_text().as_str());
        if self.others.len() > 0 {
            let others = symbols_text(&self.others);
            fmt_delimited(&others, ", ", ", ", "", &mut f);
        }
        f.append("\n");
        fmt_path_node("    ", &self.path, &self.node, &mut f);
        assert(f@ =~= assoc_text(self@));
        f
    }
}

impl Xref {
    /// The cross reference as text: its entries in order.
    pub fn to_text(&self) -> (r: String)
        ensures
            r@ == xref_text(self@, self@.len()),
    {
        let mut f = String::new();
        let mut i: usize = 0;
        assert(f@ =~= xref_text(self@, 0));
        while i < self.0.len()
            invariant
                i <= self.0.len(),
                f@ == xref_text(self@, i as nat),
            decreases self.0.len() - i,
        {
            f.append(self.0[i].to_text().as_str());
            f.append("\n");
            i += 1;
            assert(f@ =~= xref_text(self@, i as nat));
        }
        f
    }
}

/// The sorted set of symbols ascends and holds exactly the symbols given.
pub proof fn lemma_sorted_set(symbols: Seq<Seq<char>>)
    ensures
        collected(symbols).wf(),
        ascending(sorted_set(symbols)),
        forall|x: Seq<char>| symbols.contains(x) <==> #[trigger] collected(symbols).has(x),
    decreases symbols.len(),
{
    if symbols.len() > 0 {
        let front = symbols.drop_last();
        lemma_sorted_set(front);
        collected(front).lemma_put(symbols.last(), ());
        assert forall|x: Seq<char>| symbols.contains(x) <==> #[trigger] collected(symbols).has(
            x,
        ) by {
            if symbols.contains(x) {
                let i = choose|i: int| 0 <= i < symbols.len() && symbols[i] == x;
                if i < symbols.len() - 1 {
                    assert(front[i] == x);
                    assert(front.contains(x));
                    assert(collected(front).has(x));
                }
            }
            if collected(symbols).has(x) && x != symbols.last() {
                assert(collected(front).has(x));
                assert(front.contains(x));
                let i = choose|i: int| 0 <= i < front.len() && front[i] == x;
                assert(symbols[i] == x);
            }
            if x == symbols.last() {
                assert(symbols[symbols.len() - 1] == x);
            }
        }
    } else {
        assert forall|x: Seq<char>| symbols.contains(x) <==> #[trigger] collected(symbols).has(
            x,
        ) by {}
    }
}

/// An entry of the cross reference stands under the least of the symbols
/// that were picked for its node: the others come after it, in ascending
/// order, and all of them are symbols that the node uses.
pub proof fn lemma_first_is_least(paths: Paths, verdicts: Seq<Seq<bool>>, i: int)
    requires
        assoc_for(paths, verdicts, i) is Some,
    ensures
        ({
            let item = assoc_for(paths, verdicts, i)->0;
            &&& ascending(seq![item.first] + item.others)
            &&& forall|k: int|
                0 <= k < item.others.len() ==> lex_lt(item.first, #[trigger] item.others[k])
        }),
{
    let symbols = props_symbols(paths.vals[i].props);
    let chosen = sorted_set(picked(symbols, verdicts, i, symbols.len()));
    lemma_sorted_set(picked(symbols, verdicts, i, symbols.len()));
    let item = assoc_for(paths, verdicts, i)->0;
    assert(seq![item.first] + item.others =~= chosen);
    assert forall|k: int| 0 <= k < item.others.len() implies lex_lt(
        item.first,
        #[trigger] item.others[k],
    ) by {
        assert(item.others[k] == chosen[k + 1]);
        assert(lex_lt(chosen[0], chosen[k + 1]));
    }
}

/// No entry of `sorted` stands under a symbol that comes before that of an
/// entry before it.
pub open spec fn ordered_by_first(sorted: Seq<SymbolAssocView>) -> bool {
    forall|i: int, j: int|
        0 <= i < j < sorted.len() ==> !lex_lt(
            (#[trigger] sorted[j]).first,
            (#[trigger] sorted[i]).first,
        )
}

/// The slot of an entry parts those that do not come after it from those
/// that do.
pub proof fn lemma_slot(sorted: Seq<SymbolAssocView>, first: Seq<char>)
    requires
        ordered_by_first(sorted),
    ensures
        0 <= slot(sorted, first) <= sorted.len(),
        forall|i: int|
            0 <= i < slot(sorted, first) ==> !lex_lt(first, (#[trigger] sorted[i]).first),
        forall|i: int|
            slot(sorted, first) <= i < sorted.len() ==> lex_lt(first, (#[trigger] sorted[i]).first),
    decreases sorted.len(),
{
    if sorted.len() > 0 {
        let front = sorted.drop_last();
        assert forall|i: int, j: int| 0 <= i < j < front.len() implies !lex_lt(
            (#[trigger] front[j]).first,
            (#[trigger] front[i]).first,
        ) by {
            assert(front[i] == sorted[i] && front[j] == sorted[j]);
        }
        if lex_lt(first, sorted.last().first) {
            lemma_slot(front, first);
            assert forall|i: int| 0 <= i < slot(sorted, first) implies !lex_lt(
                first,
                (#[trigger] sorted[i]).first,
            ) by {
                assert(front[i] == sorted[i]);
            }
            assert forall|i: int| slot(sorted, first) <= i < sorted.len() implies lex_lt(
                first,
                (#[trigger] sorted[i]).first,
            ) by {
                if i < front.len() {
                    assert(front[i] == sorted[i]);
                }
            }
        } else {
            assert forall|i: int| 0 <= i < sorted.len() implies !lex_lt(
                first,
                (#[trigger] sorted[i]).first,
            ) by {
                if lex_lt(first, sorted[i].first) {
                    // then the last entry would come before this one
                    lemma_lex_total(first, sorted.last().first);
                    if first != sorted.last().first {
                        lemma_lex_transitive(sorted.last().first, first, sorted[i].first);
                    }
                    assert(i < sorted.len() - 1);
                    assert(!lex_lt(sorted[sorted.len() - 1].first, sorted[i].first));
                }
            }
        }
    }
}

/// The entries of a cross reference are ordered by the symbol under which
/// they stand.
pub proof fn lemma_cross_reference_ordered(paths: Paths, verdicts: Seq<Seq<bool>>, n: nat)
    ensures
        ordered_by_first(cross_reference(paths, verdicts, n)),
    decreases n,
{
    if n > 0 {
        let front = cross_reference(paths, verdicts, (n - 1) as nat);
        lemma_cross_reference_ordered(paths, verdicts, (n - 1) as nat);
        match assoc_for(paths, verdicts, n - 1) {
            Some(item) => {
                lemma_slot(front, item.first);
                let at = slot(front, item.first);
                let out = front.insert(at, item);
                assert forall|i: int, j: int| 0 <= i < j < out.len() implies !lex_lt(
                    (#[trigger] out[j]).first,
                    (#[trigger] out[i]).first,
                ) by {
                    if j == at {
                        assert(out[i] == front[i]);
                        lemma_lex_total(item.first, front[i].first);
                        if lex_lt(item.first, front[i].first) {
                        }
                    } else if i == at {
                        assert(out[j] == front[j - 1]);
                        lemma_lex_asymmetric(item.first, front[j - 1].first);
                    } else {
                        let a = if i < at { i } else { i - 1 };
                        let b = if j < at { j } else { j - 1 };
                        assert(out[i] == front[a] && out[j] == front[b]);
                    }
                }
            },
            None => {},
        }
    }
}

/// How many of the first `n` nodes of the path table contribute to the
/// cross reference.
pub open spec fn contributions(paths: Paths, verdicts: Seq<Seq<bool>>, n: nat) -> nat
    decreases n,
{
    if n == 0 {
        0
    } else {
        contributions(paths, verdicts, (n - 1) as nat) + if assoc_for(paths, verdicts, n - 1)
            is Some {
            1nat
        } else {
            0nat
        }
    }
}

/// The cross reference holds one entry for each node of which a symbol was
/// picked, and nothing else.
pub proof fn lemma_cross_reference_members(paths: Paths, verdicts: Seq<Seq<bool>>, n: nat)
    ensures
        cross_reference(paths, verdicts, n).len() == contributions(paths, verdicts, n),
        forall|i: int|
            0 <= i < n && assoc_for(paths, verdicts, i) is Some ==> cross_reference(
                paths,
                verdicts,
                n,
            ).contains(#[trigger] assoc_for(paths, verdicts, i)->0),
        forall|k: int|
            0 <= k < cross_reference(paths, verdicts, n).len() ==> exists|i: int|
                0 <= i < n && assoc_for(paths, verdicts, i) == Some(
                    #[trigger] cross_reference(paths, verdicts, n)[k],
                ),
    decreases n,
{
    if n > 0 {
        let front = cross_reference(paths, verdicts, (n - 1) as nat);
        let out = cross_reference(paths, verdicts, n);
        lemma_cross_reference_members(paths, verdicts, (n - 1) as nat);
        lemma_cross_reference_ordered(paths, verdicts, (n - 1) as nat);
        match assoc_for(paths, verdicts, n - 1) {
            Some(item) => {
                lemma_slot(front, item.first);
                let at = slot(front, item.first);
                assert(out[at] == item);
                assert forall|i: int|
                    0 <= i < n && assoc_for(paths, verdicts, i) is Some implies out.contains(
                    #[trigger] assoc_for(paths, verdicts, i)->0,
                ) by {
                    if i < n - 1 {
                        let found = assoc_for(paths, verdicts, i)->0;
                        assert(front.contains(found));
                        let k = choose|k: int| 0 <= k < front.len() && front[k] == found;
                        let moved = if k < at {
                            k
                        } else {
                            k + 1
                        };
                        assert(out[moved] == found);
                    }
                }
                assert forall|k: int| 0 <= k < out.len() implies exists|i: int|
                    0 <= i < n && assoc_for(paths, verdicts, i) == Some(#[trigger] out[k]) by {
                    if k == at {
                        assert(assoc_for(paths, verdicts, n - 1) == Some(out[k]));
                    } else {
                        let from = if k < at {
                            k
                        } else {
                            k - 1
                        };
                        assert(out[k] == front[from]);
                        let i = choose|i: int|
                            0 <= i < n - 1 && assoc_for(paths, verdicts, i) == Some(front[from]);
                        assert(assoc_for(paths, verdicts, i) == Some(out[k]));
                    }
                }
            },
            None => {},
        }
    }
}

/// The forests of the first `n` sources, one behind the other, where each
/// of them is a document.
pub open spec fn forest_of(sources: Seq<Seq<char>>, n: nat) -> Option<Seq<NodeView>>
    decreases n,
{
    if n == 0 {
        Some(Seq::empty())
    } else {
        match (forest_of(sources, (n - 1) as nat), syntax::tree(sources[n - 1])) {
            (Some(before), Ok(forest)) => Some(before + forest),
            _ => None,
        }
    }
}

/// The texts of the sources.
pub open spec fn texts_of(sources: Seq<String>) -> Seq<Seq<char>> {
    Seq::new(sources.len(), |i: int| sources[i]@)
}

/// The analysis of several sources as one: each source is parsed, the
/// forests are put one behind the other, and the whole is analysed. The
/// first source that is no document ends the work: its index and the
/// syntax error are handed out.
pub fn analyse_sources(sources: &Vec<String>) -> (r: Result<Analysis, (usize, SyntaxError)>)
    ensures
        match r {
            Ok(analysis) => analysis.wf() && forest_of(texts_of(sources@), sources@.len())
                is Some && analysis@ == analyse(
                forest_of(texts_of(sources@), sources@.len())->0,
            ),
            Err((at, e)) => at < sources@.len() && forest_of(texts_of(sources@), at as nat)
                is Some && syntax::tree(sources@[at as int]@) == Err::<
                Seq<NodeView>,
                SyntaxErrorView,
            >(e@) && e.excerpt@ == excerpt(sources@[at as int]@, e.offset as int),
        },
{
    let ghost texts = texts_of(sources@);
    let mut all_nodes: Vec<Node> = Vec::new();
    let mut i: usize = 0;
    assert(view_all(all_nodes@) =~= Seq::<NodeView>::empty());
    while i < sources.len()
        invariant
            i <= sources.len(),
            texts == texts_of(sources@),
            forest_of(texts, i as nat) == Some(view_all(all_nodes@)),
        decreases sources.len() - i,
    {
        let ghost before = view_all(all_nodes@);
        match tree(sources[i].as_str()) {
            Ok((_, forest)) => {
                let ghost added = view_all(forest@);
                let mut forest = forest;
                all_nodes.append(&mut forest);
                assert(view_all(all_nodes@) =~= before + added);
            },
            Err(e) => {
                return Err((i, e));
            },
        }
        i += 1;
    }
    Ok(Analysis::new(all_nodes))
}

} // verus!
