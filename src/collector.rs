//! Gathering the unknown words of a file's nameable nodes by span.
use vstd::prelude::*;
use crate::checker::{check, lemma_unknown_words_of_joined, unknown_words};
use crate::segment::{join_words, segment_of};
use crate::dictionary::Dictionary;
use crate::span_map::{merge_spec, word_set, MisspellingMap, Span};

verus! {

/// What a node of the syntax tree is, as far as spelling goes.
#[derive(Clone, Copy, Debug, PartialEq, Eq, Structural)]
pub enum NodeKind {
    Function,
    Type,
    Binding,
    Field,
    Module,
    Parameter,
    /// Documentation attached to an item.
    Doc,
    /// A node that carries no name of its own; it is skipped.
    Other,
}

/// A node of the syntax tree with its span, its name or documentation text,
/// and whether it is visible outside its unit.
pub struct Node {
    pub kind: NodeKind,
    pub span: Span,
    pub text: String,
    pub exported: bool,
}

/// Whether the node `n` is checked: it carries a name or documentation, and
/// it is visible when only visible nodes are wanted.
pub open spec fn counted(n: Node, exported_only: bool) -> bool {
    !(n.kind is Other) && (!exported_only || n.exported)
}

/// The unknown words of the checked nodes among the first `upto` of `nodes`
/// that stand at span `k`.
pub open spec fn found_at(
    nodes: Seq<Node>,
    d: Set<Seq<char>>,
    exported_only: bool,
    k: Span,
    upto: int,
) -> Set<Seq<char>> {
    Set::new(
        |w: Seq<char>|
            exists|i: int|
                0 <= i < upto && counted(nodes[i], exported_only) && nodes[i].span == k
                    && unknown_words(nodes[i].text@, d).contains(w),
    )
}

/// The spans among the first `upto` nodes with unknown words, each with all
/// the unknown words found there.
pub open spec fn collected(
    nodes: Seq<Node>,
    d: Set<Seq<char>>,
    exported_only: bool,
    upto: int,
) -> Map<Span, Set<Seq<char>>> {
    Map::new(
        |k: Span| exists|w: Seq<char>| #[trigger] found_at(nodes, d, exported_only, k, upto).contains(w),
        |k: Span| found_at(nodes, d, exported_only, k, upto),
    )
}

/// One more node: its findings are merged at its span.
pub proof fn lemma_collect_step(nodes: Seq<Node>, d: Set<Seq<char>>, exported_only: bool, i: int)
    requires
        0 <= i < nodes.len(),
    ensures
        collected(nodes, d, exported_only, i + 1) == (if counted(nodes[i], exported_only) {
            merge_spec(
                collected(nodes, d, exported_only, i),
                nodes[i].span,
                unknown_words(nodes[i].text@, d),
            )
        } else {
            collected(nodes, d, exported_only, i)
        }),
{
    let n = nodes[i];
    let u = unknown_words(n.text@, d);
    let before = collected(nodes, d, exported_only, i);
    let after = collected(nodes, d, exported_only, i + 1);
    assert forall|k: Span, w: Seq<char>| found_at(nodes, d, exported_only, k, i + 1).contains(w)
        <==> (found_at(nodes, d, exported_only, k, i).contains(w) || (counted(n, exported_only)
        && n.span == k && u.contains(w))) by {
        if found_at(nodes, d, exported_only, k, i + 1).contains(w) {
            let j = choose|j: int|
                0 <= j < i + 1 && counted(nodes[j], exported_only) && nodes[j].span == k
                    && unknown_words(nodes[j].text@, d).contains(w);
            if j < i {
                assert(found_at(nodes, d, exported_only, k, i).contains(w));
            }
        }
        if found_at(nodes, d, exported_only, k, i).contains(w) {
            let j = choose|j: int|
                0 <= j < i && counted(nodes[j], exported_only) && nodes[j].span == k
                    && unknown_words(nodes[j].text@, d).contains(w);
            assert(found_at(nodes, d, exported_only, k, i + 1).contains(w));
        }
        if counted(n, exported_only) && n.span == k && u.contains(w) {
            assert(found_at(nodes, d, exported_only, k, i + 1).contains(w));
        }
    }
    if counted(n, exported_only) {
        let m = merge_spec(before, n.span, u);
        if u =~= Set::empty() {
            assert forall|k: Span| #[trigger] after.contains_key(k) implies before.contains_key(k) by {
                let w = choose|w: Seq<char>| #[trigger] found_at(nodes, d, exported_only, k, i + 1).contains(w);
                assert(found_at(nodes, d, exported_only, k, i).contains(w));
            }
            assert forall|k: Span| #[trigger] before.contains_key(k) implies after.contains_key(k) by {
                let w = choose|w: Seq<char>| #[trigger] found_at(nodes, d, exported_only, k, i).contains(w);
                assert(found_at(nodes, d, exported_only, k, i + 1).contains(w));
            }
            assert forall|k: Span| #[trigger] after.contains_key(k) implies after[k] =~= before[k] by {}
            assert(after =~= before);
        } else {
            let w0 = choose|w: Seq<char>| u.contains(w);
            assert(found_at(nodes, d, exported_only, n.span, i + 1).contains(w0));
            assert forall|k: Span| #[trigger] after.contains_key(k) implies m.contains_key(k) by {
                if k != n.span {
                    let w = choose|w: Seq<char>| #[trigger] found_at(nodes, d, exported_only, k, i + 1).contains(
                        w,
                    );
                    assert(found_at(nodes, d, exported_only, k, i).contains(w));
                }
            }
            assert forall|k: Span| #[trigger] m.contains_key(k) implies after.contains_key(k) by {
                if k != n.span {
                    let w = choose|w: Seq<char>| #[trigger] found_at(nodes, d, exported_only, k, i).contains(w);
                    assert(found_at(nodes, d, exported_only, k, i + 1).contains(w));
                }
            }
            assert forall|k: Span| #[trigger] after.contains_key(k) implies after[k] =~= m[k] by {
                assert forall|w: Seq<char>| after[k].contains(w) <==> m[k].contains(w) by {
                    if k == n.span && !before.contains_key(k) {
                        assert(!found_at(nodes, d, exported_only, k, i).contains(w));
                    }
                }
            }
            assert(after =~= m);
        }
    } else {
        assert forall|k: Span| #[trigger] after.contains_key(k) implies before.contains_key(k) by {
            let w = choose|w: Seq<char>| #[trigger] found_at(nodes, d, exported_only, k, i + 1).contains(w);
            assert(found_at(nodes, d, exported_only, k, i).contains(w));
        }
        assert forall|k: Span| #[trigger] before.contains_key(k) implies after.contains_key(k) by {
            let w = choose|w: Seq<char>| #[trigger] found_at(nodes, d, exported_only, k, i).contains(w);
            assert(found_at(nodes, d, exported_only, k, i + 1).contains(w));
        }
        assert forall|k: Span| #[trigger] after.contains_key(k) implies after[k] =~= before[k] by {}
        assert(after =~= before);
    }
}

/// Renaming every node to its words joined by underscores, and changing
/// nothing else, leaves the findings at every span as they were.
pub proof fn lemma_renamed_nodes_same_findings(
    nodes: Seq<Node>,
    renamed: Seq<Node>,
    d: Set<Seq<char>>,
    exported_only: bool,
)
    requires
        renamed.len() == nodes.len(),
        forall|i: int|
            0 <= i < nodes.len() ==> (#[trigger] renamed[i]).kind == nodes[i].kind && renamed[i].span
                == nodes[i].span && renamed[i].exported == nodes[i].exported && renamed[i].text@
                == join_words(segment_of(nodes[i].text@)),
    ensures
        collected(renamed, d, exported_only, renamed.len() as int) == collected(
            nodes,
            d,
            exported_only,
            nodes.len() as int,
        ),
{
    let n = nodes.len() as int;
    assert forall|i: int| 0 <= i < n implies unknown_words((#[trigger] renamed[i]).text@, d)
        == unknown_words(nodes[i].text@, d) && counted(renamed[i], exported_only) == counted(
        nodes[i],
        exported_only,
    ) by {
        lemma_unknown_words_of_joined(nodes[i].text@, d);
    }
    assert forall|k: Span| found_at(renamed, d, exported_only, k, n) =~= found_at(
        nodes,
        d,
        exported_only,
        k,
        n,
    ) by {
        assert forall|w: Seq<char>| found_at(renamed, d, exported_only, k, n).contains(w)
            implies found_at(nodes, d, exported_only, k, n).contains(w) by {
            let i = choose|i: int|
                0 <= i < n && counted(renamed[i], exported_only) && renamed[i].span == k
                    && unknown_words(renamed[i].text@, d).contains(w);
        }
        assert forall|w: Seq<char>| found_at(nodes, d, exported_only, k, n).contains(w)
            implies found_at(renamed, d, exported_only, k, n).contains(w) by {
            let i = choose|i: int|
                0 <= i < n && counted(nodes[i], exported_only) && nodes[i].span == k
                    && unknown_words(nodes[i].text@, d).contains(w);
            assert(renamed[i].span == k);
        }
    }
    assert(collected(renamed, d, exported_only, n) =~= collected(nodes, d, exported_only, n));
}

/// Whether the node `n` is checked.
pub fn is_counted(n: &Node, exported_only: bool) -> (r: bool)
    ensures
        r == counted(*n, exported_only),
{
    match n.kind {
        NodeKind::Other => false,
        _ => !exported_only || n.exported,
    }
}

/// Checks every name and documentation text of `nodes` (only the visible
/// nodes when `exported_only`), and gathers the unknown words by span.
pub fn collect(nodes: &Vec<Node>, dict: &Dictionary, exported_only: bool) -> (r: MisspellingMap)
    ensures
        r.wf(),
        r@ == collected(nodes@, dict@, exported_only, nodes@.len() as int),
{
    let mut m = MisspellingMap::new();
    assert(m@ =~= collected(nodes@, dict@, exported_only, 0));
    let mut i: usize = 0;
    while i < nodes.len()
        invariant
            i <= nodes@.len(),
            m.wf(),
            m@ == collected(nodes@, dict@, exported_only, i as int),
        decreases nodes.len() - i,
    {
        let n = &nodes[i];
        proof {
            lemma_collect_step(nodes@, dict@, exported_only, i as int);
        }
        if is_counted(n, exported_only) {
            let found = check(n.text.as_str(), dict);
            assert(word_set(found@) == unknown_words(n.text@, dict@));
            m.merge(n.span, &found);
        }
        i = i + 1;
    }
    m
}

} // verus!
