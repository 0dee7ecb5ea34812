//! Laws of the walk.
//!
//! These lemmas state, over the tree model of [`crate::tree`], what the
//! traversal prints: with no pattern it prints every reachable entry; a
//! directory's subtree is traversed whether or not the directory's own name
//! matches; and a repeated walk over an unmodified tree prints the same
//! multiset of paths.

use vstd::multiset::Multiset;
use vstd::prelude::*;

use crate::pattern::entry_matches;
use crate::tree::DirEntry;
use crate::tree::Node;
use crate::tree::child_path;
use crate::tree::children_walk_spec;
use crate::tree::walk_spec;

verus! {

broadcast use
    vstd::seq_lib::group_to_multiset_ensures,
    vstd::multiset::group_multiset_axioms,
    vstd::multiset::group_multiset_properties;

/// Every entry reachable from the directory at `path` (files and
/// directories, the root itself excluded), by its full path, once per
/// occurrence in the tree.
pub open spec fn reachable(path: Seq<char>, node: Node) -> Multiset<Seq<char>>
    decreases node, 0int,
{
    if node is File {
        Multiset::empty()
    } else {
        children_reach(path, node->Dir_0@, 0)
    }
}

/// The entries reachable through the children from index `i` on: each child
/// itself, and everything below it.
pub open spec fn children_reach(path: Seq<char>, cs: Seq<DirEntry>, i: int) -> Multiset<Seq<char>>
    decreases cs, cs.len() - i,
{
    if i < 0 || i >= cs.len() {
        Multiset::empty()
    } else {
        let child = child_path(path, cs[i].name@);
        Multiset::singleton(child).add(reachable(child, cs[i].node)).add(
            children_reach(path, cs, i + 1),
        )
    }
}

/// With no pattern supplied, the walk prints exactly the reachable entries,
/// each as often as it occurs in the tree.
pub proof fn lemma_unfiltered_walk_prints_all(path: Seq<char>, node: Node)
    ensures
        walk_spec(path, node, Option::None) == reachable(path, node),
    decreases node, 0int,
{
    if node is Dir {
        lemma_unfiltered_children(path, node->Dir_0@, 0);
    }
}

proof fn lemma_unfiltered_children(path: Seq<char>, cs: Seq<DirEntry>, i: int)
    ensures
        children_walk_spec(path, cs, Option::None, i) == children_reach(path, cs, i),
    decreases cs, cs.len() - i,
{
    if 0 <= i < cs.len() {
        let child = child_path(path, cs[i].name@);
        lemma_unfiltered_walk_prints_all(child, cs[i].node);
        lemma_unfiltered_children(path, cs, i + 1);
    }
}

proof fn lemma_child_contribution(
    path: Seq<char>,
    cs: Seq<DirEntry>,
    pat: Option<Seq<char>>,
    j: int,
    i: int,
)
    requires
        0 <= j <= i < cs.len(),
    ensures
        walk_spec(child_path(path, cs[i].name@), cs[i].node, pat).subset_of(
            children_walk_spec(path, cs, pat, j),
        ),
        entry_matches(pat, Some(cs[i].name@)) ==> children_walk_spec(path, cs, pat, j).count(
            child_path(path, cs[i].name@),
        ) >= 1,
    decreases i - j,
{
    if j < i {
        lemma_child_contribution(path, cs, pat, j + 1, i);
    }
}

/// A directory is traversed whether or not its own name matches the pattern:
/// without any requirement on the directory's name, everything the walk of
/// its subtree prints, the walk of the parent prints too; and the child's
/// own path is printed whenever its name does match.
pub proof fn lemma_directory_always_traversed(
    path: Seq<char>,
    node: Node,
    pat: Option<Seq<char>>,
    i: int,
)
    requires
        node is Dir,
        0 <= i < node->Dir_0@.len(),
    ensures
        walk_spec(child_path(path, node->Dir_0@[i].name@), node->Dir_0@[i].node, pat).subset_of(
            walk_spec(path, node, pat),
        ),
        entry_matches(pat, Some(node->Dir_0@[i].name@)) ==> walk_spec(path, node, pat).count(
            child_path(path, node->Dir_0@[i].name@),
        ) >= 1,
{
    lemma_child_contribution(path, node->Dir_0@, pat, 0, i);
}

/// No character of `name` is the path separator.
pub open spec fn slash_free(name: Seq<char>) -> bool {
    forall|k: int| 0 <= k < name.len() ==> name[k] != '/'
}

/// The base name of a path: the suffix after its last separator, or the
/// whole path when it holds none.
pub open spec fn basename(p: Seq<char>) -> Seq<char>
    decreases p.len(),
{
    if p.len() == 0 {
        p
    } else if p.last() == '/' {
        Seq::empty()
    } else {
        basename(p.drop_last()).push(p.last())
    }
}

/// Sibling names are pairwise distinct, as they are in a real directory.
pub open spec fn distinct_names(cs: Seq<DirEntry>) -> bool {
    forall|j: int, k: int| 0 <= j < k < cs.len() ==> cs[j].name@ != cs[k].name@
}

/// A well-formed tree, as a live filesystem yields it: within each
/// directory the names are pairwise distinct, and no name holds the path
/// separator.
pub open spec fn wf_node(node: Node) -> bool
    decreases node, 0int,
{
    node is Dir ==> (distinct_names(node->Dir_0@) && wf_children(node->Dir_0@, 0))
}

/// Well-formedness of the children from index `i` on.
pub open spec fn wf_children(cs: Seq<DirEntry>, i: int) -> bool
    decreases cs, cs.len() - i,
{
    0 <= i < cs.len() ==> (slash_free(cs[i].name@) && wf_node(cs[i].node) && wf_children(
        cs,
        i + 1,
    ))
}

/// The name filter as a predicate on full paths: a path passes when its base
/// name matches the optional pattern.
pub open spec fn name_pred(pat: Option<Seq<char>>) -> spec_fn(Seq<char>) -> bool {
    |x: Seq<char>| entry_matches(pat, Some(basename(x)))
}

/// The base name of a child path is the child's own name, when that name
/// holds no separator.
proof fn lemma_basename_child(dir: Seq<char>, name: Seq<char>)
    requires
        slash_free(name),
    ensures
        basename(child_path(dir, name)) == name,
    decreases name.len(),
{
    let cp = child_path(dir, name);
    assert(cp.len() == dir.len() + 1 + name.len());
    if name.len() == 0 {
        assert(cp.last() == '/');
        assert(basename(cp) =~= name);
    } else {
        assert(cp.last() == name.last());
        assert(name[name.len() - 1] != '/');
        assert(cp.drop_last() =~= child_path(dir, name.drop_last()));
        assert(slash_free(name.drop_last()));
        lemma_basename_child(dir, name.drop_last());
        assert(basename(cp) == basename(cp.drop_last()).push(name.last()));
        assert(basename(cp) =~= name);
    }
}

/// With a pattern, the walk prints exactly the reachable entries whose base
/// name matches it, each as often as it occurs in the tree: the filter reads
/// only the final path component, never the parent segments.
pub proof fn lemma_walk_prints_filtered(path: Seq<char>, node: Node, pat: Option<Seq<char>>)
    requires
        wf_node(node),
    ensures
        walk_spec(path, node, pat) == reachable(path, node).filter(name_pred(pat)),
    decreases node, 0int,
{
    if node is Dir {
        lemma_children_filtered(path, node->Dir_0@, pat, 0);
    } else {
        assert(walk_spec(path, node, pat) =~= reachable(path, node).filter(name_pred(pat)));
    }
}

proof fn lemma_children_filtered(
    path: Seq<char>,
    cs: Seq<DirEntry>,
    pat: Option<Seq<char>>,
    i: int,
)
    requires
        wf_children(cs, i),
    ensures
        children_walk_spec(path, cs, pat, i) == children_reach(path, cs, i).filter(
            name_pred(pat),
        ),
    decreases cs, cs.len() - i,
{
    if i < 0 || i >= cs.len() {
        assert(children_walk_spec(path, cs, pat, i) =~= children_reach(path, cs, i).filter(
            name_pred(pat),
        ));
    } else {
        let child = child_path(path, cs[i].name@);
        lemma_basename_child(path, cs[i].name@);
        assert(name_pred(pat)(child) == entry_matches(pat, Some(cs[i].name@)));
        lemma_walk_prints_filtered(child, cs[i].node, pat);
        lemma_children_filtered(path, cs, pat, i + 1);
        assert(children_walk_spec(path, cs, pat, i) =~= children_reach(path, cs, i).filter(
            name_pred(pat),
        ));
    }
}

/// `x` lies strictly below the directory at `p`: `p` followed by the
/// separator is a prefix of it.
pub open spec fn lies_below(x: Seq<char>, p: Seq<char>) -> bool {
    &&& x.len() >= p.len() + 1
    &&& x.subrange(0, p.len() as int) == p
    &&& x[p.len() as int] == '/'
}

/// The position of the first separator of `x` at or after `from`, or the
/// length of `x` when there is none.
pub open spec fn first_slash(x: Seq<char>, from: int) -> int
    decreases x.len() - from,
{
    if from < 0 || from >= x.len() {
        x.len() as int
    } else if x[from] == '/' {
        from
    } else {
        first_slash(x, from + 1)
    }
}

/// The name under the directory at `p` through which its descendant `x` is
/// reached: the separator-free run just after `p`'s separator.
pub open spec fn step_name(x: Seq<char>, p: Seq<char>) -> Seq<char> {
    x.subrange(p.len() as int + 1, first_slash(x, p.len() as int + 1))
}

proof fn lemma_first_slash_run(x: Seq<char>, from: int, end: int)
    requires
        0 <= from <= end <= x.len(),
        forall|k: int| from <= k < end ==> x[k] != '/',
        end == x.len() || x[end] == '/',
    ensures
        first_slash(x, from) == end,
    decreases end - from,
{
    if from < end {
        lemma_first_slash_run(x, from + 1, end);
    }
}

/// A child's path lies below its directory, and the name it is reached
/// through is its own.
proof fn lemma_child_step(p: Seq<char>, n: Seq<char>)
    requires
        slash_free(n),
    ensures
        lies_below(child_path(p, n), p),
        step_name(child_path(p, n), p) == n,
{
    let cp = child_path(p, n);
    assert(cp.subrange(0, p.len() as int) =~= p);
    assert(cp[p.len() as int] == '/');
    assert forall|k: int| p.len() + 1 <= k < cp.len() implies cp[k] != '/' by {
        assert(cp[k] == n[k - p.len() - 1]);
    }
    lemma_first_slash_run(cp, p.len() + 1 as int, cp.len() as int);
    assert(step_name(cp, p) =~= n);
}

/// Whatever lies below a child's directory lies below the parent too, and is
/// reached through the child's name.
proof fn lemma_descendant_step(x: Seq<char>, p: Seq<char>, n: Seq<char>)
    requires
        slash_free(n),
        lies_below(x, child_path(p, n)),
    ensures
        lies_below(x, p),
        step_name(x, p) == n,
{
    let cp = child_path(p, n);
    assert forall|k: int| 0 <= k < cp.len() implies x[k] == cp[k] by {
        assert(cp[k] == x.subrange(0, cp.len() as int)[k]);
    }
    assert(x.subrange(0, p.len() as int) =~= p);
    assert(x[p.len() as int] == '/');
    assert forall|k: int| p.len() + 1 <= k < cp.len() implies x[k] != '/' by {
        assert(cp[k] == n[k - p.len() - 1]);
    }
    assert(x[cp.len() as int] == '/');
    lemma_first_slash_run(x, p.len() + 1 as int, cp.len() as int);
    assert(step_name(x, p) =~= n);
}

/// In a well-formed tree, no path is reachable twice, and every reachable
/// path lies below the root directory.
pub proof fn lemma_each_entry_once(p: Seq<char>, node: Node)
    requires
        wf_node(node),
    ensures
        forall|x: Seq<char>| #[trigger] reachable(p, node).count(x) <= 1,
        forall|x: Seq<char>| #[trigger] reachable(p, node).count(x) > 0 ==> lies_below(x, p),
    decreases node, 0int,
{
    if node is Dir {
        lemma_children_once(p, node->Dir_0@, 0);
        assert forall|x: Seq<char>| #[trigger] reachable(p, node).count(x) <= 1 by {
            assert(children_reach(p, node->Dir_0@, 0).count(x) <= 1);
        }
        assert forall|x: Seq<char>| #[trigger] reachable(p, node).count(x) > 0 implies lies_below(
            x,
            p,
        ) by {
            assert(children_reach(p, node->Dir_0@, 0).count(x) > 0);
        }
    }
}

proof fn lemma_children_once(p: Seq<char>, cs: Seq<DirEntry>, i: int)
    requires
        distinct_names(cs),
        wf_children(cs, i),
    ensures
        forall|x: Seq<char>| #[trigger] children_reach(p, cs, i).count(x) <= 1,
        forall|x: Seq<char>| #[trigger] children_reach(p, cs, i).count(x) > 0 ==> lies_below(x, p)
            && exists|j: int| i <= j < cs.len() && step_name(x, p) == #[trigger] cs[j].name@,
    decreases cs, cs.len() - i,
{
    if 0 <= i < cs.len() {
        let n = cs[i].name@;
        let c = child_path(p, n);
        lemma_child_step(p, n);
        lemma_each_entry_once(c, cs[i].node);
        lemma_children_once(p, cs, i + 1);
        assert forall|x: Seq<char>|
            #[trigger] children_reach(p, cs, i).count(x) > 0 implies lies_below(x, p) && exists|
            j: int,
        | i <= j < cs.len() && step_name(x, p) == #[trigger] cs[j].name@ by {
            if reachable(c, cs[i].node).count(x) > 0 {
                lemma_descendant_step(x, p, n);
                assert(i <= i < cs.len() && step_name(x, p) == cs[i].name@);
            } else if children_reach(p, cs, i + 1).count(x) > 0 {
            } else {
                assert(x == c);
                assert(i <= i < cs.len() && step_name(x, p) == cs[i].name@);
            }
        }
        assert forall|x: Seq<char>| #[trigger] children_reach(p, cs, i).count(x) <= 1 by {
            if reachable(c, cs[i].node).count(x) > 0 {
                lemma_descendant_step(x, p, n);
                assert(x.len() > c.len());
                assert(x != c);
                if children_reach(p, cs, i + 1).count(x) > 0 {
                    let j = choose|j: int|
                        i + 1 <= j < cs.len() && step_name(x, p) == #[trigger] cs[j].name@;
                    assert(cs[j].name@ != cs[i].name@);
                    assert(false);
                }
            } else if x == c {
                if children_reach(p, cs, i + 1).count(x) > 0 {
                    let j = choose|j: int|
                        i + 1 <= j < cs.len() && step_name(x, p) == #[trigger] cs[j].name@;
                    assert(cs[j].name@ != cs[i].name@);
                    assert(false);
                }
            }
        }
    }
}

/// In a well-formed tree every entry is printed at most once, whatever the
/// pattern: the printed multiset is in fact a set.
pub proof fn lemma_printed_exactly_once(path: Seq<char>, node: Node, pat: Option<Seq<char>>)
    requires
        wf_node(node),
    ensures
        forall|x: Seq<char>| #[trigger] walk_spec(path, node, pat).count(x) <= 1,
{
    lemma_each_entry_once(path, node);
    lemma_walk_prints_filtered(path, node, pat);
}

/// With no pattern supplied, over a well-formed tree, the printed paths are
/// exactly the reachable entries — files and directories alike — and each is
/// printed exactly once.
pub proof fn lemma_unfiltered_walk_exact(path: Seq<char>, node: Node)
    requires
        wf_node(node),
    ensures
        forall|x: Seq<char>| #[trigger] reachable(path, node).contains(x) ==> walk_spec(
            path,
            node,
            Option::None,
        ).count(x) == 1,
        forall|x: Seq<char>| !reachable(path, node).contains(x) ==> walk_spec(
            path,
            node,
            Option::None,
        ).count(x) == 0,
{
    lemma_unfiltered_walk_prints_all(path, node);
    lemma_each_entry_once(path, node);
}

/// Running the walk twice over an unmodified tree with the same pattern
/// prints the same multiset of paths, whatever order each run emits them in.
pub proof fn lemma_walk_repeatable(
    path: Seq<char>,
    node: Node,
    pat: Option<Seq<char>>,
    first: Seq<Seq<char>>,
    second: Seq<Seq<char>>,
)
    requires
        first.to_multiset() == walk_spec(path, node, pat),
        second.to_multiset() == walk_spec(path, node, pat),
    ensures
        first.to_multiset() == second.to_multiset(),
{
}

} // verus!
