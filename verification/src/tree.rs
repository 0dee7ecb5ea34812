//! An in-memory model of a directory tree, and the depth-first walk over it.
//!
//! A [`Node`] is either a plain file or a directory with a list of named
//! children; the order of the children stands for the order in which a
//! directory listing yields them. [`walk_tree`] performs the same
//! explicit-stack traversal that a caller of [`crate::walker::Walker`] runs
//! against a live filesystem, and its contract pins the multiset of printed
//! paths: exactly the descendants whose base name matches the pattern, each
//! as often as it occurs in the tree.

use vstd::multiset::Multiset;
use vstd::prelude::*;

use crate::pattern::Matcher;
use crate::pattern::entry_matches;
use crate::pattern::matcher_view;
use crate::pattern::should_print;

verus! {

broadcast use
    vstd::seq_lib::group_to_multiset_ensures,
    vstd::multiset::group_multiset_axioms,
    vstd::multiset::group_multiset_properties;

/// One named child of a directory.
pub struct DirEntry {
    pub name: String,
    pub node: Node,
}

/// A node of a directory tree: a plain file, or a directory with its
/// children in listing order.
pub enum Node {
    File,
    Dir(Vec<DirEntry>),
}

/// The path of a child named `name` listed under the directory at `dir`.
pub open spec fn child_path(dir: Seq<char>, name: Seq<char>) -> Seq<char> {
    dir + seq!['/'] + name
}

/// The multiset of paths a walk rooted at `path` over `node` prints under
/// the optional pattern `pat`: every descendant entry whose base name
/// matches, once per occurrence. The root itself is never printed.
pub open spec fn walk_spec(path: Seq<char>, node: Node, pat: Option<Seq<char>>) -> Multiset<
    Seq<char>,
>
    decreases node, 0int,
{
    if node is File {
        Multiset::empty()
    } else {
        children_walk_spec(path, node->Dir_0@, pat, 0)
    }
}

/// The part of a directory's walk contributed by its children from index `i`
/// on: for each child, its own path when its name matches, together with the
/// walk of its subtree.
pub open spec fn children_walk_spec(
    path: Seq<char>,
    cs: Seq<DirEntry>,
    pat: Option<Seq<char>>,
    i: int,
) -> Multiset<Seq<char>>
    decreases cs, cs.len() - i,
{
    if i < 0 || i >= cs.len() {
        Multiset::empty()
    } else {
        let child = child_path(path, cs[i].name@);
        let here: Multiset<Seq<char>> = if entry_matches(pat, Some(cs[i].name@)) {
            Multiset::singleton(child)
        } else {
            Multiset::empty()
        };
        here.add(walk_spec(child, cs[i].node, pat)).add(children_walk_spec(path, cs, pat, i + 1))
    }
}

/// The pending work held by a traversal stack: the walks of all frames.
pub open spec fn stack_walk(s: Seq<(Seq<char>, Node)>, pat: Option<Seq<char>>) -> Multiset<
    Seq<char>,
>
    decreases s.len(),
{
    if s.len() == 0 {
        Multiset::empty()
    } else {
        walk_spec(s.last().0, s.last().1, pat).add(stack_walk(s.drop_last(), pat))
    }
}

/// The number of entries of a subtree, the root included; at least one, so a
/// traversal that replaces a popped directory by its children strictly
/// shrinks the pending work.
pub open spec fn node_size(node: Node) -> nat
    decreases node, 0int,
{
    if node is File {
        1
    } else {
        1 + children_size(node->Dir_0@, 0)
    }
}

/// The total size of the subtrees of the children from index `i` on.
pub open spec fn children_size(cs: Seq<DirEntry>, i: int) -> nat
    decreases cs, cs.len() - i,
{
    if i < 0 || i >= cs.len() {
        0
    } else {
        node_size(cs[i].node) + children_size(cs, i + 1)
    }
}

/// The total size of the subtrees pending on a traversal stack.
pub open spec fn stack_size(s: Seq<(Seq<char>, Node)>) -> nat
    decreases s.len(),
{
    if s.len() == 0 {
        0
    } else {
        node_size(s.last().1) + stack_size(s.drop_last())
    }
}

/// The view of a traversal stack of paths and borrowed nodes.
pub open spec fn frames(s: Seq<(String, &Node)>) -> Seq<(Seq<char>, Node)> {
    s.map_values(|f: (String, &Node)| (f.0@, *f.1))
}

/// Relies on std's `format!` macro: formatting two strings with `"{}/{}"`
/// concatenates them around one separator character.
#[verifier::external_body]
fn join_path(dir: &str, name: &str) -> (r: String)
    ensures
        r@ == child_path(dir@, name@),
{
    format!("{}/{}", dir, name)
}

/// Walk the tree `tree` rooted at the path `root`, filtering base names by
/// the optional `pattern`, and return the printed paths in traversal order.
/// As a multiset the result is exactly `walk_spec`: every reachable entry
/// whose base name matches the pattern, and no other path.
pub fn walk_tree(root: String, tree: &Node, pattern: &Option<Matcher>) -> (out: Vec<String>)
    ensures
        out@.map_values(|s: String| s@).to_multiset() == walk_spec(
            root@,
            *tree,
            matcher_view(*pattern),
        ),
{
    let ghost pat = matcher_view(*pattern);
    let ghost total = walk_spec(root@, *tree, pat);
    let ghost rootv = root@;
    let mut out: Vec<String> = Vec::new();
    let mut stack: Vec<(String, &Node)> = Vec::new();
    stack.push((root, tree));
    proof {
        assert(frames(stack@) =~= seq![(rootv, *tree)]);
        assert(frames(stack@).drop_last() =~= Seq::<(Seq<char>, Node)>::empty());
        assert(frames(stack@).last() == (rootv, *tree));
        assert(stack_walk(frames(stack@).drop_last(), pat) == Multiset::<Seq<char>>::empty());
        assert(stack_walk(frames(stack@), pat) == walk_spec(rootv, *tree, pat).add(
            Multiset::<Seq<char>>::empty(),
        ));
        assert(out@.map_values(|s: String| s@) =~= Seq::<Seq<char>>::empty());
        assert(Seq::<Seq<char>>::empty().to_multiset() =~= Multiset::<Seq<char>>::empty());
        assert(out@.map_values(|s: String| s@).to_multiset().add(stack_walk(frames(stack@), pat))
            =~= total);
    }
    while stack.len() > 0
        invariant
            pat == matcher_view(*pattern),
            out@.map_values(|s: String| s@).to_multiset().add(stack_walk(frames(stack@), pat))
                == total,
        decreases stack_size(frames(stack@)),
    {
        let ghost s_start = stack_size(frames(stack@));
        let ghost pre = frames(stack@);
        let frame = stack.pop().unwrap();
        let (path, node) = frame;
        proof {
            assert(frames(stack@) =~= pre.drop_last());
            assert(pre.last() == (path@, *node));
            assert(s_start == node_size(*node) + stack_size(frames(stack@)));
        }
        let ghost s_popped = stack_size(frames(stack@));
        match node {
            Node::File => {
                proof {
                    assert(out@.map_values(|s: String| s@).to_multiset().add(
                        stack_walk(frames(stack@), pat),
                    ) =~= total);
                }
            },
            Node::Dir(children) => {
                let ghost cs = children@;
                proof {
                    assert(walk_spec(path@, *node, pat) == children_walk_spec(path@, cs, pat, 0));
                }
                let mut i: usize = 0;
                while i < children.len()
                    invariant
                        i <= children.len(),
                        cs == children@,
                        pat == matcher_view(*pattern),
                        out@.map_values(|s: String| s@).to_multiset().add(
                            stack_walk(frames(stack@), pat),
                        ).add(children_walk_spec(path@, cs, pat, i as int)) == total,
                        stack_size(frames(stack@)) + children_size(cs, i as int) <= s_popped
                            + children_size(cs, 0),
                    decreases children.len() - i,
                {
                    let ghost ii = i as int;
                    let entry = &children[i];
                    let print = should_print(pattern, Some(entry.name.as_str()));
                    let cp = join_path(path.as_str(), entry.name.as_str());
                    let ghost cpv = cp@;
                    let child_is_dir = match &entry.node {
                        Node::Dir(_) => true,
                        Node::File => false,
                    };
                    proof {
                        assert(cpv == child_path(path@, cs[ii].name@));
                        assert(children_walk_spec(path@, cs, pat, ii) == (
                        if entry_matches(pat, Some(cs[ii].name@)) {
                            Multiset::singleton(cpv)
                        } else {
                            Multiset::empty()
                        }).add(walk_spec(cpv, cs[ii].node, pat)).add(
                            children_walk_spec(path@, cs, pat, ii + 1),
                        ));
                        assert(children_size(cs, ii) == node_size(cs[ii].node) + children_size(
                            cs,
                            ii + 1,
                        ));
                        if !child_is_dir {
                            assert(walk_spec(cpv, cs[ii].node, pat) == Multiset::<
                                Seq<char>,
                            >::empty());
                        }
                    }
                    if print {
                        let ghost before = out@.map_values(|s: String| s@);
                        out.push(cp.clone());
                        proof {
                            assert(out@.map_values(|s: String| s@) =~= before.push(cpv));
                        }
                    }
                    if child_is_dir {
                        let ghost fb = frames(stack@);
                        stack.push((cp, &entry.node));
                        proof {
                            assert(frames(stack@) =~= fb.push((cpv, cs[ii].node)));
                            assert(frames(stack@).drop_last() =~= fb);
                            assert(stack_walk(frames(stack@), pat) == walk_spec(
                                cpv,
                                cs[ii].node,
                                pat,
                            ).add(stack_walk(fb, pat)));
                            assert(stack_size(frames(stack@)) == node_size(cs[ii].node)
                                + stack_size(fb));
                        }
                    }
                    proof {
                        assert(out@.map_values(|s: String| s@).to_multiset().add(
                            stack_walk(frames(stack@), pat),
                        ).add(children_walk_spec(path@, cs, pat, ii + 1)) =~= total);
                    }
                    i = i + 1;
                }
                proof {
                    assert(children_walk_spec(path@, cs, pat, children@.len() as int)
                        == Multiset::<Seq<char>>::empty());
                    assert(out@.map_values(|s: String| s@).to_multiset().add(
                        stack_walk(frames(stack@), pat),
                    ) =~= total);
                    assert(children_size(cs, children@.len() as int) == 0);
                    assert(node_size(*node) == 1 + children_size(cs, 0));
                    assert(stack_size(frames(stack@)) < s_start);
                }
            },
        }
    }
    proof {
        assert(frames(stack@).len() == 0);
        assert(out@.map_values(|s: String| s@).to_multiset() =~= total);
    }
    out
}

} // verus!
