//! Cycles of parent links. The walks over the graph go at most as many
//! levels up or down as there are links; this module shows that they run
//! out of depth exactly where the links run in a circle.

use vstd::prelude::*;
use crate::graph::{children_in, lemma_children_push, parent_in};
use crate::land::walk_up;
use crate::links::{Link, Name};
use crate::restack::{restack_steps, steps_below};
use crate::tree::{root_in, rows_below, tree_rows};

verus! {

/// Among `n + 1` values below `n`, two are equal.
pub proof fn lemma_two_share_a_value(values: Seq<int>, n: nat)
    requires
        values.len() == n + 1,
        forall|k: int| 0 <= k <= n ==> 0 <= #[trigger] values[k] < n,
    ensures
        exists|i: int, j: int| 0 <= i < j <= n && #[trigger] values[i] == #[trigger] values[j],
    decreases n,
{
    if n == 0 {
        let only = values[0];
        assert(0 <= only < n);
    } else {
        let v = values[n as int];
        if exists|i: int| 0 <= i < n && #[trigger] values[i] == v {
            let i = choose|i: int| 0 <= i < n && #[trigger] values[i] == v;
            assert(0 <= i < n <= n && values[i] == values[n as int]);
        } else {
            let fewer = Seq::new(
                n,
                |k: int|
                    if values[k] == n - 1 {
                        v
                    } else {
                        values[k]
                    },
            );
            assert forall|k: int| 0 <= k <= n - 1 implies 0 <= #[trigger] fewer[k] < n - 1 by {
                assert(0 <= values[k] < n);
                assert(values[k] != v);
            }
            lemma_two_share_a_value(fewer, (n - 1) as nat);
            let (i, j) = choose|i: int, j: int|
                0 <= i < j <= n - 1 && #[trigger] fewer[i] == #[trigger] fewer[j];
            assert(values[i] != v && values[j] != v);
            assert(0 <= i < j <= n && values[i] == values[j]);
        }
    }
}

/// The ancestor of `branch` that is `k` parent links up, if the links lead
/// that far.
pub open spec fn nth_ancestor(links: Seq<Link>, branch: Name, k: nat) -> Option<Name>
    decreases k,
{
    if k == 0 {
        Some(branch)
    } else {
        match parent_in(links, branch) {
            None => None,
            Some(parent) => nth_ancestor(links, parent, (k - 1) as nat),
        }
    }
}

/// A branch with a recorded parent is the child of some link.
pub proof fn lemma_parent_has_link(links: Seq<Link>, branch: Name)
    requires
        parent_in(links, branch) is Some,
    ensures
        exists|l: int| 0 <= l < links.len() && #[trigger] links[l].child == branch,
    decreases links.len(),
{
    if links.last().child == branch {
        assert(links[links.len() - 1].child == branch);
    } else {
        lemma_parent_has_link(links.drop_last(), branch);
        let l = choose|l: int|
            0 <= l < links.drop_last().len() && #[trigger] links.drop_last()[l].child == branch;
        assert(links[l].child == branch);
    }
}

/// Where the links lead `k + 1` levels up, they lead `k` levels up, and the
/// ancestor there has the next one as its parent.
pub proof fn lemma_ancestor_step(links: Seq<Link>, branch: Name, k: nat)
    requires
        nth_ancestor(links, branch, k + 1) is Some,
    ensures
        nth_ancestor(links, branch, k) is Some,
        parent_in(links, nth_ancestor(links, branch, k)->0) == nth_ancestor(links, branch, k + 1),
    decreases k,
{
    if k > 0 {
        lemma_ancestor_step(links, parent_in(links, branch)->0, (k - 1) as nat);
    } else {
        assert(nth_ancestor(links, parent_in(links, branch)->0, 0) == parent_in(links, branch));
    }
}

/// Where the links lead `m` levels up, they lead every smaller number of
/// levels up.
pub proof fn lemma_ancestors_below(links: Seq<Link>, branch: Name, m: nat, k: nat)
    requires
        nth_ancestor(links, branch, m) is Some,
        k <= m,
    ensures
        nth_ancestor(links, branch, k) is Some,
    decreases m - k,
{
    if k < m {
        lemma_ancestors_below(links, branch, m, k + 1);
        lemma_ancestor_step(links, branch, k);
    }
}

/// Whether the parent links bring some ancestor of `branch`, or `branch`
/// itself, back to itself.
pub open spec fn cycle_above(links: Seq<Link>, branch: Name) -> bool {
    exists|i: nat, j: nat|
        i < j && (#[trigger] nth_ancestor(links, branch, i)) is Some && nth_ancestor(
            links,
            branch,
            i,
        ) == #[trigger] nth_ancestor(links, branch, j)
}

/// Links that lead more levels up from `branch` than there are links bring
/// a branch back to itself: the ancestors `at.0` and `at.1` levels up are
/// the same.
pub proof fn lemma_long_way_up_is_a_cycle(links: Seq<Link>, branch: Name) -> (at: (nat, nat))
    requires
        nth_ancestor(links, branch, links.len() + 1) is Some,
    ensures
        at.0 < at.1 <= links.len(),
        nth_ancestor(links, branch, at.0) is Some,
        nth_ancestor(links, branch, at.0) == nth_ancestor(links, branch, at.1),
        cycle_above(links, branch),
{
    let n = links.len();
    let used = Seq::new(
        n + 1,
        |k: int|
            choose|l: int|
                0 <= l < links.len() && #[trigger] links[l].child == nth_ancestor(
                    links,
                    branch,
                    k as nat,
                )->0,
    );
    assert forall|k: int| 0 <= k <= n implies 0 <= #[trigger] used[k] < n && links[used[k]].child
        == nth_ancestor(links, branch, k as nat)->0 && nth_ancestor(links, branch, k as nat)
        is Some by {
        lemma_ancestors_below(links, branch, n + 1, (k + 1) as nat);
        lemma_ancestor_step(links, branch, k as nat);
        lemma_parent_has_link(links, nth_ancestor(links, branch, k as nat)->0);
    }
    lemma_two_share_a_value(used, n);
    let (i, j) = choose|i: int, j: int|
        0 <= i < j <= n && #[trigger] used[i] == #[trigger] used[j];
    assert(links[used[i]].child == nth_ancestor(links, branch, i as nat)->0);
    assert(links[used[j]].child == nth_ancestor(links, branch, j as nat)->0);
    let (a, b) = (i as nat, j as nat);
    assert(a < b && nth_ancestor(links, branch, a) is Some && nth_ancestor(links, branch, a)
        == nth_ancestor(links, branch, b));
    (a, b)
}

/// A search for the root that runs out of depth has gone one level further
/// up than the depth.
pub proof fn lemma_root_walk_depth(links: Seq<Link>, branch: Name, depth: nat)
    requires
        root_in(links, branch, depth) is None,
    ensures
        nth_ancestor(links, branch, depth + 1) is Some,
    decreases depth,
{
    let parent = parent_in(links, branch)->0;
    if depth > 0 {
        lemma_root_walk_depth(links, parent, (depth - 1) as nat);
    } else {
        assert(nth_ancestor(links, parent, 0) is Some);
    }
}

/// A land walk that runs out of depth has gone one level further up than
/// the depth.
pub proof fn lemma_land_walk_depth(
    links: Seq<Link>,
    branch: Name,
    trunk: Name,
    branches: Seq<Name>,
    merged: Seq<Name>,
    depth: nat,
)
    requires
        walk_up(links, branch, trunk, branches, merged, depth) is None,
    ensures
        nth_ancestor(links, branch, depth + 1) is Some,
    decreases depth,
{
    let parent = parent_in(links, branch)->0;
    if depth > 0 {
        lemma_land_walk_depth(links, parent, trunk, branches, merged, (depth - 1) as nat);
    } else {
        assert(nth_ancestor(links, parent, 0) is Some);
    }
}

/// The search for the root of a stack fails only where the parent links
/// above the branch run in a circle: some ancestor is its own ancestor.
pub proof fn lemma_root_fails_only_on_cycle(links: Seq<Link>, branch: Name)
    requires
        root_in(links, branch, links.len()) is None,
    ensures
        cycle_above(links, branch),
{
    lemma_root_walk_depth(links, branch, links.len());
    lemma_long_way_up_is_a_cycle(links, branch);
}

/// Whether each branch of `path` but the first is a child of the one before
/// it.
pub open spec fn is_descent(links: Seq<Link>, path: Seq<Name>) -> bool {
    forall|k: int|
        0 <= k < path.len() - 1 ==> (#[trigger] children_in(links, path[k])).contains(path[k + 1])
}

/// Whether some way down from `start`, from parent to child, passes a
/// branch twice.
pub open spec fn cycle_below(links: Seq<Link>, start: Name) -> bool {
    exists|path: Seq<Name>, i: int, j: int|
        #![trigger path[i], path[j]]
        path.len() > 0 && path[0] == start && is_descent(links, path) && 0 <= i < j < path.len()
            && path[i] == path[j]
}

/// A child of `parent` is the child of a link whose parent is `parent`.
pub proof fn lemma_child_has_link(links: Seq<Link>, parent: Name, child: Name)
    requires
        children_in(links, parent).contains(child),
    ensures
        exists|l: int|
            0 <= l < links.len() && #[trigger] links[l] == (Link { child: child, parent: parent }),
    decreases links.len(),
{
    if links.len() == 0 {
        assert(children_in(links, parent).len() == 0) by {
            reveal(Seq::filter);
        }
    } else {
        let front = links.drop_last();
        assert(links =~= front.push(links.last()));
        lemma_children_push(front, links.last(), parent);
        let at = choose|at: int|
            0 <= at < children_in(links, parent).len() && children_in(links, parent)[at] == child;
        if links.last().parent == parent && at == children_in(front, parent).len() {
            assert(links[links.len() - 1] == (Link { child: child, parent: parent }));
        } else {
            assert(children_in(front, parent)[at] == child);
            lemma_child_has_link(front, parent, child);
            let l = choose|l: int|
                0 <= l < front.len() && #[trigger] front[l] == (Link {
                    child: child,
                    parent: parent,
                });
            assert(links[l] == (Link { child: child, parent: parent }));
        }
    }
}

/// A descent that runs out of depth has followed a way down of one level
/// more than the depth.
pub proof fn lemma_descent_depth(links: Seq<Link>, children: Seq<Name>, onto: Name, depth: nat)
    requires
        steps_below(links, children, onto, depth) is None,
        forall|k: int|
            0 <= k < children.len() ==> children_in(links, onto).contains(#[trigger] children[k]),
    ensures
        exists|path: Seq<Name>| #[trigger]
            is_descent(links, path) && path.len() == depth + 2 && path[0] == onto,
    decreases depth, children.len(),
{
    let first = children[0];
    if depth == 0 {
        let path = seq![onto, first];
        assert(children_in(links, path[0]).contains(path[1]));
        assert(is_descent(links, path) && path.len() == depth + 2 && path[0] == onto);
    } else if steps_below(links, children_in(links, first), first, (depth - 1) as nat) is None {
        let below = children_in(links, first);
        assert forall|k: int| 0 <= k < below.len() implies children_in(links, first).contains(
            #[trigger] below[k],
        ) by {}
        lemma_descent_depth(links, below, first, (depth - 1) as nat);
        let rest = choose|path: Seq<Name>| #[trigger]
            is_descent(links, path) && path.len() == depth + 1 && path[0] == first;
        let path = seq![onto] + rest;
        assert forall|k: int| 0 <= k < path.len() - 1 implies (#[trigger] children_in(
            links,
            path[k],
        )).contains(path[k + 1]) by {
            if k > 0 {
                assert(path[k] == rest[k - 1] && path[k + 1] == rest[k]);
                assert(children_in(links, rest[k - 1]).contains(rest[k - 1 + 1]));
            } else {
                assert(path[1] == children[0]);
            }
        }
        assert(is_descent(links, path) && path.len() == depth + 2 && path[0] == onto);
    } else {
        let others = children.drop_first();
        assert forall|k: int| 0 <= k < others.len() implies children_in(links, onto).contains(
            #[trigger] others[k],
        ) by {
            assert(others[k] == children[k + 1]);
        }
        lemma_descent_depth(links, others, onto, depth);
    }
}

/// A way down that is longer than the number of links passes a branch
/// twice.
pub proof fn lemma_long_way_down_is_a_cycle(links: Seq<Link>, path: Seq<Name>)
    requires
        is_descent(links, path),
        path.len() == links.len() + 2,
    ensures
        cycle_below(links, path[0]),
{
    let n = links.len();
    let used = Seq::new(
        n + 1,
        |k: int|
            choose|l: int|
                0 <= l < links.len() && #[trigger] links[l] == (Link {
                    child: path[k + 1],
                    parent: path[k],
                }),
    );
    assert forall|k: int| 0 <= k <= n implies 0 <= #[trigger] used[k] < n && links[used[k]] == (
    Link { child: path[k + 1], parent: path[k] }) by {
        assert(children_in(links, path[k]).contains(path[k + 1]));
        lemma_child_has_link(links, path[k], path[k + 1]);
    }
    lemma_two_share_a_value(used, n);
    let (i, j) = choose|i: int, j: int|
        0 <= i < j <= n && #[trigger] used[i] == #[trigger] used[j];
    assert(links[used[i]].parent == path[i]);
    assert(links[used[j]].parent == path[j]);
    assert(path.len() > 0 && path[0] == path[0] && is_descent(links, path) && 0 <= i < j
        < path.len() && path[i] == path[j]);
}

/// Restacking fails only where the links below the start run in a circle.
pub proof fn lemma_restack_fails_only_on_cycle(links: Seq<Link>, start: Name)
    requires
        restack_steps(links, start) is None,
    ensures
        cycle_below(links, start),
{
    let children = children_in(links, start);
    assert forall|k: int| 0 <= k < children.len() implies children_in(links, start).contains(
        #[trigger] children[k],
    ) by {}
    lemma_descent_depth(links, children, start, links.len());
    let path = choose|path: Seq<Name>| #[trigger]
        is_descent(links, path) && path.len() == links.len() + 2 && path[0] == start;
    lemma_long_way_down_is_a_cycle(links, path);
}

/// Where the rows below some siblings cannot be laid out, their rebase
/// steps cannot be either: both descend through the same links.
pub proof fn lemma_rows_fail_with_steps(
    links: Seq<Link>,
    children: Seq<Name>,
    guides: Seq<bool>,
    more: bool,
    current: Name,
    onto: Name,
    depth: nat,
)
    requires
        rows_below(links, children, guides, more, current, depth) is None,
    ensures
        steps_below(links, children, onto, depth) is None,
    decreases depth, children.len(),
{
    if depth > 0 {
        let first = children[0];
        let inner = guides.push(!(children.len() == 1 && !more));
        if rows_below(links, children_in(links, first), inner, false, current, (depth - 1) as nat)
            is None {
            lemma_rows_fail_with_steps(
                links,
                children_in(links, first),
                inner,
                false,
                current,
                first,
                (depth - 1) as nat,
            );
        } else {
            lemma_rows_fail_with_steps(
                links,
                children.drop_first(),
                guides,
                more,
                current,
                onto,
                depth,
            );
        }
    }
}

/// Where the rebase steps below some siblings cannot be laid out, their
/// rows cannot be either.
pub proof fn lemma_steps_fail_with_rows(
    links: Seq<Link>,
    children: Seq<Name>,
    guides: Seq<bool>,
    more: bool,
    current: Name,
    onto: Name,
    depth: nat,
)
    requires
        steps_below(links, children, onto, depth) is None,
    ensures
        rows_below(links, children, guides, more, current, depth) is None,
    decreases depth, children.len(),
{
    if depth > 0 {
        let first = children[0];
        let inner = guides.push(!(children.len() == 1 && !more));
        if steps_below(links, children_in(links, first), first, (depth - 1) as nat) is None {
            lemma_steps_fail_with_rows(
                links,
                children_in(links, first),
                inner,
                false,
                current,
                first,
                (depth - 1) as nat,
            );
        } else {
            lemma_steps_fail_with_rows(
                links,
                children.drop_first(),
                guides,
                more,
                current,
                onto,
                depth,
            );
        }
    }
}

/// Whether the links of the stack that `current` belongs to run in a
/// circle: above `current`, or below the root of its stack.
pub open spec fn cycle_in_stack(links: Seq<Link>, current: Name) -> bool {
    cycle_above(links, current) || match root_in(links, current, links.len()) {
        None => false,
        Some(root) => cycle_below(links, root),
    }
}

/// Going `x + y` levels up is going `x` levels up and `y` more from there.
pub proof fn lemma_ancestor_sum(links: Seq<Link>, branch: Name, x: nat, y: nat)
    ensures
        nth_ancestor(links, branch, x + y) == match nth_ancestor(links, branch, x) {
            Some(middle) => nth_ancestor(links, middle, y),
            None => None,
        },
    decreases x,
{
    if x > 0 {
        match parent_in(links, branch) {
            Some(parent) => {
                lemma_ancestor_sum(links, parent, (x - 1) as nat, y);
                assert(nth_ancestor(links, branch, x + y) == nth_ancestor(
                    links,
                    parent,
                    (x + y - 1) as nat,
                ));
            },
            None => {},
        }
    }
}

/// Where an ancestor `i` levels up comes back `j` levels up, the links
/// lead any number of levels up.
pub proof fn lemma_cycle_leads_up_forever(
    links: Seq<Link>,
    branch: Name,
    i: nat,
    j: nat,
    m: nat,
)
    requires
        i < j,
        nth_ancestor(links, branch, i) is Some,
        nth_ancestor(links, branch, i) == nth_ancestor(links, branch, j),
    ensures
        nth_ancestor(links, branch, m) is Some,
    decreases m,
{
    if m <= j {
        lemma_ancestors_below(links, branch, j, m);
    } else {
        let back = (m - j) as nat;
        lemma_ancestor_sum(links, branch, j, back);
        lemma_ancestor_sum(links, branch, i, back);
        lemma_cycle_leads_up_forever(links, branch, i, j, i + back);
    }
}

/// A search for the root that succeeds has come to the end of the links
/// within its depth.
pub proof fn lemma_root_walk_ends(links: Seq<Link>, branch: Name, depth: nat)
    requires
        root_in(links, branch, depth) is Some,
    ensures
        nth_ancestor(links, branch, depth + 1) is None,
    decreases depth,
{
    match parent_in(links, branch) {
        Some(parent) => {
            lemma_root_walk_ends(links, parent, (depth - 1) as nat);
        },
        None => {},
    }
}

/// The search for the root of a stack fails wherever the parent links above
/// the branch run in a circle.
pub proof fn lemma_root_fails_on_cycle(links: Seq<Link>, branch: Name)
    requires
        cycle_above(links, branch),
    ensures
        root_in(links, branch, links.len()) is None,
{
    let (i, j) = choose|i: nat, j: nat|
        i < j && (#[trigger] nth_ancestor(links, branch, i)) is Some && nth_ancestor(
            links,
            branch,
            i,
        ) == #[trigger] nth_ancestor(links, branch, j);
    lemma_cycle_leads_up_forever(links, branch, i, j, links.len() + 1);
    if root_in(links, branch, links.len()) is Some {
        lemma_root_walk_ends(links, branch, links.len());
    }
}

/// A descent cannot be completed within `depth` levels where some way down
/// through one of the `children` is `depth + 1` levels long.
pub proof fn lemma_descent_too_deep(
    links: Seq<Link>,
    children: Seq<Name>,
    onto: Name,
    depth: nat,
    path: Seq<Name>,
)
    requires
        is_descent(links, path),
        path.len() == depth + 2,
        children.contains(path[1]),
    ensures
        steps_below(links, children, onto, depth) is None,
    decreases depth, children.len(),
{
    if depth > 0 {
        let first = children[0];
        if first == path[1] {
            let rest = path.skip(1);
            assert forall|k: int| 0 <= k < rest.len() - 1 implies (#[trigger] children_in(
                links,
                rest[k],
            )).contains(rest[k + 1]) by {
                assert(children_in(links, path[k + 1]).contains(path[k + 1 + 1]));
            }
            assert(children_in(links, path[1]).contains(path[2]));
            lemma_descent_too_deep(
                links,
                children_in(links, first),
                first,
                (depth - 1) as nat,
                rest,
            );
        } else {
            let at = choose|at: int| 0 <= at < children.len() && children[at] == path[1];
            assert(children.drop_first()[at - 1] == path[1]);
            lemma_descent_too_deep(links, children.drop_first(), onto, depth, path);
        }
    }
}

/// A way down that passes a branch twice can be made as long as wanted.
pub proof fn lemma_cycle_leads_down_forever(
    links: Seq<Link>,
    path: Seq<Name>,
    i: int,
    j: int,
    length: nat,
) -> (longer: Seq<Name>)
    requires
        is_descent(links, path),
        0 <= i < j < path.len(),
        path[i] == path[j],
    ensures
        is_descent(links, longer),
        longer.len() >= length,
        longer.len() >= 2,
        longer[0] == path[0],
    decreases
        (if length > path.len() {
            length - path.len()
        } else {
            0
        }),
{
    if path.len() >= length {
        path
    } else {
        let pumped = path.take(j) + path.skip(i);
        assert(pumped.len() == path.len() + (j - i));
        assert forall|k: int| 0 <= k < pumped.len() - 1 implies (#[trigger] children_in(
            links,
            pumped[k],
        )).contains(pumped[k + 1]) by {
            if k + 1 < j {
                assert(pumped[k] == path[k] && pumped[k + 1] == path[k + 1]);
                assert(children_in(links, path[k]).contains(path[k + 1]));
            } else if k + 1 == j {
                assert(pumped[k] == path[j - 1] && pumped[k + 1] == path[i]);
                assert(children_in(links, path[j - 1]).contains(path[j - 1 + 1]));
            } else {
                let at = k - j + i;
                assert(pumped[k] == path[at] && pumped[k + 1] == path[at + 1]);
                assert(children_in(links, path[at]).contains(path[at + 1]));
            }
        }
        assert(pumped[i] == path[i] && pumped[j] == path[i]);
        lemma_cycle_leads_down_forever(links, pumped, i, j, length)
    }
}

/// Restacking fails wherever the links below the start run in a circle.
pub proof fn lemma_restack_fails_on_cycle(links: Seq<Link>, start: Name)
    requires
        cycle_below(links, start),
    ensures
        restack_steps(links, start) is None,
{
    let (path, i, j) = choose|path: Seq<Name>, i: int, j: int|
        #![trigger path[i], path[j]]
        path.len() > 0 && path[0] == start && is_descent(links, path) && 0 <= i < j < path.len()
            && path[i] == path[j];
    let long = lemma_cycle_leads_down_forever(links, path, i, j, links.len() + 2);
    let cut = long.take(links.len() as int + 2);
    assert forall|k: int| 0 <= k < cut.len() - 1 implies (#[trigger] children_in(
        links,
        cut[k],
    )).contains(cut[k + 1]) by {
        assert(children_in(links, long[k]).contains(long[k + 1]));
    }
    assert(children_in(links, cut[0]).contains(cut[1]));
    lemma_descent_too_deep(links, children_in(links, start), start, links.len(), cut);
}

/// The search for the root of a stack fails exactly where the parent links
/// above the branch run in a circle.
pub proof fn lemma_root_fails_exactly_on_cycle(links: Seq<Link>, branch: Name)
    ensures
        root_in(links, branch, links.len()) is None <==> cycle_above(links, branch),
{
    if root_in(links, branch, links.len()) is None {
        lemma_root_fails_only_on_cycle(links, branch);
    }
    if cycle_above(links, branch) {
        lemma_root_fails_on_cycle(links, branch);
    }
}

/// Restacking fails exactly where the links below the start run in a
/// circle.
pub proof fn lemma_restack_fails_exactly_on_cycle(links: Seq<Link>, start: Name)
    ensures
        restack_steps(links, start) is None <==> cycle_below(links, start),
{
    if restack_steps(links, start) is None {
        lemma_restack_fails_only_on_cycle(links, start);
    }
    if cycle_below(links, start) {
        lemma_restack_fails_on_cycle(links, start);
    }
}

/// Rendering fails exactly where the links of the stack run in a circle.
pub proof fn lemma_render_fails_exactly_on_cycle(links: Seq<Link>, current: Name)
    ensures
        tree_rows(links, current) is None <==> cycle_in_stack(links, current),
{
    lemma_root_fails_exactly_on_cycle(links, current);
    match root_in(links, current, links.len()) {
        None => {},
        Some(root) => {
            let children = children_in(links, root);
            let empty = Seq::<bool>::empty();
            lemma_restack_fails_exactly_on_cycle(links, root);
            if rows_below(links, children, empty, false, current, links.len()) is None {
                lemma_rows_fail_with_steps(
                    links,
                    children,
                    empty,
                    false,
                    current,
                    root,
                    links.len(),
                );
            }
            if steps_below(links, children, root, links.len()) is None {
                lemma_steps_fail_with_rows(
                    links,
                    children,
                    empty,
                    false,
                    current,
                    root,
                    links.len(),
                );
            }
        },
    }
}

/// Whether the trunk is among the ancestors of `branch`.
pub open spec fn trunk_above(links: Seq<Link>, branch: Name, trunk: Name) -> bool {
    exists|k: nat| k >= 1 && #[trigger] nth_ancestor(links, branch, k) == Some(trunk)
}

/// A land walk that comes to an end has run out of links or met the trunk
/// within one level more than its depth.
pub proof fn lemma_land_walk_ends(
    links: Seq<Link>,
    branch: Name,
    trunk: Name,
    branches: Seq<Name>,
    merged: Seq<Name>,
    depth: nat,
)
    requires
        walk_up(links, branch, trunk, branches, merged, depth) is Some,
    ensures
        nth_ancestor(links, branch, depth + 1) is None || trunk_above(links, branch, trunk),
    decreases depth,
{
    match parent_in(links, branch) {
        None => {},
        Some(parent) => {
            if parent == trunk {
                assert(nth_ancestor(links, parent, 0) == Some(trunk));
                assert(nth_ancestor(links, branch, 1) == Some(trunk));
            } else {
                lemma_land_walk_ends(links, parent, trunk, branches, merged, (depth - 1) as nat);
                if trunk_above(links, parent, trunk) {
                    let k = choose|k: nat|
                        k >= 1 && #[trigger] nth_ancestor(links, parent, k) == Some(trunk);
                    assert(nth_ancestor(links, branch, k + 1) == Some(trunk));
                }
            }
        },
    }
}

/// A land walk that runs out of depth has not met the trunk on its way.
pub proof fn lemma_land_walk_misses_trunk(
    links: Seq<Link>,
    branch: Name,
    trunk: Name,
    branches: Seq<Name>,
    merged: Seq<Name>,
    depth: nat,
    k: nat,
)
    requires
        walk_up(links, branch, trunk, branches, merged, depth) is None,
        1 <= k <= depth + 1,
    ensures
        nth_ancestor(links, branch, k) != Some(trunk),
    decreases depth,
{
    let parent = parent_in(links, branch)->0;
    if k == 1 {
        assert(nth_ancestor(links, parent, 0) == Some(parent));
    } else {
        lemma_land_walk_misses_trunk(
            links,
            parent,
            trunk,
            branches,
            merged,
            (depth - 1) as nat,
            (k - 1) as nat,
        );
    }
}

/// Where the ancestors `i` and `j` levels up are the same and the trunk is
/// none of the ancestors up to `bound` levels up, it is no ancestor at all.
pub proof fn lemma_trunk_not_beyond(
    links: Seq<Link>,
    branch: Name,
    trunk: Name,
    i: nat,
    j: nat,
    bound: nat,
    k: nat,
)
    requires
        i < j <= bound,
        nth_ancestor(links, branch, i) is Some,
        nth_ancestor(links, branch, i) == nth_ancestor(links, branch, j),
        forall|m: nat| 1 <= m <= bound ==> #[trigger] nth_ancestor(links, branch, m) != Some(trunk),
        k >= 1,
    ensures
        nth_ancestor(links, branch, k) != Some(trunk),
    decreases k,
{
    if k > bound {
        let back = (k - j) as nat;
        lemma_ancestor_sum(links, branch, j, back);
        lemma_ancestor_sum(links, branch, i, back);
        lemma_trunk_not_beyond(links, branch, trunk, i, j, bound, i + back);
    }
}

/// Land planning fails exactly where the parent links above the current
/// branch run in a circle that the trunk is not part of.
pub proof fn lemma_plan_fails_exactly_on_cycle(
    links: Seq<Link>,
    current: Name,
    trunk: Name,
    branches: Seq<Name>,
    merged: Seq<Name>,
)
    ensures
        walk_up(links, current, trunk, branches, merged, links.len()) is None <==> cycle_above(
            links,
            current,
        ) && !trunk_above(links, current, trunk),
{
    let n = links.len();
    if walk_up(links, current, trunk, branches, merged, n) is None {
        lemma_land_walk_depth(links, current, trunk, branches, merged, n);
        let (i, j) = lemma_long_way_up_is_a_cycle(links, current);
        assert forall|m: nat| 1 <= m <= n + 1 implies #[trigger] nth_ancestor(links, current, m)
            != Some(trunk) by {
            lemma_land_walk_misses_trunk(links, current, trunk, branches, merged, n, m);
        }
        assert forall|k: nat| k >= 1 implies #[trigger] nth_ancestor(links, current, k) != Some(
            trunk,
        ) by {
            lemma_trunk_not_beyond(links, current, trunk, i, j, n + 1, k);
        }
    } else {
        lemma_land_walk_ends(links, current, trunk, branches, merged, n);
        if cycle_above(links, current) {
            let (i, j) = choose|i: nat, j: nat|
                i < j && (#[trigger] nth_ancestor(links, current, i)) is Some && nth_ancestor(
                    links,
                    current,
                    i,
                ) == #[trigger] nth_ancestor(links, current, j);
            lemma_cycle_leads_up_forever(links, current, i, j, n + 1);
        }
    }
}

} // verus!
