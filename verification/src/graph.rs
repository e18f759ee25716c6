//! The dependency graph: parent links indexed by parent.

use vstd::prelude::*;
use vstd::string::StringExecFns;
use crate::links::{links_of, names_of, parse_links, parsed_links, Link, Name, ParentLink};

verus! {

/// The children of `parent`: the child of every link whose parent is
/// `parent`, in the order of the links.
pub open spec fn children_in(links: Seq<Link>, parent: Name) -> Seq<Name> {
    links.filter(|l: Link| l.parent == parent).map_values(|l: Link| l.child)
}

/// The parent recorded for `branch`, if any. Where several links name
/// `branch` as their child, the last one counts.
pub open spec fn parent_in(links: Seq<Link>, branch: Name) -> Option<Name>
    decreases links.len(),
{
    if links.len() == 0 {
        None
    } else if links.last().child == branch {
        Some(links.last().parent)
    } else {
        parent_in(links.drop_last(), branch)
    }
}

/// Adding a link at the end adds its child to the children of its parent,
/// and to those of no other branch.
pub proof fn lemma_children_push(links: Seq<Link>, link: Link, parent: Name)
    ensures
        children_in(links.push(link), parent) == if link.parent == parent {
            children_in(links, parent).push(link.child)
        } else {
            children_in(links, parent)
        },
{
    let pred = |l: Link| l.parent == parent;
    links.lemma_filter_push(link, pred);
    if link.parent == parent {
        assert(links.filter(pred).push(link).map_values(|l: Link| l.child)
            =~= links.filter(pred).map_values(|l: Link| l.child).push(link.child));
    }
}

/// The parent links of a repository, in the order in which they were listed.
pub struct StackGraph {
    pub links: Vec<ParentLink>,
}

impl View for StackGraph {
    type V = Seq<Link>;

    open spec fn view(&self) -> Seq<Link> {
        links_of(self.links@)
    }
}

impl StackGraph {
    /// The graph of the given links.
    pub fn new(links: Vec<ParentLink>) -> (graph: StackGraph)
        ensures
            graph@ == links_of(links@),
    {
        StackGraph { links }
    }

    /// The number of links.
    pub fn len(&self) -> (n: usize)
        ensures
            n == self@.len(),
    {
        self.links.len()
    }

    /// The children of `branch` in recorded order; empty where it has none.
    pub fn children_of(&self, branch: &str) -> (children: Vec<String>)
        ensures
            names_of(children@) == children_in(self@, branch@),
    {
        let wanted = String::from_str(branch);
        let mut children: Vec<String> = Vec::new();
        let mut i: usize = 0;
        assert(self@.take(0) =~= Seq::<Link>::empty());
        assert(names_of(children@) =~= children_in(self@.take(0), branch@)) by {
            reveal(Seq::filter);
        }
        while i < self.links.len()
            invariant
                i <= self.links.len(),
                wanted@ == branch@,
                names_of(children@) == children_in(self@.take(i as int), branch@),
            decreases self.links.len() - i,
        {
            proof {
                assert(self@.take(i + 1) =~= self@.take(i as int).push(self@[i as int]));
                lemma_children_push(self@.take(i as int), self@[i as int], branch@);
            }
            if self.links[i].parent == wanted {
                let ghost before = names_of(children@);
                let child = self.links[i].child.clone();
                children.push(child);
                assert(names_of(children@) =~= before.push(child@));
            }
            i += 1;
        }
        assert(self@.take(i as int) =~= self@);
        children
    }

    /// The parent recorded for `branch`, or `None` where it has no link.
    pub fn parent_of(&self, branch: &str) -> (parent: Option<String>)
        ensures
            parent is Some == parent_in(self@, branch@) is Some,
            parent is Some ==> parent->0@ == parent_in(self@, branch@)->0,
    {
        let wanted = String::from_str(branch);
        let mut i: usize = self.links.len();
        assert(self@.take(i as int) =~= self@);
        while i > 0
            invariant
                i <= self.links.len(),
                wanted@ == branch@,
                parent_in(self@, branch@) == parent_in(self@.take(i as int), branch@),
            decreases i,
        {
            i -= 1;
            assert(self@.take(i + 1).drop_last() =~= self@.take(i as int));
            if self.links[i].child == wanted {
                return Some(self.links[i].parent.clone());
            }
        }
        None
    }
}

/// Builds the dependency graph from the listing of all parent links, as the
/// configuration store prints it. An empty listing gives the empty graph.
pub fn get_child_map(raw: &str) -> (graph: StackGraph)
    ensures
        graph@ == parsed_links(raw@),
{
    StackGraph::new(parse_links(raw))
}

} // verus!
