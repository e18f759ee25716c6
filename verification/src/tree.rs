//! Tree rendering: the stack as rows of a tree, from its root downward.

use vstd::prelude::*;
use vstd::string::StringExecFns;
use crate::cycles::{
    cycle_above, cycle_in_stack, lemma_render_fails_exactly_on_cycle,
    lemma_root_fails_exactly_on_cycle,
};
use crate::error::StackError;
use crate::graph::{children_in, parent_in, StackGraph};
use crate::links::{names_of, Link, Name};
use crate::restack::{lemma_first_then_others, one_after_other, visits};

verus! {

/// How a row is joined to the tree above it.
#[derive(Debug, Clone, Copy, PartialEq, Eq, Structural)]
pub enum Connector {
    /// The root of the tree: no connector.
    Root,
    /// A branch with a later sibling.
    Mid,
    /// The last of its siblings.
    End,
}

/// The mathematical value of a tree row.
pub struct Row {
    pub guides: Seq<bool>,
    pub connector: Connector,
    pub branch: Name,
    pub current: bool,
}

/// One branch in the rendered tree. `guides` holds one entry for each
/// ancestor of the branch below the root, the topmost first: whether that
/// ancestor has a later sibling, so that its guide line runs on past this
/// row.
#[derive(Debug, PartialEq, Eq)]
pub struct TreeRow {
    pub guides: Vec<bool>,
    pub connector: Connector,
    pub branch: String,
    pub current: bool,
}

impl View for TreeRow {
    type V = Row;

    open spec fn view(&self) -> Row {
        Row {
            guides: self.guides@,
            connector: self.connector,
            branch: self.branch@,
            current: self.current,
        }
    }
}

/// The views of a sequence of rows.
pub open spec fn rows_of(rows: Seq<TreeRow>) -> Seq<Row> {
    rows.map_values(|r: TreeRow| r@)
}

/// The topmost ancestor of `branch`: the first branch without a parent link
/// on the way up. `None` where the way up passes more than `depth` links.
pub open spec fn root_in(links: Seq<Link>, branch: Name, depth: nat) -> Option<Name>
    decreases depth,
{
    match parent_in(links, branch) {
        None => Some(branch),
        Some(parent) => if depth == 0 {
            None
        } else {
            root_in(links, parent, (depth - 1) as nat)
        },
    }
}

/// The rows of `children`, siblings under one parent, and of all their
/// descendants: each child's row, then the rows below it, then the next
/// sibling. `guides` are the guides of the children's own rows; `more`
/// tells whether further siblings follow after `children`. `None` where the
/// links lead more than `depth` levels down.
pub open spec fn rows_below(
    links: Seq<Link>,
    children: Seq<Name>,
    guides: Seq<bool>,
    more: bool,
    current: Name,
    depth: nat,
) -> Option<Seq<Row>>
    decreases depth, children.len(),
{
    if children.len() == 0 {
        Some(Seq::empty())
    } else if depth == 0 {
        None
    } else {
        let first = children[0];
        let last = children.len() == 1 && !more;
        let row = Row {
            guides,
            connector: if last {
                Connector::End
            } else {
                Connector::Mid
            },
            branch: first,
            current: first == current,
        };
        match rows_below(
            links,
            children_in(links, first),
            guides.push(!last),
            false,
            current,
            (depth - 1) as nat,
        ) {
            None => None,
            Some(below) => match rows_below(
                links,
                children.drop_first(),
                guides,
                more,
                current,
                depth,
            ) {
                None => None,
                Some(after) => Some(seq![row] + below + after),
            },
        }
    }
}

/// The tree of the stack that `current` belongs to: the row of the root,
/// then the rows of everything below it. The walks up and down may pass as
/// many levels as there are links; `None` where one would go further.
pub open spec fn tree_rows(links: Seq<Link>, current: Name) -> Option<Seq<Row>> {
    match root_in(links, current, links.len()) {
        None => None,
        Some(root) => match rows_below(
            links,
            children_in(links, root),
            Seq::empty(),
            false,
            current,
            links.len(),
        ) {
            None => None,
            Some(below) => Some(
                seq![
                    Row {
                        guides: Seq::empty(),
                        connector: Connector::Root,
                        branch: root,
                        current: root == current,
                    },
                ] + below,
            ),
        },
    }
}

/// Finds the root of the stack that `branch` belongs to by walking the
/// parent links upward until a branch has none. Fails where they run in a
/// circle.
pub fn stack_root(graph: &StackGraph, branch: &str) -> (root: Result<String, StackError>)
    ensures
        match root_in(graph@, branch@, graph@.len()) {
            Some(name) => root is Ok && root->Ok_0@ == name,
            None => root is Err && root->Err_0 is CorruptStack,
        },
        root is Err <==> cycle_above(graph@, branch@),
{
    proof {
        lemma_root_fails_exactly_on_cycle(graph@, branch@);
    }
    let limit: usize = graph.len();
    let mut at = String::from_str(branch);
    let mut hops: usize = 0;
    loop
        invariant
            hops <= limit == graph@.len(),
            root_in(graph@, branch@, limit as nat) is None <==> cycle_above(graph@, branch@),
            root_in(graph@, branch@, limit as nat) == root_in(
                graph@,
                at@,
                (limit - hops) as nat,
            ),
        decreases limit - hops,
    {
        match graph.parent_of(at.as_str()) {
            None => {
                return Ok(at);
            },
            Some(parent) => {
                if hops == limit {
                    return Err(StackError::CorruptStack);
                }
                at = parent;
                hops += 1;
            },
        }
    }
}

fn copy_of(guides: &Vec<bool>) -> (copy: Vec<bool>)
    ensures
        copy@ == guides@,
{
    let mut copy: Vec<bool> = Vec::new();
    let mut i: usize = 0;
    while i < guides.len()
        invariant
            i <= guides.len(),
            copy@ == guides@.take(i as int),
        decreases guides.len() - i,
    {
        copy.push(guides[i]);
        assert(copy@ =~= guides@.take(i + 1));
        i += 1;
    }
    assert(guides@.take(i as int) =~= guides@);
    copy
}

/// A branch whose row waits to be laid out: the mathematical value.
pub struct WaitingRow {
    pub branch: Name,
    pub guides: Seq<bool>,
    pub more: bool,
    pub depth: nat,
}

/// A branch on the work list: its row has the guides `guides`, it is the
/// last of its siblings or not, and the descent may go `depth` levels down
/// from its parent.
struct PendingRow {
    branch: String,
    guides: Vec<bool>,
    last: bool,
    depth: usize,
}

impl View for PendingRow {
    type V = WaitingRow;

    closed spec fn view(&self) -> WaitingRow {
        WaitingRow {
            branch: self.branch@,
            guides: self.guides@,
            more: !self.last,
            depth: self.depth as nat,
        }
    }
}

/// The rows that one waiting branch stands for: its own and those of its
/// descendants.
pub open spec fn waiting_rows(links: Seq<Link>, entry: WaitingRow, current: Name) -> Option<
    Seq<Row>,
> {
    rows_below(links, seq![entry.branch], entry.guides, entry.more, current, entry.depth)
}

/// The rows that a work list stands for; the branch at its end is the next
/// to be laid out.
pub open spec fn work_rows(links: Seq<Link>, work: Seq<WaitingRow>, current: Name) -> Option<
    Seq<Row>,
>
    decreases work.len(),
{
    if work.len() == 0 {
        Some(Seq::empty())
    } else {
        one_after_other(
            waiting_rows(links, work.last(), current),
            work_rows(links, work.drop_last(), current),
        )
    }
}

/// How many branches are still to be visited for a work list.
pub open spec fn rows_left(links: Seq<Link>, work: Seq<WaitingRow>) -> nat
    decreases work.len(),
{
    if work.len() == 0 {
        0
    } else {
        visits(links, seq![work.last().branch], work.last().depth) + rows_left(
            links,
            work.drop_last(),
        )
    }
}

/// The rows of some siblings are those of the first with its descendants,
/// then those of the others.
pub proof fn lemma_first_row_then_others(
    links: Seq<Link>,
    children: Seq<Name>,
    guides: Seq<bool>,
    more: bool,
    current: Name,
    depth: nat,
)
    requires
        children.len() > 0,
    ensures
        rows_below(links, children, guides, more, current, depth) == one_after_other(
            rows_below(
                links,
                seq![children[0]],
                guides,
                children.len() > 1 || more,
                current,
                depth,
            ),
            rows_below(links, children.drop_first(), guides, more, current, depth),
        ),
{
    let alone = seq![children[0]];
    let follows = children.len() > 1 || more;
    assert(alone.drop_first() =~= Seq::<Name>::empty());
    assert(rows_below(links, alone.drop_first(), guides, follows, current, depth) == Some(
        Seq::<Row>::empty(),
    ));
    if depth > 0 {
        let first = children[0];
        let last = children.len() == 1 && !more;
        let below = rows_below(
            links,
            children_in(links, first),
            guides.push(!last),
            false,
            current,
            (depth - 1) as nat,
        );
        let after = rows_below(links, children.drop_first(), guides, more, current, depth);
        if below is Some && after is Some {
            let row = seq![
                Row {
                    guides,
                    connector: if last {
                        Connector::End
                    } else {
                        Connector::Mid
                    },
                    branch: first,
                    current: first == current,
                },
            ];
            assert(row + below->0 + Seq::<Row>::empty() + after->0 =~= row + below->0 + after->0);
        }
    }
}

/// Puts `children`, siblings whose rows have the guides `guides`, on the
/// work list, the first of them last, so that it is the next to be taken
/// off.
fn push_children(
    work: &mut Vec<PendingRow>,
    children: &Vec<String>,
    guides: &Vec<bool>,
    depth: usize,
    Ghost(links): Ghost<Seq<Link>>,
    Ghost(current): Ghost<Name>,
)
    ensures
        work_rows(links, final(work)@.map_values(|e: PendingRow| e@), current) == one_after_other(
            rows_below(links, names_of(children@), guides@, false, current, depth as nat),
            work_rows(links, old(work)@.map_values(|e: PendingRow| e@), current),
        ),
        rows_left(links, final(work)@.map_values(|e: PendingRow| e@)) == visits(
            links,
            names_of(children@),
            depth as nat,
        ) + rows_left(links, old(work)@.map_values(|e: PendingRow| e@)),
{
    let ghost names = names_of(children@);
    let ghost below = work@.map_values(|e: PendingRow| e@);
    let mut i: usize = children.len();
    assert(names.skip(i as int) =~= Seq::<Name>::empty());
    proof {
        if let Some(rest) = work_rows(links, below, current) {
            assert(Seq::<Row>::empty() + rest =~= rest);
        }
    }
    while i > 0
        invariant
            i <= children.len(),
            names == names_of(children@),
            work_rows(links, work@.map_values(|e: PendingRow| e@), current) == one_after_other(
                rows_below(links, names.skip(i as int), guides@, false, current, depth as nat),
                work_rows(links, below, current),
            ),
            rows_left(links, work@.map_values(|e: PendingRow| e@)) == visits(
                links,
                names.skip(i as int),
                depth as nat,
            ) + rows_left(links, below),
        decreases i,
    {
        i -= 1;
        let ghost before = work@.map_values(|e: PendingRow| e@);
        let entry = PendingRow {
            branch: children[i].clone(),
            guides: copy_of(guides),
            last: i + 1 == children.len(),
            depth,
        };
        work.push(entry);
        proof {
            let after = work@.map_values(|e: PendingRow| e@);
            let siblings = names.skip(i as int);
            assert(after =~= before.push(entry@));
            assert(after.drop_last() =~= before);
            assert(siblings.drop_first() =~= names.skip(i + 1));
            assert(siblings[0] == entry@.branch);
            assert(entry@.more == (siblings.len() > 1));
            lemma_first_row_then_others(links, siblings, guides@, false, current, depth as nat);
            lemma_first_then_others(links, siblings, siblings[0], depth as nat);
            let own = rows_below(
                links,
                seq![siblings[0]],
                guides@,
                siblings.len() > 1,
                current,
                depth as nat,
            );
            let others = rows_below(
                links,
                names.skip(i + 1),
                guides@,
                false,
                current,
                depth as nat,
            );
            let rest = work_rows(links, below, current);
            if own is Some && others is Some && rest is Some {
                assert(own->0 + (others->0 + rest->0) =~= (own->0 + others->0) + rest->0);
            }
        }
    }
    assert(names.skip(0) =~= names);
}

/// Lays out the tree of the stack that `current` belongs to, one row per
/// branch, from the root downward, children in recorded order. Fails
/// exactly where the links of the stack run in a circle.
pub fn render(graph: &StackGraph, current: &str) -> (rows: Result<Vec<TreeRow>, StackError>)
    ensures
        match tree_rows(graph@, current@) {
            Some(expected) => rows is Ok && rows_of(rows->Ok_0@) == expected,
            None => rows is Err && rows->Err_0 is CorruptStack,
        },
        rows is Err <==> cycle_in_stack(graph@, current@),
{
    proof {
        lemma_render_fails_exactly_on_cycle(graph@, current@);
    }
    let ghost links = graph@;
    let here = String::from_str(current);
    let root = match stack_root(graph, current) {
        Ok(root) => root,
        Err(e) => {
            return Err(e);
        },
    };
    let children = graph.children_of(root.as_str());
    let guides: Vec<bool> = Vec::new();
    let mut work: Vec<PendingRow> = Vec::new();
    assert(work@.map_values(|e: PendingRow| e@) =~= Seq::<WaitingRow>::empty());
    push_children(&mut work, &children, &guides, graph.len(), Ghost(links), Ghost(current@));
    let mut out: Vec<TreeRow> = Vec::new();
    let top = TreeRow {
        guides: Vec::new(),
        connector: Connector::Root,
        current: root == here,
        branch: root,
    };
    out.push(top);
    proof {
        assert(rows_of(out@) =~= seq![top@]);
        if let Some(below) = work_rows(links, work@.map_values(|e: PendingRow| e@), current@) {
            assert(below + Seq::<Row>::empty() =~= below);
        }
    }
    while work.len() > 0
        invariant
            links == graph@,
            here@ == current@,
            tree_rows(links, current@) is None <==> cycle_in_stack(links, current@),
            tree_rows(links, current@) == match work_rows(
                links,
                work@.map_values(|e: PendingRow| e@),
                current@,
            ) {
                Some(rest) => Some(rows_of(out@) + rest),
                None => None,
            },
        decreases rows_left(links, work@.map_values(|e: PendingRow| e@)),
    {
        let ghost before = work@.map_values(|e: PendingRow| e@);
        let ghost done = rows_of(out@);
        let entry = work.pop().unwrap();
        let ghost rest = work@.map_values(|e: PendingRow| e@);
        assert(before.drop_last() =~= rest);
        assert(before.last() == entry@);
        let ghost alone = seq![entry@.branch];
        assert(alone.drop_first() =~= Seq::<Name>::empty());
        if entry.depth == 0 {
            return Err(StackError::CorruptStack);
        }
        let mut inner = copy_of(&entry.guides);
        inner.push(!entry.last);
        let grandchildren = graph.children_of(entry.branch.as_str());
        push_children(
            &mut work,
            &grandchildren,
            &inner,
            entry.depth - 1,
            Ghost(links),
            Ghost(current@),
        );
        let row = TreeRow {
            guides: entry.guides,
            connector: if entry.last {
                Connector::End
            } else {
                Connector::Mid
            },
            current: entry.branch == here,
            branch: entry.branch,
        };
        out.push(row);
        proof {
            assert(rows_of(out@) =~= done.push(row@));
            let below = rows_below(
                links,
                children_in(links, row@.branch),
                row@.guides.push(!entry.last),
                false,
                current@,
                (entry.depth - 1) as nat,
            );
            assert(rows_below(
                links,
                alone.drop_first(),
                row@.guides,
                entry@.more,
                current@,
                entry.depth as nat,
            ) == Some(Seq::<Row>::empty()));
            assert(visits(links, alone.drop_first(), entry.depth as nat) == 0);
            if let Some(under) = below {
                if let Some(later) = work_rows(links, rest, current@) {
                    assert(done + (seq![row@] + under + Seq::<Row>::empty() + later)
                        =~= done.push(row@) + (under + later));
                }
            }
        }
    }
    proof {
        assert(work@.map_values(|e: PendingRow| e@) =~= Seq::<WaitingRow>::empty());
        assert(rows_of(out@) + Seq::<Row>::empty() =~= rows_of(out@));
    }
    Ok(out)
}

/// The indentation in front of a row: four columns for each guide, with a
/// vertical line where the guide runs on.
pub open spec fn guide_text(guides: Seq<bool>) -> Seq<char>
    decreases guides.len(),
{
    if guides.len() == 0 {
        Seq::empty()
    } else {
        guide_text(guides.drop_last()) + if guides.last() {
            "│   "@
        } else {
            "    "@
        }
    }
}

/// The glyph that joins a row to the tree; none for the root.
pub open spec fn connector_text(connector: Connector) -> Seq<char> {
    match connector {
        Connector::Root => Seq::empty(),
        Connector::Mid => "├── "@,
        Connector::End => "└── "@,
    }
}

/// The first line of a row: indentation, connector, branch name, and a
/// marker where the branch is the current one.
pub open spec fn headline_of(row: Row) -> Seq<char> {
    guide_text(row.guides) + connector_text(row.connector) + row.branch + if row.current {
        " ◀"@
    } else {
        Seq::empty()
    }
}

/// The second line of a row: the commit summary, indented under the name.
pub open spec fn summary_of(row: Row, summary: Seq<char>) -> Seq<char> {
    guide_text(row.guides) + "    "@ + summary
}

impl TreeRow {
    fn indentation(&self) -> (text: String)
        ensures
            text@ == guide_text(self.guides@),
    {
        let mut text = String::new();
        let mut i: usize = 0;
        assert(self.guides@.take(0) =~= Seq::<bool>::empty());
        while i < self.guides.len()
            invariant
                i <= self.guides.len(),
                text@ == guide_text(self.guides@.take(i as int)),
            decreases self.guides.len() - i,
        {
            assert(self.guides@.take(i + 1).drop_last() =~= self.guides@.take(i as int));
            if self.guides[i] {
                text.append("│   ");
            } else {
                text.append("    ");
            }
            i += 1;
        }
        assert(self.guides@.take(i as int) =~= self.guides@);
        text
    }

    /// The first line of this row as text.
    pub fn headline(&self) -> (text: String)
        ensures
            text@ == headline_of(self@),
    {
        let mut text = self.indentation();
        let ghost indent = text@;
        match self.connector {
            Connector::Root => {
                assert(indent + Seq::<char>::empty() =~= indent);
            },
            Connector::Mid => {
                text.append("├── ");
            },
            Connector::End => {
                text.append("└── ");
            },
        }
        let ghost joined = text@;
        text.append(self.branch.as_str());
        if self.current {
            text.append(" ◀");
        } else {
            assert(joined + self.branch@ + Seq::<char>::empty() =~= joined + self.branch@);
        }
        text
    }

    /// The second line of this row as text, for the given commit summary;
    /// an empty summary leaves the indentation alone.
    pub fn summary_line(&self, summary: &str) -> (text: String)
        ensures
            text@ == summary_of(self@, summary@),
    {
        let mut text = self.indentation();
        text.append("    ");
        text.append(summary);
        text
    }
}

} // verus!
