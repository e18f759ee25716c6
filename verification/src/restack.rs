//! Rebase propagation: the order in which the descendants of a branch are
//! rebased after the branch has changed.

use vstd::prelude::*;
use vstd::string::StringExecFns;
use crate::cycles::{cycle_below, lemma_restack_fails_exactly_on_cycle};
use crate::error::StackError;
use crate::graph::{children_in, StackGraph};
use crate::links::{names_of, Link, Name};

verus! {

/// The mathematical value of a rebase step.
pub struct Step {
    pub branch: Name,
    pub onto: Name,
}

/// One step of a restack: check out `branch`, then rebase it onto `onto`.
#[derive(Debug, PartialEq, Eq)]
pub struct RebaseStep {
    pub branch: String,
    pub onto: String,
}

impl View for RebaseStep {
    type V = Step;

    open spec fn view(&self) -> Step {
        Step { branch: self.branch@, onto: self.onto@ }
    }
}

/// The progress notice of a step.
pub open spec fn notice_of(step: Step) -> Seq<char> {
    "   -> Rebase "@ + step.branch + " onto "@ + step.onto
}

impl RebaseStep {
    /// The progress notice shown before this step is carried out.
    pub fn notice(&self) -> (text: String)
        ensures
            text@ == notice_of(self@),
    {
        let mut text = String::from_str("   -> Rebase ");
        text.append(self.branch.as_str());
        text.append(" onto ");
        text.append(self.onto.as_str());
        text
    }
}

/// The views of a sequence of steps.
pub open spec fn steps_of(steps: Seq<RebaseStep>) -> Seq<Step> {
    steps.map_values(|s: RebaseStep| s@)
}

/// The steps that rebase `children`, siblings with the parent `onto`, and
/// all their descendants: each child is rebased onto `onto`, then its own
/// subtree is done, then the next sibling's turn comes. `None` where the
/// links lead more than `depth` levels down.
pub open spec fn steps_below(links: Seq<Link>, children: Seq<Name>, onto: Name, depth: nat) -> Option<
    Seq<Step>,
>
    decreases depth, children.len(),
{
    if children.len() == 0 {
        Some(Seq::empty())
    } else if depth == 0 {
        None
    } else {
        let first = children[0];
        match steps_below(links, children_in(links, first), first, (depth - 1) as nat) {
            None => None,
            Some(below) => match steps_below(links, children.drop_first(), onto, depth) {
                None => None,
                Some(after) => Some(seq![Step { branch: first, onto }] + below + after),
            },
        }
    }
}

/// The steps of a restack that starts at `start`. The descent may go as
/// many levels down as there are links; `None` where it would go further.
pub open spec fn restack_steps(links: Seq<Link>, start: Name) -> Option<Seq<Step>> {
    steps_below(links, children_in(links, start), start, links.len())
}

/// A branch without children has nothing to rebase.
pub proof fn lemma_restack_of_leaf(links: Seq<Link>, start: Name)
    requires
        children_in(links, start).len() == 0,
    ensures
        restack_steps(links, start) == Some(Seq::<Step>::empty()),
{
}

/// The subtree of the first sibling is rebased completely before any other
/// sibling is touched: the steps are the first child's own step, then all
/// steps below it, then the steps of the remaining siblings.
pub proof fn lemma_subtree_before_siblings(
    links: Seq<Link>,
    children: Seq<Name>,
    onto: Name,
    depth: nat,
)
    requires
        children.len() > 0,
        steps_below(links, children, onto, depth) is Some,
    ensures
        depth > 0,
        steps_below(links, children_in(links, children[0]), children[0], (depth - 1) as nat)
            is Some,
        steps_below(links, children.drop_first(), onto, depth) is Some,
        steps_below(links, children, onto, depth)->0 == seq![
            Step { branch: children[0], onto },
        ] + steps_below(
            links,
            children_in(links, children[0]),
            children[0],
            (depth - 1) as nat,
        )->0 + steps_below(links, children.drop_first(), onto, depth)->0,
{
}

/// A branch that waits to be rebased: the mathematical value.
pub struct Waiting {
    pub branch: Name,
    pub onto: Name,
    pub depth: nat,
}

/// A branch on the work list: it is to be rebased onto `onto`, and the
/// descent may go `depth` levels down from its parent.
struct Pending {
    branch: String,
    onto: String,
    depth: usize,
}

impl View for Pending {
    type V = Waiting;

    closed spec fn view(&self) -> Waiting {
        Waiting { branch: self.branch@, onto: self.onto@, depth: self.depth as nat }
    }
}

/// The steps that one waiting branch stands for: its own and those of its
/// descendants.
pub open spec fn waiting_steps(links: Seq<Link>, entry: Waiting) -> Option<Seq<Step>> {
    steps_below(links, seq![entry.branch], entry.onto, entry.depth)
}

/// Two runs, one after the other, where both can be laid out.
pub open spec fn one_after_other<T>(first: Option<Seq<T>>, second: Option<Seq<T>>) -> Option<
    Seq<T>,
> {
    match (first, second) {
        (Some(a), Some(b)) => Some(a + b),
        _ => None,
    }
}

/// The steps that a work list stands for; the branch at its end is the next
/// to be rebased.
pub open spec fn work_steps(links: Seq<Link>, work: Seq<Waiting>) -> Option<Seq<Step>>
    decreases work.len(),
{
    if work.len() == 0 {
        Some(Seq::empty())
    } else {
        one_after_other(waiting_steps(links, work.last()), work_steps(links, work.drop_last()))
    }
}

/// How many branches a descent through `children` visits before it is done
/// or out of depth.
pub open spec fn visits(links: Seq<Link>, children: Seq<Name>, depth: nat) -> nat
    decreases depth, children.len(),
{
    if children.len() == 0 {
        0
    } else {
        let below = if depth == 0 {
            0
        } else {
            visits(links, children_in(links, children[0]), (depth - 1) as nat)
        };
        1 + below + visits(links, children.drop_first(), depth)
    }
}

/// How many branches are still to be visited for a work list.
pub open spec fn work_left(links: Seq<Link>, work: Seq<Waiting>) -> nat
    decreases work.len(),
{
    if work.len() == 0 {
        0
    } else {
        visits(links, seq![work.last().branch], work.last().depth) + work_left(
            links,
            work.drop_last(),
        )
    }
}

/// The steps of some siblings are those of the first with its descendants,
/// then those of the others.
pub proof fn lemma_first_then_others(
    links: Seq<Link>,
    children: Seq<Name>,
    onto: Name,
    depth: nat,
)
    requires
        children.len() > 0,
    ensures
        steps_below(links, children, onto, depth) == one_after_other(
            steps_below(links, seq![children[0]], onto, depth),
            steps_below(links, children.drop_first(), onto, depth),
        ),
        visits(links, children, depth) == visits(links, seq![children[0]], depth) + visits(
            links,
            children.drop_first(),
            depth,
        ),
{
    let alone = seq![children[0]];
    assert(alone.drop_first() =~= Seq::<Name>::empty());
    assert(steps_below(links, alone.drop_first(), onto, depth) == Some(Seq::<Step>::empty()));
    assert(visits(links, alone.drop_first(), depth) == 0);
    if depth > 0 {
        let first = children[0];
        let below = steps_below(links, children_in(links, first), first, (depth - 1) as nat);
        let after = steps_below(links, children.drop_first(), onto, depth);
        if below is Some && after is Some {
            let step = seq![Step { branch: first, onto }];
            assert(step + below->0 + Seq::<Step>::empty() + after->0 =~= step + below->0
                + after->0);
        }
    }
}

/// Puts `children`, siblings with the parent `onto`, on the work list, the
/// first of them last, so that it is the next to be taken off.
fn push_children(
    work: &mut Vec<Pending>,
    children: &Vec<String>,
    onto: &String,
    depth: usize,
    Ghost(links): Ghost<Seq<Link>>,
)
    ensures
        work_steps(links, final(work)@.map_values(|e: Pending| e@)) == one_after_other(
            steps_below(links, names_of(children@), onto@, depth as nat),
            work_steps(links, old(work)@.map_values(|e: Pending| e@)),
        ),
        work_left(links, final(work)@.map_values(|e: Pending| e@)) == visits(
            links,
            names_of(children@),
            depth as nat,
        ) + work_left(links, old(work)@.map_values(|e: Pending| e@)),
{
    let ghost names = names_of(children@);
    let ghost below = work@.map_values(|e: Pending| e@);
    let mut i: usize = children.len();
    assert(names.skip(i as int) =~= Seq::<Name>::empty());
    proof {
        if let Some(rest) = work_steps(links, below) {
            assert(Seq::<Step>::empty() + rest =~= rest);
        }
    }
    while i > 0
        invariant
            i <= children.len(),
            names == names_of(children@),
            work_steps(links, work@.map_values(|e: Pending| e@)) == one_after_other(
                steps_below(links, names.skip(i as int), onto@, depth as nat),
                work_steps(links, below),
            ),
            work_left(links, work@.map_values(|e: Pending| e@)) == visits(
                links,
                names.skip(i as int),
                depth as nat,
            ) + work_left(links, below),
        decreases i,
    {
        i -= 1;
        let ghost before = work@.map_values(|e: Pending| e@);
        let entry = Pending { branch: children[i].clone(), onto: onto.clone(), depth };
        work.push(entry);
        proof {
            let after = work@.map_values(|e: Pending| e@);
            let siblings = names.skip(i as int);
            assert(after =~= before.push(entry@));
            assert(after.drop_last() =~= before);
            assert(siblings.drop_first() =~= names.skip(i + 1));
            assert(siblings[0] == entry@.branch);
            lemma_first_then_others(links, siblings, onto@, depth as nat);
            let own = steps_below(links, seq![siblings[0]], onto@, depth as nat);
            let others = steps_below(links, names.skip(i + 1), onto@, depth as nat);
            let rest = work_steps(links, below);
            if own is Some && others is Some && rest is Some {
                assert(own->0 + (others->0 + rest->0) =~= (own->0 + others->0) + rest->0);
            }
        }
    }
    assert(names.skip(0) =~= names);
}

/// The rebase steps that restack every descendant of `start`, in the order
/// in which they are to be carried out: depth first, siblings in recorded
/// order. Fails exactly where the links below `start` run in a circle.
pub fn propagate(graph: &StackGraph, start: &str) -> (plan: Result<Vec<RebaseStep>, StackError>)
    ensures
        match restack_steps(graph@, start@) {
            Some(steps) => plan is Ok && steps_of(plan->Ok_0@) == steps,
            None => plan is Err && plan->Err_0 is CorruptStack,
        },
        plan is Err <==> cycle_below(graph@, start@),
{
    proof {
        lemma_restack_fails_exactly_on_cycle(graph@, start@);
    }
    let ghost links = graph@;
    let ghost total = restack_steps(links, start@);
    let children = graph.children_of(start);
    let onto = start.to_owned();
    let mut out: Vec<RebaseStep> = Vec::new();
    let mut work: Vec<Pending> = Vec::new();
    assert(work@.map_values(|e: Pending| e@) =~= Seq::<Waiting>::empty());
    push_children(&mut work, &children, &onto, graph.len(), Ghost(links));
    proof {
        if let Some(steps) = total {
            assert(steps + Seq::<Step>::empty() =~= steps);
            assert(steps_of(out@) + steps =~= steps);
        }
    }
    while work.len() > 0
        invariant
            links == graph@,
            total == restack_steps(links, start@),
            total is None <==> cycle_below(links, start@),
            total == match work_steps(links, work@.map_values(|e: Pending| e@)) {
                Some(rest) => Some(steps_of(out@) + rest),
                None => None,
            },
        decreases work_left(links, work@.map_values(|e: Pending| e@)),
    {
        let ghost before = work@.map_values(|e: Pending| e@);
        let ghost done = steps_of(out@);
        let entry = work.pop().unwrap();
        let ghost rest = work@.map_values(|e: Pending| e@);
        assert(before.drop_last() =~= rest);
        assert(before.last() == entry@);
        let ghost alone = seq![entry@.branch];
        assert(alone.drop_first() =~= Seq::<Name>::empty());
        if entry.depth == 0 {
            return Err(StackError::CorruptStack);
        }
        let grandchildren = graph.children_of(entry.branch.as_str());
        push_children(&mut work, &grandchildren, &entry.branch, entry.depth - 1, Ghost(links));
        let step = RebaseStep { branch: entry.branch, onto: entry.onto };
        out.push(step);
        proof {
            assert(steps_of(out@) =~= done.push(step@));
            let below = steps_below(
                links,
                children_in(links, step@.branch),
                step@.branch,
                (entry.depth - 1) as nat,
            );
            assert(steps_below(links, alone.drop_first(), step@.onto, entry.depth as nat) == Some(
                Seq::<Step>::empty(),
            ));
            assert(visits(links, alone.drop_first(), entry.depth as nat) == 0);
            if let Some(under) = below {
                if let Some(later) = work_steps(links, rest) {
                    assert(done + (seq![step@] + under + Seq::<Step>::empty() + later)
                        =~= done.push(step@) + (under + later));
                }
            }
        }
    }
    proof {
        assert(work@.map_values(|e: Pending| e@) =~= Seq::<Waiting>::empty());
        assert(steps_of(out@) + Seq::<Step>::empty() =~= steps_of(out@));
    }
    Ok(out)
}

/// Where a restack stands: what is to be done next, or how it ended.
#[derive(Debug, Clone, Copy, PartialEq, Eq, Structural)]
pub enum Phase {
    /// Check out the branch of the step with this index.
    Checkout(usize),
    /// Rebase the branch of the step with this index onto its parent.
    Rebase(usize),
    /// All steps are done: go back to the branch the restack started from.
    Restore,
    /// The restack is complete.
    Finished,
    /// An operation failed; the repository stays as the failure left it.
    Aborted,
}

/// The phase that follows `phase` once its operation has succeeded or
/// failed, in a restack of `steps` steps. The first failure ends the
/// restack at once; a finished or aborted restack stays as it is.
pub open spec fn phase_after(phase: Phase, succeeded: bool, steps: nat) -> Phase {
    match phase {
        Phase::Finished => Phase::Finished,
        Phase::Aborted => Phase::Aborted,
        _ => if !succeeded {
            Phase::Aborted
        } else {
            match phase {
                Phase::Checkout(at) => Phase::Rebase(at),
                Phase::Rebase(at) => if at + 1 < steps {
                    Phase::Checkout((at + 1) as usize)
                } else {
                    Phase::Restore
                },
                _ => Phase::Finished,
            }
        },
    }
}

impl Phase {
    /// The phase in which a restack of `steps` steps begins.
    pub fn begin(steps: usize) -> (phase: Phase)
        ensures
            phase == if steps == 0 {
                Phase::Restore
            } else {
                Phase::Checkout(0)
            },
    {
        if steps == 0 {
            Phase::Restore
        } else {
            Phase::Checkout(0)
        }
    }

    /// Moves on after the operation of this phase succeeded or failed.
    pub fn advance(self, succeeded: bool, steps: usize) -> (next: Phase)
        ensures
            next == phase_after(self, succeeded, steps as nat),
    {
        match self {
            Phase::Finished => Phase::Finished,
            Phase::Aborted => Phase::Aborted,
            Phase::Checkout(at) => if succeeded {
                Phase::Rebase(at)
            } else {
                Phase::Aborted
            },
            Phase::Rebase(at) => if !succeeded {
                Phase::Aborted
            } else if steps > 0 && at < steps - 1 {
                Phase::Checkout(at + 1)
            } else {
                Phase::Restore
            },
            Phase::Restore => if succeeded {
                Phase::Finished
            } else {
                Phase::Aborted
            },
        }
    }
}

} // verus!
