//! Land planning: which branches of a stack are merged into the trunk, in
//! which order, and what landing them consists of.

use vstd::prelude::*;
use vstd::string::StringExecFns;
use crate::cycles::{cycle_above, lemma_plan_fails_exactly_on_cycle, trunk_above};
use crate::error::StackError;
use crate::graph::{parent_in, StackGraph};
use crate::links::{names_of, Link, Name};

verus! {

/// Tells whether `name` is among `list`.
pub fn contains_name(list: &Vec<String>, name: &str) -> (found: bool)
    ensures
        found == names_of(list@).contains(name@),
{
    let wanted = String::from_str(name);
    let mut i: usize = 0;
    while i < list.len()
        invariant
            i <= list.len(),
            wanted@ == name@,
            forall|j: int| 0 <= j < i ==> names_of(list@)[j] != name@,
        decreases list.len() - i,
    {
        if list[i] == wanted {
            assert(names_of(list@)[i as int] == name@);
            return true;
        }
        i += 1;
    }
    false
}

/// Tells whether the branch `name` exists, given the branches that do.
pub fn branch_exists(name: &str, branches: &Vec<String>) -> (exists: bool)
    ensures
        exists == names_of(branches@).contains(name@),
{
    contains_name(branches, name)
}

/// Tells whether `branch` is already contained in the trunk, given the
/// branches that are.
pub fn is_merged_into_main(branch: &str, merged: &Vec<String>) -> (is_merged: bool)
    ensures
        is_merged == names_of(merged@).contains(branch@),
{
    contains_name(merged, branch)
}

/// Whether a branch still has to be landed: it exists and is not merged.
pub open spec fn landable(name: Name, branches: Seq<Name>, merged: Seq<Name>) -> bool {
    branches.contains(name) && !merged.contains(name)
}

/// The ancestors of `branch` that have to be landed, nearest first. The walk
/// follows the parent links upward and ends at a branch without a link or
/// whose parent is `trunk`; an ancestor that is not landable is passed over
/// and the walk goes on from it. `None` where the walk passes more than
/// `depth` ancestors.
pub open spec fn walk_up(
    links: Seq<Link>,
    branch: Name,
    trunk: Name,
    branches: Seq<Name>,
    merged: Seq<Name>,
    depth: nat,
) -> Option<Seq<Name>>
    decreases depth,
{
    match parent_in(links, branch) {
        None => Some(Seq::empty()),
        Some(parent) => if parent == trunk {
            Some(Seq::empty())
        } else if depth == 0 {
            None
        } else {
            match walk_up(links, parent, trunk, branches, merged, (depth - 1) as nat) {
                None => None,
                Some(rest) => Some(
                    if landable(parent, branches, merged) {
                        seq![parent] + rest
                    } else {
                        rest
                    },
                ),
            }
        },
    }
}

/// The branches to land from `current`, the one nearest the trunk first:
/// `current` itself unless it is the trunk, and its landable ancestors. The
/// walk may pass as many ancestors as there are links; `None` where it
/// would pass more.
pub open spec fn land_order(
    links: Seq<Link>,
    current: Name,
    trunk: Name,
    branches: Seq<Name>,
    merged: Seq<Name>,
) -> Option<Seq<Name>> {
    match walk_up(links, current, trunk, branches, merged, links.len()) {
        None => None,
        Some(above) => Some(
            (if current == trunk {
                above
            } else {
                seq![current] + above
            }).reverse(),
        ),
    }
}

/// Every branch that the upward walk collects is landable and is not the
/// trunk.
pub proof fn lemma_walk_up_members(
    links: Seq<Link>,
    branch: Name,
    trunk: Name,
    branches: Seq<Name>,
    merged: Seq<Name>,
    depth: nat,
)
    requires
        walk_up(links, branch, trunk, branches, merged, depth) is Some,
    ensures
        forall|i: int|
            0 <= i < walk_up(links, branch, trunk, branches, merged, depth)->0.len() ==> {
                let name = #[trigger] walk_up(links, branch, trunk, branches, merged, depth)->0[i];
                name != trunk && landable(name, branches, merged)
            },
    decreases depth,
{
    match parent_in(links, branch) {
        None => {},
        Some(parent) => {
            if parent != trunk && depth > 0 {
                lemma_walk_up_members(links, parent, trunk, branches, merged, (depth - 1) as nat);
            }
        },
    }
}

/// The trunk is never part of the land order, and neither is a merged or
/// missing ancestor: every branch in it is `current` or landable.
pub proof fn lemma_land_order_members(
    links: Seq<Link>,
    current: Name,
    trunk: Name,
    branches: Seq<Name>,
    merged: Seq<Name>,
)
    requires
        land_order(links, current, trunk, branches, merged) is Some,
    ensures
        !land_order(links, current, trunk, branches, merged)->0.contains(trunk),
        forall|name: Name| #[trigger]
            land_order(links, current, trunk, branches, merged)->0.contains(name) ==> name
                == current || landable(name, branches, merged),
{
    let above = walk_up(links, current, trunk, branches, merged, links.len())->0;
    let order = land_order(links, current, trunk, branches, merged)->0;
    lemma_walk_up_members(links, current, trunk, branches, merged, links.len());
    let forward = if current == trunk {
        above
    } else {
        seq![current] + above
    };
    assert forall|name: Name| #[trigger] order.contains(name) implies name != trunk && (name
        == current || landable(name, branches, merged)) by {
        let i = choose|i: int| 0 <= i < order.len() && order[i] == name;
        assert(order[i] == forward[forward.len() - 1 - i]);
        if current != trunk {
            let j = forward.len() - 1 - i;
            if j > 0 {
                assert(forward[j] == above[j - 1]);
            }
        }
    }
}

fn reversed(names: &Vec<String>) -> (back: Vec<String>)
    ensures
        names_of(back@) == names_of(names@).reverse(),
{
    let mut back: Vec<String> = Vec::new();
    let mut i: usize = names.len();
    while i > 0
        invariant
            i <= names.len(),
            back.len() == names.len() - i,
            forall|j: int| 0 <= j < back.len() ==> back[j]@ == names[names.len() - 1 - j]@,
        decreases i,
    {
        i -= 1;
        back.push(names[i].clone());
    }
    assert(names_of(back@) =~= names_of(names@).reverse());
    back
}

/// Computes the land plan for the branch `current`: the branches to merge
/// into `trunk`, the one nearest the trunk first. `branches` are the
/// branches that exist, `merged` those that the trunk already contains.
/// Fails exactly where the links above `current` run in a circle that the
/// trunk is not part of.
pub fn plan(
    graph: &StackGraph,
    current: &str,
    trunk: &str,
    branches: &Vec<String>,
    merged: &Vec<String>,
) -> (order: Result<Vec<String>, StackError>)
    ensures
        match land_order(graph@, current@, trunk@, names_of(branches@), names_of(merged@)) {
            Some(names) => order is Ok && names_of(order->Ok_0@) == names,
            None => order is Err && order->Err_0 is CorruptStack,
        },
        order is Ok ==> !names_of(order->Ok_0@).contains(trunk@),
        order is Err <==> cycle_above(graph@, current@) && !trunk_above(graph@, current@, trunk@),
{
    proof {
        lemma_plan_fails_exactly_on_cycle(
            graph@,
            current@,
            trunk@,
            names_of(branches@),
            names_of(merged@),
        );
    }
    let trunk_name = String::from_str(trunk);
    let mut branch = String::from_str(current);
    let mut found: Vec<String> = Vec::new();
    if branch != trunk_name {
        found.push(branch.clone());
    }
    let ghost head = names_of(found@);
    let ghost walked = Seq::<Name>::empty();
    let limit: usize = graph.len();
    let mut hops: usize = 0;
    let mut done = false;
    assert(head =~= if current@ == trunk@ {
        Seq::<Name>::empty()
    } else {
        seq![current@]
    });
    assert(head + walked =~= head);
    while !done
        invariant
            hops <= limit == graph@.len(),
            trunk_name@ == trunk@,
            walk_up(
                graph@,
                current@,
                trunk@,
                names_of(branches@),
                names_of(merged@),
                limit as nat,
            ) is None <==> cycle_above(graph@, current@) && !trunk_above(
                graph@,
                current@,
                trunk@,
            ),
            names_of(found@) == head + walked,
            walk_up(
                graph@,
                current@,
                trunk@,
                names_of(branches@),
                names_of(merged@),
                limit as nat,
            ) == match walk_up(
                graph@,
                branch@,
                trunk@,
                names_of(branches@),
                names_of(merged@),
                (limit - hops) as nat,
            ) {
                Some(rest) => Some(walked + rest),
                None => None,
            },
            done ==> walk_up(
                graph@,
                branch@,
                trunk@,
                names_of(branches@),
                names_of(merged@),
                (limit - hops) as nat,
            ) == Some(Seq::<Name>::empty()),
        decreases (limit - hops) + (if done { 0int } else { 1int }),
    {
        match graph.parent_of(branch.as_str()) {
            None => {
                done = true;
            },
            Some(parent) => {
                if parent == trunk_name {
                    done = true;
                } else if hops == limit {
                    return Err(StackError::CorruptStack);
                } else {
                    let ghost so_far = names_of(found@);
                    let ghost up = walk_up(
                        graph@,
                        parent@,
                        trunk@,
                        names_of(branches@),
                        names_of(merged@),
                        (limit - hops - 1) as nat,
                    );
                    if branch_exists(parent.as_str(), branches) && !is_merged_into_main(
                        parent.as_str(),
                        merged,
                    ) {
                        found.push(parent.clone());
                        proof {
                            assert(names_of(found@) =~= so_far.push(parent@));
                            if let Some(rest) = up {
                                assert(walked + (seq![parent@] + rest) =~= walked.push(parent@)
                                    + rest);
                            }
                            walked = walked.push(parent@);
                            assert(names_of(found@) =~= head + walked);
                        }
                    }
                    branch = parent;
                    hops += 1;
                }
            },
        }
    }
    assert(walked + Seq::<Name>::empty() =~= walked);
    proof {
        lemma_land_order_members(
            graph@,
            current@,
            trunk@,
            names_of(branches@),
            names_of(merged@),
        );
    }
    Ok(reversed(&found))
}

/// The mathematical value of a land action.
pub enum Action {
    Checkout(Name),
    Pull(Name),
    SquashMerge(Name),
    CommitAs(Name),
    DeleteLocal(Name),
    DeleteRemote(Name),
    Unlink(Name),
    Push(Name),
}

/// One operation on the repository while a stack is landed.
#[derive(Debug, PartialEq, Eq)]
pub enum LandAction {
    /// Move to the trunk.
    Checkout(String),
    /// Bring the trunk up to date with its remote.
    Pull(String),
    /// Squash-merge the branch into the trunk.
    SquashMerge(String),
    /// Commit the squashed merge under the branch's latest commit message.
    CommitAs(String),
    /// Delete the branch locally.
    DeleteLocal(String),
    /// Delete the branch on the remote.
    DeleteRemote(String),
    /// Remove the branch's parent link.
    Unlink(String),
    /// Push the trunk.
    Push(String),
}

/// What follows from the outcome of a land action.
#[derive(Debug, Clone, Copy, PartialEq, Eq, Structural)]
pub enum Verdict {
    /// Go on with the next action.
    Proceed,
    /// Go on, and tell the operator that the action failed.
    Warn,
    /// Stop: what was landed stays landed, the rest is left untouched.
    Abort,
}

impl View for LandAction {
    type V = Action;

    open spec fn view(&self) -> Action {
        match self {
            LandAction::Checkout(b) => Action::Checkout(b@),
            LandAction::Pull(b) => Action::Pull(b@),
            LandAction::SquashMerge(b) => Action::SquashMerge(b@),
            LandAction::CommitAs(b) => Action::CommitAs(b@),
            LandAction::DeleteLocal(b) => Action::DeleteLocal(b@),
            LandAction::DeleteRemote(b) => Action::DeleteRemote(b@),
            LandAction::Unlink(b) => Action::Unlink(b@),
            LandAction::Push(b) => Action::Push(b@),
        }
    }
}

/// Whether a failure of `action` is tolerated: only the clean-up on the
/// remote and in the link store is.
pub open spec fn best_effort(action: Action) -> bool {
    action is DeleteRemote || action is Unlink
}

impl LandAction {
    /// Tells whether a failure of this action is tolerated.
    pub fn is_best_effort(&self) -> (tolerated: bool)
        ensures
            tolerated == best_effort(self@),
    {
        match self {
            LandAction::DeleteRemote(_) => true,
            LandAction::Unlink(_) => true,
            _ => false,
        }
    }

    /// Decides how landing goes on after this action succeeded or failed.
    pub fn on_result(&self, succeeded: bool) -> (verdict: Verdict)
        ensures
            verdict == if succeeded {
                Verdict::Proceed
            } else if best_effort(self@) {
                Verdict::Warn
            } else {
                Verdict::Abort
            },
    {
        if succeeded {
            Verdict::Proceed
        } else if self.is_best_effort() {
            Verdict::Warn
        } else {
            Verdict::Abort
        }
    }
}

/// The views of a sequence of actions.
pub open spec fn actions_of(actions: Seq<LandAction>) -> Seq<Action> {
    actions.map_values(|a: LandAction| a@)
}

/// What landing one branch consists of.
pub open spec fn branch_actions(branch: Name) -> Seq<Action> {
    seq![
        Action::SquashMerge(branch),
        Action::CommitAs(branch),
        Action::DeleteLocal(branch),
        Action::DeleteRemote(branch),
        Action::Unlink(branch),
    ]
}

/// The actions that land the branches of `order` one after the other.
pub open spec fn stack_actions(order: Seq<Name>) -> Seq<Action>
    decreases order.len(),
{
    if order.len() == 0 {
        Seq::empty()
    } else {
        stack_actions(order.drop_last()) + branch_actions(order.last())
    }
}

/// Landing `order` into `trunk`: move to the trunk and synchronise it, land
/// each branch in turn, push the trunk.
pub open spec fn land_actions(order: Seq<Name>, trunk: Name) -> Seq<Action> {
    seq![Action::Checkout(trunk), Action::Pull(trunk)] + stack_actions(order) + seq![
        Action::Push(trunk),
    ]
}

/// Lays out the actions that land the branches of `order` into `trunk`, in
/// the order in which they are to be carried out. An empty plan is refused
/// with `NothingToLand` and yields no action.
pub fn land(order: &Vec<String>, trunk: &str) -> (script: Result<Vec<LandAction>, StackError>)
    ensures
        order@.len() == 0 ==> script is Err && script->Err_0 is NothingToLand,
        order@.len() > 0 ==> script is Ok && actions_of(script->Ok_0@) == land_actions(
            names_of(order@),
            trunk@,
        ),
{
    if order.len() == 0 {
        return Err(StackError::NothingToLand);
    }
    let mut script: Vec<LandAction> = Vec::new();
    script.push(LandAction::Checkout(String::from_str(trunk)));
    script.push(LandAction::Pull(String::from_str(trunk)));
    let ghost head = seq![Action::Checkout(trunk@), Action::Pull(trunk@)];
    let ghost names = names_of(order@);
    let mut i: usize = 0;
    assert(names.take(0) =~= Seq::<Name>::empty());
    assert(actions_of(script@) =~= head + stack_actions(names.take(0)));
    while i < order.len()
        invariant
            i <= order.len(),
            names == names_of(order@),
            actions_of(script@) == head + stack_actions(names.take(i as int)),
        decreases order.len() - i,
    {
        let ghost so_far = actions_of(script@);
        let branch = &order[i];
        script.push(LandAction::SquashMerge(branch.clone()));
        script.push(LandAction::CommitAs(branch.clone()));
        script.push(LandAction::DeleteLocal(branch.clone()));
        script.push(LandAction::DeleteRemote(branch.clone()));
        script.push(LandAction::Unlink(branch.clone()));
        proof {
            assert(names.take(i + 1).drop_last() =~= names.take(i as int));
            assert(names.take(i + 1).last() == branch@);
            assert(actions_of(script@) =~= so_far + branch_actions(branch@));
            assert(so_far + branch_actions(branch@) =~= head + stack_actions(names.take(i + 1)));
        }
        i += 1;
    }
    let ghost so_far = actions_of(script@);
    script.push(LandAction::Push(String::from_str(trunk)));
    assert(names.take(i as int) =~= names);
    assert(actions_of(script@) =~= so_far + seq![Action::Push(trunk@)]);
    Ok(script)
}

} // verus!
