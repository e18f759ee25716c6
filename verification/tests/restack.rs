use branch_stack::error::StackError;
use branch_stack::graph::{get_child_map, StackGraph};
use branch_stack::links::ParentLink;
use branch_stack::restack::{propagate, Phase, RebaseStep};

fn step(branch: &str, onto: &str) -> RebaseStep {
    RebaseStep { branch: branch.to_string(), onto: onto.to_string() }
}

fn graph(links: &[(&str, &str)]) -> StackGraph {
    StackGraph::new(
        links
            .iter()
            .map(|(c, p)| ParentLink { child: c.to_string(), parent: p.to_string() })
            .collect(),
    )
}

#[test]
fn propagate_on_leaf_does_nothing() {
    let g = graph(&[("b", "a")]);
    assert_eq!(propagate(&g, "b"), Ok(vec![]));
    assert_eq!(propagate(&g, "unknown"), Ok(vec![]));
    assert_eq!(propagate(&graph(&[]), "a"), Ok(vec![]));
}

#[test]
fn propagate_walks_a_chain_in_order() {
    let g = graph(&[("B", "A"), ("C", "B"), ("D", "C")]);
    assert_eq!(propagate(&g, "A"), Ok(vec![step("B", "A"), step("C", "B"), step("D", "C")]));
    assert_eq!(propagate(&g, "C"), Ok(vec![step("D", "C")]));
}

#[test]
fn propagate_walks_a_chain_listed_backwards() {
    let g = graph(&[("D", "C"), ("C", "B"), ("B", "A")]);
    assert_eq!(propagate(&g, "A"), Ok(vec![step("B", "A"), step("C", "B"), step("D", "C")]));
}

#[test]
fn propagate_finishes_a_subtree_before_the_next_sibling() {
    let g = graph(&[("B", "A"), ("C", "A"), ("B1", "B"), ("C1", "C"), ("B2", "B"), ("B11", "B1")]);
    assert_eq!(
        propagate(&g, "A"),
        Ok(vec![
            step("B", "A"),
            step("B1", "B"),
            step("B11", "B1"),
            step("B2", "B"),
            step("C", "A"),
            step("C1", "C"),
        ])
    );
}

#[test]
fn propagate_twice_gives_the_same_steps() {
    let g = get_child_map("branch.b.stack-parent a\nbranch.c.stack-parent b\n");
    assert_eq!(propagate(&g, "a"), propagate(&g, "a"));
}

#[test]
fn propagate_refuses_a_cycle() {
    let g = graph(&[("b", "a"), ("a", "b")]);
    assert_eq!(propagate(&g, "a"), Err(StackError::CorruptStack));
    let own = graph(&[("a", "a")]);
    assert_eq!(propagate(&own, "a"), Err(StackError::CorruptStack));
}

#[test]
fn propagate_ignores_a_cycle_out_of_reach() {
    let g = graph(&[("b", "a"), ("y", "x"), ("x", "y")]);
    assert_eq!(propagate(&g, "a"), Ok(vec![step("b", "a")]));
}

#[test]
fn propagate_reaches_the_deepest_chain_the_links_allow() {
    let g = graph(&[("b", "a"), ("c", "b"), ("d", "c"), ("e", "d")]);
    let steps = propagate(&g, "a").unwrap();
    assert_eq!(steps.len(), 4);
    assert_eq!(steps[3], step("e", "d"));
}

#[test]
fn step_notice_names_child_and_parent() {
    assert_eq!(step("child", "base").notice(), "   -> Rebase child onto base");
}

#[test]
fn restack_without_steps_only_restores() {
    assert_eq!(Phase::begin(0), Phase::Restore);
    assert_eq!(Phase::Restore.advance(true, 0), Phase::Finished);
    assert_eq!(Phase::Restore.advance(false, 0), Phase::Aborted);
}

#[test]
fn restack_checks_out_then_rebases_each_step() {
    let mut phase = Phase::begin(3);
    let mut seen = vec![phase];
    while phase != Phase::Finished {
        phase = phase.advance(true, 3);
        seen.push(phase);
    }
    assert_eq!(
        seen,
        vec![
            Phase::Checkout(0),
            Phase::Rebase(0),
            Phase::Checkout(1),
            Phase::Rebase(1),
            Phase::Checkout(2),
            Phase::Rebase(2),
            Phase::Restore,
            Phase::Finished,
        ]
    );
}

#[test]
fn first_failure_aborts_the_restack() {
    assert_eq!(Phase::Checkout(0).advance(false, 2), Phase::Aborted);
    assert_eq!(Phase::Rebase(0).advance(false, 2), Phase::Aborted);
    assert_eq!(Phase::Aborted.advance(true, 2), Phase::Aborted);
    assert_eq!(Phase::Finished.advance(false, 2), Phase::Finished);
}

#[test]
fn last_rebase_leads_to_restore_at_any_index() {
    assert_eq!(Phase::Rebase(1).advance(true, 2), Phase::Restore);
    assert_eq!(Phase::Rebase(usize::MAX).advance(true, 2), Phase::Restore);
    assert_eq!(Phase::Rebase(0).advance(true, 0), Phase::Restore);
}

#[test]
fn propagate_handles_a_deep_chain() {
    let names: Vec<String> = (0..2000).map(|i| format!("b{}", i)).collect();
    let links: Vec<ParentLink> = (1..names.len())
        .map(|i| ParentLink { child: names[i].clone(), parent: names[i - 1].clone() })
        .collect();
    let steps = propagate(&StackGraph::new(links), "b0").unwrap();
    assert_eq!(steps.len(), 1999);
    assert_eq!(steps[0], step("b1", "b0"));
    assert_eq!(steps[1998], step("b1999", "b1998"));
}
