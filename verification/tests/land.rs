use branch_stack::error::StackError;
use branch_stack::graph::StackGraph;
use branch_stack::land::{
    branch_exists, contains_name, is_merged_into_main, land, plan, LandAction, Verdict,
};
use branch_stack::links::ParentLink;

fn names(v: &[&str]) -> Vec<String> {
    v.iter().map(|s| s.to_string()).collect()
}

fn graph(links: &[(&str, &str)]) -> StackGraph {
    StackGraph::new(
        links
            .iter()
            .map(|(c, p)| ParentLink { child: c.to_string(), parent: p.to_string() })
            .collect(),
    )
}

fn chain() -> StackGraph {
    graph(&[("A", "main"), ("B", "A"), ("C", "B"), ("D", "C")])
}

#[test]
fn plan_orders_a_chain_from_the_trunk_upward() {
    let all = names(&["main", "A", "B", "C", "D"]);
    assert_eq!(plan(&chain(), "D", "main", &all, &names(&[])), Ok(names(&["A", "B", "C", "D"])));
}

#[test]
fn plan_skips_a_merged_ancestor_and_goes_on() {
    let all = names(&["main", "A", "B", "C", "D"]);
    assert_eq!(plan(&chain(), "D", "main", &all, &names(&["B"])), Ok(names(&["A", "C", "D"])));
}

#[test]
fn plan_skips_a_missing_ancestor_and_goes_on() {
    let some = names(&["main", "A", "C", "D"]);
    assert_eq!(plan(&chain(), "D", "main", &some, &names(&[])), Ok(names(&["A", "C", "D"])));
}

#[test]
fn plan_never_holds_the_trunk() {
    let all = names(&["main", "A", "B", "C", "D"]);
    assert_eq!(plan(&chain(), "A", "main", &all, &names(&[])), Ok(names(&["A"])));
    for current in ["A", "B", "C", "D", "main", "other"] {
        let order = plan(&chain(), current, "main", &all, &names(&[])).unwrap();
        assert!(!order.contains(&"main".to_string()));
    }
}

#[test]
fn plan_on_the_trunk_is_empty() {
    let all = names(&["main", "A"]);
    assert_eq!(plan(&chain(), "main", "main", &all, &names(&[])), Ok(names(&[])));
}

#[test]
fn plan_of_an_unlinked_branch_is_the_branch() {
    let all = names(&["main", "solo"]);
    assert_eq!(plan(&chain(), "solo", "main", &all, &names(&[])), Ok(names(&["solo"])));
}

#[test]
fn plan_keeps_current_even_when_merged() {
    let all = names(&["main", "A", "B"]);
    assert_eq!(plan(&chain(), "B", "main", &all, &names(&["B"])), Ok(names(&["A", "B"])));
}

#[test]
fn plan_stops_at_a_root_that_is_not_the_trunk() {
    let g = graph(&[("B", "A"), ("C", "B")]);
    let all = names(&["A", "B", "C"]);
    assert_eq!(plan(&g, "C", "main", &all, &names(&[])), Ok(names(&["A", "B", "C"])));
}

#[test]
fn plan_refuses_a_cycle() {
    let g = graph(&[("a", "b"), ("b", "a")]);
    let all = names(&["a", "b"]);
    assert_eq!(plan(&g, "a", "main", &all, &names(&[])), Err(StackError::CorruptStack));
}

#[test]
fn plan_uses_every_link_of_the_longest_chain() {
    let g = graph(&[("b", "a"), ("c", "b"), ("d", "c")]);
    let all = names(&["a", "b", "c", "d"]);
    assert_eq!(plan(&g, "d", "main", &all, &names(&[])), Ok(names(&["a", "b", "c", "d"])));
}

#[test]
fn membership_reads_the_given_lists() {
    let list = names(&["a", "b"]);
    assert!(contains_name(&list, "b"));
    assert!(!contains_name(&list, "c"));
    assert!(branch_exists("a", &list));
    assert!(!branch_exists("ab", &list));
    assert!(is_merged_into_main("b", &list));
    assert!(!is_merged_into_main("", &list));
    assert!(!branch_exists("a", &names(&[])));
}

#[test]
fn land_with_empty_plan_reports_nothing_to_land() {
    let result = land(&names(&[]), "main");
    assert_eq!(result, Err(StackError::NothingToLand));
    assert_eq!(StackError::NothingToLand.message(), "Nothing to land");
}

#[test]
fn land_lays_out_each_branch_in_plan_order() {
    let s = |x: &str| x.to_string();
    assert_eq!(
        land(&names(&["A", "B"]), "main"),
        Ok(vec![
            LandAction::Checkout(s("main")),
            LandAction::Pull(s("main")),
            LandAction::SquashMerge(s("A")),
            LandAction::CommitAs(s("A")),
            LandAction::DeleteLocal(s("A")),
            LandAction::DeleteRemote(s("A")),
            LandAction::Unlink(s("A")),
            LandAction::SquashMerge(s("B")),
            LandAction::CommitAs(s("B")),
            LandAction::DeleteLocal(s("B")),
            LandAction::DeleteRemote(s("B")),
            LandAction::Unlink(s("B")),
            LandAction::Push(s("main")),
        ])
    );
}

#[test]
fn only_clean_up_failures_are_tolerated() {
    let s = |x: &str| x.to_string();
    let strict = [
        LandAction::Checkout(s("main")),
        LandAction::Pull(s("main")),
        LandAction::SquashMerge(s("A")),
        LandAction::CommitAs(s("A")),
        LandAction::DeleteLocal(s("A")),
        LandAction::Push(s("main")),
    ];
    for action in strict {
        assert!(!action.is_best_effort());
        assert_eq!(action.on_result(true), Verdict::Proceed);
        assert_eq!(action.on_result(false), Verdict::Abort);
    }
    for action in [LandAction::DeleteRemote(s("A")), LandAction::Unlink(s("A"))] {
        assert!(action.is_best_effort());
        assert_eq!(action.on_result(true), Verdict::Proceed);
        assert_eq!(action.on_result(false), Verdict::Warn);
    }
}

#[test]
fn plan_stops_at_the_trunk_inside_a_cycle() {
    let g = graph(&[("a", "b"), ("b", "main"), ("main", "a")]);
    let all = names(&["a", "b", "main"]);
    assert_eq!(plan(&g, "a", "main", &all, &names(&[])), Ok(names(&["b", "a"])));
}
