use branch_stack::error::StackError;
use branch_stack::graph::StackGraph;
use branch_stack::links::ParentLink;
use branch_stack::tree::{render, stack_root, Connector, TreeRow};

fn graph(links: &[(&str, &str)]) -> StackGraph {
    StackGraph::new(
        links
            .iter()
            .map(|(c, p)| ParentLink { child: c.to_string(), parent: p.to_string() })
            .collect(),
    )
}

fn row(guides: &[bool], connector: Connector, branch: &str, current: bool) -> TreeRow {
    TreeRow { guides: guides.to_vec(), connector, branch: branch.to_string(), current }
}

fn two_level() -> StackGraph {
    graph(&[("X", "R"), ("Y", "R"), ("Z", "X")])
}

#[test]
fn renders_a_two_level_stack() {
    let rows = render(&two_level(), "Z").unwrap();
    assert_eq!(
        rows,
        vec![
            row(&[], Connector::Root, "R", false),
            row(&[], Connector::Mid, "X", false),
            row(&[true], Connector::End, "Z", true),
            row(&[], Connector::End, "Y", false),
        ]
    );
}

#[test]
fn two_level_stack_as_text() {
    let rows = render(&two_level(), "Y").unwrap();
    let lines: Vec<String> = rows.iter().map(|r| r.headline()).collect();
    assert_eq!(lines, vec!["R", "├── X", "│   └── Z", "└── Y ◀"]);
    let summaries: Vec<String> = rows.iter().map(|r| r.summary_line("abc1234 msg")).collect();
    assert_eq!(
        summaries,
        vec!["    abc1234 msg", "    abc1234 msg", "│       abc1234 msg", "    abc1234 msg"]
    );
}

#[test]
fn guides_stop_under_a_last_sibling() {
    let g = graph(&[("a", "r"), ("b", "a"), ("c", "b"), ("d", "a")]);
    let rows = render(&g, "r").unwrap();
    let lines: Vec<String> = rows.iter().map(|r| r.headline()).collect();
    assert_eq!(lines, vec!["r ◀", "└── a", "    ├── b", "    │   └── c", "    └── d"]);
}

#[test]
fn missing_summary_leaves_the_indentation() {
    let r = row(&[true, false], Connector::End, "x", false);
    assert_eq!(r.summary_line(""), "│           ");
    assert_eq!(r.headline(), "│       └── x");
}

#[test]
fn render_of_an_unlinked_branch_is_one_row() {
    let rows = render(&two_level(), "alone").unwrap();
    assert_eq!(rows, vec![row(&[], Connector::Root, "alone", true)]);
}

#[test]
fn root_is_found_past_the_trunk() {
    let g = graph(&[("a", "main"), ("b", "a"), ("main", "upstream")]);
    assert_eq!(stack_root(&g, "b"), Ok("upstream".to_string()));
    assert_eq!(stack_root(&g, "upstream"), Ok("upstream".to_string()));
    assert_eq!(stack_root(&two_level(), "Z"), Ok("R".to_string()));
}

#[test]
fn render_refuses_a_cycle() {
    let g = graph(&[("a", "b"), ("b", "a")]);
    assert_eq!(stack_root(&g, "a"), Err(StackError::CorruptStack));
    assert_eq!(render(&g, "a"), Err(StackError::CorruptStack));
    let below = graph(&[("x", "r"), ("y", "x"), ("x", "y")]);
    assert_eq!(render(&below, "r"), Err(StackError::CorruptStack));
}

#[test]
fn render_handles_a_deep_chain() {
    let links: Vec<(String, String)> =
        (1..1000).map(|i| (format!("b{}", i), format!("b{}", i - 1))).collect();
    let g = StackGraph::new(
        links.iter().map(|(c, p)| ParentLink { child: c.clone(), parent: p.clone() }).collect(),
    );
    let rows = render(&g, "b999").unwrap();
    assert_eq!(rows.len(), 1000);
    assert_eq!(rows[0].branch, "b0");
    assert_eq!(rows[999].guides.len(), 998);
    assert!(rows[999].current);
    assert_eq!(rows[999].connector, Connector::End);
}
