use branch_stack::graph::get_child_map;
use branch_stack::links::{is_whitespace, link_key, parse_links, ParentLink};

fn link(child: &str, parent: &str) -> ParentLink {
    ParentLink { child: child.to_string(), parent: parent.to_string() }
}

fn names(v: &[&str]) -> Vec<String> {
    v.iter().map(|s| s.to_string()).collect()
}

/// What the standard library's line and token splitting make of a listing.
fn by_std(raw: &str) -> Vec<ParentLink> {
    let mut out = Vec::new();
    for line in raw.lines() {
        let parts: Vec<&str> = line.split_whitespace().collect();
        if parts.len() != 2 {
            continue;
        }
        if let Some(rest) = parts[0].strip_prefix("branch.") {
            if let Some(child) = rest.strip_suffix(".stack-parent") {
                out.push(link(child, parts[1]));
            }
        }
    }
    out
}

#[test]
fn parses_links_in_line_order() {
    let raw = "branch.b.stack-parent a\nbranch.c.stack-parent b\nbranch.d.stack-parent a";
    assert_eq!(parse_links(raw), vec![link("b", "a"), link("c", "b"), link("d", "a")]);
}

#[test]
fn empty_listing_gives_empty_graph() {
    assert_eq!(parse_links(""), vec![]);
    let graph = get_child_map("");
    assert_eq!(graph.len(), 0);
    assert_eq!(graph.children_of("main"), names(&[]));
}

#[test]
fn trailing_newline_and_blank_lines_are_ignored() {
    let raw = "\nbranch.b.stack-parent a\n\n\nbranch.c.stack-parent b\n";
    assert_eq!(parse_links(raw), vec![link("b", "a"), link("c", "b")]);
}

#[test]
fn lines_without_exactly_two_tokens_are_skipped() {
    let raw = "branch.b.stack-parent\nbranch.c.stack-parent b extra\nbranch.d.stack-parent a\nlonely";
    assert_eq!(parse_links(raw), vec![link("d", "a")]);
}

#[test]
fn keys_outside_the_pattern_are_skipped() {
    let raw = "remote.b.stack-parent a\nbranch.c.merge b\nbranch.stack-parent x\nbranch.e.stack-parent d\nxbranch.f.stack-parent d\nbranch.g.stack-parentx d";
    assert_eq!(parse_links(raw), vec![link("e", "d")]);
}

#[test]
fn branch_names_may_hold_dots_and_slashes() {
    let raw = "branch.feature/login.v2.stack-parent release/1.0";
    assert_eq!(parse_links(raw), vec![link("feature/login.v2", "release/1.0")]);
}

#[test]
fn empty_branch_name_is_accepted_by_the_pattern() {
    assert_eq!(parse_links("branch..stack-parent a"), vec![link("", "a")]);
}

#[test]
fn any_white_space_separates_tokens() {
    let raw = "  \tbranch.b.stack-parent \t  a  \r\n\u{3000}branch.c.stack-parent\u{a0}b\u{2003}\n";
    assert_eq!(parse_links(raw), vec![link("b", "a"), link("c", "b")]);
    assert_eq!(parse_links(raw), by_std(raw));
}

#[test]
fn non_ascii_names_are_kept() {
    let raw = "branch.ünïcode.stack-parent größe\nbranch.枝.stack-parent 幹";
    assert_eq!(parse_links(raw), vec![link("ünïcode", "größe"), link("枝", "幹")]);
    assert_eq!(parse_links(raw), by_std(raw));
}

#[test]
fn parsing_agrees_with_std_on_mixed_input() {
    let raws = [
        "branch.a.stack-parent main\nbranch.b.stack-parent a\n",
        "branch.a.stack-parent\tmain\r\nbranch.b.stack-parent a b\r\n\r\nbranch.c.stack-parent  a",
        "   \n\t\n",
        "branch.a.stack-parent main",
        "x y\nbranch.stack-parent.stack-parent branch.\n",
        "branch.a.stack-parent\u{85}main\u{2028}\nbranch.b.stack-parent\u{1680}a\u{205f}",
    ];
    for raw in raws {
        assert_eq!(parse_links(raw), by_std(raw), "listing {:?}", raw);
    }
}

#[test]
fn whitespace_matches_the_unicode_property() {
    let mut c = 0u32;
    while c <= 0x11000 {
        if let Some(ch) = char::from_u32(c) {
            assert_eq!(is_whitespace(ch), ch.is_whitespace(), "code point {:x}", c);
        }
        c += 1;
    }
}

#[test]
fn link_key_wraps_the_branch_name() {
    assert_eq!(link_key("feature"), "branch.feature.stack-parent");
    assert_eq!(link_key(""), "branch..stack-parent");
}

#[test]
fn link_key_round_trips_through_parsing() {
    let line = format!("{} {}", link_key("topic/x"), "base");
    assert_eq!(parse_links(&line), vec![link("topic/x", "base")]);
}

#[test]
fn children_follow_listing_order() {
    let raw = "branch.b.stack-parent a\nbranch.c.stack-parent b\nbranch.d.stack-parent a\n";
    let graph = get_child_map(raw);
    assert_eq!(graph.children_of("a"), names(&["b", "d"]));
    assert_eq!(graph.children_of("b"), names(&["c"]));
    assert_eq!(graph.children_of("c"), names(&[]));
    assert_eq!(graph.children_of("main"), names(&[]));
}

#[test]
fn children_keep_duplicates_of_the_listing() {
    let graph = get_child_map("branch.b.stack-parent a\nbranch.b.stack-parent a\n");
    assert_eq!(graph.children_of("a"), names(&["b", "b"]));
}

#[test]
fn parent_of_reads_the_recorded_link() {
    let graph = get_child_map("branch.b.stack-parent a\nbranch.c.stack-parent b\n");
    assert_eq!(graph.parent_of("b"), Some("a".to_string()));
    assert_eq!(graph.parent_of("c"), Some("b".to_string()));
    assert_eq!(graph.parent_of("a"), None);
}

#[test]
fn parent_of_takes_the_last_of_several_links() {
    let graph = get_child_map("branch.b.stack-parent a\nbranch.b.stack-parent z\n");
    assert_eq!(graph.parent_of("b"), Some("z".to_string()));
}
