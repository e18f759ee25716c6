//! Parent links and the text form in which the configuration store lists them.

use vstd::prelude::*;
use vstd::string::StrSliceExecFns;
use vstd::string::StringExecFns;

verus! {

/// A branch name as contracts see it.
pub type Name = Seq<char>;

/// The mathematical value of a parent link.
pub struct Link {
    pub child: Name,
    pub parent: Name,
}

/// The declaration that `child` is based on `parent`.
#[derive(Debug, PartialEq, Eq)]
pub struct ParentLink {
    pub child: String,
    pub parent: String,
}

impl View for ParentLink {
    type V = Link;

    open spec fn view(&self) -> Link {
        Link { child: self.child@, parent: self.parent@ }
    }
}

/// The views of a sequence of names.
pub open spec fn names_of(names: Seq<String>) -> Seq<Name> {
    names.map_values(|n: String| n@)
}

/// The views of a sequence of links.
pub open spec fn links_of(links: Seq<ParentLink>) -> Seq<Link> {
    links.map_values(|l: ParentLink| l@)
}

/// What precedes the branch name in a link's configuration key.
pub open spec fn key_prefix() -> Name {
    "branch."@
}

/// What follows the branch name in a link's configuration key.
pub open spec fn key_suffix() -> Name {
    ".stack-parent"@
}

/// The configuration key under which the link of `branch` is stored.
pub open spec fn key_of(branch: Name) -> Name {
    key_prefix() + branch + key_suffix()
}

/// Whether `c` has the Unicode property White_Space.
pub open spec fn is_space(c: char) -> bool {
    let u = c as u32;
    ||| 0x09 <= u <= 0x0D
    ||| u == 0x20
    ||| u == 0x85
    ||| u == 0xA0
    ||| u == 0x1680
    ||| 0x2000 <= u <= 0x200A
    ||| u == 0x2028
    ||| u == 0x2029
    ||| u == 0x202F
    ||| u == 0x205F
    ||| u == 0x3000
}

/// Tells whether `c` is white space.
pub fn is_whitespace(c: char) -> (space: bool)
    ensures
        space == is_space(c),
{
    let u: u32 = c as u32;
    (0x09 <= u && u <= 0x0D) || u == 0x20 || u == 0x85 || u == 0xA0 || u == 0x1680 || (0x2000 <= u
        && u <= 0x200A) || u == 0x2028 || u == 0x2029 || u == 0x202F || u == 0x205F || u == 0x3000
}

/// The end of the longest run of characters, starting at `from` and not
/// passing `to`, that are all white space (`space`) or all not.
pub open spec fn run_end(s: Name, from: int, to: int, space: bool) -> int
    decreases to - from,
{
    if 0 <= from < to && from < s.len() && is_space(s[from]) == space {
        run_end(s, from + 1, to, space)
    } else {
        from
    }
}

/// Whether `key` is the configuration key of some branch's link.
pub open spec fn is_link_key(key: Name) -> bool {
    &&& key.len() >= key_prefix().len() + key_suffix().len()
    &&& key.subrange(0, key_prefix().len() as int) == key_prefix()
    &&& key.subrange(key.len() - key_suffix().len(), key.len() as int) == key_suffix()
}

/// The link that the line `s[start..end]` records: the line must consist of
/// exactly two tokens separated by white space, a link key and the parent.
pub open spec fn line_link(s: Name, start: int, end: int) -> Option<Link> {
    let key_start = run_end(s, start, end, true);
    let key_end = run_end(s, key_start, end, false);
    let value_start = run_end(s, key_end, end, true);
    let value_end = run_end(s, value_start, end, false);
    let rest = run_end(s, value_end, end, true);
    let key = s.subrange(key_start, key_end);
    if key_start < key_end && value_start < value_end && rest == end && is_link_key(key) {
        Some(
            Link {
                child: key.subrange(
                    key_prefix().len() as int,
                    key.len() - key_suffix().len(),
                ),
                parent: s.subrange(value_start, value_end),
            },
        )
    } else {
        None
    }
}

/// The links recorded by the lines of `s` from position `at` on, where the
/// line that `at` lies in starts at `line_start`. Lines end at a line feed;
/// lines that record no link are passed over.
pub open spec fn links_from(s: Name, line_start: int, at: int) -> Seq<Link>
    decreases s.len() - at,
{
    if at < 0 || at >= s.len() {
        match line_link(s, line_start, s.len() as int) {
            Some(link) => seq![link],
            None => Seq::empty(),
        }
    } else if s[at] == '\n' {
        match line_link(s, line_start, at) {
            Some(link) => seq![link] + links_from(s, at + 1, at + 1),
            None => links_from(s, at + 1, at + 1),
        }
    } else {
        links_from(s, line_start, at + 1)
    }
}

/// The links that the text `s` records, in the order of its lines.
pub open spec fn parsed_links(s: Name) -> Seq<Link> {
    links_from(s, 0, 0)
}

fn scan_run(raw: &str, from: usize, to: usize, space: bool) -> (end: usize)
    requires
        from <= to <= raw@.len(),
    ensures
        end == run_end(raw@, from as int, to as int, space),
        from <= end <= to,
{
    let mut i: usize = from;
    while i < to && is_whitespace(raw.get_char(i)) == space
        invariant
            from <= i <= to <= raw@.len(),
            run_end(raw@, from as int, to as int, space) == run_end(
                raw@,
                i as int,
                to as int,
                space,
            ),
        decreases to - i,
    {
        i += 1;
    }
    i
}

/// Tells whether `pattern` stands in `raw` at position `at`.
fn matches_at(raw: &str, at: usize, pattern: &str) -> (found: bool)
    requires
        at <= raw@.len(),
    ensures
        found == (at + pattern@.len() <= raw@.len() && raw@.subrange(
            at as int,
            at + pattern@.len(),
        ) == pattern@),
{
    let n: usize = pattern.unicode_len();
    let len: usize = raw.unicode_len();
    if n > len - at {
        return false;
    }
    let mut i: usize = 0;
    while i < n
        invariant
            i <= n == pattern@.len(),
            at + n <= len == raw@.len(),
            forall|j: int| 0 <= j < i ==> raw@[at + j] == pattern@[j],
        decreases n - i,
    {
        if raw.get_char(at + i) != pattern.get_char(i) {
            assert(raw@.subrange(at as int, at + n)[i as int] != pattern@[i as int]);
            return false;
        }
        i += 1;
    }
    assert(raw@.subrange(at as int, at + n) =~= pattern@);
    true
}

/// Reads the link that the line `raw[start..end]` records, if it records one.
fn parse_line(raw: &str, start: usize, end: usize) -> (found: Option<ParentLink>)
    requires
        start <= end <= raw@.len(),
    ensures
        found is Some == line_link(raw@, start as int, end as int) is Some,
        found is Some ==> found->0@ == line_link(raw@, start as int, end as int)->0,
{
    let key_start = scan_run(raw, start, end, true);
    let key_end = scan_run(raw, key_start, end, false);
    let value_start = scan_run(raw, key_end, end, true);
    let value_end = scan_run(raw, value_start, end, false);
    let rest = scan_run(raw, value_end, end, true);
    if key_start >= key_end || value_start >= value_end || rest != end {
        return None;
    }
    let key = raw.substring_char(key_start, key_end);
    let prefix = "branch.";
    let suffix = ".stack-parent";
    proof {
        reveal_strlit("branch.");
        reveal_strlit(".stack-parent");
    }
    let prefix_len: usize = prefix.unicode_len();
    let suffix_len: usize = suffix.unicode_len();
    let key_len: usize = key_end - key_start;
    if key_len < prefix_len + suffix_len {
        return None;
    }
    if !matches_at(key, 0, prefix) || !matches_at(key, key_len - suffix_len, suffix) {
        return None;
    }
    let child = key.substring_char(prefix_len, key_len - suffix_len);
    let parent = raw.substring_char(value_start, value_end);
    Some(ParentLink { child: String::from_str(child), parent: String::from_str(parent) })
}

/// Reads the parent links out of the listing `raw`, one link per line of the
/// form `branch.<child>.stack-parent <parent>`; every other line is skipped.
pub fn parse_links(raw: &str) -> (links: Vec<ParentLink>)
    ensures
        links_of(links@) == parsed_links(raw@),
{
    let len: usize = raw.unicode_len();
    let mut links: Vec<ParentLink> = Vec::new();
    let mut line_start: usize = 0;
    let mut at: usize = 0;
    assert(links_of(links@) =~= Seq::<Link>::empty());
    while at < len
        invariant
            line_start <= at <= len == raw@.len(),
            parsed_links(raw@) == links_of(links@) + links_from(
                raw@,
                line_start as int,
                at as int,
            ),
        decreases len - at,
    {
        if raw.get_char(at) == '\n' {
            let ghost before = links_of(links@);
            match parse_line(raw, line_start, at) {
                Some(link) => {
                    links.push(link);
                    assert(links_of(links@) =~= before + seq![link@]);
                },
                None => {},
            }
            assert(before + links_from(raw@, line_start as int, at as int) =~= links_of(links@)
                + links_from(raw@, at + 1, at + 1));
            line_start = at + 1;
        }
        at += 1;
    }
    let ghost before = links_of(links@);
    match parse_line(raw, line_start, len) {
        Some(link) => {
            links.push(link);
            assert(links_of(links@) =~= before + seq![link@]);
        },
        None => {},
    }
    assert(before + links_from(raw@, line_start as int, at as int) =~= links_of(links@));
    links
}

/// Builds the configuration key under which the link of `branch` is stored.
pub fn link_key(branch: &str) -> (key: String)
    ensures
        key@ == key_of(branch@),
{
    let mut key = String::from_str("branch.");
    key.append(branch);
    key.append(".stack-parent");
    key
}

/// An empty listing records no link.
pub proof fn lemma_empty_listing()
    ensures
        parsed_links(Seq::<char>::empty()) == Seq::<Link>::empty(),
{
}

/// Whether `name` holds no white space.
pub open spec fn is_solid(name: Name) -> bool {
    forall|k: int| 0 <= k < name.len() ==> !is_space(#[trigger] name[k])
}

/// The line of a listing that records the link from `child` to `parent`.
pub open spec fn line_of(link: Link) -> Name {
    key_of(link.child) + seq![' '] + link.parent
}

/// A run ends at `end` where everything from `from` up to `end` is of the
/// run's kind and the run cannot go on from there.
pub proof fn lemma_run_ends_at(s: Name, from: int, end: int, to: int, space: bool)
    requires
        0 <= from <= end <= to <= s.len(),
        forall|k: int| from <= k < end ==> is_space(#[trigger] s[k]) == space,
        end == to || is_space(s[end]) != space,
    ensures
        run_end(s, from, to, space) == end,
    decreases end - from,
{
    if from < end {
        lemma_run_ends_at(s, from + 1, end, to, space);
    }
}

/// A text without a line feed is read as one line.
pub proof fn lemma_one_line(s: Name, at: int)
    requires
        0 <= at <= s.len(),
        forall|k: int| 0 <= k < s.len() ==> #[trigger] s[k] != '\n',
    ensures
        links_from(s, 0, at) == match line_link(s, 0, s.len() as int) {
            Some(link) => seq![link],
            None => Seq::empty(),
        },
    decreases s.len() - at,
{
    if at < s.len() {
        lemma_one_line(s, at + 1);
    }
}

/// Reading gives back what was written: the line that records a link, of
/// branch names without white space and with a parent that is not empty,
/// is read as that link.
pub proof fn lemma_line_is_read_back(link: Link)
    requires
        is_solid(link.child),
        is_solid(link.parent),
        link.parent.len() > 0,
    ensures
        parsed_links(line_of(link)) == seq![link],
{
    reveal_strlit("branch.");
    reveal_strlit(".stack-parent");
    let key = key_of(link.child);
    let s = line_of(link);
    let key_len = key.len() as int;
    let len = s.len() as int;
    assert(key_len == 7 + link.child.len() + 13);
    assert(len == key_len + 1 + link.parent.len());
    assert forall|k: int| 0 <= k < key_len implies !is_space(#[trigger] s[k]) by {
        if k < 7 {
            assert(s[k] == key_prefix()[k]);
        } else if k < 7 + link.child.len() {
            assert(s[k] == link.child[k - 7]);
        } else {
            assert(s[k] == key_suffix()[k - 7 - link.child.len()]);
        }
    }
    assert(s[key_len] == ' ');
    assert forall|k: int| key_len + 1 <= k < len implies !is_space(#[trigger] s[k]) by {
        assert(s[k] == link.parent[k - key_len - 1]);
    }
    lemma_run_ends_at(s, 0, 0, len, true);
    lemma_run_ends_at(s, 0, key_len, len, false);
    lemma_run_ends_at(s, key_len, key_len + 1, len, true);
    lemma_run_ends_at(s, key_len + 1, len, len, false);
    lemma_run_ends_at(s, len, len, len, true);
    assert(s.subrange(0, key_len) =~= key);
    assert(key.subrange(0, 7) =~= key_prefix());
    assert(key.subrange(key_len - 13, key_len) =~= key_suffix());
    assert(key.subrange(7, key_len - 13) =~= link.child);
    assert(s.subrange(key_len + 1, len) =~= link.parent);
    assert(line_link(s, 0, len) == Some(link));
    assert forall|k: int| 0 <= k < s.len() implies #[trigger] s[k] != '\n' by {
        if k != key_len {
            assert(!is_space(s[k]));
        }
    }
    lemma_one_line(s, 0);
}

} // verus!
