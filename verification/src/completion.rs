//! Frontmatter completion.
//!
//! The keys and the `allowed-tools` values are the two things an author
//! currently has to remember or look up, and getting `allowed-tools` wrong is
//! not a typo: it is a capability grant.
use vstd::prelude::*;

use crate::text::{
    chars_of, has_char, leading_space, lines, lines_view, push_str, same_chars, split_lines,
    starts_with, starts_with_at, trim, trim_start, trimmed,
};

verus! {

/// One completion: what is inserted, what kind of thing it is, and what
/// the editor shows beside it.
pub struct CompletionItem {
    pub label: String,
    pub kind: u8,
    pub detail: String,
}

impl View for CompletionItem {
    type V = (Seq<char>, u8, Seq<char>);

    open spec fn view(&self) -> (Seq<char>, u8, Seq<char>) {
        (self.label@, self.kind, self.detail@)
    }
}

/// The completion kind of a frontmatter key (a property).
pub open spec fn key_kind() -> u8 {
    14
}

/// The completion kind of an `allowed-tools` value (a value).
pub open spec fn tool_kind() -> u8 {
    6
}

/// Frontmatter keys, with what each one is for.
pub open spec fn key_table() -> Seq<(Seq<char>, Seq<char>)> {
    seq![
        ("name"@, "Skill name. Must match the directory name."@),
        (
            "description"@,
            "What the skill is for, and when to load it. This is the text a router matches against, so write the trigger, not the summary."@,
        ),
        (
            "allowed-tools"@,
            "Tools the runtime grants this skill. The runtime honours this, not metadata.json, so it must not exceed what safety_policy admits (AGT-CAP-001)."@,
        ),
        ("license"@, "SPDX expression."@),
        ("compatibility"@, "Runtimes this skill has been tested against."@),
    ]
}

/// Tools, and the capability each implies.
pub open spec fn tool_table() -> Seq<(Seq<char>, Seq<char>)> {
    seq![
        ("Read"@, "Read files. No capability implied."@),
        ("Glob"@, "Match paths. No capability implied."@),
        ("Grep"@, "Search contents. No capability implied."@),
        ("Write"@, "Create files \u{2014} requires safety_policy.writes_files."@),
        ("Edit"@, "Modify files \u{2014} requires safety_policy.writes_files."@),
        ("Bash"@, "Run shell commands \u{2014} requires safety_policy.executes_commands."@),
        ("WebFetch"@, "Fetch a URL \u{2014} requires safety_policy.network_access."@),
        ("WebSearch"@, "Search the web \u{2014} requires safety_policy.network_access."@),
    ]
}

/// The first line at or after `k` that is `---` once trimmed.
pub open spec fn closing_from(ls: Seq<Seq<char>>, k: int) -> Option<int>
    decreases ls.len() - k,
{
    if k < 0 || k >= ls.len() {
        None
    } else if trim(ls[k]) == "---"@ {
        Some(k)
    } else {
        closing_from(ls, k + 1)
    }
}

/// Whether `line` lies strictly between an opening `---` on the first line
/// and the next `---`.
pub open spec fn in_frontmatter_spec(ls: Seq<Seq<char>>, line: int) -> bool {
    &&& ls.len() > 0
    &&& trim(ls[0]) == "---"@
    &&& match closing_from(ls, 1) {
        Some(close) => 0 < line < close,
        None => false,
    }
}

/// The index at which the frontmatter scan stops: the next `---` after the
/// first line, or the end of the document.
pub open spec fn scan_end(ls: Seq<Seq<char>>) -> int {
    match closing_from(ls, 1) {
        Some(close) => close,
        None => ls.len() as int,
    }
}

/// Whether some line after the first and before the next `---` begins,
/// after its indentation, with `key` and a colon.
pub open spec fn declared_spec(ls: Seq<Seq<char>>, key: Seq<char>) -> bool {
    exists|j: int| 1 <= j < scan_end(ls) && starts_with(trim_start(ls[j]), key + ":"@)
}

/// The line under the cursor, or nothing past the end.
pub open spec fn current_line(ls: Seq<Seq<char>>, line: int) -> Seq<char> {
    if 0 <= line < ls.len() {
        ls[line]
    } else {
        seq![]
    }
}

/// The keys offered on a key line: those not declared yet, and the one the
/// line has begun to name.
pub open spec fn offered_keys(ls: Seq<Seq<char>>, current: Seq<char>) -> Seq<
    (Seq<char>, Seq<char>),
> {
    key_table().filter(
        |e: (Seq<char>, Seq<char>)|
            !declared_spec(ls, e.0) || starts_with(trim_start(current), e.0),
    )
}

/// Table entries as completion items of one kind.
pub open spec fn as_items(t: Seq<(Seq<char>, Seq<char>)>, kind: u8) -> Seq<
    (Seq<char>, u8, Seq<char>),
> {
    t.map_values(|e: (Seq<char>, Seq<char>)| (e.0, kind, e.1))
}

/// The completions for a cursor on `line` of `text`.
pub open spec fn items_spec(text: Seq<char>, line: int) -> Seq<(Seq<char>, u8, Seq<char>)> {
    let ls = lines(text);
    let current = current_line(ls, line);
    if !in_frontmatter_spec(ls, line) {
        seq![]
    } else if starts_with(trim_start(current), "allowed-tools"@) {
        as_items(tool_table(), tool_kind())
    } else if current.contains(':') {
        seq![]
    } else {
        as_items(offered_keys(ls, current), key_kind())
    }
}

fn table_view(t: &Vec<(&str, &str)>) -> (r: Ghost<Seq<(Seq<char>, Seq<char>)>>)
    ensures
        r@ == t@.map_values(|e: (&str, &str)| (e.0@, e.1@)),
{
    Ghost(t@.map_values(|e: (&str, &str)| (e.0@, e.1@)))
}

fn keys() -> (r: Vec<(&'static str, &'static str)>)
    ensures
        r@.map_values(|e: (&str, &str)| (e.0@, e.1@)) == key_table(),
{
    let r = vec![
        ("name", "Skill name. Must match the directory name."),
        (
            "description",
            "What the skill is for, and when to load it. This is the text a router matches against, so write the trigger, not the summary.",
        ),
        (
            "allowed-tools",
            "Tools the runtime grants this skill. The runtime honours this, not metadata.json, so it must not exceed what safety_policy admits (AGT-CAP-001).",
        ),
        ("license", "SPDX expression."),
        ("compatibility", "Runtimes this skill has been tested against."),
    ];
    assert(r@.map_values(|e: (&str, &str)| (e.0@, e.1@)) =~= key_table());
    r
}

fn tools() -> (r: Vec<(&'static str, &'static str)>)
    ensures
        r@.map_values(|e: (&str, &str)| (e.0@, e.1@)) == tool_table(),
{
    let r = vec![
        ("Read", "Read files. No capability implied."),
        ("Glob", "Match paths. No capability implied."),
        ("Grep", "Search contents. No capability implied."),
        ("Write", "Create files \u{2014} requires safety_policy.writes_files."),
        ("Edit", "Modify files \u{2014} requires safety_policy.writes_files."),
        ("Bash", "Run shell commands \u{2014} requires safety_policy.executes_commands."),
        ("WebFetch", "Fetch a URL \u{2014} requires safety_policy.network_access."),
        ("WebSearch", "Search the web \u{2014} requires safety_policy.network_access."),
    ];
    assert(r@.map_values(|e: (&str, &str)| (e.0@, e.1@)) =~= tool_table());
    r
}

/// A completion item.
pub fn item(label: &str, detail: &str, kind: u8) -> (r: CompletionItem)
    ensures
        r@ == (label@, kind, detail@),
{
    CompletionItem { label: label.to_owned(), kind, detail: detail.to_owned() }
}

/// The first line at or after `from` that is `---` once trimmed.
fn find_closing(ls: &Vec<Vec<char>>, from: usize) -> (r: Option<usize>)
    requires
        from <= ls@.len(),
    ensures
        match r {
            Some(k) => k < ls@.len() && closing_from(lines_view(ls@), from as int) == Some(
                k as int,
            ),
            None => closing_from(lines_view(ls@), from as int) is None,
        },
{
    let fence = chars_of("---");
    let n = ls.len();
    let mut i = from;
    while i < n
        invariant
            from <= i <= n,
            n == ls@.len(),
            fence@ == "---"@,
            closing_from(lines_view(ls@), i as int) == closing_from(lines_view(ls@), from as int),
        decreases n - i,
    {
        let t = trimmed(&ls[i]);
        if same_chars(&t, &fence) {
            return Some(i);
        }
        i = i + 1;
    }
    None
}

/// Whether `line` lies inside the frontmatter: after an opening `---` on
/// the first line and before the next `---`.
pub fn in_frontmatter(lines: &Vec<Vec<char>>, line: usize) -> (r: bool)
    ensures
        r == in_frontmatter_spec(lines_view(lines@), line as int),
{
    if lines.len() == 0 {
        return false;
    }
    let fence = chars_of("---");
    let first = trimmed(&lines[0]);
    if !same_chars(&first, &fence) {
        return false;
    }
    match find_closing(lines, 1) {
        Some(close) => line > 0 && line < close,
        None => false,
    }
}

/// Whether the frontmatter already declares `key`.
pub fn declared(lines: &Vec<Vec<char>>, key: &str) -> (r: bool)
    ensures
        r == declared_spec(lines_view(lines@), key@),
{
    let ghost lv = lines_view(lines@);
    let mut pattern = chars_of(key);
    push_str(&mut pattern, ":");
    let fence = chars_of("---");
    let n = lines.len();
    let mut i: usize = 1;
    while i < n
        invariant
            1 <= i,
            n == lines@.len(),
            lv == lines_view(lines@),
            pattern@ == key@ + ":"@,
            fence@ == "---"@,
            closing_from(lv, i as int) == closing_from(lv, 1),
            forall|j: int| 1 <= j < i ==> !starts_with(trim_start(lv[j]), key@ + ":"@),
        decreases n - i,
    {
        let l = &lines[i];
        let t = trimmed(l);
        if same_chars(&t, &fence) {
            assert(scan_end(lv) == i);
            return false;
        }
        let a = leading_space(l);
        if starts_with_at(l, a, &pattern) {
            assert(1 <= i < scan_end(lv) && starts_with(trim_start(lv[i as int]), key@ + ":"@)) by {
                if closing_from(lv, 1) is Some {
                    lemma_closing_after(lv, i as int);
                }
            }
            return true;
        }
        i = i + 1;
    }
    assert(!declared_spec(lv, key@)) by {
        if n > 0 || true {
            assert(scan_end(lv) <= n) by {
                if closing_from(lv, 1) is Some {
                    lemma_closing_bounds(lv, 1);
                }
            }
        }
    }
    false
}

proof fn lemma_closing_bounds(ls: Seq<Seq<char>>, k: int)
    ensures
        closing_from(ls, k) matches Some(c) ==> k <= c < ls.len(),
    decreases ls.len() - k,
{
    if 0 <= k < ls.len() && trim(ls[k]) != "---"@ {
        lemma_closing_bounds(ls, k + 1);
    }
}

/// Before the closing fence, each line is not one.
proof fn lemma_closing_after(ls: Seq<Seq<char>>, i: int)
    requires
        1 <= i < ls.len(),
        closing_from(ls, i) == closing_from(ls, 1),
        trim(ls[i]) != "---"@,
    ensures
        closing_from(ls, 1) matches Some(c) ==> i < c,
{
    lemma_closing_bounds(ls, i + 1);
}

/// Completion stays out of the body: once the frontmatter has closed (and
/// anywhere, when the document does not open with one) nothing is offered.
pub proof fn lemma_nothing_in_the_body(text: Seq<char>, line: int)
    requires
        closing_from(lines(text), 1) matches Some(close) ==> line >= close,
    ensures
        items_spec(text, line) == Seq::<(Seq<char>, u8, Seq<char>)>::empty(),
{
}

/// Keys already declared in the frontmatter are not offered again, unless
/// the cursor's line is the one that names them; every offered key is one
/// of the known keys, as a key completion.
pub proof fn lemma_declared_keys_not_offered(ls: Seq<Seq<char>>, current: Seq<char>)
    ensures
        forall|i: int|
            0 <= i < offered_keys(ls, current).len() ==> {
                let e = #[trigger] offered_keys(ls, current)[i];
                &&& key_table().contains(e)
                &&& (!declared_spec(ls, e.0) || starts_with(trim_start(current), e.0))
            },
{
    let pred = |e: (Seq<char>, Seq<char>)|
        !declared_spec(ls, e.0) || starts_with(trim_start(current), e.0);
    crate::text::lemma_filter_facts(key_table(), pred);
}

proof fn lemma_closing_from_props(ls: Seq<Seq<char>>, k: int)
    requires
        0 <= k,
    ensures
        match closing_from(ls, k) {
            Some(c) => k <= c < ls.len() && trim(ls[c]) == "---"@ && forall|i: int|
                k <= i < c ==> trim(#[trigger] ls[i]) != "---"@,
            None => forall|i: int| k <= i < ls.len() ==> trim(#[trigger] ls[i]) != "---"@,
        },
    decreases ls.len() - k,
{
    if k < ls.len() && trim(ls[k]) != "---"@ {
        lemma_closing_from_props(ls, k + 1);
    }
}

/// Whether line `j` lies in the frontmatter scan: after the first line and
/// with no `---` line from the second line up to it.
pub open spec fn before_fence(ls: Seq<Seq<char>>, j: int) -> bool {
    1 <= j < ls.len() && forall|m: int| 1 <= m <= j ==> trim(#[trigger] ls[m]) != "---"@
}

/// A key is declared exactly when some frontmatter line, after its
/// indentation, begins with the key and a colon, whatever follows the
/// colon (a value, nothing, or a block list on the next lines).
pub proof fn lemma_declared_is_key_colon(ls: Seq<Seq<char>>, key: Seq<char>)
    ensures
        declared_spec(ls, key) == exists|j: int|
            #![trigger ls[j]]
            before_fence(ls, j) && starts_with(trim_start(ls[j]), key + ":"@),
{
    lemma_closing_from_props(ls, 1);
    if declared_spec(ls, key) {
        let j = choose|j: int|
            1 <= j < scan_end(ls) && starts_with(trim_start(ls[j]), key + ":"@);
        assert(before_fence(ls, j));
    }
    if exists|j: int|
        #![trigger ls[j]]
        before_fence(ls, j) && starts_with(trim_start(ls[j]), key + ":"@) {
        let j = choose|j: int|
            #![trigger ls[j]]
            before_fence(ls, j) && starts_with(trim_start(ls[j]), key + ":"@);
        match closing_from(ls, 1) {
            Some(c) => {
                if j >= c {
                    assert(trim(ls[c]) != "---"@);
                }
            },
            None => {},
        }
        assert(1 <= j < scan_end(ls));
    }
}

/// On a key line of the frontmatter, a key is offered exactly when no
/// frontmatter line declares it (begins, after its indentation, with the
/// key and a colon), or when the cursor's line begins with it; every item
/// offered there is a key, with its description.
pub proof fn lemma_offered_keys_are_undeclared(text: Seq<char>, line: int)
    requires
        in_frontmatter_spec(lines(text), line),
        !starts_with(trim_start(current_line(lines(text), line)), "allowed-tools"@),
        !current_line(lines(text), line).contains(':'),
    ensures
        forall|i: int|
            0 <= i < key_table().len() ==> (items_spec(text, line).contains(
                (#[trigger] key_table()[i].0, 14u8, key_table()[i].1),
            ) == (!(exists|j: int|
                #![trigger lines(text)[j]]
                before_fence(lines(text), j) && starts_with(
                    trim_start(lines(text)[j]),
                    key_table()[i].0 + ":"@,
                )) || starts_with(
                trim_start(current_line(lines(text), line)),
                key_table()[i].0,
            ))),
        forall|k: int|
            0 <= k < items_spec(text, line).len() ==> key_table().contains(
                ((#[trigger] items_spec(text, line)[k]).0, items_spec(text, line)[k].2),
            ) && items_spec(text, line)[k].1 == 14u8,
{
    let ls = lines(text);
    let current = current_line(ls, line);
    let pred = |e: (Seq<char>, Seq<char>)|
        !declared_spec(ls, e.0) || starts_with(trim_start(current), e.0);
    let offered = key_table().filter(pred);
    crate::text::lemma_filter_facts(key_table(), pred);
    let its = items_spec(text, line);
    assert(its == as_items(offered, key_kind()));
    reveal_strlit("name");
    reveal_strlit("description");
    reveal_strlit("allowed-tools");
    reveal_strlit("license");
    reveal_strlit("compatibility");
    let kt = key_table();
    assert(kt[0].0.len() == 4 && kt[1].0.len() == 11 && kt[2].0.len() == 13 && kt[3].0.len() == 7
        && kt[4].0.len() == 13);
    assert(kt[2].0[0] != kt[4].0[0]);
    assert forall|i: int| 0 <= i < kt.len() implies its.contains(
        (#[trigger] kt[i].0, 14u8, kt[i].1),
    ) == (!(exists|j: int|
        #![trigger ls[j]]
        before_fence(ls, j) && starts_with(trim_start(ls[j]), kt[i].0 + ":"@)) || starts_with(
        trim_start(current),
        kt[i].0,
    )) by {
        lemma_declared_is_key_colon(ls, kt[i].0);
        if pred(kt[i]) {
            assert(offered.contains(kt[i]));
            let m = choose|m: int| 0 <= m < offered.len() && offered[m] == kt[i];
            assert(its[m] == (kt[i].0, 14u8, kt[i].1));
        } else {
            if its.contains((kt[i].0, 14u8, kt[i].1)) {
                let m = choose|m: int| 0 <= m < its.len() && its[m] == (kt[i].0, 14u8, kt[i].1);
                assert(offered[m].0 == kt[i].0);
                assert(kt.contains(offered[m]));
                let q = choose|q: int| 0 <= q < kt.len() && kt[q] == offered[m];
                assert(q == i);
                assert(pred(offered[m]));
            }
        }
    }
    assert forall|k: int| 0 <= k < its.len() implies kt.contains(((#[trigger] its[k]).0, its[k].2))
        && its[k].1 == 14u8 by {
        assert(kt.contains(offered[k]));
    }
}

/// Completions for the cursor's line.
///
/// Deliberately context-sensitive on one axis only (whether the line is an
/// `allowed-tools` line) because offering tool names where a key belongs is
/// worse than offering nothing.
pub fn items(text: &str, line: usize) -> (r: Vec<CompletionItem>)
    ensures
        r@.map_values(|i: CompletionItem| i@) == items_spec(text@, line as int),
{
    let chars = chars_of(text);
    let ls = split_lines(&chars);
    let ghost lv = lines_view(ls@);
    let empty: Vec<char> = Vec::new();
    let current: &Vec<char> = if line < ls.len() {
        &ls[line]
    } else {
        &empty
    };
    assert(current@ == current_line(lv, line as int));
    if !in_frontmatter(&ls, line) {
        let r: Vec<CompletionItem> = Vec::new();
        assert(r@.map_values(|i: CompletionItem| i@) =~= seq![]);
        return r;
    }
    let tools_key = chars_of("allowed-tools");
    let a = leading_space(current);
    if starts_with_at(current, a, &tools_key) {
        let table = tools();
        let mut r: Vec<CompletionItem> = Vec::new();
        let n = table.len();
        for i in 0..n
            invariant
                n == table@.len(),
                table@.map_values(|e: (&str, &str)| (e.0@, e.1@)) == tool_table(),
                r@.map_values(|i: CompletionItem| i@) == as_items(tool_table(), tool_kind()).take(
                    i as int,
                ),
        {
            let ghost before = r@;
            let (name, detail) = table[i];
            assert(tool_table()[i as int] == (name@, detail@));
            r.push(item(name, detail, 6));
            assert(r@.map_values(|i: CompletionItem| i@) =~= before.map_values(
                |i: CompletionItem| i@,
            ).push((name@, 6u8, detail@)));
            assert(r@.map_values(|i: CompletionItem| i@) =~= as_items(
                tool_table(),
                tool_kind(),
            ).take(i + 1));
        }
        assert(as_items(tool_table(), tool_kind()).take(n as int) =~= as_items(
            tool_table(),
            tool_kind(),
        ));
        return r;
    }
    if has_char(current, ':') {
        let r: Vec<CompletionItem> = Vec::new();
        assert(r@.map_values(|i: CompletionItem| i@) =~= seq![]);
        return r;
    }
    let table = keys();
    let ghost pred = |e: (Seq<char>, Seq<char>)|
        !declared_spec(lv, e.0) || starts_with(trim_start(current@), e.0);
    let mut r: Vec<CompletionItem> = Vec::new();
    let n = table.len();
    assert(key_table().take(0).filter(pred) =~= seq![]) by {
        reveal(Seq::filter);
    }
    for i in 0..n
        invariant
            n == table@.len(),
            n == key_table().len(),
            table@.map_values(|e: (&str, &str)| (e.0@, e.1@)) == key_table(),
            lv == lines_view(ls@),
            a as int == current@.len() - trim_start(current@).len(),
            current@.skip(a as int) == trim_start(current@),
            a <= current@.len(),
            pred == (|e: (Seq<char>, Seq<char>)|
                !declared_spec(lv, e.0) || starts_with(trim_start(current@), e.0)),
            r@.map_values(|i: CompletionItem| i@) == as_items(
                key_table().take(i as int).filter(pred),
                key_kind(),
            ),
    {
        let ghost before = r@;
        let (key, detail) = table[i];
        assert(key_table()[i as int] == (key@, detail@));
        let key_chars = chars_of(key);
        let offered = !declared(&ls, key) || starts_with_at(current, a, &key_chars);
        assert(offered == pred(key_table()[i as int]));
        assert(key_table().take(i + 1).drop_last() =~= key_table().take(i as int));
        reveal_with_fuel(Seq::filter, 1);
        assert(key_table().take(i + 1).last() == key_table()[i as int]);
        if offered {
            assert(key_table().take(i + 1).filter(pred) == key_table().take(i as int).filter(
                pred,
            ).push(key_table()[i as int]));
            r.push(item(key, detail, 14));
            assert(r@.map_values(|i: CompletionItem| i@) =~= before.map_values(
                |i: CompletionItem| i@,
            ).push((key@, 14u8, detail@)));
            assert(r@.map_values(|i: CompletionItem| i@) =~= as_items(
                key_table().take(i + 1).filter(pred),
                key_kind(),
            ));
        } else {
            assert(r@.map_values(|i: CompletionItem| i@) =~= as_items(
                key_table().take(i + 1).filter(pred),
                key_kind(),
            ));
        }
    }
    assert(key_table().take(n as int) =~= key_table());
    r
}

} // verus!
