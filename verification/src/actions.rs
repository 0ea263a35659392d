//! Code actions.
//!
//! Every action here resolves a finding in the **safe** direction. Where an
//! unsafe resolution exists (widening a safety policy to match a frontmatter
//! grant, rather than narrowing the grant) it is deliberately not offered: an
//! editor that makes granting Bash a one-keystroke fix has not helped.
use vstd::prelude::*;

use crate::text::{
    chars_of, decimal, join, join_strings, leading_space, lemma_filter_facts,
    lemma_lines_have_no_newline, lemma_replace_line, lines, lines_view, push_all, push_decimal,
    push_str, replace_line, same_chars, split_lines, starts_with, starts_with_at, string_of,
    strip_cr, trim_start,
};

verus! {

/// A diagnostic as the client sends it back with a code-action request: the
/// rule id it carries in `code`, and the line its range starts on.
pub struct ClientDiagnostic {
    pub code: Option<String>,
    pub line: Option<u64>,
}

/// An edit that replaces the whole of one line of one document.
pub struct WorkspaceEdit {
    pub uri: String,
    pub line: usize,
    pub new_text: String,
}

/// A quick fix offered for one of the client's diagnostics, which it names
/// by its position in the request.
pub enum CodeAction {
    /// Rewrites one line; the preferred fix for its diagnostic.
    Edit { title: String, diagnostic: usize, edit: WorkspaceEdit },
    /// Runs an editor command with the document's URI as its argument.
    Command {
        title: String,
        diagnostic: usize,
        command_title: String,
        command: String,
        argument: String,
    },
}

/// What a code action is, in mathematical terms.
pub enum ActionView {
    Edit { title: Seq<char>, diagnostic: int, uri: Seq<char>, line: int, new_text: Seq<char> },
    Command {
        title: Seq<char>,
        diagnostic: int,
        command_title: Seq<char>,
        command: Seq<char>,
        argument: Seq<char>,
    },
}

impl View for CodeAction {
    type V = ActionView;

    open spec fn view(&self) -> ActionView {
        match self {
            CodeAction::Edit { title, diagnostic, edit } => ActionView::Edit {
                title: title@,
                diagnostic: *diagnostic as int,
                uri: edit.uri@,
                line: edit.line as int,
                new_text: edit.new_text@,
            },
            CodeAction::Command { title, diagnostic, command_title, command, argument } =>
                ActionView::Command {
                title: title@,
                diagnostic: *diagnostic as int,
                command_title: command_title@,
                command: command@,
                argument: argument@,
            },
        }
    }
}

impl CodeAction {
    /// The LSP kind of every action offered here: a quick fix.
    pub fn kind(&self) -> (r: &'static str)
        ensures
            r@ == "quickfix"@,
    {
        "quickfix"
    }

    /// Whether the client should pick this action first: an edit is the
    /// preferred fix for its diagnostic; a command is not marked.
    pub fn is_preferred(&self) -> (r: bool)
        ensures
            r == (self matches CodeAction::Edit { .. }),
    {
        match self {
            CodeAction::Edit { .. } => true,
            CodeAction::Command { .. } => false,
        }
    }
}

/// The rule id a diagnostic carries, or nothing.
pub open spec fn rule_of(d: ClientDiagnostic) -> Seq<char> {
    match d.code {
        Some(c) => c@,
        None => seq![],
    }
}

/// The line a diagnostic starts on, as an index; 0 when it gives none or
/// one that does not fit in `usize`.
pub open spec fn line_of(d: ClientDiagnostic) -> int {
    match d.line {
        Some(l) => if l <= usize::MAX {
            l as int
        } else {
            0
        },
        None => 0,
    }
}

/// Tools whose capability a `safety_policy` may deny.
pub open spec fn escalating() -> Seq<Seq<char>> {
    seq![
        "Bash"@,
        "BashOutput"@,
        "KillShell"@,
        "Write"@,
        "Edit"@,
        "NotebookEdit"@,
        "WebFetch"@,
        "WebSearch"@,
    ]
}

/// Zero-width, joiner, bidi-control, filler and tag characters: the ones a
/// reader cannot see and a model still reads.
pub open spec fn is_invisible_char(c: char) -> bool {
    let u = c as u32;
    ||| u == 0x00AD
    ||| u == 0x034F
    ||| u == 0x061C
    ||| u == 0x115F
    ||| u == 0x1160
    ||| u == 0x17B4
    ||| u == 0x17B5
    ||| u == 0x180E
    ||| (0x200B <= u && u <= 0x200F)
    ||| (0x2060 <= u && u <= 0x2064)
    ||| (0x2066 <= u && u <= 0x2069)
    ||| (0x202A <= u && u <= 0x202E)
    ||| u == 0x3164
    ||| u == 0xFEFF
    ||| u == 0xFFA0
    ||| (0xFE00 <= u && u <= 0xFE0F)
    ||| (0xE0000 <= u && u <= 0xE007F)
}

/// A line with its invisible characters taken out.
pub open spec fn visible(s: Seq<char>) -> Seq<char> {
    s.filter(|c: char| !is_invisible_char(c))
}

/// The grant with every escalating tool taken out, in its order.
pub open spec fn narrowed(tools: Seq<Seq<char>>) -> Seq<Seq<char>> {
    tools.filter(|t: Seq<char>| !escalating().contains(t))
}

/// Whether a line declares `allowed-tools`.
pub open spec fn is_tools_line(l: Seq<char>) -> bool {
    starts_with(trim_start(l), "allowed-tools"@)
}

/// The first line at or after `k` that declares `allowed-tools`.
pub open spec fn tools_line_from(ls: Seq<Seq<char>>, k: int) -> Option<int>
    decreases ls.len() - k,
{
    if k < 0 || k >= ls.len() {
        None
    } else if is_tools_line(ls[k]) {
        Some(k)
    } else {
        tools_line_from(ls, k + 1)
    }
}

/// The whitespace a line begins with.
pub open spec fn indent(l: Seq<char>) -> Seq<char> {
    l.take(l.len() - trim_start(l).len())
}

/// The action offered for the `i`th diagnostic `d`, if any.
pub open spec fn action_for(
    uri: Seq<char>,
    ls: Seq<Seq<char>>,
    tools: Seq<Seq<char>>,
    d: ClientDiagnostic,
    i: int,
) -> Option<ActionView> {
    let rule = rule_of(d);
    let line = line_of(d);
    if rule == "AGT-STEG-001"@ {
        if 0 <= line < ls.len() && visible(ls[line]) != ls[line] {
            let removed = (ls[line].len() - visible(ls[line]).len()) as nat;
            Some(
                ActionView::Edit {
                    title: "Remove "@ + decimal(removed) + " invisible character(s)"@,
                    diagnostic: i,
                    uri: uri,
                    line: line,
                    new_text: visible(ls[line]),
                },
            )
        } else {
            None
        }
    } else if rule == "AGT-CAP-001"@ {
        match tools_line_from(ls, 0) {
            Some(k) => Some(
                ActionView::Edit {
                    title: "Narrow allowed-tools to what safety_policy permits"@,
                    diagnostic: i,
                    uri: uri,
                    line: k,
                    new_text: indent(ls[k]) + "allowed-tools: "@ + join(narrowed(tools), ", "@),
                },
            ),
            None => None,
        }
    } else if rule == "AGT-POLICY-001"@ {
        Some(
            ActionView::Command {
                title: "Create metadata.json from the template (review-gated)"@,
                diagnostic: i,
                command_title: "Create metadata.json"@,
                command: "agtmls.createMetadata"@,
                argument: uri,
            },
        )
    } else {
        None
    }
}

/// The actions for the first `n` diagnostics, in their order.
pub open spec fn actions_upto(
    uri: Seq<char>,
    ls: Seq<Seq<char>>,
    tools: Seq<Seq<char>>,
    ds: Seq<ClientDiagnostic>,
    n: int,
) -> Seq<ActionView>
    decreases n,
{
    if n <= 0 {
        seq![]
    } else {
        let prev = actions_upto(uri, ls, tools, ds, n - 1);
        match action_for(uri, ls, tools, ds[n - 1], n - 1) {
            Some(a) => prev.push(a),
            None => prev,
        }
    }
}

/// The actions offered for a document and the diagnostics at the cursor.
pub open spec fn actions_spec(
    uri: Seq<char>,
    text: Seq<char>,
    ds: Seq<ClientDiagnostic>,
    tools: Seq<Seq<char>>,
) -> Seq<ActionView> {
    actions_upto(uri, lines(text), tools, ds, ds.len() as int)
}

/// The views of a list of strings.
pub open spec fn strings_view(v: Seq<String>) -> Seq<Seq<char>> {
    v.map_values(|s: String| s@)
}

/// The invisible-character fix removes exactly the invisible characters:
/// nothing it leaves is invisible, every visible character stays, and a
/// line is left unchanged exactly when it has none to remove.
pub proof fn lemma_invisible_fix_exact(s: Seq<char>)
    ensures
        visible(s).len() <= s.len(),
        forall|i: int| 0 <= i < visible(s).len() ==> !is_invisible_char(#[trigger] visible(s)[i]),
        forall|i: int|
            0 <= i < s.len() && !is_invisible_char(s[i]) ==> #[trigger] visible(s).contains(s[i]),
        (visible(s) == s) <==> (forall|i: int| 0 <= i < s.len() ==> !is_invisible_char(
            #[trigger] s[i],
        )),
{
    lemma_filter_facts(s, |c: char| !is_invisible_char(c));
}

/// The capability fix only ever narrows the grant: every tool it keeps was
/// granted and none of them escalates, and every granted tool that does
/// not escalate is kept.
pub proof fn lemma_narrowing_never_widens(tools: Seq<Seq<char>>)
    ensures
        narrowed(tools).len() <= tools.len(),
        forall|i: int|
            0 <= i < narrowed(tools).len() ==> tools.contains(#[trigger] narrowed(tools)[i])
                && !escalating().contains(narrowed(tools)[i]),
        forall|i: int|
            0 <= i < tools.len() && !escalating().contains(tools[i]) ==> #[trigger] narrowed(
                tools,
            ).contains(tools[i]),
{
    lemma_filter_facts(tools, |t: Seq<char>| !escalating().contains(t));
}

/// Whether an action touches nothing but the document it was asked for,
/// and answers one of the diagnostics the client sent.
pub open spec fn confined_to(a: ActionView, uri: Seq<char>, n: int) -> bool {
    match a {
        ActionView::Edit { uri: u, diagnostic, .. } => u == uri && 0 <= diagnostic < n,
        ActionView::Command { argument, diagnostic, .. } => argument == uri && 0 <= diagnostic < n,
    }
}

proof fn lemma_actions_upto_confined(
    uri: Seq<char>,
    ls: Seq<Seq<char>>,
    tools: Seq<Seq<char>>,
    ds: Seq<ClientDiagnostic>,
    n: int,
)
    requires
        n <= ds.len(),
    ensures
        forall|j: int|
            0 <= j < actions_upto(uri, ls, tools, ds, n).len() ==> confined_to(
                #[trigger] actions_upto(uri, ls, tools, ds, n)[j],
                uri,
                ds.len() as int,
            ),
    decreases n,
{
    if n > 0 {
        lemma_actions_upto_confined(uri, ls, tools, ds, n - 1);
        let prev = actions_upto(uri, ls, tools, ds, n - 1);
        let cur = actions_upto(uri, ls, tools, ds, n);
        assert forall|j: int| 0 <= j < cur.len() implies confined_to(
            #[trigger] cur[j],
            uri,
            ds.len() as int,
        ) by {
            if j < prev.len() {
                assert(cur[j] == prev[j]);
            }
        }
    }
}

/// Every code action stays inside the document it was asked for: an edit
/// rewrites a line of that document and a command is handed its URI, so no
/// action ever writes to the skill's `metadata.json` or its safety policy.
/// Each answers one of the diagnostics the client sent.
pub proof fn lemma_actions_stay_in_document(
    uri: Seq<char>,
    text: Seq<char>,
    ds: Seq<ClientDiagnostic>,
    tools: Seq<Seq<char>>,
)
    ensures
        forall|j: int|
            0 <= j < actions_spec(uri, text, ds, tools).len() ==> confined_to(
                #[trigger] actions_spec(uri, text, ds, tools)[j],
                uri,
                ds.len() as int,
            ),
{
    lemma_actions_upto_confined(uri, lines(text), tools, ds, ds.len() as int);
}

/// An action with the index of its diagnostic moved on by `k`.
pub open spec fn shift_action(a: ActionView, k: int) -> ActionView {
    match a {
        ActionView::Edit { title, diagnostic, uri, line, new_text } => ActionView::Edit {
            title,
            diagnostic: diagnostic + k,
            uri,
            line,
            new_text,
        },
        ActionView::Command { title, diagnostic, command_title, command, argument } =>
            ActionView::Command { title, diagnostic: diagnostic + k, command_title, command, argument },
    }
}

/// Actions with the indices of their diagnostics moved on by `k`.
pub open spec fn shifted(acts: Seq<ActionView>, k: int) -> Seq<ActionView> {
    acts.map_values(|a: ActionView| shift_action(a, k))
}

proof fn lemma_actions_upto_prefix(
    uri: Seq<char>,
    ls: Seq<Seq<char>>,
    tools: Seq<Seq<char>>,
    ds1: Seq<ClientDiagnostic>,
    ds2: Seq<ClientDiagnostic>,
    n: int,
)
    requires
        n <= ds1.len(),
        n <= ds2.len(),
        forall|j: int| 0 <= j < n ==> ds1[j] == ds2[j],
    ensures
        actions_upto(uri, ls, tools, ds1, n) == actions_upto(uri, ls, tools, ds2, n),
    decreases n,
{
    if n > 0 {
        lemma_actions_upto_prefix(uri, ls, tools, ds1, ds2, n - 1);
    }
}

proof fn lemma_actions_upto_len(
    uri: Seq<char>,
    ls: Seq<Seq<char>>,
    tools: Seq<Seq<char>>,
    ds: Seq<ClientDiagnostic>,
    n: int,
)
    requires
        0 <= n,
    ensures
        actions_upto(uri, ls, tools, ds, n).len() <= n,
    decreases n,
{
    if n > 0 {
        lemma_actions_upto_len(uri, ls, tools, ds, n - 1);
    }
}

/// The actions for diagnostics sent one after another are the actions for
/// each, in order: the actions for `a` followed by those for `b` (whose
/// diagnostics now sit after `a`'s). So no diagnostic gets more than one
/// action, none for no diagnostics, and none for a rule without a fix.
pub proof fn lemma_actions_concatenate(
    uri: Seq<char>,
    text: Seq<char>,
    a: Seq<ClientDiagnostic>,
    b: Seq<ClientDiagnostic>,
    tools: Seq<Seq<char>>,
)
    ensures
        actions_spec(uri, text, a + b, tools) == actions_spec(uri, text, a, tools) + shifted(
            actions_spec(uri, text, b, tools),
            a.len() as int,
        ),
        actions_spec(uri, text, Seq::<ClientDiagnostic>::empty(), tools) == Seq::<
            ActionView,
        >::empty(),
        actions_spec(uri, text, a, tools).len() <= a.len(),
{
    let ls = lines(text);
    let ab = a + b;
    let k = a.len() as int;
    lemma_actions_upto_len(uri, ls, tools, a, k);
    assert forall|m: int|
        0 <= m <= b.len() implies #[trigger] actions_upto(uri, ls, tools, ab, k + m) == actions_upto(
        uri,
        ls,
        tools,
        a,
        k,
    ) + shifted(actions_upto(uri, ls, tools, b, m), k) by {
        lemma_concat_upto(uri, ls, tools, a, b, m);
    }
    assert(actions_upto(uri, ls, tools, ab, k + b.len()) == actions_upto(uri, ls, tools, a, k)
        + shifted(actions_upto(uri, ls, tools, b, b.len() as int), k));
}

proof fn lemma_concat_upto(
    uri: Seq<char>,
    ls: Seq<Seq<char>>,
    tools: Seq<Seq<char>>,
    a: Seq<ClientDiagnostic>,
    b: Seq<ClientDiagnostic>,
    m: int,
)
    requires
        0 <= m <= b.len(),
    ensures
        actions_upto(uri, ls, tools, a + b, a.len() + m) == actions_upto(
            uri,
            ls,
            tools,
            a,
            a.len() as int,
        ) + shifted(actions_upto(uri, ls, tools, b, m), a.len() as int),
    decreases m,
{
    let ab = a + b;
    let k = a.len() as int;
    if m == 0 {
        lemma_actions_upto_prefix(uri, ls, tools, ab, a, k);
        assert(shifted(Seq::<ActionView>::empty(), k) =~= Seq::<ActionView>::empty());
        assert(actions_upto(uri, ls, tools, a, k) + Seq::<ActionView>::empty() =~= actions_upto(
            uri,
            ls,
            tools,
            a,
            k,
        ));
    } else {
        lemma_concat_upto(uri, ls, tools, a, b, m - 1);
        assert(ab[k + m - 1] == b[m - 1]);
        let prev_b = actions_upto(uri, ls, tools, b, m - 1);
        let base = actions_upto(uri, ls, tools, a, k);
        match action_for(uri, ls, tools, b[m - 1], m - 1) {
            Some(x) => {
                assert(action_for(uri, ls, tools, b[m - 1], k + m - 1) == Some(shift_action(x, k)));
                assert(shifted(prev_b.push(x), k) =~= shifted(prev_b, k).push(shift_action(x, k)));
                assert(base + shifted(prev_b, k).push(shift_action(x, k)) =~= (base + shifted(
                    prev_b,
                    k,
                )).push(shift_action(x, k)));
            },
            None => {
                assert(action_for(uri, ls, tools, b[m - 1], k + m - 1) is None);
            },
        }
    }
}

proof fn lemma_tools_line_from(ls: Seq<Seq<char>>, k: int)
    requires
        0 <= k,
    ensures
        match tools_line_from(ls, k) {
            Some(m) => k <= m < ls.len() && is_tools_line(ls[m]) && forall|j: int|
                k <= j < m ==> !is_tools_line(#[trigger] ls[j]),
            None => forall|j: int| k <= j < ls.len() ==> !is_tools_line(#[trigger] ls[j]),
        },
    decreases ls.len() - k,
{
    if k < ls.len() && !is_tools_line(ls[k]) {
        lemma_tools_line_from(ls, k + 1);
    }
}

/// The capability fix rewrites the grant itself, wherever the diagnostic
/// points: it is offered exactly when some line declares `allowed-tools`
/// (after its indentation), and its edit replaces the first such line with
/// that line's indentation, `allowed-tools: `, and the granted tools that
/// do not escalate, comma-separated, in their order.
pub proof fn lemma_capability_fix_edits_the_grant_line(
    uri: Seq<char>,
    text: Seq<char>,
    d: ClientDiagnostic,
    tools: Seq<Seq<char>>,
)
    requires
        rule_of(d) == "AGT-CAP-001"@,
    ensures
        ({
            let ls = lines(text);
            let acts = actions_spec(uri, text, seq![d], tools);
            &&& acts.len() <= 1
            &&& (acts.len() == 1) == (exists|k: int|
                0 <= k < ls.len() && starts_with(trim_start(#[trigger] ls[k]), "allowed-tools"@))
            &&& acts.len() == 1 ==> (acts[0] matches ActionView::Edit {
                diagnostic,
                uri: u,
                line,
                new_text,
                ..
            } && diagnostic == 0 && u == uri && 0 <= line < ls.len() && starts_with(
                trim_start(ls[line]),
                "allowed-tools"@,
            ) && (forall|j: int|
                0 <= j < line ==> !starts_with(trim_start(#[trigger] ls[j]), "allowed-tools"@))
                && new_text == ls[line].take(ls[line].len() - trim_start(ls[line]).len())
                + "allowed-tools: "@ + join(
                tools.filter(|t: Seq<char>| !escalating().contains(t)),
                ", "@,
            ))
        }),
{
    reveal_strlit("AGT-CAP-001");
    reveal_strlit("AGT-STEG-001");
    assert("AGT-CAP-001"@.len() != "AGT-STEG-001"@.len());
    let ls = lines(text);
    let ds = seq![d];
    assert(ds.len() == 1 && ds[0] == d);
    assert(actions_upto(uri, ls, tools, ds, 0) == Seq::<ActionView>::empty());
    lemma_tools_line_from(ls, 0);
    match tools_line_from(ls, 0) {
        Some(m) => {
            assert(is_tools_line(ls[m]));
        },
        None => {
            assert(!(exists|k: int|
                0 <= k < ls.len() && starts_with(trim_start(#[trigger] ls[k]), "allowed-tools"@)));
        },
    }
}

/// A diagnostic of a rule without a fix is offered nothing.
pub proof fn lemma_unknown_rule_no_action(
    uri: Seq<char>,
    text: Seq<char>,
    d: ClientDiagnostic,
    tools: Seq<Seq<char>>,
)
    requires
        rule_of(d) != "AGT-STEG-001"@,
        rule_of(d) != "AGT-CAP-001"@,
        rule_of(d) != "AGT-POLICY-001"@,
    ensures
        actions_spec(uri, text, seq![d], tools) == Seq::<ActionView>::empty(),
{
    let ds = seq![d];
    assert(ds.len() == 1 && ds[0] == d);
    assert(actions_upto(uri, lines(text), tools, ds, 0) == Seq::<ActionView>::empty());
}

/// Applying the invisible-character fix settles its diagnostic: once the
/// edit it offers is applied to the text (the line's content replaced by
/// the edit's new text, the line ending kept), the same diagnostic is
/// offered nothing.
pub proof fn lemma_invisible_fix_settles(
    uri: Seq<char>,
    text: Seq<char>,
    d: ClientDiagnostic,
    tools: Seq<Seq<char>>,
)
    requires
        rule_of(d) == "AGT-STEG-001"@,
    ensures
        forall|j: int|
            0 <= j < actions_spec(uri, text, seq![d], tools).len() ==> (
            #[trigger] actions_spec(uri, text, seq![d], tools)[j] matches ActionView::Edit {
                line,
                new_text,
                ..
            } ==> actions_spec(uri, replace_line(text, line, new_text), seq![d], tools)
                == Seq::<ActionView>::empty()),
{
    let ds = seq![d];
    assert(ds.len() == 1 && ds[0] == d);
    let ls = lines(text);
    assert(actions_upto(uri, ls, tools, ds, 0) == Seq::<ActionView>::empty());
    let l = line_of(d);
    if 0 <= l < ls.len() && visible(ls[l]) != ls[l] {
        let v = visible(ls[l]);
        let fixed = replace_line(text, l, v);
        let fl = lines(fixed);
        lemma_filter_facts(ls[l], |c: char| !is_invisible_char(c));
        lemma_lines_have_no_newline(text);
        assert(!ls[l].contains('\n'));
        assert(!v.contains('\n')) by {
            if v.contains('\n') {
                let j = choose|j: int| 0 <= j < v.len() && v[j] == '\n';
                assert(ls[l].contains(v[j]));
            }
        }
        lemma_replace_line(text, l, v);
        if 0 <= l < fl.len() {
            let x = fl[l];
            assert(forall|i: int| 0 <= i < x.len() ==> !is_invisible_char(#[trigger] x[i])) by {
                assert forall|i: int| 0 <= i < x.len() implies !is_invisible_char(#[trigger] x[i]) by {
                    if x == strip_cr(v) && x != v {
                        assert(x[i] == v[i]);
                    }
                }
            }
            lemma_filter_facts(x, |c: char| !is_invisible_char(c));
            assert(visible(x) == x);
        }
        assert(action_for(uri, fl, tools, d, 0) is None);
        assert(actions_upto(uri, fl, tools, ds, 0) == Seq::<ActionView>::empty());
        assert(actions_upto(uri, fl, tools, ds, 1) == Seq::<ActionView>::empty());
    }
}

/// Whether `c` is one of the invisible characters.
pub fn is_invisible(c: char) -> (r: bool)
    ensures
        r == is_invisible_char(c),
{
    let u = c as u32;
    u == 0x00AD || u == 0x034F || u == 0x061C || u == 0x115F || u == 0x1160 || u == 0x17B4 || u
        == 0x17B5 || u == 0x180E || (0x200B <= u && u <= 0x200F) || (0x2060 <= u && u <= 0x2064)
        || (0x2066 <= u && u <= 0x2069) || (0x202A <= u && u <= 0x202E) || u == 0x3164 || u
        == 0xFEFF || u == 0xFFA0 || (0xFE00 <= u && u <= 0xFE0F) || (0xE0000 <= u && u
        <= 0xE007F)
}

/// Whether `t` names an escalating tool.
pub fn is_escalating(t: &[char]) -> (r: bool)
    ensures
        r == escalating().contains(t@),
{
    let names: Vec<&str> = vec![
        "Bash",
        "BashOutput",
        "KillShell",
        "Write",
        "Edit",
        "NotebookEdit",
        "WebFetch",
        "WebSearch",
    ];
    let ghost all = escalating();
    assert(names@.map_values(|s: &str| s@) =~= all);
    let n = names.len();
    for i in 0..n
        invariant
            n == names@.len(),
            names@.map_values(|s: &str| s@) == all,
            all == escalating(),
            forall|j: int| 0 <= j < i ==> all[j] != t@,
    {
        let name = chars_of(names[i]);
        if same_chars(&name, t) {
            assert(all[i as int] == t@);
            return true;
        }
    }
    assert(!all.contains(t@)) by {
        if all.contains(t@) {
            let j = choose|j: int| 0 <= j < all.len() && all[j] == t@;
            assert(all[j] != t@);
        }
    }
    false
}

/// A line with its invisible characters taken out.
pub fn remove_invisible(s: &[char]) -> (r: Vec<char>)
    ensures
        r@ == visible(s@),
{
    let mut r: Vec<char> = Vec::new();
    let n = s.len();
    assert(s@.take(0).filter(|c: char| !is_invisible_char(c)) =~= seq![]) by {
        reveal(Seq::filter);
    }
    for i in 0..n
        invariant
            n == s@.len(),
            r@ == s@.take(i as int).filter(|c: char| !is_invisible_char(c)),
    {
        assert(s@.take(i + 1).drop_last() =~= s@.take(i as int));
        reveal_with_fuel(Seq::filter, 1);
        if !is_invisible(s[i]) {
            r.push(s[i]);
        }
    }
    assert(s@.take(n as int) =~= s@);
    r
}

/// The grant without its escalating tools.
pub fn narrow(tools: &Vec<String>) -> (r: Vec<String>)
    ensures
        strings_view(r@) == narrowed(strings_view(tools@)),
{
    let ghost all = strings_view(tools@);
    let mut r: Vec<String> = Vec::new();
    let n = tools.len();
    assert(all.take(0).filter(|t: Seq<char>| !escalating().contains(t)) =~= seq![]) by {
        reveal(Seq::filter);
    }
    for i in 0..n
        invariant
            n == tools@.len(),
            all == strings_view(tools@),
            strings_view(r@) == all.take(i as int).filter(|t: Seq<char>| !escalating().contains(t)),
    {
        assert(all.take(i + 1).drop_last() =~= all.take(i as int));
        reveal_with_fuel(Seq::filter, 1);
        let name = chars_of(tools[i].as_str());
        if !is_escalating(&name) {
            let ghost before = r@;
            r.push(tools[i].clone());
            assert(strings_view(r@) =~= strings_view(before).push(all[i as int]));
        }
    }
    assert(all.take(n as int) =~= all);
    r
}

/// The first line at or after `from` that declares `allowed-tools`.
fn find_tools_line(ls: &Vec<Vec<char>>, from: usize) -> (r: Option<usize>)
    requires
        from <= ls@.len(),
    ensures
        match r {
            Some(k) => k < ls@.len() && tools_line_from(lines_view(ls@), from as int) == Some(
                k as int,
            ),
            None => tools_line_from(lines_view(ls@), from as int) is None,
        },
{
    let key = chars_of("allowed-tools");
    let n = ls.len();
    let mut i = from;
    while i < n
        invariant
            from <= i <= n,
            n == ls@.len(),
            key@ == "allowed-tools"@,
            tools_line_from(lines_view(ls@), i as int) == tools_line_from(
                lines_view(ls@),
                from as int,
            ),
        decreases n - i,
    {
        let l = &ls[i];
        let a = leading_space(l);
        if starts_with_at(l, a, &key) {
            return Some(i);
        }
        i = i + 1;
    }
    None
}

/// A quick fix that rewrites one line.
pub fn edit(uri: &str, line: usize, text: &[char]) -> (r: WorkspaceEdit)
    ensures
        r.uri@ == uri@,
        r.line == line,
        r.new_text@ == text@,
{
    WorkspaceEdit { uri: uri.to_owned(), line, new_text: string_of(text) }
}

/// The action for the `i`th diagnostic, if its rule has one.
fn action_for_one(
    uri: &str,
    ls: &Vec<Vec<char>>,
    tools: &Vec<String>,
    d: &ClientDiagnostic,
    i: usize,
) -> (r: Option<CodeAction>)
    ensures
        match r {
            Some(a) => action_for(uri@, lines_view(ls@), strings_view(tools@), *d, i as int)
                == Some(a@),
            None => action_for(uri@, lines_view(ls@), strings_view(tools@), *d, i as int) is None,
        },
{
    let ghost lv = lines_view(ls@);
    let rule = match &d.code {
        Some(c) => chars_of(c.as_str()),
        None => Vec::new(),
    };
    let line: usize = match d.line {
        Some(l) => if l <= usize::MAX as u64 {
            l as usize
        } else {
            0
        },
        None => 0,
    };
    assert(rule@ == rule_of(*d));
    assert(line as int == line_of(*d));
    let steg = chars_of("AGT-STEG-001");
    let cap = chars_of("AGT-CAP-001");
    let policy = chars_of("AGT-POLICY-001");
    if same_chars(&rule, &steg) {
        if line < ls.len() {
            let source = &ls[line];
            assert(lv[line as int] == source@);
            let cleaned = remove_invisible(source);
            if !same_chars(&cleaned, source) {
                proof {
                    source@.lemma_filter_len(|c: char| !is_invisible_char(c));
                }
                let removed = source.len() - cleaned.len();
                let mut title: Vec<char> = Vec::new();
                push_str(&mut title, "Remove ");
                push_decimal(&mut title, removed as u64);
                push_str(&mut title, " invisible character(s)");
                return Some(
                    CodeAction::Edit {
                        title: string_of(&title),
                        diagnostic: i,
                        edit: edit(uri, line, &cleaned),
                    },
                );
            }
        }
        None
    } else if same_chars(&rule, &cap) {
        match find_tools_line(ls, 0) {
            Some(k) => {
                let source = &ls[k];
                assert(lv[k as int] == source@);
                let a = leading_space(source);
                let mut new_text: Vec<char> = Vec::new();
                for j in 0..a
                    invariant
                        a <= source@.len(),
                        new_text@ == source@.take(j as int),
                {
                    new_text.push(source[j]);
                    assert(new_text@ =~= source@.take(j + 1));
                }
                assert(new_text@ == indent(source@));
                push_str(&mut new_text, "allowed-tools: ");
                let kept = narrow(tools);
                let joined = join_strings(&kept, ", ");
                push_all(&mut new_text, &joined);
                Some(
                    CodeAction::Edit {
                        title: "Narrow allowed-tools to what safety_policy permits".to_owned(),
                        diagnostic: i,
                        edit: edit(uri, k, &new_text),
                    },
                )
            },
            None => None,
        }
    } else if same_chars(&rule, &policy) {
        Some(
            CodeAction::Command {
                title: "Create metadata.json from the template (review-gated)".to_owned(),
                diagnostic: i,
                command_title: "Create metadata.json".to_owned(),
                command: "agtmls.createMetadata".to_owned(),
                argument: uri.to_owned(),
            },
        )
    } else {
        None
    }
}

/// Actions for the diagnostics the client reported at the cursor; `tools`
/// is the frontmatter's `allowed-tools` grant, as the skill reader parses it.
pub fn for_diagnostics(
    uri: &str,
    text: &str,
    diagnostics: &Vec<ClientDiagnostic>,
    tools: &Vec<String>,
) -> (r: Vec<CodeAction>)
    ensures
        r@.map_values(|a: CodeAction| a@) == actions_spec(
            uri@,
            text@,
            diagnostics@,
            strings_view(tools@),
        ),
{
    let chars = chars_of(text);
    let ls = split_lines(&chars);
    let ghost lv = lines_view(ls@);
    let ghost tv = strings_view(tools@);
    let mut actions: Vec<CodeAction> = Vec::new();
    let n = diagnostics.len();
    for i in 0..n
        invariant
            n == diagnostics@.len(),
            lv == lines_view(ls@),
            lv == lines(text@),
            tv == strings_view(tools@),
            actions@.map_values(|a: CodeAction| a@) == actions_upto(
                uri@,
                lv,
                tv,
                diagnostics@,
                i as int,
            ),
    {
        let ghost before = actions@;
        let found = action_for_one(uri, &ls, tools, &diagnostics[i], i);
        match found {
            Some(a) => {
                actions.push(a);
                assert(actions@.map_values(|a: CodeAction| a@) =~= before.map_values(
                    |a: CodeAction| a@,
                ).push(a@));
            },
            None => {},
        }
    }
    actions
}

} // verus!
