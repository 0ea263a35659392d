//! Language Server Protocol handlers for `AgtMLS` agent skills.
//!
//! The diagnostics are the same rules the CLI enforces, loaded from
//! `agtmls-spec`, because a diagnostic that disagrees with CI is worse than
//! none: the author fixes what the editor shows and the build fails anyway.
//!
//! The server's decisions live here: which messages change the open
//! documents, what each request is answered, how findings become
//! diagnostics, which completions and code actions are offered, and how
//! messages are framed. The transport around it reads and writes the frames,
//! runs the rule set's analyzer where a handler asks for findings, and turns
//! the typed replies into JSON.
pub mod actions;
pub mod completion;
pub mod documents;
pub mod framing;
pub mod text;

use vstd::prelude::*;

use crate::completion::{items, items_spec, CompletionItem};
use crate::documents::Documents;
use crate::text::{
    chars_of, lines, lines_view, push_all, push_str, same_chars, split_lines, starts_with,
    starts_with_at, string_of, trim, trimmed,
};

verus! {

broadcast use vstd::string::group_string_axioms;

/// A finding of the rule set's analyzer: the 1-based line it is on, its
/// severity, the id of the rule that raised it, and what it says.
pub struct Finding {
    pub line: usize,
    pub severity: String,
    pub rule: String,
    pub message: String,
}

/// An LSP diagnostic. Its range runs from the start of `line` to
/// `end_character` on the same line; `code` is the rule id and `href` the
/// link to the rule's definition.
pub struct Diagnostic {
    pub line: u64,
    pub end_character: u32,
    pub severity: u8,
    pub code: Option<String>,
    pub href: Option<String>,
    pub source: String,
    pub message: String,
}

/// A diagnostic, in mathematical terms.
pub struct DiagnosticView {
    pub line: int,
    pub end_character: int,
    pub severity: u8,
    pub code: Option<Seq<char>>,
    pub href: Option<Seq<char>>,
    pub source: Seq<char>,
    pub message: Seq<char>,
}

/// The view of an optional string.
pub open spec fn opt_view(o: Option<String>) -> Option<Seq<char>> {
    match o {
        Some(s) => Some(s@),
        None => None,
    }
}

/// An optional string, or the empty one.
pub open spec fn or_empty(o: Option<String>) -> Seq<char> {
    match o {
        Some(s) => s@,
        None => seq![],
    }
}

impl View for Diagnostic {
    type V = DiagnosticView;

    open spec fn view(&self) -> DiagnosticView {
        DiagnosticView {
            line: self.line as int,
            end_character: self.end_character as int,
            severity: self.severity,
            code: opt_view(self.code),
            href: opt_view(self.href),
            source: self.source@,
            message: self.message@,
        }
    }
}

/// A Markdown heading, as a document symbol on `line`.
pub struct Symbol {
    pub name: String,
    pub line: u64,
}

impl View for Symbol {
    type V = (Seq<char>, int);

    open spec fn view(&self) -> (Seq<char>, int) {
        (self.name@, self.line as int)
    }
}

/// The JSON-RPC error code answered to a method the server does not
/// implement.
pub const METHOD_NOT_FOUND: i64 = -32601;

/// The LSP symbol kind a heading is reported as (a string).
pub const HEADING_SYMBOL_KIND: u8 = 15;

/// The end character that makes a range cover the rest of its line.
pub const LINE_END: u32 = u32::MAX;

/// Whether a completion list may grow as the author types more: never, the
/// list is always complete.
pub const COMPLETION_IS_INCOMPLETE: bool = false;

/// What the server tells the client it implements.
pub struct Capabilities {
    /// 1: every change sends the whole document.
    pub text_document_sync: u8,
    pub trigger_characters: Vec<String>,
    pub code_action_provider: bool,
    pub document_symbol_provider: bool,
    pub server_name: String,
}

impl View for Capabilities {
    type V = (u8, Seq<Seq<char>>, bool, bool, Seq<char>);

    open spec fn view(&self) -> (u8, Seq<Seq<char>>, bool, bool, Seq<char>) {
        (
            self.text_document_sync,
            self.trigger_characters@.map_values(|s: String| s@),
            self.code_action_provider,
            self.document_symbol_provider,
            self.server_name@,
        )
    }
}

/// The capabilities the server advertises.
pub open spec fn capabilities_view() -> (u8, Seq<Seq<char>>, bool, bool, Seq<char>) {
    (1, seq![":"@, " "@, ","@], true, true, "agtmls-lsp"@)
}

/// One message from the client, as far as the handlers read it.
pub struct Request {
    /// Whether the message carries an `id`, i.e. wants a reply.
    pub has_id: bool,
    /// `method`, when it is a string.
    pub method: Option<String>,
    /// `params.textDocument.uri`, when it is a string.
    pub uri: Option<String>,
    /// `params.textDocument.text`, when it is a string.
    pub text: Option<String>,
    /// `params.contentChanges[0].text`, when it is a string.
    pub change_text: Option<String>,
    /// `params.position.line`, when it is an unsigned integer.
    pub line: Option<u64>,
}

/// What a handled message calls for.
pub enum Outcome {
    /// Reply to `initialize` with the capabilities.
    Initialize(Capabilities),
    /// Reply to `shutdown` with a null result.
    ShutdownAck,
    /// Publish the diagnostics of the document at `uri`, whose text is now
    /// `text`; the findings come from auditing `text`.
    Publish { uri: String, text: String },
    /// Publish an empty diagnostic list for the closed document at `uri`.
    Clear { uri: String },
    /// Reply with these completions.
    Completion(Vec<CompletionItem>),
    /// Reply with the code actions for the document at `uri`, whose text is
    /// `text`.
    CodeActions { uri: String, text: String },
    /// Reply with these document symbols.
    Symbols(Vec<Symbol>),
    /// Reply with a method-not-found error carrying `message`.
    Unhandled { message: String },
}

/// An outcome, in mathematical terms.
pub enum OutcomeView {
    Initialize((u8, Seq<Seq<char>>, bool, bool, Seq<char>)),
    ShutdownAck,
    Publish { uri: Seq<char>, text: Seq<char> },
    Clear { uri: Seq<char> },
    Completion(Seq<(Seq<char>, u8, Seq<char>)>),
    CodeActions { uri: Seq<char>, text: Seq<char> },
    Symbols(Seq<(Seq<char>, int)>),
    Unhandled { message: Seq<char> },
}

impl View for Outcome {
    type V = OutcomeView;

    open spec fn view(&self) -> OutcomeView {
        match self {
            Outcome::Initialize(c) => OutcomeView::Initialize(c@),
            Outcome::ShutdownAck => OutcomeView::ShutdownAck,
            Outcome::Publish { uri, text } => OutcomeView::Publish { uri: uri@, text: text@ },
            Outcome::Clear { uri } => OutcomeView::Clear { uri: uri@ },
            Outcome::Completion(v) => OutcomeView::Completion(
                v@.map_values(|i: CompletionItem| i@),
            ),
            Outcome::CodeActions { uri, text } => OutcomeView::CodeActions {
                uri: uri@,
                text: text@,
            },
            Outcome::Symbols(v) => OutcomeView::Symbols(v@.map_values(|s: Symbol| s@)),
            Outcome::Unhandled { message } => OutcomeView::Unhandled { message: message@ },
        }
    }
}

/// The server state.
pub struct Server {
    armed: bool,
    documents: Documents,
    /// Set once the client has sent `shutdown`.
    pub shutting_down: bool,
}

/// The server state, in mathematical terms: whether a rule set is loaded,
/// the open documents by URI, and whether `shutdown` has been received.
pub struct ServerView {
    pub armed: bool,
    pub documents: Map<Seq<char>, Seq<char>>,
    pub shutting_down: bool,
}

impl View for Server {
    type V = ServerView;

    closed spec fn view(&self) -> ServerView {
        ServerView {
            armed: self.armed,
            documents: self.documents@,
            shutting_down: self.shutting_down,
        }
    }
}

/// The text of the document at `uri`, or the empty text when it is not open.
pub open spec fn doc_text(documents: Map<Seq<char>, Seq<char>>, uri: Seq<char>) -> Seq<char> {
    if documents.contains_key(uri) {
        documents[uri]
    } else {
        seq![]
    }
}

/// A requested line as an index: 0 when none is given or it does not fit
/// in `usize`.
pub open spec fn line_index(l: Option<u64>) -> int {
    match l {
        Some(x) => if x <= usize::MAX {
            x as int
        } else {
            0
        },
        None => 0,
    }
}

/// The state after a message, and what it calls for.
pub open spec fn handle_spec(s: ServerView, req: Request) -> (ServerView, Option<OutcomeView>) {
    match req.method {
        None => (s, None),
        Some(method) => {
            let m = method@;
            let target = or_empty(req.uri);
            if m == "initialize"@ {
                (s, Some(OutcomeView::Initialize(capabilities_view())))
            } else if m == "initialized"@ {
                (s, None)
            } else if m == "shutdown"@ {
                (
                    ServerView { armed: s.armed, documents: s.documents, shutting_down: true },
                    Some(OutcomeView::ShutdownAck),
                )
            } else if m == "textDocument/didOpen"@ || m == "textDocument/didChange"@ {
                let text = if m == "textDocument/didOpen"@ {
                    or_empty(req.text)
                } else {
                    or_empty(req.change_text)
                };
                match req.uri {
                    None => (s, None),
                    Some(u) => (
                        ServerView {
                            armed: s.armed,
                            documents: s.documents.insert(u@, text),
                            shutting_down: s.shutting_down,
                        },
                        Some(OutcomeView::Publish { uri: u@, text }),
                    ),
                }
            } else if m == "textDocument/didClose"@ {
                match req.uri {
                    None => (s, None),
                    Some(u) => (
                        ServerView {
                            armed: s.armed,
                            documents: s.documents.remove(u@),
                            shutting_down: s.shutting_down,
                        },
                        Some(OutcomeView::Clear { uri: u@ }),
                    ),
                }
            } else if m == "textDocument/completion"@ {
                (
                    s,
                    Some(
                        OutcomeView::Completion(
                            items_spec(doc_text(s.documents, target), line_index(req.line)),
                        ),
                    ),
                )
            } else if m == "textDocument/codeAction"@ {
                (
                    s,
                    Some(
                        OutcomeView::CodeActions {
                            uri: target,
                            text: doc_text(s.documents, target),
                        },
                    ),
                )
            } else if m == "textDocument/documentSymbol"@ {
                (s, Some(OutcomeView::Symbols(symbols_spec(doc_text(s.documents, target)))))
            } else if req.has_id {
                (s, Some(OutcomeView::Unhandled { message: "unhandled: "@ + m }))
            } else {
                (s, None)
            }
        },
    }
}

/// The number of `#` characters a line begins with.
pub open spec fn hashes(l: Seq<char>) -> nat
    decreases l.len(),
{
    if l.len() > 0 && l[0] == '#' {
        1 + hashes(l.drop_first())
    } else {
        0
    }
}

/// The heading on line `j`, if `l` is one: one or more `#`, a space, and
/// the heading's text.
pub open spec fn heading(l: Seq<char>, j: int) -> Option<(Seq<char>, int)> {
    let depth = hashes(l);
    if depth > 0 && depth < l.len() && l[depth as int] == ' ' {
        Some((trim(l.skip(depth as int + 1)), j))
    } else {
        None
    }
}

/// The length of the run of `c` that begins `s`.
pub open spec fn run_len(s: Seq<char>, c: char) -> nat
    decreases s.len(),
{
    if s.len() > 0 && s[0] == c {
        1 + run_len(s.drop_first(), c)
    } else {
        0
    }
}

/// Whether `s` holds only spaces and tabs.
pub open spec fn blank(s: Seq<char>) -> bool {
    forall|i: int| 0 <= i < s.len() ==> (#[trigger] s[i] == ' ' || s[i] == '\t')
}

/// A code fence on a line: at most three spaces of indentation, then a run
/// of three or more backticks or tildes. Gives the fence character, the
/// run's length, and where the rest of the line starts. A line indented
/// further is indented code, not a fence.
pub open spec fn fence_at(l: Seq<char>) -> Option<(char, nat, int)> {
    let k = run_len(l, ' ');
    if k <= 3 && k < l.len() && (l[k as int] == '`' || l[k as int] == '~') {
        let c = l[k as int];
        let n = run_len(l.skip(k as int), c);
        if n >= 3 {
            Some((c, n, (k + n) as int))
        } else {
            None
        }
    } else {
        None
    }
}

/// The fenced code block a line opens: a fence whose info string, for a
/// backtick fence, holds no backtick.
pub open spec fn opening_fence(l: Seq<char>) -> Option<(char, nat)> {
    match fence_at(l) {
        Some((c, n, rest)) => if c == '`' && l.skip(rest).contains('`') {
            None
        } else {
            Some((c, n))
        },
        None => None,
    }
}

/// Whether a line closes a block opened by a run of `n` characters `c`: a
/// fence of the same character, at least as long, followed only by spaces
/// and tabs.
pub open spec fn closes_fence(l: Seq<char>, c: char, n: nat) -> bool {
    match fence_at(l) {
        Some((d, m, rest)) => d == c && m >= n && blank(l.skip(rest)),
        None => false,
    }
}

/// The fenced code block open after the first `n` lines, if any: the line
/// after them lies inside it, where a `#` begins a comment of the fenced
/// language, not a heading.
pub open spec fn fence_state(ls: Seq<Seq<char>>, n: int) -> Option<(char, nat)>
    decreases n,
{
    if n <= 0 {
        None
    } else {
        match fence_state(ls, n - 1) {
            None => opening_fence(ls[n - 1]),
            Some((c, m)) => if closes_fence(ls[n - 1], c, m) {
                None
            } else {
                Some((c, m))
            },
        }
    }
}

/// The headings among the first `n` lines, in order; lines inside fenced
/// code blocks are never headings.
pub open spec fn headings_upto(ls: Seq<Seq<char>>, n: int) -> Seq<(Seq<char>, int)>
    decreases n,
{
    if n <= 0 {
        seq![]
    } else {
        let prev = headings_upto(ls, n - 1);
        match if fence_state(ls, n - 1) is Some {
            None
        } else {
            heading(ls[n - 1], n - 1)
        } {
            Some(h) => prev.push(h),
            None => prev,
        }
    }
}

/// The Markdown headings of a document, outside its fenced code blocks.
pub open spec fn symbols_spec(text: Seq<char>) -> Seq<(Seq<char>, int)> {
    headings_upto(lines(text), lines(text).len() as int)
}

/// The part of a URI after its last `/`.
pub open spec fn last_segment(s: Seq<char>) -> Seq<char>
    decreases s.len(),
{
    if s.len() == 0 {
        s
    } else if s.last() == '/' {
        seq![]
    } else {
        last_segment(s.drop_last()).push(s.last())
    }
}

/// The file a skill's structural rules read beside: the path of a
/// `file://` URI whose last segment is `SKILL.md`.
pub open spec fn skill_file_spec(uri: Seq<char>) -> Option<Seq<char>> {
    if last_segment(uri) == "SKILL.md"@ && starts_with(uri, "file://"@) {
        Some(uri.skip("file://"@.len() as int))
    } else {
        None
    }
}

/// The diagnostic published in place of findings when no rule set is
/// loaded: a warning on the first line that says the file is unchecked.
pub open spec fn unarmed_warning() -> DiagnosticView {
    DiagnosticView {
        line: 0,
        end_character: 0,
        severity: 2,
        code: None,
        href: None,
        source: "agtmls"@,
        message: "No rule set loaded. Set AGTMLS_SPEC to a checkout of https://github.com/sebastienrousseau/agtmls-spec; until then this file is unchecked, not clean."@,
    }
}

/// CRITICAL and HIGH findings are errors (1); the rest are warnings (2).
pub open spec fn severity_of(severity: Seq<char>) -> u8 {
    if severity == "CRITICAL"@ || severity == "HIGH"@ {
        1
    } else {
        2
    }
}

/// The link to a rule's definition.
pub open spec fn rule_href(rule: Seq<char>) -> Seq<char> {
    "https://github.com/sebastienrousseau/agtmls-spec/blob/main/rules/"@ + rule + ".toml"@
}

/// A finding as a diagnostic spanning its whole (0-based) line.
pub open spec fn finding_diagnostic(f: Finding) -> DiagnosticView {
    DiagnosticView {
        line: if f.line > 0 {
            f.line - 1
        } else {
            0
        },
        end_character: u32::MAX as int,
        severity: severity_of(f.severity@),
        code: Some(f.rule@),
        href: Some(rule_href(f.rule@)),
        source: "agtmls"@,
        message: f.message@,
    }
}

/// What is published for a document's findings: each finding as a
/// diagnostic, or, with no rule set, the warning alone.
pub open spec fn diagnostics_spec(armed: bool, findings: Seq<Finding>) -> Seq<DiagnosticView> {
    if armed {
        findings.map_values(|f: Finding| finding_diagnostic(f))
    } else {
        seq![unarmed_warning()]
    }
}

/// Whether a message names the method `m`.
pub open spec fn names(req: Request, m: Seq<char>) -> bool {
    req.method matches Some(x) && x@ == m
}

/// What a read of the document at `uri` answers, when `read` is one of
/// the requests that read a document.
pub open spec fn read_answer(read: Request, text: Seq<char>, uri: Seq<char>) -> Option<
    OutcomeView,
> {
    if names(read, "textDocument/documentSymbol"@) {
        Some(OutcomeView::Symbols(symbols_spec(text)))
    } else if names(read, "textDocument/completion"@) {
        Some(OutcomeView::Completion(items_spec(text, line_index(read.line))))
    } else {
        Some(OutcomeView::CodeActions { uri, text })
    }
}

/// Whether a request reads a document.
pub open spec fn is_read(read: Request) -> bool {
    ||| names(read, "textDocument/documentSymbol"@)
    ||| names(read, "textDocument/completion"@)
    ||| names(read, "textDocument/codeAction"@)
}

proof fn lemma_methods_distinct()
    ensures
        "initialize"@ != "initialized"@,
        "initialize"@ != "shutdown"@,
        "initialized"@ != "shutdown"@,
        forall|m: Seq<char>|
            #![trigger m.len()]
            (m == "textDocument/didOpen"@ || m == "textDocument/didChange"@ || m
                == "textDocument/didClose"@ || m == "textDocument/completion"@ || m
                == "textDocument/codeAction"@ || m == "textDocument/documentSymbol"@) ==> (m
                != "initialize"@ && m != "initialized"@ && m != "shutdown"@),
        "textDocument/didOpen"@ != "textDocument/didChange"@,
        "textDocument/didOpen"@ != "textDocument/didClose"@,
        "textDocument/didChange"@ != "textDocument/didClose"@,
        forall|m: Seq<char>|
            #![trigger m.len()]
            (m == "textDocument/completion"@ || m == "textDocument/codeAction"@ || m
                == "textDocument/documentSymbol"@) ==> (m != "textDocument/didOpen"@ && m
                != "textDocument/didChange"@ && m != "textDocument/didClose"@),
        "textDocument/completion"@ != "textDocument/codeAction"@,
        "textDocument/completion"@ != "textDocument/documentSymbol"@,
        "textDocument/codeAction"@ != "textDocument/documentSymbol"@,
{
    reveal_strlit("initialize");
    reveal_strlit("initialized");
    reveal_strlit("shutdown");
    reveal_strlit("textDocument/didOpen");
    reveal_strlit("textDocument/didChange");
    reveal_strlit("textDocument/didClose");
    reveal_strlit("textDocument/completion");
    reveal_strlit("textDocument/codeAction");
    reveal_strlit("textDocument/documentSymbol");
    assert("initialize"@.len() == 10);
    assert("initialized"@.len() == 11);
    assert("shutdown"@.len() == 8);
    assert("textDocument/didOpen"@.len() == 20);
    assert("textDocument/didChange"@.len() == 22);
    assert("textDocument/didClose"@.len() == 21);
    assert("textDocument/completion"@.len() == 23);
    assert("textDocument/codeAction"@.len() == 23);
    assert("textDocument/documentSymbol"@.len() == 27);
    assert("textDocument/completion"@[15] != "textDocument/codeAction"@[15]);
}

/// What a read gives back of a write: once a document is opened or
/// changed, the server holds exactly the text sent, announces diagnostics
/// for it, and every later read of that URI works on that text.
pub proof fn lemma_read_after_write(s: ServerView, write: Request, read: Request)
    requires
        names(write, "textDocument/didOpen"@) || names(write, "textDocument/didChange"@),
        write.uri is Some,
        is_read(read),
        opt_view(read.uri) == opt_view(write.uri),
    ensures
        ({
            let u = or_empty(write.uri);
            let text = if names(write, "textDocument/didOpen"@) {
                or_empty(write.text)
            } else {
                or_empty(write.change_text)
            };
            let (after, out) = handle_spec(s, write);
            &&& after.documents.contains_key(u)
            &&& after.documents[u] == text
            &&& out == Some(OutcomeView::Publish { uri: u, text })
            &&& handle_spec(after, read) == (after, read_answer(read, text, u))
        }),
{
    lemma_methods_distinct();
}

/// Closing a document forgets it and clears its diagnostics: the server
/// publishes an empty list for it, and a later read of that URI sees an
/// empty document.
pub proof fn lemma_close_forgets(s: ServerView, close: Request, read: Request)
    requires
        names(close, "textDocument/didClose"@),
        close.uri is Some,
        is_read(read),
        opt_view(read.uri) == opt_view(close.uri),
    ensures
        ({
            let u = or_empty(close.uri);
            let (after, out) = handle_spec(s, close);
            &&& !after.documents.contains_key(u)
            &&& out == Some(OutcomeView::Clear { uri: u })
            &&& handle_spec(after, read) == (after, read_answer(read, seq![], u))
        }),
{
    lemma_methods_distinct();
}

/// A message changes at most the document it names, never whether a rule
/// set is loaded, and sets the shutdown flag exactly when it is `shutdown`;
/// once set, the flag stays set.
pub proof fn lemma_message_footprint(s: ServerView, req: Request, uri: Seq<char>)
    requires
        uri != or_empty(req.uri),
    ensures
        ({
            let after = handle_spec(s, req).0;
            &&& after.armed == s.armed
            &&& after.shutting_down == (s.shutting_down || names(req, "shutdown"@))
            &&& after.documents.contains_key(uri) == s.documents.contains_key(uri)
            &&& s.documents.contains_key(uri) ==> after.documents[uri] == s.documents[uri]
        }),
{
    lemma_methods_distinct();
}

/// A message without a method is ignored; a notification (no `id`) is
/// never answered with an error; a request the server does not implement
/// is answered with one that names its method.
pub proof fn lemma_unknown_methods(s: ServerView, req: Request)
    ensures
        req.method is None ==> handle_spec(s, req) == (s, None::<OutcomeView>),
        !req.has_id ==> !(handle_spec(s, req).1 matches Some(OutcomeView::Unhandled { .. })),
        handle_spec(s, req).1 matches Some(OutcomeView::Unhandled { message }) ==> (
        req.method matches Some(m) && message == "unhandled: "@ + m@),
{
}

/// An unarmed server never reports a file as clean: it publishes exactly
/// one diagnostic, the warning that no rule set is loaded. An armed one
/// publishes one diagnostic per finding, in order: on the finding's
/// (1-based) line as a 0-based LSP line, spanning the whole line, carrying
/// its rule id, a link to the rule and its message, and an error exactly
/// when the finding is CRITICAL or HIGH.
pub proof fn lemma_no_rules_is_not_clean(findings: Seq<Finding>)
    ensures
        diagnostics_spec(false, findings) == seq![unarmed_warning()],
        diagnostics_spec(false, findings).len() > 0,
        diagnostics_spec(true, findings).len() == findings.len(),
        forall|i: int|
            #![trigger diagnostics_spec(true, findings)[i]]
            0 <= i < findings.len() ==> {
                let d = diagnostics_spec(true, findings)[i];
                &&& d.line == if findings[i].line > 0 {
                    findings[i].line - 1
                } else {
                    0
                }
                &&& d.end_character == u32::MAX
                &&& d.code == Some(findings[i].rule@)
                &&& d.href == Some(
                    "https://github.com/sebastienrousseau/agtmls-spec/blob/main/rules/"@
                        + findings[i].rule@ + ".toml"@,
                )
                &&& d.source == "agtmls"@
                &&& d.message == findings[i].message@
                &&& (d.severity == 1) == (findings[i].severity@ == "CRITICAL"@
                    || findings[i].severity@ == "HIGH"@)
            },
{
}

proof fn lemma_hashes_run(l: Seq<char>, d: int)
    requires
        0 <= d < l.len(),
        forall|t: int| 0 <= t < d ==> l[t] == '#',
        l[d] != '#',
    ensures
        hashes(l) == d,
    decreases d,
{
    if d > 0 {
        lemma_hashes_run(l.drop_first(), d - 1);
    }
}

proof fn lemma_hashes_prefix(l: Seq<char>)
    ensures
        hashes(l) <= l.len(),
        forall|t: int| 0 <= t < hashes(l) ==> l[t] == '#',
    decreases l.len(),
{
    if l.len() > 0 && l[0] == '#' {
        lemma_hashes_prefix(l.drop_first());
        assert forall|t: int| 0 <= t < hashes(l) implies l[t] == '#' by {
            if t > 0 {
                assert(l[t] == l.drop_first()[t - 1]);
            }
        }
    }
}

/// A heading names its whole text: a line made of one or more `#`, a
/// space, and `rest` is a heading whose symbol is `rest` trimmed, on its
/// own line.
pub proof fn lemma_heading_names_its_text(d: nat, rest: Seq<char>, j: int)
    requires
        d > 0,
    ensures
        heading(Seq::new(d, |t: int| '#') + seq![' '] + rest, j) == Some((trim(rest), j)),
{
    let l = Seq::new(d, |t: int| '#') + seq![' '] + rest;
    lemma_hashes_run(l, d as int);
    assert(l.skip(d as int + 1) =~= rest);
}

proof fn lemma_headings_upto_named(ls: Seq<Seq<char>>, n: int)
    requires
        n <= ls.len(),
    ensures
        forall|i: int|
            0 <= i < headings_upto(ls, n).len() ==> {
                let (name, j) = #[trigger] headings_upto(ls, n)[i];
                let l = ls[j];
                &&& 0 <= j < n
                &&& exists|d: int|
                    0 < d < l.len() && l[d] == ' ' && (forall|t: int| 0 <= t < d ==> l[t] == '#')
                        && name == trim(l.skip(d + 1))
            },
    decreases n,
{
    if n > 0 {
        lemma_headings_upto_named(ls, n - 1);
        let prev = headings_upto(ls, n - 1);
        let cur = headings_upto(ls, n);
        let l = ls[n - 1];
        lemma_hashes_prefix(l);
        assert forall|i: int| 0 <= i < cur.len() implies {
            let (name, j) = #[trigger] cur[i];
            let l = ls[j];
            &&& 0 <= j < n
            &&& exists|d: int|
                0 < d < l.len() && l[d] == ' ' && (forall|t: int| 0 <= t < d ==> l[t] == '#')
                    && name == trim(l.skip(d + 1))
        } by {
            if i < prev.len() {
                assert(cur[i] == prev[i]);
            } else {
                let d = hashes(l) as int;
                assert(cur[i] == (trim(l.skip(d + 1)), n - 1));
                assert(0 < d < l.len() && l[d] == ' ' && (forall|t: int| 0 <= t < d ==> l[t] == '#')
                    && trim(l.skip(d + 1)) == trim(l.skip(d + 1)));
            }
        }
    }
}

/// Every symbol of the outline is a heading line of the document: one or
/// more `#` and a space, named by all the rest of its line, trimmed.
pub proof fn lemma_symbols_are_headings(text: Seq<char>)
    ensures
        forall|i: int|
            0 <= i < symbols_spec(text).len() ==> {
                let (name, j) = #[trigger] symbols_spec(text)[i];
                let l = lines(text)[j];
                &&& 0 <= j < lines(text).len()
                &&& exists|d: int|
                    0 < d < l.len() && l[d] == ' ' && (forall|t: int| 0 <= t < d ==> l[t] == '#')
                        && name == trim(l.skip(d + 1))
            },
{
    lemma_headings_upto_named(lines(text), lines(text).len() as int);
}

/// The findings to publish for a document: those of the per-document
/// rules, followed by those of the skill's structural rules when the
/// document is a skill's `SKILL.md` (see [`skill_file`]).
pub fn findings_for(per_document: Vec<Finding>, structural: Option<Vec<Finding>>) -> (r: Vec<
    Finding,
>)
    ensures
        r@ == per_document@ + match structural {
            Some(s) => s@,
            None => Seq::<Finding>::empty(),
        },
{
    let mut r = per_document;
    match structural {
        Some(s) => {
            let mut rest = s;
            r.append(&mut rest);
        },
        None => {
            assert(r@ =~= r@ + Seq::<Finding>::empty());
        },
    }
    r
}

/// The part of a URI after its last `/`: the document's file name.
pub fn document_name(uri: &str) -> (r: String)
    ensures
        r@ == last_segment(uri@),
{
    let cs = chars_of(uri);
    let n = cs.len();
    let mut i = n;
    assert(cs@.take(n as int) =~= cs@);
    assert(last_segment(cs@) + cs@.subrange(n as int, n as int) =~= last_segment(cs@));
    while i > 0 && cs[i - 1] != '/'
        invariant
            i <= n,
            n == cs@.len(),
            last_segment(cs@) == last_segment(cs@.take(i as int)) + cs@.subrange(i as int, n as int),
        decreases i,
    {
        proof {
            assert(cs@.take(i as int).drop_last() =~= cs@.take(i - 1));
            assert(cs@.subrange(i - 1, n as int) =~= seq![cs@[i - 1]] + cs@.subrange(
                i as int,
                n as int,
            ));
            assert(last_segment(cs@.take(i as int)) == last_segment(cs@.take(i - 1)).push(
                cs@[i - 1],
            ));
            assert(last_segment(cs@.take(i - 1)).push(cs@[i - 1]) + cs@.subrange(
                i as int,
                n as int,
            ) =~= last_segment(cs@.take(i - 1)) + cs@.subrange(i - 1, n as int));
        }
        i = i - 1;
    }
    let mut seg: Vec<char> = Vec::new();
    for j in i..n
        invariant
            i <= n,
            n == cs@.len(),
            seg@ == cs@.subrange(i as int, j as int),
    {
        seg.push(cs[j]);
        assert(seg@ =~= cs@.subrange(i as int, j + 1));
    }
    assert(last_segment(cs@.take(i as int)) =~= seq![]);
    assert(cs@.take(n as int) =~= cs@);
    string_of(&seg)
}

/// The file whose sibling `metadata.json` the structural rules read, for
/// a document at `uri`: only a `file://` URI naming a `SKILL.md` has one.
pub fn skill_file(uri: &str) -> (r: Option<String>)
    ensures
        opt_view(r) == skill_file_spec(uri@),
{
    let name = chars_of(document_name(uri).as_str());
    let skill = chars_of("SKILL.md");
    let cs = chars_of(uri);
    let scheme = chars_of("file://");
    assert(cs@.skip(0) =~= cs@);
    if same_chars(&name, &skill) && starts_with_at(&cs, 0, &scheme) {
        let n = cs.len();
        let k = scheme.len();
        let mut path: Vec<char> = Vec::new();
        for j in k..n
            invariant
                k <= n,
                n == cs@.len(),
                path@ == cs@.subrange(k as int, j as int),
        {
            path.push(cs[j]);
            assert(path@ =~= cs@.subrange(k as int, j + 1));
        }
        assert(path@ =~= cs@.skip(k as int));
        Some(string_of(&path))
    } else {
        None
    }
}

fn count_hashes(l: &[char]) -> (r: usize)
    ensures
        r == hashes(l@),
        r <= l@.len(),
{
    let n = l.len();
    let mut i: usize = 0;
    assert(l@.skip(0) =~= l@);
    while i < n && l[i] == '#'
        invariant
            i <= n,
            n == l@.len(),
            hashes(l@) == i + hashes(l@.skip(i as int)),
        decreases n - i,
    {
        assert(l@.skip(i as int).drop_first() =~= l@.skip(i + 1));
        i = i + 1;
    }
    i
}

/// The heading on line `j`, if `l` is one.
fn heading_of(l: &[char], j: usize) -> (r: Option<Symbol>)
    ensures
        match r {
            Some(s) => heading(l@, j as int) == Some(s@),
            None => heading(l@, j as int) is None,
        },
{
    let depth = count_hashes(l);
    if depth > 0 && depth < l.len() && l[depth] == ' ' {
        let n = l.len();
        let mut rest: Vec<char> = Vec::new();
        for k in depth + 1..n
            invariant
                depth < n,
                n == l@.len(),
                rest@ == l@.subrange(depth + 1, k as int),
        {
            rest.push(l[k]);
            assert(rest@ =~= l@.subrange(depth + 1, k + 1));
        }
        assert(rest@ =~= l@.skip(depth + 1));
        let name = trimmed(&rest);
        Some(Symbol { name: string_of(&name), line: j as u64 })
    } else {
        None
    }
}

/// The length of the run of `c` that begins `l` at `from`.
fn run_from(l: &[char], from: usize, c: char) -> (r: usize)
    requires
        from <= l@.len(),
    ensures
        r == run_len(l@.skip(from as int), c),
        from + r <= l@.len(),
{
    let n = l.len();
    let mut i = from;
    while i < n && l[i] == c
        invariant
            from <= i <= n,
            n == l@.len(),
            run_len(l@.skip(from as int), c) == (i - from) + run_len(l@.skip(i as int), c),
        decreases n - i,
    {
        assert(l@.skip(i as int).drop_first() =~= l@.skip(i + 1));
        i = i + 1;
    }
    i - from
}

/// Whether `c` occurs in `l` at or after `from`.
fn has_char_from(l: &[char], from: usize, c: char) -> (r: bool)
    requires
        from <= l@.len(),
    ensures
        r == l@.skip(from as int).contains(c),
{
    let n = l.len();
    for i in from..n
        invariant
            from <= n,
            n == l@.len(),
            forall|j: int| from <= j < i ==> l@[j] != c,
    {
        if l[i] == c {
            assert(l@.skip(from as int)[i - from] == c);
            return true;
        }
    }
    assert(!l@.skip(from as int).contains(c)) by {
        if l@.skip(from as int).contains(c) {
            let j = choose|j: int| 0 <= j < n - from && l@.skip(from as int)[j] == c;
            assert(l@[from + j] == c);
        }
    }
    false
}

/// Whether `l` holds only spaces and tabs from `from` on.
fn blank_from(l: &[char], from: usize) -> (r: bool)
    requires
        from <= l@.len(),
    ensures
        r == blank(l@.skip(from as int)),
{
    let n = l.len();
    for i in from..n
        invariant
            from <= n,
            n == l@.len(),
            forall|j: int| from <= j < i ==> (l@[j] == ' ' || l@[j] == '\t'),
    {
        if l[i] != ' ' && l[i] != '\t' {
            assert(!(l@.skip(from as int)[i - from] == ' ' || l@.skip(from as int)[i - from] == '\t'));
            return false;
        }
    }
    true
}

/// The code fence on a line, if it has one.
fn fence_of(l: &[char]) -> (r: Option<(char, usize, usize)>)
    ensures
        match r {
            Some((c, n, rest)) => fence_at(l@) == Some((c, n as nat, rest as int)) && rest
                <= l@.len(),
            None => fence_at(l@) is None,
        },
{
    let k = run_from(l, 0, ' ');
    assert(l@.skip(0) =~= l@);
    if k <= 3 && k < l.len() && (l[k] == '`' || l[k] == '~') {
        let c = l[k];
        let n = run_from(l, k, c);
        if n >= 3 {
            Some((c, n, k + n))
        } else {
            None
        }
    } else {
        None
    }
}

/// Markdown headings, as document symbols; a `#` line inside a fenced
/// code block is a comment of the fenced language and is left out.
pub fn symbols(text: &str) -> (r: Vec<Symbol>)
    ensures
        r@.map_values(|s: Symbol| s@) == symbols_spec(text@),
{
    let chars = chars_of(text);
    let ls = split_lines(&chars);
    let ghost lv = lines_view(ls@);
    let mut open: Option<(char, usize)> = None;
    let mut r: Vec<Symbol> = Vec::new();
    let n = ls.len();
    for j in 0..n
        invariant
            n == ls@.len(),
            lv == lines_view(ls@),
            lv == lines(text@),
            match open {
                Some((c, m)) => fence_state(lv, j as int) == Some((c, m as nat)),
                None => fence_state(lv, j as int) is None,
            },
            r@.map_values(|s: Symbol| s@) == headings_upto(lv, j as int),
    {
        let ghost before = r@;
        let l = &ls[j];
        assert(lv[j as int] == l@);
        if open.is_none() {
            match heading_of(l, j) {
                Some(s) => {
                    r.push(s);
                    assert(r@.map_values(|s: Symbol| s@) =~= before.map_values(
                        |s: Symbol| s@,
                    ).push(r@.last()@));
                },
                None => {},
            }
        }
        let fence = fence_of(l);
        match open {
            None => {
                match fence {
                    Some((c, m, rest)) => {
                        if !(c == '`' && has_char_from(l, rest, '`')) {
                            open = Some((c, m));
                        }
                    },
                    None => {},
                }
            },
            Some((c, m)) => {
                match fence {
                    Some((d, k, rest)) => {
                        if d == c && k >= m && blank_from(l, rest) {
                            open = None;
                        }
                    },
                    None => {},
                }
            },
        }
    }
    r
}

/// Whether a string is a given literal.
fn is_literal(s: &String, literal: &str) -> (r: bool)
    ensures
        r == (s@ == literal@),
{
    let other = literal.to_owned();
    *s == other
}

/// The capabilities the server advertises.
fn capabilities() -> (r: Capabilities)
    ensures
        r@ == capabilities_view(),
{
    let trigger_characters = vec![":".to_owned(), " ".to_owned(), ",".to_owned()];
    let r = Capabilities {
        text_document_sync: 1,
        trigger_characters,
        code_action_provider: true,
        document_symbol_provider: true,
        server_name: "agtmls-lsp".to_owned(),
    };
    assert(r@.1 =~= seq![":"@, " "@, ","@]);
    r
}

impl Server {
    /// A server, armed when a rule set has been loaded for it.
    ///
    /// The rule source is decided by the caller rather than by ambient
    /// environment, so a test can construct an armed server and an unarmed
    /// one in the same process.
    pub fn with_rules(loaded: bool) -> (r: Server)
        ensures
            r@.armed == loaded,
            r@.documents == Map::<Seq<char>, Seq<char>>::empty(),
            !r@.shutting_down,
    {
        Server { armed: loaded, documents: Documents::new(), shutting_down: false }
    }

    /// Whether the client has sent `shutdown`.
    pub fn is_shutting_down(&self) -> (r: bool)
        ensures
            r == self@.shutting_down,
    {
        self.shutting_down
    }

    /// Whether to go on reading messages after one was handled: not once a
    /// reply could not be written, and not once the client has sent
    /// `shutdown`.
    pub fn keep_serving(&self, write_failed: bool) -> (r: bool)
        ensures
            r == (!write_failed && !self@.shutting_down),
    {
        !write_failed && !self.shutting_down
    }

    /// Whether the analyzer is armed.
    pub fn has_rules(&self) -> (r: bool)
        ensures
            r == self@.armed,
    {
        self.armed
    }

    /// The text of the document at `uri`, or the empty text.
    fn text_of(&self, uri: &str) -> (r: String)
        ensures
            r@ == doc_text(self@.documents, uri@),
    {
        match self.documents.get(uri) {
            Some(t) => t.clone(),
            None => String::new(),
        }
    }

    /// Handles one LSP message: updates the open documents and says what
    /// the message calls for, if anything.
    pub fn handle(&mut self, message: &Request) -> (r: Option<Outcome>)
        ensures
            (final(self)@, match r {
                Some(o) => Some(o@),
                None => None,
            }) == handle_spec(old(self)@, *message),
    {
        let method = match &message.method {
            Some(m) => m,
            None => {
                return None;
            },
        };
        let target: String = match &message.uri {
            Some(u) => u.clone(),
            None => String::new(),
        };
        assert(target@ == or_empty(message.uri));
        if is_literal(method, "initialize") {
            Some(Outcome::Initialize(capabilities()))
        } else if is_literal(method, "initialized") {
            None
        } else if is_literal(method, "shutdown") {
            self.shutting_down = true;
            Some(Outcome::ShutdownAck)
        } else if is_literal(method, "textDocument/didOpen") || is_literal(
            method,
            "textDocument/didChange",
        ) {
            let opening = is_literal(method, "textDocument/didOpen");
            let source = if opening {
                &message.text
            } else {
                &message.change_text
            };
            let text: String = match source {
                Some(t) => t.clone(),
                None => String::new(),
            };
            match &message.uri {
                None => None,
                Some(u) => {
                    self.documents.insert(u.clone(), text.clone());
                    Some(Outcome::Publish { uri: u.clone(), text })
                },
            }
        } else if is_literal(method, "textDocument/didClose") {
            match &message.uri {
                None => None,
                Some(u) => {
                    self.documents.remove(u.as_str());
                    Some(Outcome::Clear { uri: u.clone() })
                },
            }
        } else if is_literal(method, "textDocument/completion") {
            let line: usize = match message.line {
                Some(l) => if l <= usize::MAX as u64 {
                    l as usize
                } else {
                    0
                },
                None => 0,
            };
            let text = self.text_of(target.as_str());
            Some(Outcome::Completion(items(text.as_str(), line)))
        } else if is_literal(method, "textDocument/codeAction") {
            let text = self.text_of(target.as_str());
            Some(Outcome::CodeActions { uri: target, text })
        } else if is_literal(method, "textDocument/documentSymbol") {
            let text = self.text_of(target.as_str());
            Some(Outcome::Symbols(symbols(text.as_str())))
        } else if message.has_id {
            let mut out: Vec<char> = Vec::new();
            push_str(&mut out, "unhandled: ");
            push_str(&mut out, method.as_str());
            Some(Outcome::Unhandled { message: string_of(&out) })
        } else {
            None
        }
    }

    /// Findings for a document, as LSP diagnostics; with no rule set, a
    /// single warning instead, because an empty list would mean "clean".
    pub fn diagnostics(&self, findings: &Vec<Finding>) -> (r: Vec<Diagnostic>)
        ensures
            r@.map_values(|d: Diagnostic| d@) == diagnostics_spec(self@.armed, findings@),
    {
        if !self.armed {
            let warning = Diagnostic {
                line: 0,
                end_character: 0,
                severity: 2,
                code: None,
                href: None,
                source: "agtmls".to_owned(),
                message: "No rule set loaded. Set AGTMLS_SPEC to a checkout of https://github.com/sebastienrousseau/agtmls-spec; until then this file is unchecked, not clean.".to_owned(),
            };
            let r = vec![warning];
            assert(r@.map_values(|d: Diagnostic| d@) =~= seq![unarmed_warning()]);
            return r;
        }
        let mut r: Vec<Diagnostic> = Vec::new();
        let n = findings.len();
        for i in 0..n
            invariant
                n == findings@.len(),
                r@.map_values(|d: Diagnostic| d@) == findings@.take(i as int).map_values(
                    |f: Finding| finding_diagnostic(f),
                ),
        {
            let ghost before = r@;
            let f = &findings[i];
            let severity: u8 = if is_literal(&f.severity, "CRITICAL") || is_literal(
                &f.severity,
                "HIGH",
            ) {
                1
            } else {
                2
            };
            let line: usize = if f.line > 0 {
                f.line - 1
            } else {
                0
            };
            let rule = chars_of(f.rule.as_str());
            let mut href: Vec<char> = Vec::new();
            push_str(&mut href, "https://github.com/sebastienrousseau/agtmls-spec/blob/main/rules/");
            push_all(&mut href, &rule);
            push_str(&mut href, ".toml");
            let d = Diagnostic {
                line: line as u64,
                end_character: u32::MAX,
                severity,
                code: Some(f.rule.clone()),
                href: Some(string_of(&href)),
                source: "agtmls".to_owned(),
                message: f.message.clone(),
            };
            r.push(d);
            assert(r@.map_values(|d: Diagnostic| d@) =~= before.map_values(|d: Diagnostic| d@).push(
                finding_diagnostic(findings@[i as int]),
            ));
            assert(findings@.take(i + 1).map_values(|f: Finding| finding_diagnostic(f))
                =~= findings@.take(i as int).map_values(|f: Finding| finding_diagnostic(f)).push(
                finding_diagnostic(findings@[i as int]),
            ));
        }
        assert(findings@.take(n as int) =~= findings@);
        r
    }
}

} // verus!
