//! Tests of the library's pieces on concrete values.

use agtmls_lsp::actions::{self, ClientDiagnostic, CodeAction};
use agtmls_lsp::completion;
use agtmls_lsp::framing::{self, MessageReader, ReadEvent, ReadStep};
use agtmls_lsp::text;
use agtmls_lsp::{
    document_name, findings_for, skill_file, symbols, Finding, Outcome, Request, Server,
    COMPLETION_IS_INCOMPLETE, HEADING_SYMBOL_KIND, LINE_END, METHOD_NOT_FOUND,
};

fn request(method: &str) -> Request {
    Request {
        has_id: true,
        method: Some(method.to_owned()),
        uri: None,
        text: None,
        change_text: None,
        line: None,
    }
}

fn lines(text: &str) -> Vec<Vec<char>> {
    text::split_lines(&text.chars().collect::<Vec<char>>())
}

fn step(reader: &mut MessageReader, line: &str) -> ReadStep {
    framing::read_message(reader, ReadEvent::Line(line.to_owned()))
}

#[test]
fn a_framed_payload_reads_back() {
    let payload = "{\"jsonrpc\":\"2.0\",\"method\":\"initialized\"}";
    let bytes = framing::write_message(payload);
    let expected = format!("Content-Length: {}\r\n\r\n{payload}", payload.len());
    assert_eq!(bytes, expected.as_bytes());

    let mut reader = MessageReader { length: 0 };
    assert!(matches!(step(&mut reader, &format!("Content-Length: {}\r\n", payload.len())), ReadStep::NextLine));
    let ReadStep::ReadBody(n) = step(&mut reader, "\r\n") else {
        panic!("expected the body to be asked for");
    };
    assert_eq!(n, payload.len());
    match framing::read_message(&mut reader, ReadEvent::Body(payload.as_bytes().to_vec())) {
        ReadStep::Message(m) => assert_eq!(m, payload),
        _ => panic!("expected the message"),
    }
}

#[test]
fn the_length_counts_bytes_not_characters() {
    let bytes = framing::write_message("\u{e9}");
    assert_eq!(bytes, "Content-Length: 2\r\n\r\n\u{e9}".as_bytes());
}

#[test]
fn a_frame_without_a_length_is_an_empty_message() {
    let mut reader = MessageReader { length: 0 };
    assert!(matches!(step(&mut reader, "Content-Type: x\r\n"), ReadStep::NextLine));
    match step(&mut reader, "\r\n") {
        ReadStep::Message(m) => assert!(m.is_empty()),
        _ => panic!("expected an empty message"),
    }
    assert!(matches!(step(&mut reader, "Content-Length: abc\n"), ReadStep::NextLine));
    assert_eq!(reader.length, 0);
    assert!(matches!(step(&mut reader, ""), ReadStep::Closed));
}

#[test]
fn invalid_body_bytes_are_replaced() {
    let mut reader = MessageReader { length: 0 };
    match framing::read_message(&mut reader, ReadEvent::Body(vec![b'a', 0xff, b'b'])) {
        ReadStep::Message(m) => assert_eq!(m, "a\u{fffd}b"),
        _ => panic!("expected the message"),
    }
}

#[test]
fn lengths_parse_as_usize_does() {
    let parse = |s: &str| framing::parse_length(&s.chars().collect::<Vec<char>>());
    assert_eq!(parse("42"), Some(42));
    assert_eq!(parse("+7"), Some(7));
    assert_eq!(parse("007"), Some(7));
    assert_eq!(parse(""), None);
    assert_eq!(parse("+"), None);
    assert_eq!(parse("-1"), None);
    assert_eq!(parse("4a"), None);
    assert_eq!(parse("99999999999999999999999"), None);
}

#[test]
fn lines_split_as_str_lines_does() {
    let got: Vec<String> = lines("a\r\nb\n\nc\r")
        .iter()
        .map(|l| l.iter().collect())
        .collect();
    assert_eq!(got, vec!["a", "b", "", "c\r"]);
    assert_eq!(lines("x\n").len(), 1);
    assert!(lines("").is_empty());
    let trimmed: String = text::trimmed(&" \u{3000}a b\t".chars().collect::<Vec<char>>())
        .iter()
        .collect();
    assert_eq!(trimmed, "a b");
}

#[test]
fn invisible_characters_are_recognised() {
    assert!(actions::is_invisible('\u{200b}'));
    assert!(actions::is_invisible('\u{e0041}'));
    assert!(actions::is_invisible('\u{fe0f}'));
    assert!(!actions::is_invisible('a'));
    assert!(!actions::is_invisible('\u{2010}'));
}

#[test]
fn frontmatter_bounds_and_declared_keys() {
    let ls = lines("---\nname: x\n  license: MIT\n---\ndescription: outside\n");
    assert!(!completion::in_frontmatter(&ls, 0));
    assert!(completion::in_frontmatter(&ls, 1));
    assert!(completion::in_frontmatter(&ls, 2));
    assert!(!completion::in_frontmatter(&ls, 3));
    assert!(completion::declared(&ls, "name"));
    assert!(completion::declared(&ls, "license"));
    assert!(!completion::declared(&ls, "description"));
    let unclosed = lines("---\nname: x\n");
    assert!(!completion::in_frontmatter(&unclosed, 1));
}

#[test]
fn a_key_line_being_typed_still_offers_its_key() {
    let text = "---\nname: x\nname\n---\n";
    let labels: Vec<String> = completion::items(text, 2).iter().map(|i| i.label.clone()).collect();
    assert_eq!(labels, vec!["name", "description", "allowed-tools", "license", "compatibility"]);
    let partial = "---\nname: x\nna\n---\n";
    let labels: Vec<String> = completion::items(partial, 2).iter().map(|i| i.label.clone()).collect();
    assert_eq!(labels, vec!["description", "allowed-tools", "license", "compatibility"]);
    assert!(completion::items(text, 1).is_empty(), "a line with a colon gets nothing");
    let tools = completion::items("---\n  allowed-tools: Read\n---\n", 1);
    assert_eq!(tools.len(), 8);
    assert!(tools.iter().all(|i| i.kind == 6));
}

#[test]
fn headings_become_symbols() {
    let found = symbols("#NoSpace\n# Yes\n### Deep  \nplain\n####\n");
    let got: Vec<(String, u64)> = found.iter().map(|s| (s.name.clone(), s.line)).collect();
    assert_eq!(got, vec![("Yes".to_owned(), 1), ("Deep".to_owned(), 2)]);
}

#[test]
fn findings_become_diagnostics() {
    let server = Server::with_rules(true);
    let findings = vec![
        Finding {
            line: 3,
            severity: "HIGH".to_owned(),
            rule: "AGT-STEG-001".to_owned(),
            message: "hidden".to_owned(),
        },
        Finding {
            line: 0,
            severity: "MEDIUM".to_owned(),
            rule: "AGT-X".to_owned(),
            message: "m".to_owned(),
        },
    ];
    let found = server.diagnostics(&findings);
    assert_eq!(found.len(), 2);
    assert_eq!(found[0].line, 2);
    assert_eq!(found[0].severity, 1);
    assert_eq!(found[0].end_character, u32::MAX);
    assert_eq!(found[0].code.as_deref(), Some("AGT-STEG-001"));
    assert_eq!(
        found[0].href.as_deref(),
        Some("https://github.com/sebastienrousseau/agtmls-spec/blob/main/rules/AGT-STEG-001.toml")
    );
    assert_eq!(found[0].source, "agtmls");
    assert_eq!(found[1].line, 0);
    assert_eq!(found[1].severity, 2);
    assert!(server.diagnostics(&Vec::new()).is_empty());
}

#[test]
fn document_names_and_skill_files() {
    assert_eq!(document_name("file:///tmp/skill/SKILL.md"), "SKILL.md");
    assert_eq!(document_name("SKILL.md"), "SKILL.md");
    assert_eq!(document_name("file:///tmp/"), "");
    assert_eq!(skill_file("file:///tmp/skill/SKILL.md").as_deref(), Some("/tmp/skill/SKILL.md"));
    assert_eq!(skill_file("file:///tmp/skill/reference.md"), None);
    assert_eq!(skill_file("untitled:SKILL.md"), None);
}

#[test]
fn the_document_store_follows_open_change_and_close() {
    let mut server = Server::with_rules(false);
    let open = Request {
        has_id: false,
        uri: Some("file:///a".to_owned()),
        text: Some("# A\n".to_owned()),
        ..request("textDocument/didOpen")
    };
    match server.handle(&open) {
        Some(Outcome::Publish { uri, text }) => {
            assert_eq!(uri, "file:///a");
            assert_eq!(text, "# A\n");
        }
        _ => panic!("expected diagnostics to be published"),
    }
    let change = Request {
        has_id: false,
        uri: Some("file:///a".to_owned()),
        change_text: Some("# B\n".to_owned()),
        ..request("textDocument/didChange")
    };
    assert!(matches!(server.handle(&change), Some(Outcome::Publish { .. })));
    let read = Request { uri: Some("file:///a".to_owned()), ..request("textDocument/codeAction") };
    match server.handle(&read) {
        Some(Outcome::CodeActions { uri, text }) => {
            assert_eq!(uri, "file:///a");
            assert_eq!(text, "# B\n");
        }
        _ => panic!("expected code actions"),
    }
    let close = Request { uri: Some("file:///a".to_owned()), ..request("textDocument/didClose") };
    assert!(matches!(server.handle(&close), Some(Outcome::Clear { .. })));
    match server.handle(&read) {
        Some(Outcome::CodeActions { text, .. }) => assert!(text.is_empty()),
        _ => panic!("expected code actions"),
    }
    let no_uri = request("textDocument/didOpen");
    assert!(server.handle(&no_uri).is_none());
}

#[test]
fn completion_reads_the_stored_document() {
    let mut server = Server::with_rules(true);
    let open = Request {
        uri: Some("file:///s".to_owned()),
        text: Some("---\nname: x\n\n---\n".to_owned()),
        ..request("textDocument/didOpen")
    };
    let _ = server.handle(&open);
    let complete = Request {
        uri: Some("file:///s".to_owned()),
        line: Some(2),
        ..request("textDocument/completion")
    };
    let Some(Outcome::Completion(items)) = server.handle(&complete) else {
        panic!("expected completions");
    };
    assert_eq!(items.len(), 4);
    assert!(items.iter().all(|i| i.label != "name"));
}

#[test]
fn unknown_methods_and_shutdown() {
    let mut server = Server::with_rules(true);
    match server.handle(&request("workspace/symbol")) {
        Some(Outcome::Unhandled { message }) => assert_eq!(message, "unhandled: workspace/symbol"),
        _ => panic!("expected an error reply"),
    }
    let notification = Request { has_id: false, ..request("$/cancelRequest") };
    assert!(server.handle(&notification).is_none());
    let no_method = Request { method: None, ..request("x") };
    assert!(server.handle(&no_method).is_none());
    assert!(server.handle(&request("initialized")).is_none());
    assert!(!server.shutting_down);
    assert!(matches!(server.handle(&request("shutdown")), Some(Outcome::ShutdownAck)));
    assert!(server.shutting_down);
}

#[test]
fn code_actions_per_rule() {
    let uri = "file:///s/SKILL.md";
    let text = "---\n  allowed-tools: Bash, Read\n---\nclean line\n";
    let ds = vec![
        ClientDiagnostic { code: Some("AGT-POLICY-001".to_owned()), line: None },
        ClientDiagnostic { code: Some("AGT-STEG-001".to_owned()), line: Some(3) },
        ClientDiagnostic { code: Some("AGT-STEG-001".to_owned()), line: Some(40) },
        ClientDiagnostic { code: None, line: Some(0) },
        ClientDiagnostic { code: Some("AGT-CAP-001".to_owned()), line: Some(1) },
    ];
    let tools = vec!["Bash".to_owned(), "Read".to_owned()];
    let fixes = actions::for_diagnostics(uri, text, &ds, &tools);
    assert_eq!(fixes.len(), 2);
    match &fixes[0] {
        CodeAction::Command { title, diagnostic, command, argument, .. } => {
            assert_eq!(title, "Create metadata.json from the template (review-gated)");
            assert_eq!(*diagnostic, 0);
            assert_eq!(command, "agtmls.createMetadata");
            assert_eq!(argument, uri);
        }
        _ => panic!("expected the metadata command"),
    }
    match &fixes[1] {
        CodeAction::Edit { diagnostic, edit, .. } => {
            assert_eq!(*diagnostic, 4);
            assert_eq!(edit.line, 1);
            assert_eq!(edit.new_text, "  allowed-tools: Read");
        }
        _ => panic!("expected the narrowing edit"),
    }
    let hidden = "a\u{200b}\u{200c}b\n";
    let steg = vec![ClientDiagnostic { code: Some("AGT-STEG-001".to_owned()), line: Some(0) }];
    let fixes = actions::for_diagnostics(uri, hidden, &steg, &Vec::new());
    match &fixes[0] {
        CodeAction::Edit { title, edit, .. } => {
            assert_eq!(title, "Remove 2 invisible character(s)");
            assert_eq!(edit.new_text, "ab");
            assert_eq!(edit.line, 0);
        }
        _ => panic!("expected the removal edit"),
    }
}

#[test]
fn every_escalating_tool_names_the_policy_it_needs() {
    let items = completion::items("---\nallowed-tools: \n---\n", 1);
    for name in ["Write", "Edit", "Bash", "WebFetch", "WebSearch"] {
        let item = items.iter().find(|i| i.label == name).expect("offered");
        assert!(item.detail.contains("requires safety_policy."), "{name}: {}", item.detail);
    }
    for name in ["Read", "Glob", "Grep"] {
        let item = items.iter().find(|i| i.label == name).expect("offered");
        assert!(item.detail.contains("No capability implied."));
    }
}

#[test]
fn fenced_comments_are_not_headings() {
    let found = symbols("```bash\n# install deps\n```\n# Real\n");
    let got: Vec<(String, u64)> = found.iter().map(|s| (s.name.clone(), s.line)).collect();
    assert_eq!(got, vec![("Real".to_owned(), 3)]);
    let indented = symbols("  ```\n# in code\n# still code\n   ```\n## After\n");
    let names: Vec<String> = indented.iter().map(|s| s.name.clone()).collect();
    assert_eq!(names, vec!["After"]);
}

fn names(text: &str) -> Vec<String> {
    symbols(text).iter().map(|s| s.name.clone()).collect()
}

#[test]
fn indented_code_is_not_a_fence() {
    let found = symbols("    ```\n# A\n");
    let got: Vec<(String, u64)> = found.iter().map(|s| (s.name.clone(), s.line)).collect();
    assert_eq!(got, vec![("A".to_owned(), 1)]);
    assert_eq!(names("\t```\n# B\n"), vec!["B"]);
}

#[test]
fn only_a_matching_fence_closes_a_block() {
    // An opening fence with an info string cannot close a block.
    assert_eq!(names("```\n```bash\n# comment\n```\n# After\n"), vec!["After"]);
    // Tildes fence too, and backticks do not close them.
    assert_eq!(names("~~~\n# comment\n```\n# still\n~~~\n# Out\n"), vec!["Out"]);
    // A closing fence is at least as long as the opening one.
    assert_eq!(names("````\n```\n# in\n````\n# Out\n"), vec!["Out"]);
    // Two backticks are no fence; an unclosed block runs to the end.
    assert_eq!(names("``\n# Yes\n```\n# No\n"), vec!["Yes"]);
    // A backtick fence whose info string holds a backtick is no fence.
    assert_eq!(names("``` a`b\n# Seen\n"), vec!["Seen"]);
}

#[test]
fn an_applied_invisible_fix_is_not_offered_again() {
    let uri = "file:///s";
    let text = "one\r\nt\u{200b}wo\u{2060}\r\nthree";
    let steg = vec![ClientDiagnostic { code: Some("AGT-STEG-001".to_owned()), line: Some(1) }];
    let fixes = actions::for_diagnostics(uri, text, &steg, &Vec::new());
    let CodeAction::Edit { edit, .. } = &fixes[0] else {
        panic!("expected an edit");
    };
    assert_eq!(edit.new_text, "two");
    let fixed = "one\r\ntwo\r\nthree";
    assert!(actions::for_diagnostics(uri, fixed, &steg, &Vec::new()).is_empty());
}

#[test]
fn structural_findings_follow_the_document_findings() {
    let one = |rule: &str| Finding {
        line: 1,
        severity: "LOW".to_owned(),
        rule: rule.to_owned(),
        message: String::new(),
    };
    let all = findings_for(vec![one("A"), one("B")], Some(vec![one("C")]));
    let rules: Vec<&str> = all.iter().map(|f| f.rule.as_str()).collect();
    assert_eq!(rules, vec!["A", "B", "C"]);
    assert_eq!(findings_for(vec![one("A")], None).len(), 1);
}

#[test]
fn protocol_constants_and_serving() {
    assert_eq!(METHOD_NOT_FOUND, -32601);
    assert_eq!(HEADING_SYMBOL_KIND, 15);
    assert_eq!(LINE_END, u32::MAX);
    assert!(!COMPLETION_IS_INCOMPLETE);
    assert!(!framing::carries_message(""));
    assert!(framing::carries_message("{}"));
    let mut server = Server::with_rules(true);
    assert!(server.keep_serving(false));
    assert!(!server.keep_serving(true));
    let _ = server.handle(&request("shutdown"));
    assert!(server.is_shutting_down());
    assert!(!server.keep_serving(false));
}

#[test]
fn a_command_is_not_preferred() {
    let ds = vec![ClientDiagnostic { code: Some("AGT-POLICY-001".to_owned()), line: None }];
    let fixes = actions::for_diagnostics("file:///s", "", &ds, &Vec::new());
    assert_eq!(fixes[0].kind(), "quickfix");
    assert!(!fixes[0].is_preferred());
}
