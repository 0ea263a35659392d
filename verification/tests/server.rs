//! Handler tests.

use agtmls_lsp::actions::{self, ClientDiagnostic, CodeAction};
use agtmls_lsp::completion;
use agtmls_lsp::{Finding, Outcome, Request, Server, findings_for, skill_file};

fn request(method: &str) -> Request {
    Request {
        has_id: true,
        method: Some(method.to_owned()),
        uri: None,
        text: None,
        change_text: None,
        line: None,
    }
}

fn open(uri: &str, text: &str) -> Request {
    Request {
        has_id: false,
        uri: Some(uri.to_owned()),
        text: Some(text.to_owned()),
        ..request("textDocument/didOpen")
    }
}

fn finding(line: usize, severity: &str, rule: &str, message: &str) -> Finding {
    Finding {
        line,
        severity: severity.to_owned(),
        rule: rule.to_owned(),
        message: message.to_owned(),
    }
}

/// What the steganography rule reports for a line with hidden characters.
fn hidden_character(line: usize) -> Finding {
    finding(line, "CRITICAL", "AGT-STEG-001", "Invisible characters hide an instruction.")
}

fn codes(found: &[agtmls_lsp::Diagnostic]) -> Vec<String> {
    found.iter().filter_map(|d| d.code.clone()).collect()
}

fn edit_text(action: &CodeAction) -> (&str, &str) {
    match action {
        CodeAction::Edit { edit, .. } => (edit.uri.as_str(), edit.new_text.as_str()),
        CodeAction::Command { .. } => panic!("expected an edit"),
    }
}

fn title(action: &CodeAction) -> &str {
    match action {
        CodeAction::Edit { title, .. } | CodeAction::Command { title, .. } => title,
    }
}

#[test]
fn initialize_advertises_what_the_server_implements() {
    let mut server = Server::with_rules(true);
    let reply = server.handle(&request("initialize")).expect("a reply");
    let Outcome::Initialize(caps) = reply else {
        panic!("expected capabilities");
    };
    assert_eq!(caps.text_document_sync, 1);
    assert!(!caps.trigger_characters.is_empty());
    assert_eq!(caps.code_action_provider, true);
    assert_eq!(caps.document_symbol_provider, true);
}

#[test]
fn closing_a_document_clears_its_diagnostics() {
    // Otherwise the editor keeps showing findings for a file nobody has open.
    let mut server = Server::with_rules(true);
    let _ = server.handle(&open("file:///tmp/s/SKILL.md", "Hidden\u{200b}\n"));
    let close = Request {
        has_id: false,
        uri: Some("file:///tmp/s/SKILL.md".to_owned()),
        ..request("textDocument/didClose")
    };
    let note = server.handle(&close).expect("a notification");
    match note {
        Outcome::Clear { uri } => assert_eq!(uri, "file:///tmp/s/SKILL.md"),
        _ => panic!("expected the diagnostics to be cleared"),
    }
}

#[test]
fn an_unarmed_server_says_so_instead_of_reporting_clean() {
    // The failure mode that matters most: no rule set must not look like a
    // clean file.
    let bare = Server::with_rules(false);
    assert!(!bare.has_rules());
    let found = bare.diagnostics(&Vec::new());
    assert_eq!(found.len(), 1, "expected exactly the not-configured warning");
    let message = found[0].message.as_str();
    assert!(message.contains("AGTMLS_SPEC"), "unhelpful: {message}");
    assert!(message.contains("not clean"), "must not imply the file was checked");
}

#[test]
fn completion_offers_keys_in_frontmatter_and_nothing_in_the_body() {
    let text = "---\nname: x\n\n---\n\n# Body\n\nprose\n";
    let keys: Vec<String> = completion::items(text, 2)
        .iter()
        .map(|i| i.label.clone())
        .collect();
    assert!(keys.contains(&"description".to_owned()), "got {keys:?}");
    assert!(
        !keys.contains(&"name".to_owned()),
        "already declared, should not be offered again"
    );
    assert!(
        completion::items(text, 6).is_empty(),
        "completing YAML keys into prose is noise"
    );
}

#[test]
fn completing_allowed_tools_says_what_each_tool_costs() {
    let text = "---\nname: x\nallowed-tools: \n---\n\n# X\n";
    let items = completion::items(text, 2);
    let bash = items
        .iter()
        .find(|i| i.label == "Bash")
        .expect("Bash should be offered");
    assert!(
        bash.detail.contains("executes_commands"),
        "granting Bash is a capability decision; say so: {:?}",
        bash.detail
    );
}

#[test]
fn the_invisible_character_fix_removes_exactly_those_characters() {
    let text = "Nothing here\u{fe01}\u{fe02} at all.\n";
    // The finding the steganography rule reports: line 1, as LSP line 0.
    let found = vec![ClientDiagnostic {
        code: Some("AGT-STEG-001".to_owned()),
        line: Some(0),
    }];
    let fixes = actions::for_diagnostics("file:///tmp/s/SKILL.md", text, &found, &Vec::new());
    let fix = fixes.first().expect("a quick fix");
    assert_eq!(fix.kind(), "quickfix");
    assert!(matches!(fix, CodeAction::Edit { .. }));
    let (uri, replacement) = edit_text(fix);
    assert_eq!(uri, "file:///tmp/s/SKILL.md");
    assert_eq!(replacement, "Nothing here at all.");
}

#[test]
fn the_capability_fix_narrows_the_grant_and_never_widens_the_policy() {
    // Resolving AGT-CAP-001 by granting the capability would make handing a
    // skill Bash a one-keystroke fix. It must only ever go the other way.
    let text =
        "---\nname: x\ndescription: y\nallowed-tools: Read, Grep, Bash, WebFetch\n---\n\n# X\n";
    let diagnostic = vec![ClientDiagnostic {
        code: Some("AGT-CAP-001".to_owned()),
        line: Some(3),
    }];
    // The grant as the frontmatter parser reads it.
    let tools: Vec<String> = ["Read", "Grep", "Bash", "WebFetch"]
        .iter()
        .map(|t| t.to_string())
        .collect();
    let fixes = actions::for_diagnostics("file:///s", text, &diagnostic, &tools);
    let fix = fixes.first().expect("a quick fix");
    let (uri, replacement) = edit_text(fix);
    assert_eq!(uri, "file:///s");
    assert_eq!(replacement, "allowed-tools: Read, Grep");
    assert!(
        !replacement.contains("Bash"),
        "the fix must not keep the escalating grant"
    );

    let titles: Vec<&str> = fixes.iter().map(title).collect();
    assert!(
        !titles
            .iter()
            .any(|t| t.to_lowercase().contains("widen") || t.contains("safety_policy to match")),
        "a widening action must never be offered: {titles:?}"
    );
}

#[test]
fn document_symbols_outline_the_headings() {
    let mut server = Server::with_rules(true);
    let _ = server.handle(&open("file:///s", "# One\n\ntext\n\n## Two\n"));
    let read = Request {
        uri: Some("file:///s".to_owned()),
        ..request("textDocument/documentSymbol")
    };
    let reply = server.handle(&read).expect("a reply");
    let Outcome::Symbols(symbols) = reply else {
        panic!("expected symbols");
    };
    let names: Vec<&str> = symbols.iter().map(|s| s.name.as_str()).collect();
    assert_eq!(names, vec!["One", "Two"]);
}

#[test]
fn opening_a_document_publishes_diagnostics() {
    let mut server = Server::with_rules(true);
    let note = server
        .handle(&open("file:///tmp/s/SKILL.md", "Hidden\u{200b} here.\n"))
        .expect("a notification");
    let Outcome::Publish { uri, text } = note else {
        panic!("expected diagnostics to be published");
    };
    assert_eq!(uri, "file:///tmp/s/SKILL.md");
    assert_eq!(text, "Hidden\u{200b} here.\n");
    // The findings the analyzer reports for that text.
    let found = server.diagnostics(&vec![hidden_character(1)]);
    assert!(codes(&found).contains(&"AGT-STEG-001".to_owned()), "got {:?}", codes(&found));
}

#[test]
fn diagnostics_carry_the_rule_id_and_a_link_to_it() {
    // A diagnostic saying only "invisible character" leaves the author with
    // nowhere to go. The rule id is what makes it suppressible and lookup-able.
    let found = Server::with_rules(true).diagnostics(&vec![hidden_character(1)]);
    let first = found.first().expect("a diagnostic");
    assert_eq!(first.code.as_deref(), Some("AGT-STEG-001"));
    assert_eq!(first.severity, 1, "a hidden instruction is an error, not a hint");
    assert!(
        first.href.as_deref().is_some_and(|h| h.contains("agtmls-spec")),
        "no link to the rule"
    );
    assert_eq!(first.source, "agtmls");
}

#[test]
fn benign_content_produces_no_pattern_diagnostics() {
    // A path that is not SKILL.md gets only the per-document rules, which
    // find nothing in benign prose. The rule set's analyzer cannot run here,
    // so its false positives on this text go unchecked: the test holds the
    // path to the per-document rules and an empty finding list to no
    // diagnostics.
    let uri = "file:///tmp/skill/reference.md";
    assert!(skill_file(uri).is_none());
    let found = Server::with_rules(true).diagnostics(&findings_for(Vec::new(), None));
    assert!(found.is_empty(), "false positive: {:?}", codes(&found));
}

#[test]
fn a_skill_with_no_metadata_is_reported_as_unattested() {
    // Editing SKILL.md pulls in the structural rules; with no metadata.json
    // beside it, AGT-POLICY-001 is the correct and only finding.
    let uri = "file:///tmp/skill/SKILL.md";
    assert!(skill_file(uri).is_some());
    let structural = vec![finding(1, "HIGH", "AGT-POLICY-001", "No metadata.json.")];
    let found = Server::with_rules(true).diagnostics(&findings_for(Vec::new(), Some(structural)));
    assert_eq!(codes(&found), vec!["AGT-POLICY-001".to_owned()], "got {:?}", codes(&found));
}
