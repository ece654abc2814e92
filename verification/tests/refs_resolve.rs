use host_lifecycle::refs::{
    emit, entry_path, github_anchor, origin_slug, owns_room, parse_reference, recorded_owner, resolution,
    resolution_of, resolve_result, scan_document, scan_line, Emission, Finding, RefTree, Resolution, Room, RoomEntry, Weight,
};

fn dir(name: &str) -> RoomEntry {
    RoomEntry { name: name.into(), is_dir: true, exists: true, has_readme: true }
}

fn file(name: &str) -> RoomEntry {
    RoomEntry { name: name.into(), is_dir: false, exists: true, has_readme: false }
}

fn fixture() -> RefTree {
    RefTree {
        rooms: vec![
            Room { name: "plan".into(), entries: vec![dir("0074-materialize")] },
            Room { name: "call".into(), entries: vec![file("0045-store-model.md")] },
        ],
        origin_url: None,
        origin_head: None,
        head: None,
        recipe_text: None,
        gitmodules_text: None,
    }
}

fn bare() -> RefTree {
    RefTree { rooms: vec![], origin_url: None, origin_head: None, head: None, recipe_text: None, gitmodules_text: None }
}

#[test]
fn resolves_a_register_reference_to_its_entry() {
    let base = fixture();
    let milestone = parse_reference("plan/0074#write-spec").unwrap();
    assert_eq!(emit(&base, &milestone, Emission::Path, None).unwrap(), "plan/0074-materialize/README.md#write-spec");
    assert_eq!(
        emit(&base, &milestone, Emission::MarkdownLink, None).unwrap(),
        "[plan/0074#write-spec](plan/0074-materialize/README.md#write-spec)"
    );
    let decision = parse_reference("call/0045").unwrap();
    assert_eq!(emit(&base, &decision, Emission::Path, None).unwrap(), "call/0045-store-model.md");
    assert!(entry_path(&base, &decision).is_some());
    assert!(entry_path(&base, &parse_reference("call/0099").unwrap()).is_none());
}

#[test]
fn names_which_unresolved_case_this_is() {
    let base = fixture();
    let absent = parse_reference("plan/0099").unwrap();
    let err = emit(&base, &absent, Emission::Path, None).unwrap_err();
    assert!(err.contains("unresolved here"), "{err}");
    assert!(err.contains("plan/ exists"), "{err}");
    assert!(!err.contains("governing host"), "{err}");
    let err = emit(&bare(), &absent, Emission::Path, None).unwrap_err();
    assert!(err.contains("governing host"), "{err}");
    assert!(err.contains("no plan/ room"), "{err}");
    let mut doubled_tree = fixture();
    doubled_tree.rooms[0].entries.push(dir("0074-abandoned-draft"));
    let doubled = parse_reference("plan/0074").unwrap();
    let err = emit(&doubled_tree, &doubled, Emission::Path, None).unwrap_err();
    assert!(err.contains("ambiguous"), "{err}");
    assert!(err.contains("0074-abandoned-draft") && err.contains("0074-materialize"), "{err}");
}

#[test]
fn a_milestone_without_a_readme_is_still_the_entry() {
    let mut base = fixture();
    base.rooms[0].entries.push(RoomEntry {
        name: "0080-directory-is-the-record".into(),
        is_dir: true,
        exists: true,
        has_readme: false,
    });
    let reference = parse_reference("plan/0080").unwrap();
    assert_eq!(emit(&base, &reference, Emission::Path, None).unwrap(), "plan/0080-directory-is-the-record");
    assert!(scan_document("governed by plan/0080\n", "README.md", &base).is_empty());
}

#[test]
fn sweeps_dead_pointers_and_bare_issue_numbers() {
    let base = fixture();
    let doc = "see plan/0074 and call/0045\n\
               a dead one: plan/0099\n\
               bare #17 here\n\
               linked [#18](https://github.com/o/r/issues/18) there\n\
               ```\n\
               fenced #19 and plan/0098\n\
               ```\n";
    let found = scan_document(doc, "doc.md", &base);
    let dead: Vec<&Finding> = found.iter().filter(|f| f.weight == Weight::DeadPointer).collect();
    let debt: Vec<&Finding> = found.iter().filter(|f| f.weight == Weight::Unrendered).collect();
    assert_eq!(dead.len(), 1, "{found:?}");
    assert_eq!(dead[0].text, "plan/0099");
    assert_eq!(debt.len(), 1, "{found:?}");
    assert_eq!(debt[0].text, "#17");
    assert!(found.iter().all(|f| f.text != "#18"));
    let line: Vec<char> = "[#18](https://github.com/o/r/issues/18)".chars().collect();
    let linked = scan_line(&line);
    assert!(linked.iter().any(|s| s.reference.number == "18" && s.in_link));
    assert!(found.iter().all(|f| f.line != 6));
    assert!(scan_document("an example: `plan/0098` and `#21`\n", "doc.md", &base).is_empty());
    assert_eq!(scan_document("[plan/0097](plan/0097-x/README.md)\n", "doc.md", &base).len(), 1);
}

#[test]
fn a_repository_without_the_room_owns_no_dead_pointer() {
    let base = bare();
    let reference = parse_reference("call/0045").unwrap();
    assert!(!owns_room(&base, &reference));
    assert!(scan_document("governed by call/0045 and plan/0074\n", "README.md", &base).is_empty());
}

#[test]
fn reports_the_three_resolution_outcomes() {
    let base = fixture();
    assert_eq!(resolution(&base, "plan/0074"), Resolution::Resolved);
    assert_eq!(resolution_of(&base, &parse_reference("plan/0074").unwrap()), Resolution::Resolved);
    assert_eq!(resolution_of(&base, &parse_reference("plan/0099").unwrap()), Resolution::UnresolvedHere);
    assert_eq!(resolution(&base, "plan/0099"), Resolution::UnresolvedHere);
    assert_eq!(resolution(&base, "plan/74"), Resolution::Malformed);
    assert_eq!(resolution(&base, "not a reference"), Resolution::Malformed);
}

#[test]
fn quoting_is_read_the_way_a_markdown_reader_reads_it() {
    let base = fixture();
    let cases: [(&str, usize, &str); 6] = [
        ("> ```\n> an example: #19 and plan/0097\n> ```\n", 0, "a fence inside a blockquote is still a fence"),
        ("prose\n\n    host-lifecycle resolve plan/0097 .\n", 0, "an indented code block is code"),
        ("<!-- TODO: renumber plan/0097 -->\n", 0, "an HTML comment is not prose"),
        ("The hook would force a `cargo fmt\n--check` run, so plan/0097 stayed dead.\n", 1, "a code span wrapping a line break quotes only itself"),
        ("Don't write ` there, and note plan/0097 is dead.\n", 1, "an unmatched backtick is literal and quotes nothing"),
        ("``an example: #19 inside a double span``\n", 0, "a nested span quotes what it holds"),
    ];
    for (doc, expected, why) in cases {
        let found = scan_document(doc, "doc.md", &base);
        assert_eq!(found.len(), expected, "{why}: {found:?}");
    }
    let listed = scan_document("- a bullet\n    continued, and plan/0097 is dead\n", "doc.md", &base);
    assert_eq!(listed.len(), 1, "{listed:?}");
}

#[test]
fn a_qualified_reference_is_not_called_bare() {
    let base = fixture();
    let found = scan_document("compare host-lint#17 with host-prove#17 on one line\n", "doc.md", &base);
    assert_eq!(found.len(), 2, "{found:?}");
    assert_eq!(found[0].text, "host-lint#17");
    assert_eq!(found[1].text, "host-prove#17");
    assert!(scan_document("see https://example.com/spec/page#2024 for the shape\n", "doc.md", &base).is_empty());
    let codes = scan_document("the deferred #41/#50 dogfood\n", "doc.md", &base);
    assert_eq!(codes.len(), 1, "{codes:?}");
    assert_eq!(codes[0].text, "#41");
}

#[test]
fn a_component_takes_the_owner_this_tree_records() {
    let mut base = fixture();
    base.gitmodules_text = Some("[submodule \"tools/allium\"]\n\turl = https://github.com/juxt/allium.git\n".into());
    assert_eq!(recorded_owner(&base, "allium").as_deref(), Some("juxt"));
    assert_eq!(recorded_owner(&base, "not-a-component"), None);
}

#[test]
fn the_url_anchor_is_the_one_the_forge_actually_holds() {
    let text = "# m\n\n### The reference surface {#write-spec}\n";
    assert_eq!(github_anchor(text, "write-spec").as_deref(), Some("the-reference-surface-write-spec"));
    assert_eq!(github_anchor(text, "no-such-node"), None);
}

#[test]
fn url_needs_an_origin_and_the_anchor_survives() {
    let base = fixture();
    let anchored = parse_reference("plan/0074#write-spec").unwrap();
    for emission in [Emission::Path, Emission::MarkdownLink] {
        assert!(emit(&base, &anchored, emission, None).unwrap().contains("#write-spec"));
    }
    assert!(origin_slug(&base).is_none());
    let err = emit(&base, &anchored, Emission::FullUrl, None).unwrap_err();
    assert!(err.contains("origin"), "{err}");
    let issue = parse_reference("#17").unwrap();
    assert!(emit(&base, &issue, Emission::Path, None).unwrap_err().contains("forge"));
}

#[test]
fn resolve_exits_by_what_the_reference_came_to() {
    let base = fixture();
    let (code, out) = resolve_result(&base, "plan/0074", Emission::Path, None);
    assert_eq!(code, 0);
    assert_eq!(out, Some(Ok("plan/0074-materialize/README.md".to_string())));
    let (code, out) = resolve_result(&base, "call/0999", Emission::Path, None);
    assert_eq!(code, 1);
    assert!(matches!(out, Some(Err(_))));
    let (code, out) = resolve_result(&base, "plan/74", Emission::Path, None);
    assert_eq!(code, 2);
    assert_eq!(out, None);
}
