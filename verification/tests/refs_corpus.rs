use host_lifecycle::refs::{authored_corpus, refs_check, DocRead, RefTree, Room, RoomEntry};

fn listed(names: &[&str]) -> Vec<String> {
    names.iter().map(|n| n.to_string()).collect()
}

fn plan_tree() -> RefTree {
    let e = RoomEntry { name: "0074-materialize".into(), is_dir: true, exists: true, has_readme: true };
    RefTree {
        rooms: vec![Room { name: "plan".into(), entries: vec![e] }],
        origin_url: None,
        origin_head: None,
        head: None,
        recipe_text: None,
        gitmodules_text: None,
    }
}

#[test]
fn every_exclusion_spelling_excludes_the_record_it_names() {
    let docs = listed(&["README.md", "archive/journal.md", "plan/0074-materialize/README.md"]);
    for spelling in ["/archive/journal.md", "archive", "./archive/journal.md", "archive/**", "archive/"] {
        let list = format!("{spelling}\n");
        let c = authored_corpus(&docs, "", Some(&list)).unwrap();
        assert_eq!(c.docs, vec!["README.md", "plan/0074-materialize/README.md"], "`{spelling}`");
        assert_eq!(c.excluded, 1, "`{spelling}` withholds one document");
    }
    let why = match authored_corpus(&docs, "", Some("*.md\n!README.md\n")) {
        Err(why) => why,
        Ok(_) => panic!("a re-inclusion is refused"),
    };
    assert!(why.contains("re-inclusion is not supported"), "{why}");
    assert!(why.contains("!README.md"), "{why}");
}

#[test]
fn an_exclusion_names_a_path_not_a_prefix_of_text() {
    let docs = listed(&["archive.md", "archived/x.md", "archive/x.md"]);
    let c = authored_corpus(&docs, "", Some("# the record\n\narchive\n")).unwrap();
    assert_eq!(c.docs, vec!["archive.md", "archived/x.md"]);
    assert_eq!(c.excluded, 1);
}

#[test]
fn a_subdirectory_sweep_still_honours_the_root_exclusion_list() {
    let docs = listed(&["journal.md", "live.md"]);
    let c = authored_corpus(&docs, "notes/", Some("notes/journal.md\n")).unwrap();
    assert_eq!(c.docs, vec!["live.md"]);
    assert_eq!(c.excluded, 1);
}

#[test]
fn refs_check_never_reports_the_record_layer() {
    let docs = listed(&["MEMORY.md", "README.md"]);
    let c = authored_corpus(&docs, "", None).unwrap();
    assert_eq!(c.docs, vec!["README.md"], "the append-only log is withheld with no list at all");
    assert_eq!(c.excluded, 1);
    let c = authored_corpus(&docs, "", Some("MEMORY.md\n")).unwrap();
    assert_eq!(c.docs, vec!["README.md"]);
    let read: Vec<DocRead> = c.docs.iter().map(|n| DocRead { name: n.clone(), text: Some("clean\n".into()) }).collect();
    let v = refs_check(&read, c.excluded as u64, "/t", &plan_tree());
    assert_eq!(v.code, 0);
    assert!(!v.stdout.iter().any(|l| l.contains("MEMORY.md")));
    assert!(v.stdout.iter().any(|l| l.contains("1 document(s) were excluded")), "{:?}", v.stdout);
    let only_record = authored_corpus(&listed(&["MEMORY.md"]), "", None).unwrap();
    assert!(only_record.docs.is_empty());
    let v = refs_check(&vec![], only_record.excluded as u64, "/t", &plan_tree());
    assert_eq!(v.code, 2);
}
