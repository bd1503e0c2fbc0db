use dirtree::text::{join_path, name_less, same_text, split_path, split_words};
use dirtree::{AllowedCommands, Command, DirTree, Error, ListEntry};

fn entry(depth: usize, name: &str) -> ListEntry {
    ListEntry { depth, name: String::from(name) }
}

fn run(t: &mut DirTree, lines: &[&str]) {
    for line in lines {
        t.execute(line).unwrap();
    }
}

fn listing(t: &mut DirTree) -> Vec<ListEntry> {
    t.execute("LIST").unwrap()
}

#[test]
fn list_of_empty_tree_is_empty() {
    let mut t = DirTree::new();
    assert_eq!(listing(&mut t), vec![]);
}

#[test]
fn list_after_creating_siblings() {
    let mut t = DirTree::new();
    run(&mut t, &["CREATE x", "CREATE x/z", "CREATE x/y"]);
    assert_eq!(listing(&mut t), vec![entry(1, "x"), entry(2, "y"), entry(2, "z")]);
}

#[test]
fn move_under_sibling_scenario() {
    let mut t = DirTree::new();
    run(&mut t, &["CREATE a", "CREATE a/b", "CREATE a/c", "MOVE a/b a/c/b"]);
    assert_eq!(listing(&mut t), vec![entry(1, "a"), entry(2, "c"), entry(3, "b")]);
    assert_eq!(
        t.execute("DELETE a/b"),
        Err(Error::Missing {
            op: "delete",
            path: String::from("a/b"),
            missing: String::from("a/b")
        })
    );
}

#[test]
fn create_then_create_again_exists() {
    let mut t = DirTree::new();
    run(&mut t, &["CREATE a"]);
    assert_eq!(
        t.execute("CREATE a"),
        Err(Error::Exists { op: "create", path: String::from("a") })
    );
    assert_eq!(listing(&mut t), vec![entry(1, "a")]);
}

#[test]
fn create_needs_every_ancestor() {
    let mut t = DirTree::new();
    run(&mut t, &["CREATE a"]);
    assert_eq!(
        t.execute("CREATE a/b/c"),
        Err(Error::Missing {
            op: "create",
            path: String::from("a/b/c"),
            missing: String::from("a/b")
        })
    );
    assert_eq!(
        t.execute("CREATE x/y"),
        Err(Error::Missing {
            op: "create",
            path: String::from("x/y"),
            missing: String::from("x")
        })
    );
    assert_eq!(listing(&mut t), vec![entry(1, "a")]);
}

#[test]
fn created_node_is_empty() {
    let mut t = DirTree::new();
    run(&mut t, &["CREATE a", "CREATE a/b"]);
    let path = vec![String::from("a"), String::from("b")];
    assert!(t.root().resolve(&path, 2).unwrap().children().is_empty());
}

#[test]
fn delete_takes_everything_below() {
    let mut t = DirTree::new();
    run(&mut t, &["CREATE a", "CREATE a/b", "CREATE a/b/c", "CREATE a/d", "DELETE a/b"]);
    assert_eq!(listing(&mut t), vec![entry(1, "a"), entry(2, "d")]);
    assert_eq!(
        t.execute("DELETE a/b/c"),
        Err(Error::Missing {
            op: "delete",
            path: String::from("a/b/c"),
            missing: String::from("a/b")
        })
    );
}

#[test]
fn delete_of_missing_path() {
    let mut t = DirTree::new();
    assert_eq!(
        t.execute("DELETE a"),
        Err(Error::Missing {
            op: "delete",
            path: String::from("a"),
            missing: String::from("a")
        })
    );
}

#[test]
fn move_renames_and_keeps_children() {
    let mut t = DirTree::new();
    run(&mut t, &["CREATE a", "CREATE a/b", "CREATE a/b/k1", "CREATE a/b/k2", "MOVE a/b c"]);
    assert_eq!(
        listing(&mut t),
        vec![entry(1, "a"), entry(1, "c"), entry(2, "k1"), entry(2, "k2")]
    );
}

#[test]
fn move_failures_change_nothing() {
    let mut t = DirTree::new();
    run(&mut t, &["CREATE a", "CREATE a/b", "CREATE c"]);
    let before = listing(&mut t);
    assert_eq!(
        t.execute("MOVE a/x c/x"),
        Err(Error::Missing {
            op: "move",
            path: String::from("a/x"),
            missing: String::from("a/x")
        })
    );
    assert_eq!(
        t.execute("MOVE a/b q/r"),
        Err(Error::Missing {
            op: "move",
            path: String::from("q/r"),
            missing: String::from("q")
        })
    );
    assert_eq!(
        t.execute("MOVE a/b c"),
        Err(Error::Exists { op: "move", path: String::from("c") })
    );
    assert_eq!(
        t.execute("MOVE a a/b/x"),
        Err(Error::Missing {
            op: "move",
            path: String::from("a/b/x"),
            missing: String::from("a")
        })
    );
    assert_eq!(listing(&mut t), before);
}

#[test]
fn move_onto_an_existing_path_is_refused() {
    let mut t = DirTree::new();
    run(&mut t, &["CREATE a", "CREATE a/b", "CREATE a/b/c"]);
    let before = listing(&mut t);
    assert_eq!(
        t.execute("MOVE a/b a/b"),
        Err(Error::Exists { op: "move", path: String::from("a/b") })
    );
    assert_eq!(
        t.execute("MOVE a a/b/c"),
        Err(Error::Exists { op: "move", path: String::from("a/b/c") })
    );
    assert_eq!(listing(&mut t), before);
}

#[test]
fn wrong_operand_counts() {
    let mut t = DirTree::new();
    run(&mut t, &["CREATE a"]);
    let before = listing(&mut t);
    assert_eq!(t.execute("CREATE"), Err(Error::ParamCount(1, String::from("CREATE"))));
    assert_eq!(t.execute("MOVE a"), Err(Error::ParamCount(2, String::from("MOVE a"))));
    assert_eq!(t.execute("DELETE a b"), Err(Error::ParamCount(1, String::from("DELETE a b"))));
    assert_eq!(t.execute("LIST a"), Err(Error::ParamCount(0, String::from("LIST a"))));
    assert_eq!(listing(&mut t), before);
}

#[test]
fn unknown_verbs() {
    let mut t = DirTree::new();
    run(&mut t, &["CREATE a"]);
    assert_eq!(
        t.execute("UNKNOWNVERB a/b"),
        Err(Error::UnknownCommand(String::from("UNKNOWNVERB a/b")))
    );
    assert_eq!(t.execute("create a"), Err(Error::UnknownCommand(String::from("create a"))));
    assert_eq!(t.execute(""), Err(Error::UnknownCommand(String::from(""))));
    assert_eq!(t.execute("   "), Err(Error::UnknownCommand(String::from("   "))));
    assert_eq!(listing(&mut t), vec![entry(1, "a")]);
}

#[test]
fn white_space_between_words() {
    let mut t = DirTree::new();
    run(&mut t, &["  CREATE\ta  ", "CREATE   a/b"]);
    assert_eq!(listing(&mut t), vec![entry(1, "a"), entry(2, "b")]);
}

#[test]
fn names_list_in_character_order() {
    let mut t = DirTree::new();
    run(&mut t, &["CREATE b", "CREATE a", "CREATE B", "CREATE ab"]);
    assert_eq!(
        listing(&mut t),
        vec![entry(1, "B"), entry(1, "a"), entry(1, "ab"), entry(1, "b")]
    );
}

#[test]
fn non_list_commands_give_no_entries() {
    let mut t = DirTree::new();
    assert_eq!(t.execute("CREATE a"), Ok(vec![]));
}

#[test]
fn error_messages() {
    let missing = Error::Missing {
        op: "create",
        path: String::from("a/b/c"),
        missing: String::from("a"),
    };
    assert_eq!(missing.message(), "Cannot create a/b/c - a does not exist");
    let exists = Error::Exists { op: "move", path: String::from("c") };
    assert_eq!(exists.message(), "Cannot move c - already exists");
    let count = Error::ParamCount(12, String::from("MOVE a"));
    assert_eq!(count.message(), "Expected 12 parameters for command: \"MOVE a\"");
    let unknown = Error::UnknownCommand(String::from("NOPE"));
    assert_eq!(unknown.message(), "Unknown command: \"NOPE\"");
}

#[test]
fn parse_reads_verb_and_operands() {
    let c = Command::parse("MOVE a/b  c").unwrap();
    assert_eq!(c.operation, AllowedCommands::Move);
    assert_eq!(c.operands, vec![String::from("a/b"), String::from("c")]);
    assert_eq!(AllowedCommands::from_str("LIST"), Some(AllowedCommands::List));
    assert_eq!(AllowedCommands::from_str("List"), None);
    assert_eq!(AllowedCommands::Move.operand_count(), 2);
    let made = Command::new(AllowedCommands::List, vec![]);
    assert!(made.operands.is_empty());
}

#[test]
fn text_helpers() {
    assert_eq!(split_path("a//b/"), vec!["a", "", "b", ""]);
    assert_eq!(split_words(" x\u{3000}y\n"), vec!["x", "y"]);
    let segs = split_path("a/b/c");
    assert_eq!(join_path(&segs, 2), "a/b");
    assert_eq!(join_path(&segs, 0), "");
    assert!(name_less("ab", "b"));
    assert!(name_less("a", "ab"));
    assert!(!name_less("b", "b"));
    assert!(same_text("é", "é"));
    assert!(!same_text("a", "ab"));
}

#[test]
fn entries_render_with_two_spaces_per_level() {
    assert_eq!(entry(1, "a").render(), "a");
    assert_eq!(entry(3, "b").render(), "    b");
}
