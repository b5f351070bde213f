use fatimage::names::{child_names, clone_names, join};

fn strings(names: &[&str]) -> Vec<String> {
    names.iter().map(|s| s.to_string()).collect()
}

#[test]
fn join_puts_the_separator_between_names() {
    assert_eq!(join(&strings(&["a", "b", "c.txt"]), "/"), "a/b/c.txt");
    assert_eq!(join(&strings(&["c.txt"]), "/"), "c.txt");
    assert_eq!(join(&strings(&[]), "/"), "");
    assert_eq!(join(&strings(&["", ""]), "/"), "/");
    assert_eq!(join(&strings(&["a", "b"]), ""), "ab");
    assert_eq!(join(&strings(&["a", "b"]), ", "), "a, b");
    assert_eq!(join(&strings(&["caf\u{e9}", "\u{1f600}"]), "/"), "caf\u{e9}/\u{1f600}");
}

#[test]
fn join_is_the_join_of_slices() {
    let lists: [&[&str]; 5] = [&[], &["x"], &["x", "y"], &["", "y", ""], &["a/b", "c"]];
    for list in lists {
        let names = strings(list);
        assert_eq!(join(&names, "/"), names.join("/"));
    }
}

#[test]
fn clone_names_copies_every_name() {
    let names = strings(&["a", "", "c.txt"]);
    assert_eq!(clone_names(&names), names);
    assert!(clone_names(&Vec::new()).is_empty());
}

#[test]
fn child_names_adds_the_name_at_the_end() {
    let parent = strings(&["a", "b"]);
    assert_eq!(child_names(&parent, &"c".to_string()), strings(&["a", "b", "c"]));
    assert_eq!(child_names(&Vec::new(), &"c".to_string()), strings(&["c"]));
    assert_eq!(parent, strings(&["a", "b"]));
}
