use fatimage::error::Error;
use fatimage::extract::{
    prepare_output, save_dir, CliArgs, Extraction, ImageEntry, Output, Request,
};
use std::collections::{BTreeMap, BTreeSet};

/// An image, as far as an extraction sees it.
enum Node {
    File(Vec<u8>),
    Dir(Vec<(String, Node)>),
}

fn file(name: &str, bytes: &[u8]) -> (String, Node) {
    (name.to_string(), Node::File(bytes.to_vec()))
}

fn dir(name: &str, entries: Vec<(String, Node)>) -> (String, Node) {
    (name.to_string(), Node::Dir(entries))
}

/// A directory as an image lists it: with `.` and `..` first.
fn listed_dir(name: &str, mut entries: Vec<(String, Node)>) -> (String, Node) {
    let mut all = vec![dir(".", vec![file("trap", b"no")]), dir("..", vec![file("trap", b"no")])];
    all.append(&mut entries);
    (name.to_string(), Node::Dir(all))
}

/// A host, keyed by the path below the output directory.
#[derive(Default, Clone, PartialEq, Debug)]
struct Host {
    dirs: BTreeSet<String>,
    files: BTreeMap<String, Vec<u8>>,
    did: Vec<String>,
}

fn listing(entries: &[(String, Node)]) -> Vec<ImageEntry<&Node>> {
    entries
        .iter()
        .map(|(name, node)| ImageEntry {
            name: name.clone(),
            is_dir: matches!(node, Node::Dir(_)),
            handle: node,
        })
        .collect()
}

/// Runs an extraction to its end, doing on `host` what is asked.
fn extract(root: &[(String, Node)], host: &mut Host, overwrite: bool) -> Result<(), String> {
    let opts = CliArgs { overwrite, image: "image".to_string(), output: "out".to_string() };
    let mut walk: Extraction<&Node> = Extraction::begin(&opts);
    loop {
        match walk.request() {
            Request::List { dir, path } => {
                host.did.push(format!("list {}", path.join("/")));
                let entries = match dir {
                    None => listing(root),
                    Some(Node::Dir(entries)) => listing(entries),
                    Some(Node::File(_)) => panic!("asked to list a file"),
                };
                save_dir(&mut walk, entries);
            }
            Request::IsDir { path, .. } => {
                let yes = host.dirs.contains(&path.join("/"));
                walk.answer(yes);
            }
            Request::IsFile { path, .. } => {
                let yes = host.files.contains_key(&path.join("/"));
                walk.answer(yes);
            }
            Request::MakeDir { path, .. } => {
                host.did.push(format!("mkdir {}", path.join("/")));
                host.dirs.insert(path.join("/"));
                walk.done();
            }
            Request::Copy { entry, path } => {
                host.did.push(format!("copy {}", path.join("/")));
                match entry {
                    Node::File(bytes) => host.files.insert(path.join("/"), bytes.clone()),
                    Node::Dir(_) => panic!("asked to copy a directory"),
                };
                walk.done();
            }
            Request::Conflict { path } => return Err(path.join("/")),
            Request::Finished => return Ok(()),
        }
    }
}

fn sample() -> Vec<(String, Node)> {
    vec![
        file("a.txt", b"alpha"),
        listed_dir(
            "sub",
            vec![file("b.txt", b"beta"), listed_dir("deep", vec![file("c.txt", b"gamma")])],
        ),
        listed_dir("empty", vec![]),
        file("z.txt", b""),
    ]
}

#[test]
fn extraction_mirrors_the_tree_depth_first() {
    let mut host = Host::default();
    assert_eq!(extract(&sample(), &mut host, false), Ok(()));
    assert_eq!(
        host.did,
        vec![
            "list ",
            "copy a.txt",
            "mkdir sub",
            "list sub",
            "copy sub/b.txt",
            "mkdir sub/deep",
            "list sub/deep",
            "copy sub/deep/c.txt",
            "mkdir empty",
            "list empty",
            "copy z.txt",
        ]
    );
    assert_eq!(host.files.get("a.txt").unwrap(), b"alpha");
    assert_eq!(host.files.get("sub/b.txt").unwrap(), b"beta");
    assert_eq!(host.files.get("sub/deep/c.txt").unwrap(), b"gamma");
    assert_eq!(host.files.get("z.txt").unwrap(), b"");
    assert_eq!(host.files.len(), 4);
    let dirs: Vec<&str> = host.dirs.iter().map(|s| s.as_str()).collect();
    assert_eq!(dirs, vec!["empty", "sub", "sub/deep"]);
}

#[test]
fn extraction_passes_over_pseudo_entries() {
    let mut host = Host::default();
    assert_eq!(extract(&sample(), &mut host, true), Ok(()));
    for step in &host.did {
        let path = step.split(' ').nth(1).unwrap();
        let last = path.rsplit('/').next().unwrap();
        assert!(last != "." && last != "..", "{}", step);
        assert!(!path.contains("trap"), "{}", step);
    }
    assert!(host.files.keys().all(|k| !k.contains("trap")));
}

#[test]
fn extraction_of_pseudo_entries_alone_does_nothing() {
    let root = vec![dir(".", vec![]), dir("..", vec![]), file(".", b"x"), file("..", b"y")];
    let mut host = Host::default();
    assert_eq!(extract(&root, &mut host, false), Ok(()));
    assert_eq!(host.did, vec!["list "]);
    assert!(host.files.is_empty() && host.dirs.is_empty());
}

#[test]
fn extraction_keeps_names_that_only_look_like_pseudo_entries() {
    let root = vec![file("...", b"3"), file(".a", b"a"), file("a.", b"b"), file(". ", b"c")];
    let mut host = Host::default();
    assert_eq!(extract(&root, &mut host, false), Ok(()));
    assert_eq!(host.files.len(), 4);
}

#[test]
fn extraction_of_an_empty_image_finishes() {
    let mut host = Host::default();
    assert_eq!(extract(&[], &mut host, false), Ok(()));
    assert_eq!(host.did, vec!["list "]);
}

#[test]
fn existing_file_is_a_conflict_without_overwrite() {
    let mut host = Host::default();
    host.dirs.insert("sub".to_string());
    host.files.insert("sub/b.txt".to_string(), b"old".to_vec());
    host.files.insert("z.txt".to_string(), b"old".to_vec());
    assert_eq!(extract(&sample(), &mut host, false), Err("sub/b.txt".to_string()));
    // What came before the conflict is written; nothing after it is.
    assert_eq!(host.did, vec!["list ", "copy a.txt", "list sub"]);
    assert_eq!(host.files.get("a.txt").unwrap(), b"alpha");
    assert_eq!(host.files.get("sub/b.txt").unwrap(), b"old");
    assert_eq!(host.files.get("z.txt").unwrap(), b"old");
    assert!(!host.dirs.contains("empty"));
}

#[test]
fn existing_file_is_replaced_with_overwrite() {
    let mut host = Host::default();
    host.dirs.insert("sub".to_string());
    host.files.insert("sub/b.txt".to_string(), b"old".to_vec());
    host.files.insert("z.txt".to_string(), b"old".to_vec());
    host.files.insert("other.txt".to_string(), b"stays".to_vec());
    assert_eq!(extract(&sample(), &mut host, true), Ok(()));
    assert_eq!(host.files.get("sub/b.txt").unwrap(), b"beta");
    assert_eq!(host.files.get("z.txt").unwrap(), b"");
    assert_eq!(host.files.get("other.txt").unwrap(), b"stays");
    assert!(!host.did.contains(&"mkdir sub".to_string()));
    assert!(host.did.contains(&"mkdir sub/deep".to_string()));
}

#[test]
fn extraction_twice_with_overwrite_gives_the_same() {
    let mut host = Host::default();
    assert_eq!(extract(&sample(), &mut host, true), Ok(()));
    let first = (host.dirs.clone(), host.files.clone());
    host.did.clear();
    assert_eq!(extract(&sample(), &mut host, true), Ok(()));
    assert_eq!((host.dirs.clone(), host.files.clone()), first);
    assert!(host.did.iter().all(|s| !s.starts_with("mkdir")));
}

#[test]
fn extraction_twice_without_overwrite_conflicts_at_the_first_file() {
    let mut host = Host::default();
    assert_eq!(extract(&sample(), &mut host, false), Ok(()));
    assert_eq!(extract(&sample(), &mut host, false), Err("a.txt".to_string()));
}

#[test]
fn directory_that_is_there_is_not_made_again() {
    let mut host = Host::default();
    host.dirs.insert("sub".to_string());
    host.dirs.insert("sub/deep".to_string());
    assert_eq!(extract(&sample(), &mut host, false), Ok(()));
    assert_eq!(host.did.iter().filter(|s| s.starts_with("mkdir")).count(), 1);
    assert!(host.did.contains(&"mkdir empty".to_string()));
}

#[test]
fn two_entries_of_one_name_conflict_with_each_other() {
    let root = vec![file("same", b"first"), file("same", b"second")];
    let mut host = Host::default();
    assert_eq!(extract(&root, &mut host, false), Err("same".to_string()));
    assert_eq!(host.files.get("same").unwrap(), b"first");
    let mut host = Host::default();
    assert_eq!(extract(&root, &mut host, true), Ok(()));
    assert_eq!(host.files.get("same").unwrap(), b"second");
}

#[test]
fn walk_asks_one_thing_at_a_time() {
    let opts = CliArgs { overwrite: false, image: String::new(), output: String::new() };
    let mut walk: Extraction<u8> = Extraction::begin(&opts);
    assert!(matches!(walk.request(), Request::List { dir: None, path } if path.is_empty()));
    save_dir(
        &mut walk,
        vec![
            ImageEntry { name: "..".to_string(), is_dir: true, handle: 1 },
            ImageEntry { name: "d".to_string(), is_dir: true, handle: 2 },
            ImageEntry { name: "f".to_string(), is_dir: false, handle: 3 },
        ],
    );
    assert!(matches!(walk.request(), Request::IsDir { entry: 2, path } if path == &["d"]));
    walk.answer(false);
    assert!(matches!(walk.request(), Request::MakeDir { entry: 2, path } if path == &["d"]));
    walk.done();
    assert!(matches!(walk.request(), Request::List { dir: Some(2), path } if path == &["d"]));
    save_dir(&mut walk, vec![ImageEntry { name: "g".to_string(), is_dir: false, handle: 4 }]);
    assert!(matches!(walk.request(), Request::IsFile { entry: 4, path } if path == &["d", "g"]));
    walk.answer(false);
    assert!(matches!(walk.request(), Request::Copy { entry: 4, path } if path == &["d", "g"]));
    walk.done();
    assert!(matches!(walk.request(), Request::IsFile { entry: 3, path } if path == &["f"]));
    walk.answer(true);
    assert!(matches!(walk.request(), Request::Conflict { path } if path == &["f"]));
    // A conflict is the end: nothing moves the walk on.
    walk.answer(false);
    walk.done();
    save_dir(&mut walk, vec![]);
    assert!(matches!(walk.request(), Request::Conflict { path } if path == &["f"]));
}

#[test]
fn walk_ignores_what_does_not_answer_its_question() {
    let opts = CliArgs { overwrite: true, image: String::new(), output: String::new() };
    let mut walk: Extraction<u8> = Extraction::begin(&opts);
    walk.answer(true);
    walk.done();
    assert!(matches!(walk.request(), Request::List { dir: None, .. }));
    save_dir(&mut walk, vec![ImageEntry { name: "f".to_string(), is_dir: false, handle: 9 }]);
    assert!(matches!(walk.request(), Request::Copy { entry: 9, .. }));
    walk.answer(true);
    save_dir(&mut walk, vec![ImageEntry { name: "x".to_string(), is_dir: false, handle: 1 }]);
    assert!(matches!(walk.request(), Request::Copy { entry: 9, path } if path == &["f"]));
    walk.done();
    assert!(matches!(walk.request(), Request::Finished));
    walk.done();
    walk.answer(false);
    save_dir(&mut walk, vec![ImageEntry { name: "x".to_string(), is_dir: false, handle: 1 }]);
    assert!(matches!(walk.request(), Request::Finished));
}

#[test]
fn output_directory_is_made_kept_or_refused() {
    assert!(matches!(prepare_output(false, false), Ok(Output::Create)));
    assert!(matches!(prepare_output(false, true), Ok(Output::Create)));
    assert!(matches!(prepare_output(true, false), Ok(Output::Keep)));
    assert!(matches!(prepare_output(true, true), Err(Error::NotADirectory)));
}

#[test]
fn messages_name_the_path() {
    let conflict = Error::Conflict { path: "out/a.txt".to_string() }.message();
    assert_eq!(
        conflict,
        "The output path `out/a.txt` already exists, use `--overwrite` to overwrite it"
    );
    assert_eq!(
        Error::NotADirectory.message(),
        "The output path should be a directory, or not exist"
    );
    assert_eq!(
        Error::PathArgument { path: "/".to_string() }.message(),
        "The path `/` has no file name"
    );
    assert!(Error::SourceIo { path: "in/x".to_string() }.message().contains("`in/x`"));
    assert!(Error::DestinationIo { path: "a/b".to_string() }.message().contains("`a/b`"));
    assert!(!Error::Format.message().is_empty());
    assert!(!Error::Overflow.message().is_empty());
}
