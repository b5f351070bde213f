use fatimage::error::Error;
use fatimage::generate::{
    add_paths, flatten_inputs, image_plan, load_path, path_to_array, place, CliArgs,
    FlattenedEntry, HostInput, HostNode, HostPath,
};
use std::path::Path;

/// A host path as the library reads it, made the way a caller makes it.
fn host_path(text: &str) -> HostPath<String> {
    HostPath {
        source: text.to_string(),
        text: text.to_string(),
        ancestors: Path::new(text)
            .ancestors()
            .map(|a| a.file_name().map(|n| n.to_string_lossy().into_owned()))
            .collect(),
    }
}

fn file(text: &str) -> HostNode<String> {
    HostNode::File(host_path(text))
}

fn dir(nodes: Vec<HostNode<String>>) -> HostNode<String> {
    HostNode::Directory(nodes)
}

fn strings(names: &[&str]) -> Vec<String> {
    names.iter().map(|s| s.to_string()).collect()
}

fn listed(entries: &[FlattenedEntry<String>]) -> Vec<(String, Vec<String>)> {
    entries.iter().map(|e| (e.source.clone(), e.segments.clone())).collect()
}

#[test]
fn load_path_marks_a_trailing_separator() {
    assert_eq!(load_path("/a/b/"), ("/a/b/".to_string(), true));
    assert_eq!(load_path("/a/b"), ("/a/b".to_string(), false));
    assert_eq!(load_path("dir\\"), ("dir\\".to_string(), true));
    assert_eq!(load_path("/"), ("/".to_string(), true));
    assert_eq!(load_path(""), ("".to_string(), false));
    assert_eq!(load_path("a/b.txt"), ("a/b.txt".to_string(), false));
    assert_eq!(load_path("caf\u{e9}/"), ("caf\u{e9}/".to_string(), true));
    assert_eq!(load_path("/caf\u{e9}"), ("/caf\u{e9}".to_string(), false));
}

#[test]
fn path_without_trailing_separator_keeps_every_segment() {
    let got = path_to_array(&host_path("/a/b/c.txt"), 0).ok().unwrap();
    assert_eq!(got, strings(&["a", "b", "c.txt"]));
}

#[test]
fn path_under_a_flattened_input_loses_the_input() {
    let input = host_path("/a/b/");
    let strip = input.strip_count(true);
    assert_eq!(strip, 2);
    let got = path_to_array(&host_path("/a/b/c/d.txt"), strip).ok().unwrap();
    assert_eq!(got, strings(&["c", "d.txt"]));
}

#[test]
fn strip_count_is_zero_without_the_mark() {
    assert_eq!(host_path("/a/b").strip_count(false), 0);
    assert_eq!(host_path("/a/b").strip_count(true), 2);
    assert_eq!(host_path("a/../b/./c").strip_count(true), 3);
    assert_eq!(host_path("/").strip_count(true), 0);
}

#[test]
fn destination_is_never_empty() {
    for text in ["c.txt", "/c.txt", "a/c.txt", "/a/b/c.txt", "./c.txt", "../c.txt"] {
        for strip in 0..6 {
            let got = path_to_array(&host_path(text), strip).ok().unwrap();
            assert!(!got.is_empty());
            assert_eq!(got.last().unwrap(), "c.txt");
        }
    }
}

#[test]
fn bare_file_name_is_its_own_destination() {
    assert_eq!(path_to_array(&host_path("c.txt"), 0).ok().unwrap(), strings(&["c.txt"]));
    assert_eq!(path_to_array(&host_path("c.txt"), 1).ok().unwrap(), strings(&["c.txt"]));
    assert_eq!(path_to_array(&host_path("c.txt"), 9).ok().unwrap(), strings(&["c.txt"]));
}

#[test]
fn stripping_all_segments_keeps_the_file_name() {
    assert_eq!(path_to_array(&host_path("/a/b/c.txt"), 1).ok().unwrap(), strings(&["b", "c.txt"]));
    assert_eq!(path_to_array(&host_path("/a/b/c.txt"), 2).ok().unwrap(), strings(&["c.txt"]));
    assert_eq!(path_to_array(&host_path("/a/b/c.txt"), 3).ok().unwrap(), strings(&["c.txt"]));
    assert_eq!(path_to_array(&host_path("/a/b/c.txt"), usize::MAX).ok().unwrap(), strings(&["c.txt"]));
}

#[test]
fn segments_pass_over_unnamed_ancestors() {
    assert_eq!(path_to_array(&host_path("a/../b/c"), 0).ok().unwrap(), strings(&["a", "b", "c"]));
    assert_eq!(path_to_array(&host_path("./a/./b"), 0).ok().unwrap(), strings(&["a", "b"]));
}

#[test]
fn path_without_a_name_is_an_argument_error() {
    for text in ["/", "..", "", "."] {
        match path_to_array(&host_path(text), 0) {
            Err(Error::PathArgument { path }) => assert_eq!(path, text),
            _ => panic!("{:?} has no name", text),
        }
    }
}

#[test]
fn add_paths_walks_in_listing_order() {
    let tree = dir(vec![
        file("in/z.txt"),
        dir(vec![file("in/sub/b.txt"), dir(vec![]), file("in/sub/a.txt")]),
        HostNode::Other,
        file("in/a.txt"),
    ]);
    let mut out = vec![FlattenedEntry { source: "before".to_string(), segments: strings(&["x"]) }];
    assert!(add_paths(&mut out, tree, 0).is_ok());
    assert_eq!(
        listed(&out),
        vec![
            ("before".to_string(), strings(&["x"])),
            ("in/z.txt".to_string(), strings(&["in", "z.txt"])),
            ("in/sub/b.txt".to_string(), strings(&["in", "sub", "b.txt"])),
            ("in/sub/a.txt".to_string(), strings(&["in", "sub", "a.txt"])),
            ("in/a.txt".to_string(), strings(&["in", "a.txt"])),
        ]
    );
}

#[test]
fn add_paths_on_a_file_adds_that_file() {
    let mut out = Vec::new();
    assert!(add_paths(&mut out, file("/a/b/c.txt"), 0).is_ok());
    assert_eq!(listed(&out), vec![("/a/b/c.txt".to_string(), strings(&["a", "b", "c.txt"]))]);
}

#[test]
fn add_paths_on_neither_adds_nothing() {
    let mut out: Vec<FlattenedEntry<String>> = Vec::new();
    assert!(add_paths(&mut out, HostNode::Other, 3).is_ok());
    assert!(add_paths(&mut out, dir(vec![]), 3).is_ok());
    assert!(out.is_empty());
}

#[test]
fn add_paths_stops_at_a_file_without_a_name() {
    let tree = dir(vec![file("in/a.txt"), file(".."), file("in/b.txt")]);
    let mut out = Vec::new();
    match add_paths(&mut out, tree, 0) {
        Err(Error::PathArgument { path }) => assert_eq!(path, ".."),
        _ => panic!("expected a path argument error"),
    }
    assert_eq!(listed(&out), vec![("in/a.txt".to_string(), strings(&["in", "a.txt"]))]);
}

#[test]
fn flatten_inputs_keeps_input_order_and_duplicates() {
    let inputs = vec![
        HostInput {
            path: host_path("/a/b/"),
            flatten_contents: true,
            tree: dir(vec![file("/a/b/c/d.txt"), file("/a/b/e.txt")]),
        },
        HostInput {
            path: host_path("other"),
            flatten_contents: false,
            tree: dir(vec![file("other/e.txt")]),
        },
        HostInput { path: host_path("x/e.txt"), flatten_contents: false, tree: file("x/e.txt") },
        HostInput {
            path: host_path("y/"),
            flatten_contents: true,
            tree: dir(vec![file("y/e.txt")]),
        },
    ];
    let entries = flatten_inputs(inputs).ok().unwrap();
    assert_eq!(
        listed(&entries),
        vec![
            ("/a/b/c/d.txt".to_string(), strings(&["c", "d.txt"])),
            ("/a/b/e.txt".to_string(), strings(&["e.txt"])),
            ("other/e.txt".to_string(), strings(&["other", "e.txt"])),
            ("x/e.txt".to_string(), strings(&["x", "e.txt"])),
            ("y/e.txt".to_string(), strings(&["e.txt"])),
        ]
    );
}

#[test]
fn flatten_inputs_fails_on_a_file_without_a_name() {
    let inputs = vec![
        HostInput { path: host_path("a"), flatten_contents: false, tree: file("a") },
        HostInput { path: host_path("/"), flatten_contents: false, tree: file("/") },
    ];
    match flatten_inputs(inputs) {
        Err(Error::PathArgument { path }) => assert_eq!(path, "/"),
        _ => panic!("expected a path argument error"),
    }
}

#[test]
fn flatten_inputs_of_nothing_is_nothing() {
    let entries = flatten_inputs(Vec::<HostInput<String>>::new()).ok().unwrap();
    assert!(entries.is_empty());
}

#[test]
fn place_splits_directories_from_the_file() {
    let placement =
        place(FlattenedEntry { source: 7u32, segments: strings(&["a", "b", "c.txt"]) });
    assert_eq!(placement.source, 7);
    assert_eq!(placement.directories, strings(&["a", "b"]));
    assert_eq!(placement.file, "a/b/c.txt");
    let bare = place(FlattenedEntry { source: 8u32, segments: strings(&["c.txt"]) });
    assert!(bare.directories.is_empty());
    assert_eq!(bare.file, "c.txt");
}

#[test]
fn image_plan_keeps_every_entry_in_order() {
    let entries = vec![
        FlattenedEntry { source: 1u32, segments: strings(&["a", "x.txt"]) },
        FlattenedEntry { source: 2u32, segments: strings(&["y.txt"]) },
        FlattenedEntry { source: 3u32, segments: strings(&["a", "x.txt"]) },
    ];
    let plan = image_plan(entries);
    let got: Vec<(u32, Vec<String>, String)> =
        plan.into_iter().map(|p| (p.source, p.directories, p.file)).collect();
    assert_eq!(
        got,
        vec![
            (1, strings(&["a"]), "a/x.txt".to_string()),
            (2, strings(&[]), "y.txt".to_string()),
            (3, strings(&["a"]), "a/x.txt".to_string()),
        ]
    );
}

#[test]
fn build_arguments_are_read() {
    let args = CliArgs::new("1Ki", "out.img", &strings(&["dir/", "file.txt"])).ok().unwrap();
    assert_eq!(args.size, 1024);
    assert_eq!(args.output, "out.img");
    assert_eq!(args.input, vec![("dir/".to_string(), true), ("file.txt".to_string(), false)]);
    assert_eq!(args.sectors(), 2);
    assert!(matches!(CliArgs::new("lots", "out.img", &strings(&[])), Err(Error::Argument { .. })));
    assert!(matches!(CliArgs::new("8G", "out.img", &strings(&[])), Err(Error::Overflow)));
}

#[test]
fn destination_segments_are_names() {
    for text in ["/a/b/c.txt", "a//b///c", "./a/../b", "x", "/x/", "a/b/"] {
        for strip in 0..4 {
            let got = path_to_array(&host_path(text), strip).ok().unwrap();
            assert!(!got.is_empty());
            assert!(got
                .iter()
                .all(|name| !name.is_empty() && !name.contains('/') && name != "." && name != ".."));
        }
    }
}
