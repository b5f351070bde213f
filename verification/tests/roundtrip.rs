use fatimage::extract::{save_dir, CliArgs, Extraction, ImageEntry, Request};
use fatimage::generate::{flatten_inputs, image_plan, HostInput, HostNode, HostPath};
use fatimage::size::{sector_count, try_from_size_str};
use std::collections::BTreeMap;
use std::io::{Cursor, Read, Write};
use std::path::Path;

type Disk = Cursor<Vec<u8>>;

fn host_path(text: &str) -> HostPath<String> {
    HostPath {
        source: text.to_string(),
        text: text.to_string(),
        ancestors: Path::new(text)
            .ancestors()
            .map(|a| a.file_name().map(|n| n.to_string_lossy().into_owned()))
            .collect(),
    }
}

/// Packs the host files, given by path and content, into a new image.
fn generate(size: &str, inputs: Vec<HostInput<String>>, host: &BTreeMap<String, Vec<u8>>) -> Disk {
    let bytes = try_from_size_str(size).ok().unwrap();
    let sectors = sector_count(bytes);
    let mut disk = Cursor::new(vec![0u8; sectors as usize * 512]);
    fatfs::format_volume(
        &mut disk,
        fatfs::FormatVolumeOptions::new()
            .fat_type(fatfs::FatType::Fat32)
            .bytes_per_sector(512)
            .total_sectors(sectors),
    )
    .unwrap();
    let entries = flatten_inputs(inputs).ok().unwrap();
    disk.set_position(0);
    {
        let fs = fatfs::FileSystem::new(&mut disk, fatfs::FsOptions::new()).unwrap();
        for placement in image_plan(entries) {
            let mut folder = fs.root_dir();
            for name in &placement.directories {
                folder = folder.create_dir(name).unwrap();
            }
            let mut file = fs.root_dir().create_file(&placement.file).unwrap();
            file.truncate().unwrap();
            file.write_all(&host[&placement.source]).unwrap();
        }
    }
    disk
}

/// Unpacks the image into `out`, keyed by the path below the output.
fn extract(
    disk: &mut Disk,
    out: &mut BTreeMap<String, Vec<u8>>,
    overwrite: bool,
) -> Result<(), String> {
    disk.set_position(0);
    let fs = fatfs::FileSystem::new(disk, fatfs::FsOptions::new()).unwrap();
    let opts = CliArgs { overwrite, image: String::new(), output: String::new() };
    let mut walk: Extraction<fatfs::DirEntry<&mut Disk>> = Extraction::begin(&opts);
    let mut dirs: Vec<String> = Vec::new();
    loop {
        match walk.request() {
            Request::List { dir, .. } => {
                let folder = match dir {
                    None => fs.root_dir(),
                    Some(entry) => entry.to_dir(),
                };
                let mut entries = Vec::new();
                for entry in folder.iter() {
                    let entry = entry.unwrap();
                    entries.push(ImageEntry {
                        name: entry.file_name(),
                        is_dir: entry.is_dir(),
                        handle: entry,
                    });
                }
                save_dir(&mut walk, entries);
            }
            Request::IsDir { path, .. } => {
                let yes = dirs.contains(&path.join("/"));
                walk.answer(yes);
            }
            Request::IsFile { path, .. } => {
                let yes = out.contains_key(&path.join("/"));
                walk.answer(yes);
            }
            Request::MakeDir { path, .. } => {
                dirs.push(path.join("/"));
                walk.done();
            }
            Request::Copy { entry, path } => {
                let mut bytes = Vec::new();
                entry.to_file().read_to_end(&mut bytes).unwrap();
                out.insert(path.join("/"), bytes);
                walk.done();
            }
            Request::Conflict { path } => return Err(path.join("/")),
            Request::Finished => return Ok(()),
        }
    }
}

fn tree() -> (Vec<HostInput<String>>, BTreeMap<String, Vec<u8>>) {
    let mut host = BTreeMap::new();
    host.insert("/t/readme.txt".to_string(), b"hello".to_vec());
    host.insert("/t/docs/guide.md".to_string(), vec![7u8; 5000]);
    host.insert("/t/docs/deep/long file name with spaces.bin".to_string(), (0..=255).collect());
    host.insert("/t/empty.dat".to_string(), Vec::new());
    let file = |p: &str| HostNode::File(host_path(p));
    let inputs = vec![HostInput {
        path: host_path("/t/"),
        flatten_contents: true,
        tree: HostNode::Directory(vec![
            file("/t/readme.txt"),
            HostNode::Directory(vec![
                file("/t/docs/guide.md"),
                HostNode::Directory(vec![file("/t/docs/deep/long file name with spaces.bin")]),
            ]),
            file("/t/empty.dat"),
        ]),
    }];
    (inputs, host)
}

#[test]
fn round_trip_reproduces_paths_and_bytes() {
    let (inputs, host) = tree();
    let mut disk = generate("64Mi", inputs, &host);
    let mut out = BTreeMap::new();
    assert_eq!(extract(&mut disk, &mut out, false), Ok(()));
    let want: BTreeMap<String, Vec<u8>> =
        host.iter().map(|(k, v)| (k["/t/".len()..].to_string(), v.clone())).collect();
    assert_eq!(out, want);
}

#[test]
fn round_trip_without_flattening_keeps_the_whole_path() {
    let (mut inputs, host) = tree();
    inputs[0].flatten_contents = false;
    inputs[0].path = host_path("/t");
    let mut disk = generate("64Mi", inputs, &host);
    let mut out = BTreeMap::new();
    assert_eq!(extract(&mut disk, &mut out, false), Ok(()));
    let want: BTreeMap<String, Vec<u8>> =
        host.iter().map(|(k, v)| (k[1..].to_string(), v.clone())).collect();
    assert_eq!(out, want);
}

#[test]
fn round_trip_into_a_populated_output() {
    let (inputs, host) = tree();
    let mut disk = generate("64Mi", inputs, &host);
    let mut out = BTreeMap::new();
    out.insert("docs/guide.md".to_string(), b"mine".to_vec());
    assert_eq!(extract(&mut disk, &mut out, false), Err("docs/guide.md".to_string()));
    assert_eq!(out["docs/guide.md"], b"mine");
    assert_eq!(out["readme.txt"], b"hello");
    assert!(!out.contains_key("empty.dat"));
    assert_eq!(extract(&mut disk, &mut out, true), Ok(()));
    assert_eq!(out["docs/guide.md"], vec![7u8; 5000]);
    let once = out.clone();
    assert_eq!(extract(&mut disk, &mut out, true), Ok(()));
    assert_eq!(out, once);
}

#[test]
fn later_file_wins_a_shared_destination() {
    let mut host = BTreeMap::new();
    host.insert("a/x.txt".to_string(), b"first".to_vec());
    host.insert("b/x.txt".to_string(), b"second".to_vec());
    let inputs = vec![
        HostInput {
            path: host_path("a/"),
            flatten_contents: true,
            tree: HostNode::Directory(vec![HostNode::File(host_path("a/x.txt"))]),
        },
        HostInput {
            path: host_path("b/"),
            flatten_contents: true,
            tree: HostNode::Directory(vec![HostNode::File(host_path("b/x.txt"))]),
        },
    ];
    let mut disk = generate("64Mi", inputs, &host);
    let mut out = BTreeMap::new();
    assert_eq!(extract(&mut disk, &mut out, false), Ok(()));
    assert_eq!(out.len(), 1);
    assert_eq!(out["x.txt"], b"second");
}
