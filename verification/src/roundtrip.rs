//! Packing and unpacking fit together: what a build puts into an image is
//! what an extraction of that image leaves on an empty host, path for path
//! and byte for byte.
//!
//! The image is the tree of `unpack`. `file_at` says which file an image
//! holds at a path. `put` is the image after one file was written into it
//! at its destination, the directories on the way created where they were
//! missing, and `build` the image after a list of files. Both say what the
//! file system that keeps the image is relied on to do; nothing here holds
//! that file system to it.
use vstd::prelude::*;
use crate::extract::{is_pseudo, Ask, Walk};
use crate::generate::{all_names, is_name};
use crate::unpack::{
    lemma_overwrite_lays_image_over, lemma_overwrite_unpacks_all, lemma_unpack_passes_over_pseudo,
    lemma_walk_unpacks, real_below, turns, unpack, unpack_entry, unpack_from, Host, Run, Tree,
};

verus! {

/// Among the entries from the `i`th on, one that stands for something has
/// this name.
pub open spec fn has_name(entries: Seq<Tree>, i: nat, name: Seq<char>) -> bool
    decreases entries.len() - i,
{
    i < entries.len() && ((!is_pseudo(entries[i as int].name) && entries[i as int].name == name)
        || has_name(entries, i + 1, name))
}

/// No name stands twice in a directory, here and in every directory below:
/// an entry that stands for something does not have its name again later
/// in the listing.
pub open spec fn tidy(entries: Seq<Tree>) -> bool
    decreases entries,
{
    forall|i: int|
        0 <= i < entries.len() ==> {
            &&& !is_pseudo((#[trigger] entries[i]).name) ==> !has_name(
                entries,
                (i + 1) as nat,
                entries[i].name,
            )
            &&& entries[i].is_dir ==> tidy(entries[i].entries)
        }
}

/// The bytes of the file that the entries from the `i`th on hold at the
/// path `path`, the names from this directory down; `None` where they hold
/// no file there.
pub open spec fn file_at(entries: Seq<Tree>, i: nat, path: Seq<Seq<char>>) -> Option<Seq<u8>>
    decreases entries, entries.len() - i,
{
    if i >= entries.len() || path.len() == 0 {
        None
    } else {
        let entry = entries[i as int];
        if !is_pseudo(entry.name) && path[0] == entry.name {
            if entry.is_dir {
                file_at(entry.entries, 0, path.skip(1))
            } else if path.len() == 1 {
                Some(entry.bytes)
            } else {
                None
            }
        } else {
            file_at(entries, i + 1, path)
        }
    }
}

/// The file that the entries of the directory at `dir` hold at the path
/// `path` from the root.
pub open spec fn file_below(
    entries: Seq<Tree>,
    i: nat,
    dir: Seq<Seq<char>>,
    path: Seq<Seq<char>>,
) -> Option<Seq<u8>> {
    if path.len() > dir.len() && path.take(dir.len() as int) == dir {
        file_at(entries, i, path.skip(dir.len() as int))
    } else {
        None
    }
}

/// `files` has at `path` the file `want`, or none where `want` is none.
pub open spec fn shows(
    files: Map<Seq<Seq<char>>, Seq<u8>>,
    path: Seq<Seq<char>>,
    want: Option<Seq<u8>>,
) -> bool {
    &&& files.dom().contains(path) == (want is Some)
    &&& want is Some ==> files[path] == want->0
}

proof fn lemma_file_has_name(entries: Seq<Tree>, i: nat, path: Seq<Seq<char>>)
    requires
        file_at(entries, i, path) is Some,
    ensures
        path.len() > 0,
        has_name(entries, i, path[0]),
    decreases entries.len() - i,
{
    if i < entries.len() && path.len() > 0 {
        let entry = entries[i as int];
        if !(!is_pseudo(entry.name) && path[0] == entry.name) {
            lemma_file_has_name(entries, i + 1, path);
        }
    }
}

/// Unpacked with `overwrite` onto an empty host, a tidy image leaves
/// exactly its files: each at its path with its bytes, and no other.
proof fn lemma_image_files(entries: Seq<Tree>, i: nat, dir: Seq<Seq<char>>)
    requires
        tidy(entries),
        i <= entries.len(),
    ensures
        forall|p: Seq<Seq<char>>| #[trigger]
            shows(
                unpack_from(entries, i, dir, Host::nothing(), true).host.files,
                p,
                file_below(entries, i, dir, p),
            ),
    decreases entries, entries.len() - i,
{
    let bare = Host::nothing();
    let all = unpack_from(entries, i, dir, bare, true).host.files;
    if i < entries.len() {
        let e = entries[i as int];
        let here = dir.push(e.name);
        let alone = unpack_entry(e, dir, bare, true);
        let inner = unpack_from(e.entries, 0, here, bare, true).host.files;
        if !is_pseudo(e.name) && e.is_dir {
            lemma_overwrite_unpacks_all(e.entries, 0, here, bare.with_dir(here));
            lemma_overwrite_lays_image_over(e.entries, 0, here, bare.with_dir(here));
            lemma_image_files(e.entries, 0, here);
            assert(alone.host.files =~= inner);
        }
        assert(alone.conflict is None);
        let later = unpack_from(entries, i + 1, dir, bare, true).host.files;
        lemma_overwrite_lays_image_over(entries, i + 1, dir, alone.host);
        assert(all == alone.host.files.union_prefer_right(later));
        lemma_image_files(entries, i + 1, dir);
        assert(here.take(dir.len() as int) == dir);
        assert forall|p: Seq<Seq<char>>| #[trigger]
            shows(all, p, file_below(entries, i, dir, p)) by {
            assert(shows(later, p, file_below(entries, i + 1, dir, p)));
            let below = p.len() > dir.len() && p.take(dir.len() as int) == dir;
            let q = p.skip(dir.len() as int);
            if below && !is_pseudo(e.name) && q[0] == e.name {
                if file_at(entries, i + 1, q) is Some {
                    lemma_file_has_name(entries, i + 1, q);
                    assert(false);
                }
                assert(!later.dom().contains(p));
                assert(file_below(entries, i, dir, p) == file_at(entries, i, q));
                if e.is_dir {
                    assert(shows(inner, p, file_below(e.entries, 0, here, p)));
                    assert(file_at(entries, i, q) == file_at(e.entries, 0, q.skip(1)));
                    if q.len() > 1 {
                        assert(p.take(here.len() as int) == here);
                        assert(p.skip(here.len() as int) == q.skip(1));
                    } else {
                        assert(q.skip(1).len() == 0);
                        assert(file_at(e.entries, 0, q.skip(1)) is None);
                    }
                    assert(shows(alone.host.files, p, file_at(entries, i, q)));
                } else {
                    assert(alone.host.files =~= Map::<Seq<Seq<char>>, Seq<u8>>::empty().insert(
                        here,
                        e.bytes,
                    ));
                    if q.len() == 1 {
                        assert(p == here);
                    } else {
                        assert(p != here);
                    }
                    assert(shows(alone.host.files, p, file_at(entries, i, q)));
                }
                assert(shows(all, p, file_below(entries, i, dir, p)));
            } else {
                if !is_pseudo(e.name) {
                    if e.is_dir {
                        assert(shows(inner, p, file_below(e.entries, 0, here, p)));
                        if p.len() > here.len() && p.take(here.len() as int) == here {
                            assert(p.take(dir.len() as int) == p.take(here.len() as int).take(
                                dir.len() as int,
                            ));
                            assert(p[dir.len() as int] == p.take(here.len() as int)[dir.len() as int]);
                            assert(false);
                        }
                    } else {
                        if p == here {
                            assert(false);
                        }
                    }
                }
                assert(!alone.host.files.dom().contains(p));
                assert(file_below(entries, i, dir, p) == file_below(entries, i + 1, dir, p));
                assert(shows(all, p, file_below(entries, i, dir, p)));
            }
        }
    }
}

/// The host has no file below the directory at `dir` under a name of the
/// entries from the `i`th on.
pub open spec fn clear_at(
    host: Host,
    entries: Seq<Tree>,
    i: nat,
    dir: Seq<Seq<char>>,
    path: Seq<Seq<char>>,
) -> bool {
    (path.len() > dir.len() && path.take(dir.len() as int) == dir && has_name(
        entries,
        i,
        path[dir.len() as int],
    )) ==> !host.files.dom().contains(path)
}

/// Where the host has no file in the way, a tidy image meets no conflict:
/// unpacking it without `overwrite` is unpacking it with.
proof fn lemma_clear_host_needs_no_overwrite(
    entries: Seq<Tree>,
    i: nat,
    dir: Seq<Seq<char>>,
    host: Host,
)
    requires
        tidy(entries),
        i <= entries.len(),
        forall|p: Seq<Seq<char>>| #[trigger] clear_at(host, entries, i, dir, p),
    ensures
        unpack_from(entries, i, dir, host, false) == unpack_from(entries, i, dir, host, true),
    decreases entries, entries.len() - i,
{
    if i < entries.len() {
        let e = entries[i as int];
        let here = dir.push(e.name);
        let after = unpack_entry(e, dir, host, true);
        let made = if host.dirs.contains(here) {
            host
        } else {
            host.with_dir(here)
        };
        assert(here.take(dir.len() as int) == dir);
        if is_pseudo(e.name) {
        } else if e.is_dir {
            assert forall|p: Seq<Seq<char>>| #[trigger]
                clear_at(made, e.entries, 0, here, p) by {
                if p.len() > here.len() && p.take(here.len() as int) == here {
                    assert(p.take(dir.len() as int) == p.take(here.len() as int).take(
                        dir.len() as int,
                    ));
                    assert(p[dir.len() as int] == p.take(here.len() as int)[dir.len() as int]);
                    assert(clear_at(host, entries, i, dir, p));
                }
            }
            lemma_clear_host_needs_no_overwrite(e.entries, 0, here, made);
            lemma_unpack_passes_over_pseudo(e.entries, 0, here, made, true);
            lemma_overwrite_unpacks_all(e.entries, 0, here, made);
        } else {
            assert(clear_at(host, entries, i, dir, here));
        }
        assert(unpack_entry(e, dir, host, false) == after);
        assert(after.conflict is None);
        assert forall|p: Seq<Seq<char>>| #[trigger]
            clear_at(after.host, entries, i + 1, dir, p) by {
            if p.len() > dir.len() && p.take(dir.len() as int) == dir && has_name(
                entries,
                i + 1,
                p[dir.len() as int],
            ) {
                assert(clear_at(host, entries, i, dir, p));
                if !is_pseudo(e.name) {
                    assert(p[dir.len() as int] != e.name);
                    if e.is_dir {
                        if p.len() > here.len() && p.take(here.len() as int) == here {
                            assert(p[dir.len() as int] == p.take(here.len() as int)[dir.len() as int]);
                            assert(false);
                        }
                        assert(!real_below(here, p));
                        assert(unpack_from(e.entries, 0, here, made, true).host.same_at(made, p));
                    } else {
                        if p == here {
                            assert(false);
                        }
                    }
                }
            }
        }
        lemma_clear_host_needs_no_overwrite(entries, i + 1, dir, after.host);
    }
}

/// Unpacked onto an empty host, with `overwrite` or without, a tidy image
/// meets no conflict and leaves exactly its files: every file at its path
/// with all its bytes, none missing and none besides.
pub proof fn lemma_unpack_gives_the_image(root: Seq<Tree>, overwrite: bool)
    requires
        tidy(root),
    ensures
        unpack(root, Host::nothing(), overwrite).conflict is None,
        forall|p: Seq<Seq<char>>| #[trigger]
            shows(unpack(root, Host::nothing(), overwrite).host.files, p, file_at(root, 0, p)),
{
    let dir = Seq::<Seq<char>>::empty();
    let bare = Host::nothing();
    lemma_image_files(root, 0, dir);
    lemma_overwrite_unpacks_all(root, 0, dir, bare);
    assert forall|p: Seq<Seq<char>>| #[trigger] clear_at(bare, root, 0, dir, p) by {}
    lemma_clear_host_needs_no_overwrite(root, 0, dir, bare);
    assert forall|p: Seq<Seq<char>>| #[trigger]
        shows(unpack(root, bare, overwrite).host.files, p, file_at(root, 0, p)) by {
        assert(shows(unpack_from(root, 0, dir, bare, true).host.files, p, file_below(root, 0, dir, p)));
        if p.len() > 0 {
            assert(p.take(0) == dir);
            assert(p.skip(0) == p);
        }
    }
}

/// The place of the first entry from the `i`th on that stands for
/// something under `name`; the length of `entries` where there is none.
pub open spec fn find(entries: Seq<Tree>, i: nat, name: Seq<char>) -> nat
    decreases entries.len() - i,
{
    if i >= entries.len() {
        entries.len()
    } else if !is_pseudo(entries[i as int].name) && entries[i as int].name == name {
        i
    } else {
        find(entries, i + 1, name)
    }
}

/// What a directory holds when it has just been made: `.` and `..`.
pub open spec fn new_dir() -> Seq<Tree> {
    seq![
        Tree { name: seq!['.'], is_dir: true, bytes: Seq::empty(), entries: Seq::empty() },
        Tree { name: seq!['.', '.'], is_dir: true, bytes: Seq::empty(), entries: Seq::empty() },
    ]
}

/// The directory after a file with `bytes` was written at `path`, the
/// names from this directory down: each directory on the way is entered, or
/// made at the end of the listing where it is missing, and the file takes
/// the place of the file of its name, or comes at the end of the listing.
pub open spec fn put(entries: Seq<Tree>, path: Seq<Seq<char>>, bytes: Seq<u8>) -> Seq<Tree>
    decreases path.len(),
{
    if path.len() == 0 {
        entries
    } else {
        let at = find(entries, 0, path[0]);
        let inside = if at < entries.len() {
            entries[at as int].entries
        } else {
            new_dir()
        };
        let entry = if path.len() == 1 {
            Tree { name: path[0], is_dir: false, bytes, entries: Seq::empty() }
        } else {
            Tree {
                name: path[0],
                is_dir: true,
                bytes: Seq::empty(),
                entries: put(inside, path.skip(1), bytes),
            }
        };
        if at < entries.len() {
            entries.update(at as int, entry)
        } else {
            entries.push(entry)
        }
    }
}

/// Nothing is in the way of a file at `path`: what is there under the name
/// of a directory on the way is a directory, and what is there under the
/// name of the file is a file.
pub open spec fn fits(entries: Seq<Tree>, path: Seq<Seq<char>>) -> bool
    decreases path.len(),
{
    if path.len() == 0 {
        true
    } else {
        let at = find(entries, 0, path[0]);
        if at >= entries.len() {
            true
        } else if path.len() == 1 {
            !entries[at as int].is_dir
        } else {
            entries[at as int].is_dir && fits(entries[at as int].entries, path.skip(1))
        }
    }
}

/// The entry at `j` stands for something under `name`.
pub open spec fn answers(entries: Seq<Tree>, j: int, name: Seq<char>) -> bool {
    !is_pseudo(entries[j].name) && entries[j].name == name
}

proof fn lemma_find(entries: Seq<Tree>, i: nat, name: Seq<char>)
    requires
        i <= entries.len(),
    ensures
        i <= find(entries, i, name) <= entries.len(),
        forall|j: int| i <= j < find(entries, i, name) ==> !#[trigger] answers(entries, j, name),
        find(entries, i, name) < entries.len() ==> answers(
            entries,
            find(entries, i, name) as int,
            name,
        ),
        has_name(entries, i, name) <==> find(entries, i, name) < entries.len(),
    decreases entries.len() - i,
{
    if i < entries.len() && !answers(entries, i as int, name) {
        lemma_find(entries, i + 1, name);
    }
}

proof fn lemma_file_at_passes(entries: Seq<Tree>, i: nat, k: nat, path: Seq<Seq<char>>)
    requires
        i <= k <= entries.len(),
        path.len() > 0,
        forall|j: int| i <= j < k ==> !#[trigger] answers(entries, j, path[0]),
    ensures
        file_at(entries, i, path) == file_at(entries, k, path),
    decreases k - i,
{
    if i < k {
        assert(!answers(entries, i as int, path[0]));
        lemma_file_at_passes(entries, i + 1, k, path);
    }
}

/// A file is found the same in two listings that differ only in entries
/// of other names.
proof fn lemma_file_at_elsewhere(old: Seq<Tree>, new: Seq<Tree>, i: nat, path: Seq<Seq<char>>)
    requires
        old.len() <= new.len(),
        path.len() > 0,
        forall|j: int|
            0 <= j < old.len() ==> #[trigger] new[j] == old[j] || (!answers(old, j, path[0])
                && !answers(new, j, path[0])),
        forall|j: int| old.len() <= j < new.len() ==> !#[trigger] answers(new, j, path[0]),
    ensures
        file_at(new, i, path) == file_at(old, i, path),
    decreases new.len() - i,
{
    if i >= old.len() {
        if i < new.len() {
            lemma_file_at_passes(new, i, new.len(), path);
        }
    } else {
        assert(new[i as int] == old[i as int] || (!answers(old, i as int, path[0]) && !answers(
            new,
            i as int,
            path[0],
        )));
        lemma_file_at_elsewhere(old, new, i + 1, path);
    }
}

proof fn lemma_has_name_same(old: Seq<Tree>, new: Seq<Tree>, i: nat, name: Seq<char>)
    requires
        old.len() == new.len(),
        forall|j: int| 0 <= j < old.len() ==> (#[trigger] new[j]).name == old[j].name,
    ensures
        has_name(new, i, name) == has_name(old, i, name),
    decreases old.len() - i,
{
    if i < old.len() {
        assert(new[i as int].name == old[i as int].name);
        lemma_has_name_same(old, new, i + 1, name);
    }
}

proof fn lemma_has_name_pushed(old: Seq<Tree>, entry: Tree, i: nat, name: Seq<char>)
    requires
        i <= old.len(),
    ensures
        has_name(old.push(entry), i, name) == (has_name(old, i, name) || (!is_pseudo(entry.name)
            && entry.name == name)),
    decreases old.len() - i,
{
    let new = old.push(entry);
    if i < old.len() {
        assert(new[i as int] == old[i as int]);
        lemma_has_name_pushed(old, entry, i + 1, name);
    } else {
        assert(new[i as int] == entry);
        assert(!has_name(new, i + 1, name));
    }
}

/// After a file was written at `path`, the directory is tidy as before,
/// holds that file at `path`, and holds at every other path what it held.
proof fn lemma_put(entries: Seq<Tree>, path: Seq<Seq<char>>, bytes: Seq<u8>)
    requires
        tidy(entries),
        path.len() >= 1,
        forall|j: int| 0 <= j < path.len() ==> !is_pseudo(#[trigger] path[j]),
        fits(entries, path),
    ensures
        tidy(put(entries, path, bytes)),
        forall|q: Seq<Seq<char>>| #[trigger]
            file_at(put(entries, path, bytes), 0, q) == if q == path {
                Some(bytes)
            } else {
                file_at(entries, 0, q)
            },
    decreases path.len(),
{
    let name = path[0];
    let rest = path.skip(1);
    let at = find(entries, 0, name);
    let new = put(entries, path, bytes);
    lemma_find(entries, 0, name);
    let found = at < entries.len();
    let inside = if found {
        entries[at as int].entries
    } else {
        new_dir()
    };
    let entry = if path.len() == 1 {
        Tree { name, is_dir: false, bytes, entries: Seq::empty() }
    } else {
        Tree { name, is_dir: true, bytes: Seq::empty(), entries: put(inside, rest, bytes) }
    };
    assert(new == if found {
        entries.update(at as int, entry)
    } else {
        entries.push(entry)
    });
    assert(!is_pseudo(name));
    // The directory that the rest of the path is written into.
    if path.len() > 1 {
        assert forall|j: int| 0 <= j < rest.len() implies !is_pseudo(#[trigger] rest[j]) by {
            assert(rest[j] == path[j + 1]);
        }
        if found {
            assert(tidy(inside));
        } else {
            assert(tidy(inside)) by {
                assert(is_pseudo(inside[0].name));
                assert(is_pseudo(inside[1].name));
                assert(tidy(inside[0].entries));
                assert(tidy(inside[1].entries));
            }
            assert(fits(inside, rest)) by {
                reveal_with_fuel(find, 3);
                assert(is_pseudo(inside[0].name));
                assert(is_pseudo(inside[1].name));
                assert(find(inside, 0, rest[0]) == 2);
            }
        }
        lemma_put(inside, rest, bytes);
    }
    // The new listing is tidy.
    assert(tidy(new)) by {
        assert forall|i: int| 0 <= i < new.len() implies {
            &&& !is_pseudo((#[trigger] new[i]).name) ==> !has_name(
                new,
                (i + 1) as nat,
                new[i].name,
            )
            &&& new[i].is_dir ==> tidy(new[i].entries)
        } by {
            if found {
                assert forall|j: int| 0 <= j < entries.len() implies (#[trigger] new[j]).name
                    == entries[j].name by {
                    if j == at {
                        assert(answers(entries, at as int, name));
                    }
                }
                lemma_has_name_same(entries, new, (i + 1) as nat, new[i].name);
                assert(new[i].name == entries[i].name);
                if i != at {
                    assert(new[i] == entries[i]);
                }
            } else {
                if i < entries.len() {
                    lemma_has_name_pushed(entries, entry, (i + 1) as nat, new[i].name);
                    assert(new[i] == entries[i]);
                    if !is_pseudo(entries[i].name) {
                        assert(!answers(entries, i, name));
                    }
                } else {
                    assert(new[i] == entry);
                    assert(!has_name(new, (i + 1) as nat, name));
                }
            }
        }
    }
    // It holds the file, and besides it what was held before.
    assert forall|q: Seq<Seq<char>>| #[trigger]
        file_at(new, 0, q) == if q == path {
            Some(bytes)
        } else {
            file_at(entries, 0, q)
        } by {
        if q.len() == 0 {
        } else if q[0] != name {
            assert forall|j: int| 0 <= j < entries.len() implies #[trigger] new[j] == entries[j]
                || (!answers(entries, j, q[0]) && !answers(new, j, q[0])) by {
                if found && j == at {
                    assert(answers(entries, at as int, name));
                }
            }
            lemma_file_at_elsewhere(entries, new, 0, q);
        } else {
            let k = if found {
                at
            } else {
                entries.len() as nat
            };
            assert forall|j: int| 0 <= j < k implies !#[trigger] answers(new, j, q[0]) by {
                assert(new[j] == entries[j]);
                assert(!answers(entries, j, name));
            }
            lemma_file_at_passes(new, 0, k, q);
            lemma_file_at_passes(entries, 0, k, q);
            assert(new[k as int] == entry);
            assert(q == path <==> (q.len() == path.len() && q.skip(1) == rest)) by {
                if q.len() == path.len() && q.skip(1) == rest {
                    assert forall|j: int| 0 <= j < q.len() implies q[j] == path[j] by {
                        if j > 0 {
                            assert(q[j] == q.skip(1)[j - 1]);
                            assert(path[j] == rest[j - 1]);
                        }
                    }
                    assert(q =~= path);
                }
            }
            if path.len() == 1 {
                assert(file_at(new, k, q) == if q.len() == 1 {
                    Some(bytes)
                } else {
                    None
                });
                if q.len() == 1 {
                    assert(q.skip(1) =~= rest);
                }
            } else {
                assert(file_at(new, k, q) == file_at(put(inside, rest, bytes), 0, q.skip(1)));
                if q.len() == 1 {
                    assert(q.skip(1) != rest);
                    assert(file_at(inside, 0, q.skip(1)) is None);
                } else if !found {
                    assert(file_at(inside, 0, q.skip(1)) is None) by {
                        reveal_with_fuel(file_at, 3);
                        assert(is_pseudo(inside[0].name));
                        assert(is_pseudo(inside[1].name));
                    }
                }
            }
        }
    }
}

/// The image after the first `n` of `files` were written into it, each
/// with its path from the root and its bytes, in their order.
pub open spec fn build(files: Seq<(Seq<Seq<char>>, Seq<u8>)>, n: nat) -> Seq<Tree>
    decreases n,
{
    if n == 0 || n > files.len() {
        Seq::empty()
    } else {
        put(build(files, (n - 1) as nat), files[n - 1].0, files[n - 1].1)
    }
}

/// The first `n` of `files` can be written: every path is made of names,
/// the file's own at least, and nothing is in the way of any.
pub open spec fn can_build(files: Seq<(Seq<Seq<char>>, Seq<u8>)>, n: nat) -> bool
    decreases n,
{
    n == 0 || {
        &&& n <= files.len()
        &&& can_build(files, (n - 1) as nat)
        &&& files[n - 1].0.len() >= 1
        &&& all_names(files[n - 1].0)
        &&& fits(build(files, (n - 1) as nat), files[n - 1].0)
    }
}

/// The bytes that were written last at `path` among the first `n` of
/// `files`; `None` where nothing was written there.
pub open spec fn written_at(
    files: Seq<(Seq<Seq<char>>, Seq<u8>)>,
    n: nat,
    path: Seq<Seq<char>>,
) -> Option<Seq<u8>>
    decreases n,
{
    if n == 0 || n > files.len() {
        None
    } else if files[n - 1].0 == path {
        Some(files[n - 1].1)
    } else {
        written_at(files, (n - 1) as nat, path)
    }
}

/// The image that was built is tidy, and holds at every path what was
/// written there last.
pub proof fn lemma_build_holds_what_was_written(files: Seq<(Seq<Seq<char>>, Seq<u8>)>, n: nat)
    requires
        can_build(files, n),
    ensures
        tidy(build(files, n)),
        forall|q: Seq<Seq<char>>| #[trigger]
            file_at(build(files, n), 0, q) == written_at(files, n, q),
    decreases n,
{
    if n > 0 {
        let before = build(files, (n - 1) as nat);
        let path = files[n - 1].0;
        lemma_build_holds_what_was_written(files, (n - 1) as nat);
        assert forall|j: int| 0 <= j < path.len() implies !is_pseudo(#[trigger] path[j]) by {
            assert(is_name(path[j]));
        }
        lemma_put(before, path, files[n - 1].1);
        assert forall|q: Seq<Seq<char>>| #[trigger]
            file_at(build(files, n), 0, q) == written_at(files, n, q) by {
            assert(file_at(before, 0, q) == written_at(files, (n - 1) as nat, q));
        }
    }
}

/// The round trip. Where files are written into a new image, each at its
/// destination, and the image is then unpacked onto an empty host, with
/// `overwrite` or without, the extraction meets no conflict, and the host
/// has exactly the files that were written: each at the path of its
/// destination, with all the bytes of the file that was written there
/// last, and no file besides.
pub proof fn lemma_round_trip(files: Seq<(Seq<Seq<char>>, Seq<u8>)>, overwrite: bool)
    requires
        can_build(files, files.len()),
    ensures
        unpack(build(files, files.len()), Host::nothing(), overwrite).conflict is None,
        forall|p: Seq<Seq<char>>| #[trigger]
            shows(
                unpack(build(files, files.len()), Host::nothing(), overwrite).host.files,
                p,
                written_at(files, files.len(), p),
            ),
{
    let image = build(files, files.len());
    lemma_build_holds_what_was_written(files, files.len());
    lemma_unpack_gives_the_image(image, overwrite);
    assert forall|p: Seq<Seq<char>>| #[trigger]
        shows(
            unpack(image, Host::nothing(), overwrite).host.files,
            p,
            written_at(files, files.len(), p),
        ) by {
        assert(shows(unpack(image, Host::nothing(), overwrite).host.files, p, file_at(image, 0, p)));
        assert(file_at(image, 0, p) == written_at(files, files.len(), p));
    }
}

/// The round trip, as the walk makes it. An `Extraction` that is run on
/// the image that was built, by a caller that answers from that image and
/// an empty host and does what it is asked, finishes without a conflict,
/// and leaves on the host exactly the files that were written into the
/// image, each with its bytes.
pub proof fn lemma_extraction_gives_back_the_files(
    files: Seq<(Seq<Seq<char>>, Seq<u8>)>,
    overwrite: bool,
)
    requires
        can_build(files, files.len()),
    ensures
        ({
            let image = build(files, files.len());
            let begin = Run { walk: Walk::<Tree>::start(overwrite), host: Host::nothing() };
            let end = begin.steps(image, turns(image, Host::nothing(), overwrite));
            &&& end.walk.ask == Ask::<Tree>::Finished
            &&& forall|p: Seq<Seq<char>>| #[trigger]
                shows(end.host.files, p, written_at(files, files.len(), p))
        }),
{
    let image = build(files, files.len());
    lemma_round_trip(files, overwrite);
    lemma_walk_unpacks(image, Host::nothing(), overwrite);
    let begin = Run { walk: Walk::<Tree>::start(overwrite), host: Host::nothing() };
    let end = begin.steps(image, turns(image, Host::nothing(), overwrite));
    assert forall|p: Seq<Seq<char>>| #[trigger]
        shows(end.host.files, p, written_at(files, files.len(), p)) by {
        assert(shows(
            unpack(image, Host::nothing(), overwrite).host.files,
            p,
            written_at(files, files.len(), p),
        ));
    }
}

} // verus!
