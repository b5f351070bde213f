//! What an extraction does to the host, said in one piece, and the proof
//! that the walk of `extract` does exactly that.
//!
//! The image here is a tree of names and bytes, and the host is the set of
//! its directories and the bytes of its files, both keyed by the path below
//! the output directory. `unpack_from` says what unpacking a directory
//! makes of a host: entry by entry, each directory to its end before the
//! entry after it. `lemma_walk_unpacks` shows that an `Extraction` whose
//! caller answers from that image and that host, and does to the host what
//! it is asked, ends with the same host and the same verdict.
use vstd::prelude::*;
use crate::extract::{first_real, is_pseudo, lemma_first_real, Ask, EntryView, FrameView, Told, Walk};

verus! {

/// An entry of an image: a file with its bytes, or a directory with its
/// entries, in the order of its listing.
pub struct Tree {
    pub name: Seq<char>,
    pub is_dir: bool,
    pub bytes: Seq<u8>,
    pub entries: Seq<Tree>,
}

/// The host below the output directory: the directories that are there,
/// and the files with their bytes.
pub struct Host {
    pub dirs: Set<Seq<Seq<char>>>,
    pub files: Map<Seq<Seq<char>>, Seq<u8>>,
}

impl Host {
    /// A host with nothing below the output directory.
    pub open spec fn nothing() -> Host {
        Host { dirs: Set::empty(), files: Map::empty() }
    }

    /// This host with all of `top` laid over it: the directories of both,
    /// and the files of both, with the bytes of `top` where both have one.
    pub open spec fn under(self, top: Host) -> Host {
        Host { dirs: self.dirs.union(top.dirs), files: self.files.union_prefer_right(top.files) }
    }

    /// Both hosts have the same at `path`.
    pub open spec fn same_at(self, other: Host, path: Seq<Seq<char>>) -> bool {
        &&& self.dirs.contains(path) == other.dirs.contains(path)
        &&& self.files.dom().contains(path) == other.files.dom().contains(path)
        &&& self.files.dom().contains(path) ==> self.files[path] == other.files[path]
    }

    /// The host with the directory `path` made.
    pub open spec fn with_dir(self, path: Seq<Seq<char>>) -> Host {
        Host { dirs: self.dirs.insert(path), ..self }
    }

    /// The host with `bytes` written to the file `path`.
    pub open spec fn with_file(self, path: Seq<Seq<char>>, bytes: Seq<u8>) -> Host {
        Host { files: self.files.insert(path, bytes), ..self }
    }
}

/// How an extraction ends: the host it leaves, and the file it stopped at
/// where it met a conflict.
pub struct Outcome {
    pub host: Host,
    pub conflict: Option<Seq<Seq<char>>>,
}

/// Unpacks one entry of the directory at `dir`.
///
/// `.` and `..` change nothing. A directory is made where the host lacks
/// it, and then unpacked. A file is written where the host lacks it or
/// `overwrite` is set; a file that is there without `overwrite` is a
/// conflict, and the host stays as it is.
pub open spec fn unpack_entry(
    entry: Tree,
    dir: Seq<Seq<char>>,
    host: Host,
    overwrite: bool,
) -> Outcome
    decreases entry,
{
    let path = dir.push(entry.name);
    if is_pseudo(entry.name) {
        Outcome { host, conflict: None }
    } else if entry.is_dir {
        unpack_from(
            entry.entries,
            0,
            path,
            if host.dirs.contains(path) {
                host
            } else {
                host.with_dir(path)
            },
            overwrite,
        )
    } else if overwrite || !host.files.dom().contains(path) {
        Outcome { host: host.with_file(path, entry.bytes), conflict: None }
    } else {
        Outcome { host, conflict: Some(path) }
    }
}

/// Unpacks the entries of the directory at `dir` from the `i`th on, in
/// their order, and stops at the first conflict.
pub open spec fn unpack_from(
    entries: Seq<Tree>,
    i: nat,
    dir: Seq<Seq<char>>,
    host: Host,
    overwrite: bool,
) -> Outcome
    decreases entries, entries.len() - i,
{
    if i >= entries.len() {
        Outcome { host, conflict: None }
    } else {
        let first = unpack_entry(entries[i as int], dir, host, overwrite);
        if first.conflict is Some {
            first
        } else {
            unpack_from(entries, i + 1, dir, first.host, overwrite)
        }
    }
}

/// What an extraction makes of `host`, for the image whose root holds
/// `root`.
pub open spec fn unpack(root: Seq<Tree>, host: Host, overwrite: bool) -> Outcome {
    unpack_from(root, 0, Seq::empty(), host, overwrite)
}

/// A directory of the image as its listing shows it; each entry is its
/// own handle.
pub open spec fn listing(entries: Seq<Tree>) -> Seq<EntryView<Tree>> {
    entries.map_values(
        |entry: Tree| EntryView { name: entry.name, is_dir: entry.is_dir, handle: entry },
    )
}

/// What a caller tells the walk that reads the image and the host as they
/// are.
pub open spec fn reply(ask: Ask<Tree>, root: Seq<Tree>, host: Host) -> Told<Tree> {
    match ask {
        Ask::List { dir: None, .. } => Told::Entries(listing(root)),
        Ask::List { dir: Some(entry), .. } => Told::Entries(listing(entry.entries)),
        Ask::IsDir { path, .. } => Told::Answer(host.dirs.contains(path)),
        Ask::IsFile { path, .. } => Told::Answer(host.files.dom().contains(path)),
        _ => Told::Done,
    }
}

/// What a caller that does what is asked does to the host.
pub open spec fn effect(ask: Ask<Tree>, host: Host) -> Host {
    match ask {
        Ask::MakeDir { path, .. } => host.with_dir(path),
        Ask::Copy { entry, path } => host.with_file(path, entry.bytes),
        _ => host,
    }
}

/// A walk with the host that it works on.
pub struct Run {
    pub walk: Walk<Tree>,
    pub host: Host,
}

impl Run {
    /// One turn of the conversation: the caller does what is asked and
    /// tells the outcome.
    pub open spec fn step(self, root: Seq<Tree>) -> Run {
        Run {
            walk: self.walk.next(reply(self.walk.ask, root, self.host)),
            host: effect(self.walk.ask, self.host),
        }
    }

    /// `n` turns.
    pub open spec fn steps(self, root: Seq<Tree>, n: nat) -> Run
        decreases n,
    {
        if n == 0 {
            self
        } else {
            self.step(root).steps(root, (n - 1) as nat)
        }
    }
}

/// The turns that unpacking one entry takes.
pub open spec fn turns_entry(
    entry: Tree,
    dir: Seq<Seq<char>>,
    host: Host,
    overwrite: bool,
) -> nat
    decreases entry,
{
    let path = dir.push(entry.name);
    if is_pseudo(entry.name) {
        0
    } else if entry.is_dir {
        if host.dirs.contains(path) {
            2 + turns_from(entry.entries, 0, path, host, overwrite)
        } else {
            3 + turns_from(entry.entries, 0, path, host.with_dir(path), overwrite)
        }
    } else if overwrite {
        1
    } else if host.files.dom().contains(path) {
        1
    } else {
        2
    }
}

/// The turns that unpacking the entries from the `i`th on takes.
pub open spec fn turns_from(
    entries: Seq<Tree>,
    i: nat,
    dir: Seq<Seq<char>>,
    host: Host,
    overwrite: bool,
) -> nat
    decreases entries, entries.len() - i,
{
    if i >= entries.len() {
        0
    } else {
        let first = unpack_entry(entries[i as int], dir, host, overwrite);
        turns_entry(entries[i as int], dir, host, overwrite) + if first.conflict is Some {
            0
        } else {
            turns_from(entries, i + 1, dir, first.host, overwrite)
        }
    }
}

/// The turns that a whole extraction takes: one for the listing of the
/// root, and those of its entries.
pub open spec fn turns(root: Seq<Tree>, host: Host, overwrite: bool) -> nat {
    1 + turns_from(root, 0, Seq::empty(), host, overwrite)
}

/// The walk as it goes on with the directories `frames` around it.
pub open spec fn resumed(overwrite: bool, frames: Seq<FrameView<Tree>>) -> Walk<Tree> {
    Walk { overwrite, frames, ask: Ask::Finished }.advance()
}

proof fn lemma_advance_forgets_ask(walk: Walk<Tree>)
    ensures
        walk.advance() == resumed(walk.overwrite, walk.frames),
    decreases walk.frames.len(),
{
    if walk.frames.len() > 0 {
        let below = walk.frames.drop_last();
        lemma_advance_forgets_ask(Walk { frames: below, ..walk });
        lemma_advance_forgets_ask(
            Walk { overwrite: walk.overwrite, frames: below, ask: Ask::Finished },
        );
    }
}

proof fn lemma_steps_add(run: Run, root: Seq<Tree>, a: nat, b: nat)
    ensures
        run.steps(root, a + b) == run.steps(root, a).steps(root, b),
    decreases a,
{
    if a > 0 {
        lemma_steps_add(run.step(root), root, (a - 1) as nat, b);
        assert((a + b - 1) as nat == (a - 1) as nat + b);
    }
}

/// A pseudo-entry at the head of the innermost directory makes no
/// difference to how the walk goes on.
proof fn lemma_skip_pseudo(
    overwrite: bool,
    below: Seq<FrameView<Tree>>,
    dir: Seq<Seq<char>>,
    rest: Seq<EntryView<Tree>>,
)
    requires
        rest.len() > 0,
        is_pseudo(rest[0].name),
    ensures
        resumed(overwrite, below.push(FrameView { dir, rest })) == resumed(
            overwrite,
            below.push(FrameView { dir, rest: rest.drop_first() }),
        ),
{
    let tail = rest.drop_first();
    let with_head = below.push(FrameView { dir, rest });
    let without = below.push(FrameView { dir, rest: tail });
    let k = first_real(tail);
    lemma_first_real(tail);
    assert(first_real(rest) == 1 + k);
    assert(with_head.drop_last() == below);
    assert(without.drop_last() == below);
    assert(with_head.last() == FrameView { dir, rest });
    assert(without.last() == FrameView { dir, rest: tail });
    if k < tail.len() {
        assert(rest.skip(k + 2) == tail.skip(k + 1));
        assert(rest[k + 1] == tail[k]);
    }
}

/// Where the innermost directory has nothing left, the walk goes on in the
/// one around it.
proof fn lemma_leave_empty(overwrite: bool, below: Seq<FrameView<Tree>>, dir: Seq<Seq<char>>)
    ensures
        resumed(overwrite, below.push(FrameView { dir, rest: Seq::<EntryView<Tree>>::empty() }))
            == resumed(overwrite, below),
{
    let frames = below.push(FrameView { dir, rest: Seq::<EntryView<Tree>>::empty() });
    assert(frames.drop_last() == below);
    assert(frames.last().rest.len() == 0);
}

/// Where the innermost directory begins with an entry that stands for
/// something, the walk asks about that entry and keeps the rest for later.
proof fn lemma_meet_real(
    overwrite: bool,
    below: Seq<FrameView<Tree>>,
    dir: Seq<Seq<char>>,
    rest: Seq<EntryView<Tree>>,
)
    requires
        rest.len() > 0,
        !is_pseudo(rest[0].name),
    ensures
        resumed(overwrite, below.push(FrameView { dir, rest })) == (Walk {
            overwrite,
            frames: below.push(FrameView { dir, rest: rest.drop_first() }),
            ask: Ask::about(rest[0], dir, overwrite),
        }),
{
    let frames = below.push(FrameView { dir, rest });
    assert(frames.drop_last() == below);
    assert(frames.last() == FrameView { dir, rest });
    assert(first_real(rest) == 0);
    assert(rest.skip(1) == rest.drop_first());
}

/// The walk through the entries of one directory, from the `i`th on, with
/// the directories `below` around it: it leaves the host as `unpack_from`
/// says, and then goes on in `below`, or has stopped at the conflict.
proof fn lemma_walk_entries(
    root: Seq<Tree>,
    below: Seq<FrameView<Tree>>,
    entries: Seq<Tree>,
    i: nat,
    dir: Seq<Seq<char>>,
    host: Host,
    overwrite: bool,
)
    requires
        i <= entries.len(),
    ensures
        ({
            let begin = Run {
                walk: resumed(
                    overwrite,
                    below.push(FrameView { dir, rest: listing(entries).skip(i as int) }),
                ),
                host,
            };
            let end = begin.steps(root, turns_from(entries, i, dir, host, overwrite));
            let out = unpack_from(entries, i, dir, host, overwrite);
            &&& end.host == out.host
            &&& match out.conflict {
                Some(path) => end.walk.ask == (Ask::<Tree>::Conflict { path }),
                None => end.walk == resumed(overwrite, below),
            }
        }),
    decreases entries, entries.len() - i,
{
    let rest = listing(entries).skip(i as int);
    let begin = Run { walk: resumed(overwrite, below.push(FrameView { dir, rest })), host };
    if i == entries.len() {
        assert(rest == Seq::<EntryView<Tree>>::empty());
        lemma_leave_empty(overwrite, below, dir);
    } else {
        let entry = entries[i as int];
        let later = listing(entries).skip(i as int + 1);
        let around = below.push(FrameView { dir, rest: later });
        let path = dir.push(entry.name);
        let first = unpack_entry(entry, dir, host, overwrite);
        let n = turns_entry(entry, dir, host, overwrite);
        assert(rest[0] == EntryView { name: entry.name, is_dir: entry.is_dir, handle: entry });
        assert(rest.drop_first() == later);
        // What the walk has come to when it is done with `entry`.
        let middle = begin.steps(root, n);
        assert(middle.host == first.host && match first.conflict {
            Some(p) => middle.walk.ask == (Ask::<Tree>::Conflict { path: p }),
            None => middle.walk == resumed(overwrite, around),
        }) by {
            if is_pseudo(entry.name) {
                lemma_skip_pseudo(overwrite, below, dir, rest);
            } else {
                lemma_meet_real(overwrite, below, dir, rest);
                let asked = Walk {
                    overwrite,
                    frames: around,
                    ask: Ask::about(rest[0], dir, overwrite),
                };
                assert(begin.walk == asked);
                reveal_with_fuel(Run::steps, 4);
                if entry.is_dir {
                    let has = host.dirs.contains(path);
                    let made = if has {
                        host
                    } else {
                        host.with_dir(path)
                    };
                    let listed = Walk {
                        overwrite,
                        frames: around,
                        ask: Ask::List { dir: Some(entry), path },
                    };
                    let pre: nat = if has {
                        1
                    } else {
                        2
                    };
                    assert(begin.steps(root, pre) == Run { walk: listed, host: made });
                    let inside = around.push(FrameView { dir: path, rest: listing(entry.entries) });
                    lemma_advance_forgets_ask(Walk { frames: inside, ..listed });
                    let entered = Run { walk: resumed(overwrite, inside), host: made };
                    assert((Run { walk: listed, host: made }).step(root) == entered);
                    assert(begin.steps(root, pre + 1) == entered) by {
                        lemma_steps_add(begin, root, pre, 1);
                    }
                    assert(listing(entry.entries).skip(0) == listing(entry.entries));
                    let m = turns_from(entry.entries, 0, path, made, overwrite);
                    lemma_walk_entries(root, around, entry.entries, 0, path, made, overwrite);
                    lemma_steps_add(begin, root, pre + 1, m);
                    assert(n == pre + 1 + m);
                } else if overwrite {
                    lemma_advance_forgets_ask(asked);
                } else if host.files.dom().contains(path) {
                } else {
                    let copying = Walk {
                        overwrite,
                        frames: around,
                        ask: Ask::Copy { entry, path },
                    };
                    assert(begin.step(root) == Run { walk: copying, host });
                    lemma_advance_forgets_ask(copying);
                }
            }
        }
        if first.conflict is None {
            let m = turns_from(entries, i + 1, dir, first.host, overwrite);
            lemma_walk_entries(root, below, entries, i + 1, dir, first.host, overwrite);
            lemma_steps_add(begin, root, n, m);
        }
    }
}

/// An extraction whose caller answers from the image and the host as they
/// are, and does to the host what it is asked, does what `unpack` says:
/// after `turns` turns the host is the one that `unpack` gives, and the
/// walk has finished, or has stopped at the conflict that `unpack` names.
pub proof fn lemma_walk_unpacks(root: Seq<Tree>, host: Host, overwrite: bool)
    ensures
        ({
            let begin = Run { walk: Walk::<Tree>::start(overwrite), host };
            let end = begin.steps(root, turns(root, host, overwrite));
            let out = unpack(root, host, overwrite);
            &&& end.host == out.host
            &&& match out.conflict {
                Some(path) => end.walk.ask == (Ask::<Tree>::Conflict { path }),
                None => end.walk.ask == Ask::<Tree>::Finished,
            }
        }),
{
    let begin = Run { walk: Walk::<Tree>::start(overwrite), host };
    let empty = Seq::<FrameView<Tree>>::empty();
    let dir = Seq::<Seq<char>>::empty();
    let inside = empty.push(FrameView { dir, rest: listing(root) });
    lemma_advance_forgets_ask(Walk { frames: inside, ..begin.walk });
    let entered = Run { walk: resumed(overwrite, inside), host };
    assert(begin.step(root) == entered);
    assert(listing(root).skip(0) == listing(root));
    lemma_walk_entries(root, empty, root, 0, dir, host, overwrite);
    let m = turns_from(root, 0, dir, host, overwrite);
    assert(begin.steps(root, 1) == entered) by {
        reveal_with_fuel(Run::steps, 2);
    }
    lemma_steps_add(begin, root, 1, m);
}

/// A walk that has stopped at a conflict, or has finished, stays as it is,
/// and so does the host.
pub proof fn lemma_stopped_stays(run: Run, root: Seq<Tree>, n: nat)
    requires
        run.walk.ask is Conflict || run.walk.ask is Finished,
    ensures
        run.steps(root, n) == run,
    decreases n,
{
    if n > 0 {
        assert(run.step(root) == run);
        lemma_stopped_stays(run, root, (n - 1) as nat);
    }
}

/// With `overwrite`, unpacking meets no conflict.
pub proof fn lemma_overwrite_unpacks_all(
    entries: Seq<Tree>,
    i: nat,
    dir: Seq<Seq<char>>,
    host: Host,
)
    ensures
        unpack_from(entries, i, dir, host, true).conflict is None,
    decreases entries, entries.len() - i,
{
    if i < entries.len() {
        let entry = entries[i as int];
        let path = dir.push(entry.name);
        if !is_pseudo(entry.name) && entry.is_dir {
            lemma_overwrite_unpacks_all(
                entry.entries,
                0,
                path,
                if host.dirs.contains(path) {
                    host
                } else {
                    host.with_dir(path)
                },
            );
        }
        lemma_overwrite_unpacks_all(
            entries,
            i + 1,
            dir,
            unpack_entry(entry, dir, host, true).host,
        );
    }
}

/// Without `overwrite`, a conflict is at a file that is there; with it,
/// there is none.
pub proof fn lemma_conflict_is_at_a_file(
    entries: Seq<Tree>,
    i: nat,
    dir: Seq<Seq<char>>,
    host: Host,
    overwrite: bool,
)
    ensures
        unpack_from(entries, i, dir, host, overwrite).conflict matches Some(path) ==> {
            &&& !overwrite
            &&& unpack_from(entries, i, dir, host, overwrite).host.files.dom().contains(path)
        },
    decreases entries, entries.len() - i,
{
    if i < entries.len() {
        let entry = entries[i as int];
        let path = dir.push(entry.name);
        if !is_pseudo(entry.name) && entry.is_dir {
            lemma_conflict_is_at_a_file(
                entry.entries,
                0,
                path,
                if host.dirs.contains(path) {
                    host
                } else {
                    host.with_dir(path)
                },
                overwrite,
            );
        }
        lemma_conflict_is_at_a_file(
            entries,
            i + 1,
            dir,
            unpack_entry(entry, dir, host, overwrite).host,
            overwrite,
        );
    }
}

/// With `overwrite`, what unpacking leaves is the host that was there
/// with what the image alone gives laid over it: every file of the image
/// has the bytes of the image, whatever the host had before.
pub proof fn lemma_overwrite_lays_image_over(
    entries: Seq<Tree>,
    i: nat,
    dir: Seq<Seq<char>>,
    host: Host,
)
    ensures
        unpack_from(entries, i, dir, host, true).host == host.under(
            unpack_from(entries, i, dir, Host::nothing(), true).host,
        ),
    decreases entries, entries.len() - i,
{
    let bare = Host::nothing();
    if i >= entries.len() {
        assert(host.under(bare).dirs =~= host.dirs);
        assert(host.under(bare).files =~= host.files);
    } else {
        let entry = entries[i as int];
        let path = dir.push(entry.name);
        let after = unpack_entry(entry, dir, host, true).host;
        let alone = unpack_entry(entry, dir, bare, true).host;
        assert(after == host.under(alone)) by {
            if is_pseudo(entry.name) {
                assert(host.under(bare).dirs =~= host.dirs);
                assert(host.under(bare).files =~= host.files);
            } else if entry.is_dir {
                let made = if host.dirs.contains(path) {
                    host
                } else {
                    host.with_dir(path)
                };
                let made_alone = bare.with_dir(path);
                lemma_overwrite_lays_image_over(entry.entries, 0, path, made);
                lemma_overwrite_lays_image_over(entry.entries, 0, path, made_alone);
                let inner = unpack_from(entry.entries, 0, path, bare, true).host;
                assert(made.under(inner).dirs =~= host.under(made_alone.under(inner)).dirs);
                assert(made.under(inner).files =~= host.under(made_alone.under(inner)).files);
            } else {
                assert(after.dirs =~= host.under(alone).dirs);
                assert(after.files =~= host.under(alone).files);
            }
        }
        lemma_overwrite_unpacks_all(entries, i, dir, host);
        lemma_overwrite_unpacks_all(entries, i, dir, bare);
        lemma_overwrite_lays_image_over(entries, i + 1, dir, after);
        lemma_overwrite_lays_image_over(entries, i + 1, dir, alone);
        let later = unpack_from(entries, i + 1, dir, bare, true).host;
        assert(host.under(alone).under(later).dirs =~= host.under(alone.under(later)).dirs);
        assert(host.under(alone).under(later).files =~= host.under(alone.under(later)).files);
    }
}

/// Unpacking twice with `overwrite` leaves what unpacking once leaves.
pub proof fn lemma_unpacking_twice_is_once(root: Seq<Tree>, host: Host)
    ensures
        unpack(root, host, true).conflict is None,
        unpack(root, unpack(root, host, true).host, true) == unpack(root, host, true),
{
    let dir = Seq::<Seq<char>>::empty();
    let once = unpack(root, host, true).host;
    let image = unpack(root, Host::nothing(), true).host;
    lemma_overwrite_unpacks_all(root, 0, dir, host);
    lemma_overwrite_unpacks_all(root, 0, dir, once);
    lemma_overwrite_lays_image_over(root, 0, dir, host);
    lemma_overwrite_lays_image_over(root, 0, dir, once);
    assert(host.under(image).under(image).dirs =~= host.under(image).dirs);
    assert(host.under(image).under(image).files =~= host.under(image).files);
}

/// `path` lies below `dir`, and none of its names below `dir` is `.` or
/// `..`.
pub open spec fn real_below(dir: Seq<Seq<char>>, path: Seq<Seq<char>>) -> bool {
    &&& path.len() > dir.len()
    &&& path.take(dir.len() as int) == dir
    &&& forall|j: int| dir.len() <= j < path.len() ==> !is_pseudo(#[trigger] path[j])
}

/// Unpacking the directory at `dir` touches nothing but what lies below
/// `dir` under names that are not `.` or `..`: everywhere else the host
/// stays as it was.
pub proof fn lemma_unpack_passes_over_pseudo(
    entries: Seq<Tree>,
    i: nat,
    dir: Seq<Seq<char>>,
    host: Host,
    overwrite: bool,
)
    ensures
        forall|path: Seq<Seq<char>>|
            !real_below(dir, path) ==> #[trigger] unpack_from(
                entries,
                i,
                dir,
                host,
                overwrite,
            ).host.same_at(host, path),
    decreases entries, entries.len() - i,
{
    if i < entries.len() {
        let entry = entries[i as int];
        let here = dir.push(entry.name);
        let after = unpack_entry(entry, dir, host, overwrite).host;
        assert forall|path: Seq<Seq<char>>| !real_below(dir, path) implies #[trigger] after.same_at(
            host,
            path,
        ) by {
            if !is_pseudo(entry.name) {
                assert(here.take(dir.len() as int) == dir);
                assert(real_below(dir, here));
                if entry.is_dir {
                    let made = if host.dirs.contains(here) {
                        host
                    } else {
                        host.with_dir(here)
                    };
                    lemma_unpack_passes_over_pseudo(entry.entries, 0, here, made, overwrite);
                    if real_below(here, path) {
                        assert(path.take(dir.len() as int) == path.take(here.len() as int).take(
                            dir.len() as int,
                        ));
                        assert forall|j: int| dir.len() <= j < path.len() implies !is_pseudo(
                            #[trigger] path[j],
                        ) by {
                            if j == dir.len() {
                                assert(path[j] == path.take(here.len() as int)[j]);
                            }
                        }
                        assert(real_below(dir, path));
                    }
                    assert(after.same_at(made, path));
                }
            }
        }
        lemma_unpack_passes_over_pseudo(entries, i + 1, dir, after, overwrite);
        let end = unpack_from(entries, i, dir, host, overwrite).host;
        assert forall|path: Seq<Seq<char>>| !real_below(dir, path) implies #[trigger] end.same_at(
            host,
            path,
        ) by {
            assert(after.same_at(host, path));
            if unpack_entry(entry, dir, host, overwrite).conflict is None {
                assert(unpack_from(entries, i + 1, dir, after, overwrite).host.same_at(
                    after,
                    path,
                ));
            }
        }
    }
}

} // verus!
