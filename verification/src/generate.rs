//! Packing host files into an image: which files go in, where each one
//! goes, and what has to be created in the image for it.
//!
//! The caller reads the host: for each input it hands over the tree of
//! what is there. The functions here flatten the trees into the list of
//! files with their destinations, in the order of the walk, and say for each
//! file which directories and which file the image needs.
use vstd::prelude::*;
use vstd::string::*;
use crate::error::Error;
use crate::extract::is_pseudo;
use crate::names::{free_of, join, joined, lemma_split_joined, split, texts};
use crate::size::{read_size, sector_count, try_from_size_str};

verus! {

/// What a build is asked to do.
pub struct CliArgs {
    /// The size of the image, in bytes.
    pub size: u32,
    /// The image to write.
    pub output: String,
    /// The host paths to pack, each with its "flatten contents" mark.
    pub input: Vec<(String, bool)>,
}

/// An input ends in a separator where its last character is `/` or `\`.
pub open spec fn ends_with_separator(input: Seq<char>) -> bool {
    input.len() > 0 && (input.last() == '/' || input.last() == '\\')
}

/// Reads one input argument: the path as it was given, and whether the
/// contents of the directory are to go to the root of the image, which a
/// separator at the end asks for.
pub fn load_path(input: &str) -> (spec: (String, bool))
    ensures
        spec.0@ == input@,
        spec.1 == ends_with_separator(input@),
{
    let n = input.unicode_len();
    let flatten_contents = if n == 0 {
        false
    } else {
        let last = input.get_char(n - 1);
        last == '/' || last == '\\'
    };
    (input.to_owned(), flatten_contents)
}

/// The inputs, each as `load_path` reads it.
pub open spec fn loaded(inputs: Seq<String>) -> Seq<(Seq<char>, bool)> {
    inputs.map_values(|input: String| (input@, ends_with_separator(input@)))
}

/// The inputs of a build, as its arguments hold them.
pub open spec fn input_views(input: Seq<(String, bool)>) -> Seq<(Seq<char>, bool)> {
    input.map_values(|spec: (String, bool)| (spec.0@, spec.1))
}

impl CliArgs {
    /// Reads the arguments of a build: the size by the size grammar, each
    /// input by `load_path`. Fails exactly where the size does.
    pub fn new(size: &str, output: &str, inputs: &Vec<String>) -> (res: Result<CliArgs, Error>)
        ensures
            match res {
                Ok(args) => {
                    &&& read_size(size@) matches Some(written)
                    &&& args.size == written.byte_count()
                    &&& args.output@ == output@
                    &&& input_views(args.input@) == loaded(inputs@)
                },
                Err(Error::Argument { input: text }) => read_size(size@) is None && text@
                    == size@,
                Err(Error::Overflow) => read_size(size@) matches Some(written)
                    && written.byte_count() > u32::MAX,
                Err(_) => false,
            },
    {
        let size = match try_from_size_str(size) {
            Ok(size) => size,
            Err(e) => {
                return Err(e);
            },
        };
        let mut input: Vec<(String, bool)> = Vec::new();
        let mut i: usize = 0;
        while i < inputs.len()
            invariant
                i <= inputs.len(),
                input_views(input@) == loaded(inputs@.take(i as int)),
            decreases inputs.len() - i,
        {
            let ghost before = input@;
            let spec = load_path(inputs[i].as_str());
            input.push(spec);
            assert(input_views(input@) == input_views(before).push(
                (inputs@[i as int]@, ends_with_separator(inputs@[i as int]@)),
            ));
            assert(loaded(inputs@.take(i + 1)) == loaded(inputs@.take(i as int)).push(
                (inputs@[i as int]@, ends_with_separator(inputs@[i as int]@)),
            ));
            i = i + 1;
        }
        assert(inputs@.take(i as int) == inputs@);
        Ok(CliArgs { size, output: output.to_owned(), input })
    }

    /// The sectors of the image: the least number of 512-byte sectors that
    /// hold `size` bytes.
    pub fn sectors(&self) -> (sectors: u32)
        ensures
            sectors * 512 >= self.size,
            self.size > 0 ==> (sectors - 1) * 512 < self.size,
            self.size == 0 ==> sectors == 0,
    {
        sector_count(self.size)
    }
}

/// A name that can stand in a path inside an image: it is not empty,
/// holds no `/`, and is not `.` or `..`.
pub open spec fn is_name(name: Seq<char>) -> bool {
    name.len() > 0 && !name.contains('/') && !is_pseudo(name)
}

/// Every one of `names` can stand in a path inside an image.
pub open spec fn all_names(names: Seq<Seq<char>>) -> bool {
    forall|i: int| 0 <= i < names.len() ==> is_name(#[trigger] names[i])
}

/// A path on the host, as far as the build reads it.
pub struct HostPath<P> {
    /// What the caller opens the file by.
    pub source: P,
    /// The path as text, for messages.
    pub text: String,
    /// The file name of the path and of each path above it, the path
    /// itself first. `None` stands for a path without one: a root, or a
    /// path that ends in `..`.
    pub ancestors: Vec<Option<String>>,
}

/// What the host has at a path.
pub enum HostNode<P> {
    /// A file.
    File(HostPath<P>),
    /// A directory, with what it holds, in the order of its listing.
    Directory(Vec<HostNode<P>>),
    /// Neither: it is passed over.
    Other,
}

/// One input of a build: the path that was given, its mark, and what the
/// host has there.
pub struct HostInput<P> {
    pub path: HostPath<P>,
    pub flatten_contents: bool,
    pub tree: HostNode<P>,
}

/// A host file with its place in the image: the names that lead to it from
/// the root of the image, the file's own name last.
pub struct FlattenedEntry<P> {
    pub source: P,
    pub segments: Vec<String>,
}

impl<P> FlattenedEntry<P> {
    /// An entry names at least the file.
    pub open spec fn wf(self) -> bool {
        self.segments@.len() >= 1
    }
}

impl<P> View for FlattenedEntry<P> {
    type V = (P, Seq<Seq<char>>);

    open spec fn view(&self) -> (P, Seq<Seq<char>>) {
        (self.source, texts(self.segments@))
    }
}

/// The entries of a list, each as its source and the text of its segments.
pub open spec fn entry_views<P>(entries: Seq<FlattenedEntry<P>>) -> Seq<(P, Seq<Seq<char>>)> {
    entries.map_values(|entry: FlattenedEntry<P>| entry@)
}

/// The text of each name that is there.
pub open spec fn name_texts(names: Seq<Option<String>>) -> Seq<Option<Seq<char>>> {
    names.map_values(
        |name: Option<String>|
            match name {
                Some(name) => Some(name@),
                None => None,
            },
    )
}

/// The segments of a path: the names of its ancestors that have one, the
/// outermost first, the path's own name last.
pub open spec fn segments_of(ancestors: Seq<Option<Seq<char>>>) -> Seq<Seq<char>>
    decreases ancestors.len(),
{
    if ancestors.len() == 0 {
        Seq::empty()
    } else {
        segments_of(ancestors.drop_first()) + match ancestors[0] {
            Some(name) => seq![name],
            None => Seq::empty(),
        }
    }
}

/// Where a file with these segments goes when `strip` leading segments are
/// taken off: what is left, or the file's name alone where nothing would be.
pub open spec fn destination(segments: Seq<Seq<char>>, strip: nat) -> Seq<Seq<char>>
    recommends
        segments.len() > 0,
{
    if segments.len() > strip {
        segments.skip(strip as int)
    } else {
        seq![segments.last()]
    }
}

impl<P> HostPath<P> {
    /// The path is well formed: every ancestor that has a name has one
    /// that can stand in a path inside an image. The file names of a host
    /// path are such names: a path that ends in `.` or `..` has none.
    pub open spec fn wf(self) -> bool {
        forall|i: int|
            0 <= i < self.ancestors@.len() ==> (#[trigger] self.ancestors@[i] matches Some(name)
                ==> is_name(name@))
    }

    /// The segments of this path.
    pub open spec fn segments(self) -> Seq<Seq<char>> {
        segments_of(name_texts(self.ancestors@))
    }

    /// The segments that are taken off every file under this path when it
    /// is given as an input: with "flatten contents", as many as the path
    /// has; without, none.
    pub open spec fn spec_strip_count(self, flatten_contents: bool) -> nat {
        if flatten_contents {
            self.segments().len()
        } else {
            0
        }
    }

    fn collect_segments(&self) -> (segments: Vec<String>)
        ensures
            texts(segments@) == self.segments(),
            segments@.len() <= self.ancestors@.len(),
    {
        let ghost names = name_texts(self.ancestors@);
        let mut segments: Vec<String> = Vec::new();
        let mut i: usize = self.ancestors.len();
        assert(names.skip(i as int) == Seq::<Option<Seq<char>>>::empty());
        while i > 0
            invariant
                i <= self.ancestors.len(),
                names == name_texts(self.ancestors@),
                texts(segments@) == segments_of(names.skip(i as int)),
                segments@.len() <= self.ancestors@.len() - i,
            decreases i,
        {
            i = i - 1;
            assert(names.skip(i as int).drop_first() == names.skip(i + 1));
            let ghost before = segments@;
            match &self.ancestors[i] {
                Some(name) => {
                    segments.push(name.clone());
                    assert(texts(segments@) == texts(before) + seq![name@]);
                },
                None => {
                    assert(texts(before) + Seq::<Seq<char>>::empty() == texts(before));
                },
            }
        }
        assert(names.skip(0) == names);
        segments
    }

    /// The segments that are taken off every file under this path.
    pub fn strip_count(&self, flatten_contents: bool) -> (strip: usize)
        ensures
            strip == self.spec_strip_count(flatten_contents),
    {
        if flatten_contents {
            let segments = self.collect_segments();
            assert(texts(segments@).len() == segments@.len());
            segments.len()
        } else {
            0
        }
    }
}

/// The destination of the file at `path`: its segments, with
/// `strip_segments` of them taken off the front; where that would leave
/// nothing, the file's name alone. A destination is never empty, and of a
/// well-formed path every segment of it is a name: not empty, without `/`,
/// and not `.` or `..`.
///
/// Fails with `Error::PathArgument`, which holds the path, exactly where
/// the path has no named segment at all.
pub fn path_to_array<P>(path: &HostPath<P>, strip_segments: usize) -> (res: Result<
    Vec<String>,
    Error,
>)
    ensures
        match res {
            Ok(segments) => {
                &&& path.segments().len() > 0
                &&& texts(segments@) == destination(path.segments(), strip_segments as nat)
                &&& segments@.len() >= 1
                &&& path.wf() ==> all_names(texts(segments@))
            },
            Err(Error::PathArgument { path: text }) => path.segments().len() == 0 && text@
                == path.text@,
            Err(_) => false,
        },
{
    let mut segments = path.collect_segments();
    assert(texts(segments@).len() == segments@.len());
    let ghost all = segments@;
    proof {
        if path.wf() && all.len() > 0 {
            lemma_segments_are_names(path.ancestors@);
            lemma_destination_of_names(path.segments(), strip_segments as nat);
        }
    }
    if segments.len() == 0 {
        return Err(Error::PathArgument { path: path.text.clone() });
    }
    let kept = if segments.len() > strip_segments {
        segments.split_off(strip_segments)
    } else {
        let last = segments.len() - 1;
        segments.split_off(last)
    };
    proof {
        if all.len() > strip_segments {
            assert(texts(kept@) == texts(all).skip(strip_segments as int));
        } else {
            assert(texts(kept@) == seq![texts(all).last()]);
        }
    }
    Ok(kept)
}

/// What a walk has gathered: the files with their destinations, and, where
/// it was stopped by a file whose path has no named segment, the text of
/// that path.
pub struct Collected<P> {
    pub entries: Seq<(P, Seq<Seq<char>>)>,
    pub failed: Option<Seq<char>>,
}

impl<P> Collected<P> {
    pub open spec fn nothing() -> Collected<P> {
        Collected { entries: Seq::empty(), failed: None }
    }

    /// First `self`, then `next`, unless `self` was stopped.
    pub open spec fn followed_by(self, next: Collected<P>) -> Collected<P> {
        if self.failed is Some {
            self
        } else {
            Collected { entries: self.entries + next.entries, failed: next.failed }
        }
    }
}

/// The walk of one node: a file gives itself, a directory what its
/// contents give, each walked to its end before the next, and anything
/// else gives nothing.
pub open spec fn walk_node<P>(node: HostNode<P>, strip: nat) -> Collected<P>
    decreases node,
{
    match node {
        HostNode::File(path) => if path.segments().len() > 0 {
            Collected {
                entries: seq![(path.source, destination(path.segments(), strip))],
                failed: None,
            }
        } else {
            Collected { entries: Seq::empty(), failed: Some(path.text@) }
        },
        HostNode::Directory(nodes) => walk_nodes(nodes@, nodes@.len(), strip),
        HostNode::Other => Collected::nothing(),
    }
}

/// The walk of the first `count` of `nodes`, in their order.
pub open spec fn walk_nodes<P>(nodes: Seq<HostNode<P>>, count: nat, strip: nat) -> Collected<P>
    decreases nodes, count,
{
    if count == 0 || count > nodes.len() {
        Collected::nothing()
    } else {
        walk_nodes(nodes, (count - 1) as nat, strip).followed_by(walk_node(nodes[count - 1], strip))
    }
}

/// Adds to `out` every file under `node`, with its destination, in the
/// order of the walk: each file is met exactly once, and a directory's
/// files come before those of the entry after it.
///
/// Stops at the first file whose path has no named segment and fails with
/// `Error::PathArgument`, which holds that path; what was met before it
/// has been added. Every entry that is added names at least the file.
pub fn add_paths<P>(
    out: &mut Vec<FlattenedEntry<P>>,
    node: HostNode<P>,
    strip_segments: usize,
) -> (res: Result<(), Error>)
    ensures
        entry_views(final(out)@) == entry_views(old(out)@) + walk_node(
            node,
            strip_segments as nat,
        ).entries,
        match res {
            Ok(()) => walk_node(node, strip_segments as nat).failed is None,
            Err(Error::PathArgument { path }) => walk_node(node, strip_segments as nat).failed
                == Some(path@),
            Err(_) => false,
        },
        forall|i: int| 0 <= i < old(out)@.len() ==> final(out)@[i] == old(out)@[i],
        forall|i: int| old(out)@.len() <= i < final(out)@.len() ==> (#[trigger] final(out)@[i]).wf(),
    decreases node,
{
    let ghost strip = strip_segments as nat;
    let ghost start = out@;
    match node {
        HostNode::File(path) => {
            match path_to_array(&path, strip_segments) {
                Ok(segments) => {
                    let entry = FlattenedEntry { source: path.source, segments };
                    out.push(entry);
                    assert(entry_views(out@) == entry_views(start) + seq![entry@]);
                    Ok(())
                },
                Err(e) => {
                    assert(entry_views(start) + Seq::<(P, Seq<Seq<char>>)>::empty()
                        == entry_views(start));
                    Err(e)
                },
            }
        },
        HostNode::Directory(nodes) => {
            let ghost all = nodes@;
            assert(entry_views(start) + Seq::<(P, Seq<Seq<char>>)>::empty() == entry_views(
                start,
            ));
            for child in it: nodes
                invariant
                    it.seq() == all,
                    all == nodes@,
                    start == old(out)@,
                    node == HostNode::Directory(nodes),
                    walk_nodes(all, it.index() as nat, strip).failed is None,
                    entry_views(out@) == entry_views(start) + walk_nodes(
                        all,
                        it.index() as nat,
                        strip,
                    ).entries,
                    start.len() <= out@.len(),
                    forall|i: int| 0 <= i < start.len() ==> out@[i] == start[i],
                    forall|i: int| start.len() <= i < out@.len() ==> (#[trigger] out@[i]).wf(),
                    strip == strip_segments,
            {
                let ghost before = out@;
                let ghost done = walk_nodes(all, it.index() as nat, strip);
                let ghost here = walk_node(child, strip);
                assert(child == all[it.index() as int]);
                assert(walk_nodes(all, (it.index() + 1) as nat, strip) == done.followed_by(here));
                match add_paths(out, child, strip_segments) {
                    Ok(()) => {
                        assert(entry_views(out@) == entry_views(start) + (done.entries
                            + here.entries));
                    },
                    Err(e) => {
                        assert(entry_views(out@) == entry_views(start) + (done.entries
                            + here.entries));
                        proof {
                            lemma_stopped(all, (it.index() + 1) as nat, all.len(), strip);
                        }
                        return Err(e);
                    },
                }
            }
            Ok(())
        },
        HostNode::Other => {
            assert(entry_views(start) + Seq::<(P, Seq<Seq<char>>)>::empty() == entry_views(
                start,
            ));
            Ok(())
        },
    }
}

/// A walk that was stopped stays as it was, whatever comes after.
proof fn lemma_stopped<P>(nodes: Seq<HostNode<P>>, count: nat, later: nat, strip: nat)
    requires
        count <= later <= nodes.len(),
        walk_nodes(nodes, count, strip).failed is Some,
    ensures
        walk_nodes(nodes, later, strip) == walk_nodes(nodes, count, strip),
    decreases later,
{
    if count < later {
        lemma_stopped(nodes, count, (later - 1) as nat, strip);
    }
}

/// The walk of one input: of what the host has there, with the segments
/// taken off that the input's mark asks for.
pub open spec fn walk_input<P>(input: HostInput<P>) -> Collected<P> {
    walk_node(input.tree, input.path.spec_strip_count(input.flatten_contents))
}

/// The walk of the first `count` of `inputs`, in their order.
pub open spec fn walk_inputs<P>(inputs: Seq<HostInput<P>>, count: nat) -> Collected<P>
    decreases count,
{
    if count == 0 || count > inputs.len() {
        Collected::nothing()
    } else {
        walk_inputs(inputs, (count - 1) as nat).followed_by(walk_input(inputs[count - 1]))
    }
}

/// The files of all inputs with their destinations: the inputs in the
/// order given, each walked by `add_paths`. Nothing is merged or left out:
/// two files with one destination both stay, in their order.
///
/// Fails with `Error::PathArgument` at the first file whose path has no
/// named segment.
pub fn flatten_inputs<P>(inputs: Vec<HostInput<P>>) -> (res: Result<
    Vec<FlattenedEntry<P>>,
    Error,
>)
    ensures
        match res {
            Ok(entries) => {
                &&& walk_inputs(inputs@, inputs@.len()).failed is None
                &&& entry_views(entries@) == walk_inputs(inputs@, inputs@.len()).entries
                &&& forall|i: int| 0 <= i < entries@.len() ==> (#[trigger] entries@[i]).wf()
            },
            Err(Error::PathArgument { path }) => walk_inputs(inputs@, inputs@.len()).failed
                == Some(path@),
            Err(_) => false,
        },
{
    let ghost all = inputs@;
    let mut entries: Vec<FlattenedEntry<P>> = Vec::new();
    for input in it: inputs
        invariant
            it.seq() == all,
            all == inputs@,
            walk_inputs(all, it.index() as nat).failed is None,
            entry_views(entries@) == walk_inputs(all, it.index() as nat).entries,
            forall|i: int| 0 <= i < entries@.len() ==> (#[trigger] entries@[i]).wf(),
    {
        assert(input == all[it.index() as int]);
        let strip = input.path.strip_count(input.flatten_contents);
        match add_paths(&mut entries, input.tree, strip) {
            Ok(()) => {},
            Err(e) => {
                proof {
                    lemma_inputs_stopped(all, (it.index() + 1) as nat, all.len());
                }
                return Err(e);
            },
        }
    }
    Ok(entries)
}

proof fn lemma_inputs_stopped<P>(inputs: Seq<HostInput<P>>, count: nat, later: nat)
    requires
        count <= later <= inputs.len(),
        walk_inputs(inputs, count).failed is Some,
    ensures
        walk_inputs(inputs, later) == walk_inputs(inputs, count),
    decreases later,
{
    if count < later {
        lemma_inputs_stopped(inputs, count, (later - 1) as nat);
    }
}

/// What the image needs for one file: the directories that lead to it, to
/// be entered from the root one inside the other and created where they are
/// missing, and the file itself, by its path from the root.
pub struct Placement<P> {
    pub source: P,
    pub directories: Vec<String>,
    pub file: String,
}

impl<P> View for Placement<P> {
    type V = (P, Seq<Seq<char>>, Seq<char>);

    open spec fn view(&self) -> (P, Seq<Seq<char>>, Seq<char>) {
        (self.source, texts(self.directories@), self.file@)
    }
}

/// The placements of a list, each as its view.
pub open spec fn placement_views<P>(placements: Seq<Placement<P>>) -> Seq<
    (P, Seq<Seq<char>>, Seq<char>),
> {
    placements.map_values(|placement: Placement<P>| placement@)
}

/// The placement of an entry: all its segments but the last are
/// directories, and all of them, joined by `/`, are the path of the file.
pub open spec fn placement_of<P>(entry: (P, Seq<Seq<char>>)) -> (P, Seq<Seq<char>>, Seq<char>) {
    (entry.0, entry.1.drop_last(), joined(entry.1, seq!['/']))
}

/// What the image needs for `entry`.
pub fn place<P>(entry: FlattenedEntry<P>) -> (placement: Placement<P>)
    requires
        entry.wf(),
    ensures
        placement@ == placement_of(entry@),
{
    proof {
        reveal_strlit("/");
        assert("/"@ == seq!['/']);
    }
    let file = join(&entry.segments, "/");
    let mut directories = entry.segments;
    let ghost all = directories@;
    directories.pop();
    assert(texts(directories@) == texts(all).drop_last());
    Placement { source: entry.source, directories, file }
}

/// What the image needs for each of `entries`, in their order. A file that
/// comes later is written later: where two have one destination, the later
/// one is what the image keeps.
pub fn image_plan<P>(entries: Vec<FlattenedEntry<P>>) -> (placements: Vec<Placement<P>>)
    requires
        forall|i: int| 0 <= i < entries@.len() ==> (#[trigger] entries@[i]).wf(),
    ensures
        placement_views(placements@) == entry_views(entries@).map_values(
            |entry: (P, Seq<Seq<char>>)| placement_of(entry),
        ),
{
    let ghost all = entries@;
    let ghost want = entry_views(all).map_values(|entry: (P, Seq<Seq<char>>)| placement_of(entry));
    let mut placements: Vec<Placement<P>> = Vec::new();
    for entry in it: entries
        invariant
            it.seq() == all,
            all == entries@,
            want == entry_views(all).map_values(
                |entry: (P, Seq<Seq<char>>)| placement_of(entry),
            ),
            forall|i: int| 0 <= i < all.len() ==> (#[trigger] all[i]).wf(),
            placement_views(placements@) == want.take(it.index() as int),
    {
        assert(entry == all[it.index() as int]);
        let ghost before = placements@;
        let placement = place(entry);
        placements.push(placement);
        assert(placement_views(placements@) == placement_views(before).push(placement@));
        assert(want.take(it.index() + 1) == want.take(it.index() as int).push(
            want[it.index() as int],
        ));
    }
    assert(want.take(all.len() as int) == want);
    placements
}

/// A destination is never empty, and its last segment is the file's own
/// name, however many segments are taken off.
pub proof fn lemma_destination_keeps_name(segments: Seq<Seq<char>>, strip: nat)
    requires
        segments.len() > 0,
    ensures
        destination(segments, strip).len() >= 1,
        destination(segments, strip).last() == segments.last(),
{
}

/// With nothing taken off, the destination is the whole path, segment by
/// segment.
pub proof fn lemma_unflattened_keeps_path(segments: Seq<Seq<char>>)
    requires
        segments.len() > 0,
    ensures
        destination(segments, 0) == segments,
{
}

/// A file below an input directory whose contents are flattened goes
/// where it lies below that directory: the directory's own segments are
/// taken off, and what lies below it stays.
pub proof fn lemma_flattened_drops_input(input: Seq<Seq<char>>, below: Seq<Seq<char>>)
    requires
        below.len() > 0,
    ensures
        destination(input + below, input.len()) == below,
{
}

/// Where as many segments are to be taken off as the path has, or more,
/// the file's name alone is left.
pub proof fn lemma_stripped_bare(segments: Seq<Seq<char>>, strip: nat)
    requires
        segments.len() > 0,
        strip >= segments.len(),
    ensures
        destination(segments, strip) == seq![segments.last()],
{
}

/// The files below a node, in the order of the walk.
pub open spec fn files_in<P>(node: HostNode<P>) -> Seq<P>
    decreases node,
{
    match node {
        HostNode::File(path) => seq![path.source],
        HostNode::Directory(nodes) => files_among(nodes@, nodes@.len()),
        HostNode::Other => Seq::empty(),
    }
}

/// The files below the first `count` of `nodes`, in the order of the walk.
pub open spec fn files_among<P>(nodes: Seq<HostNode<P>>, count: nat) -> Seq<P>
    decreases nodes, count,
{
    if count == 0 || count > nodes.len() {
        Seq::empty()
    } else {
        files_among(nodes, (count - 1) as nat) + files_in(nodes[count - 1])
    }
}

/// The sources of what a walk has gathered.
pub open spec fn sources<P>(entries: Seq<(P, Seq<Seq<char>>)>) -> Seq<P> {
    entries.map_values(|entry: (P, Seq<Seq<char>>)| entry.0)
}

/// A walk that is not stopped meets every file below the node exactly
/// once, in the order of the listings, whatever is taken off the paths.
pub proof fn lemma_walk_meets_every_file<P>(node: HostNode<P>, strip: nat)
    requires
        walk_node(node, strip).failed is None,
    ensures
        sources(walk_node(node, strip).entries) == files_in(node),
    decreases node,
{
    match node {
        HostNode::File(path) => {
            assert(sources(walk_node(node, strip).entries) == seq![path.source]);
        },
        HostNode::Directory(nodes) => {
            lemma_walk_meets_files_among(nodes@, nodes@.len(), strip);
        },
        HostNode::Other => {
            assert(sources(walk_node(node, strip).entries) == Seq::<P>::empty());
        },
    }
}

proof fn lemma_walk_meets_files_among<P>(nodes: Seq<HostNode<P>>, count: nat, strip: nat)
    requires
        count <= nodes.len(),
        walk_nodes(nodes, count, strip).failed is None,
    ensures
        sources(walk_nodes(nodes, count, strip).entries) == files_among(nodes, count),
    decreases nodes, count,
{
    if count == 0 {
        assert(sources(walk_nodes(nodes, count, strip).entries) == Seq::<P>::empty());
    } else {
        let before = walk_nodes(nodes, (count - 1) as nat, strip);
        let here = walk_node(nodes[count - 1], strip);
        lemma_walk_meets_files_among(nodes, (count - 1) as nat, strip);
        lemma_walk_meets_every_file(nodes[count - 1], strip);
        assert(sources(before.entries + here.entries) == sources(before.entries) + sources(
            here.entries,
        ));
    }
}

/// What the host has at a node is well formed: every path of a file in it
/// is.
pub open spec fn node_wf<P>(node: HostNode<P>) -> bool
    decreases node,
{
    match node {
        HostNode::File(path) => path.wf(),
        HostNode::Directory(nodes) => forall|i: int|
            0 <= i < nodes@.len() ==> node_wf(#[trigger] nodes@[i]),
        HostNode::Other => true,
    }
}

/// The segments of a well-formed path are names: none is empty, and none
/// holds `/`.
pub proof fn lemma_segments_are_names(ancestors: Seq<Option<String>>)
    requires
        forall|i: int|
            0 <= i < ancestors.len() ==> (#[trigger] ancestors[i] matches Some(name) ==> is_name(
                name@,
            )),
    ensures
        all_names(segments_of(name_texts(ancestors))),
    decreases ancestors.len(),
{
    if ancestors.len() > 0 {
        let rest = ancestors.drop_first();
        assert forall|i: int| 0 <= i < rest.len() implies (#[trigger] rest[i] matches Some(name)
            ==> is_name(name@)) by {
            assert(rest[i] == ancestors[i + 1]);
        }
        lemma_segments_are_names(rest);
        assert(name_texts(ancestors).drop_first() == name_texts(rest));
        assert(ancestors[0] matches Some(name) ==> is_name(name@));
    }
}

/// A destination holds segments of the path only: where those are names,
/// every segment of the destination is a name.
pub proof fn lemma_destination_of_names(segments: Seq<Seq<char>>, strip: nat)
    requires
        segments.len() > 0,
        all_names(segments),
    ensures
        all_names(destination(segments, strip)),
{
    let kept = destination(segments, strip);
    assert forall|i: int| 0 <= i < kept.len() implies is_name(#[trigger] kept[i]) by {
        if segments.len() > strip {
            assert(kept[i] == segments[i + strip]);
        } else {
            assert(kept[i] == segments[segments.len() - 1]);
        }
    }
}

/// Of a well-formed tree, every destination that a walk gathers is made of
/// names: no segment is empty, and none holds `/`.
pub proof fn lemma_walk_gathers_names<P>(node: HostNode<P>, strip: nat)
    requires
        node_wf(node),
    ensures
        forall|i: int|
            0 <= i < walk_node(node, strip).entries.len() ==> {
                &&& (#[trigger] walk_node(node, strip).entries[i]).1.len() >= 1
                &&& all_names(walk_node(node, strip).entries[i].1)
            },
    decreases node,
{
    match node {
        HostNode::File(path) => {
            if path.segments().len() > 0 {
                lemma_segments_are_names(path.ancestors@);
                lemma_destination_of_names(path.segments(), strip);
            }
        },
        HostNode::Directory(nodes) => {
            lemma_walk_gathers_names_among(nodes@, nodes@.len(), strip);
        },
        HostNode::Other => {},
    }
}

proof fn lemma_walk_gathers_names_among<P>(nodes: Seq<HostNode<P>>, count: nat, strip: nat)
    requires
        count <= nodes.len(),
        forall|i: int| 0 <= i < nodes.len() ==> node_wf(#[trigger] nodes[i]),
    ensures
        forall|i: int|
            0 <= i < walk_nodes(nodes, count, strip).entries.len() ==> {
                &&& (#[trigger] walk_nodes(nodes, count, strip).entries[i]).1.len() >= 1
                &&& all_names(walk_nodes(nodes, count, strip).entries[i].1)
            },
    decreases nodes, count,
{
    if count > 0 {
        let before = walk_nodes(nodes, (count - 1) as nat, strip);
        let here = walk_node(nodes[count - 1], strip);
        lemma_walk_gathers_names_among(nodes, (count - 1) as nat, strip);
        lemma_walk_gathers_names(nodes[count - 1], strip);
        let all = walk_nodes(nodes, count, strip).entries;
        assert forall|i: int| 0 <= i < all.len() implies {
            &&& (#[trigger] all[i]).1.len() >= 1
            &&& all_names(all[i].1)
        } by {
            if i < before.entries.len() {
                assert(all[i] == before.entries[i]);
            } else {
                assert(all[i] == here.entries[i - before.entries.len()]);
            }
        }
    }
}

/// The path that a file is placed at holds its segments and no others:
/// split at `/`, it gives them back. So two files are placed at one path
/// only where their destinations are the same.
pub proof fn lemma_placement_keeps_segments<P>(entry: (P, Seq<Seq<char>>))
    requires
        entry.1.len() >= 1,
        all_names(entry.1),
    ensures
        split(placement_of(entry).2, '/') == entry.1,
{
    assert(free_of(entry.1, '/'));
    lemma_split_joined(entry.1, '/');
}

} // verus!
