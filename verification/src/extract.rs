//! Unpacking an image into a host directory.
//!
//! The walk through the image is a conversation. The `Extraction` asks for
//! one thing at a time (a directory of the image listed, a question about
//! the host answered, a directory made, a file copied), the caller does it
//! and tells the outcome, and the `Extraction` decides what comes next.
//! Directories are walked depth first, in the order of their listings.
//! An entry of the image is known by the handle that its listing gave for
//! it, a value of the caller's that the walk carries and hands back. Its
//! path is the list of names that lead to it from the root of the image; the
//! same names lead from the output directory to its place on the host.
use vstd::prelude::*;
use vstd::string::*;
use crate::error::Error;
use crate::names::{child_names, clone_names, texts};

verus! {

/// What an extraction is asked to do.
pub struct CliArgs {
    /// Replace files that are already in the output directory.
    pub overwrite: bool,
    /// The image to unpack.
    pub image: String,
    /// The directory to unpack it into.
    pub output: String,
}

/// What to do with the output directory before the walk begins.
#[derive(Clone, Copy, Debug, PartialEq, Eq, Structural)]
pub enum Output {
    /// It is not there: create it, and the directories above it.
    Create,
    /// It is there: unpack into it.
    Keep,
}

/// Decides on the output directory from what the host has at its path.
/// Fails with `Error::NotADirectory` exactly where a file is there.
pub fn prepare_output(exists: bool, is_file: bool) -> (res: Result<Output, Error>)
    ensures
        !exists ==> res == Ok::<Output, Error>(Output::Create),
        exists && is_file ==> res == Err::<Output, Error>(Error::NotADirectory),
        exists && !is_file ==> res == Ok::<Output, Error>(Output::Keep),
{
    if !exists {
        Ok(Output::Create)
    } else if is_file {
        Err(Error::NotADirectory)
    } else {
        Ok(Output::Keep)
    }
}

/// The names `.` and `..`, which a listing may hold and which stand for no
/// entry.
pub open spec fn is_pseudo(name: Seq<char>) -> bool {
    name == seq!['.'] || name == seq!['.', '.']
}

/// One entry of a listing, as the walk sees it.
pub struct EntryView<D> {
    pub name: Seq<char>,
    pub is_dir: bool,
    pub handle: D,
}

/// A directory that the walk is in: its path, and its entries still to
/// visit.
pub struct FrameView<D> {
    pub dir: Seq<Seq<char>>,
    pub rest: Seq<EntryView<D>>,
}

/// What the walk asks of its caller.
pub enum Ask<D> {
    List { dir: Option<D>, path: Seq<Seq<char>> },
    IsDir { entry: D, path: Seq<Seq<char>> },
    IsFile { entry: D, path: Seq<Seq<char>> },
    MakeDir { entry: D, path: Seq<Seq<char>> },
    Copy { entry: D, path: Seq<Seq<char>> },
    Conflict { path: Seq<Seq<char>> },
    Finished,
}

/// What the caller tells the walk.
pub enum Told<D> {
    Entries(Seq<EntryView<D>>),
    Answer(bool),
    Done,
}

/// The state of a walk: the directories it is in, the innermost last, and
/// what it has asked.
pub struct Walk<D> {
    pub overwrite: bool,
    pub frames: Seq<FrameView<D>>,
    pub ask: Ask<D>,
}

/// The place of the first entry that stands for something, or the length of
/// `rest` where none does.
pub open spec fn first_real<D>(rest: Seq<EntryView<D>>) -> int
    decreases rest.len(),
{
    if rest.len() == 0 || !is_pseudo(rest[0].name) {
        0
    } else {
        1 + first_real(rest.drop_first())
    }
}

impl<D> Ask<D> {
    /// The path that is asked about; the empty one where the walk has
    /// finished.
    pub open spec fn path(self) -> Seq<Seq<char>> {
        match self {
            Ask::List { path, .. } => path,
            Ask::IsDir { path, .. } => path,
            Ask::IsFile { path, .. } => path,
            Ask::MakeDir { path, .. } => path,
            Ask::Copy { path, .. } => path,
            Ask::Conflict { path } => path,
            Ask::Finished => Seq::empty(),
        }
    }

    /// What is asked first about an entry of the directory at `dir`: of a
    /// directory, whether the host has it; of a file, whether the host has
    /// it, or with `overwrite` at once its copy.
    pub open spec fn about(entry: EntryView<D>, dir: Seq<Seq<char>>, overwrite: bool) -> Ask<D> {
        let path = dir.push(entry.name);
        if entry.is_dir {
            Ask::IsDir { entry: entry.handle, path }
        } else if overwrite {
            Ask::Copy { entry: entry.handle, path }
        } else {
            Ask::IsFile { entry: entry.handle, path }
        }
    }
}

impl<D> Walk<D> {
    /// A walk that has not begun: it asks for the listing of the root.
    pub open spec fn start(overwrite: bool) -> Walk<D> {
        Walk { overwrite, frames: Seq::empty(), ask: Ask::List { dir: None, path: Seq::empty() } }
    }

    /// Goes on to the next entry that stands for something: in the
    /// innermost directory, or where that has none left, in the one around
    /// it. With no directory left the walk has finished.
    pub open spec fn advance(self) -> Walk<D>
        decreases self.frames.len(),
    {
        if self.frames.len() == 0 {
            Walk { ask: Ask::Finished, ..self }
        } else {
            let top = self.frames.last();
            let below = self.frames.drop_last();
            let k = first_real(top.rest);
            if k >= top.rest.len() {
                Walk { frames: below, ..self }.advance()
            } else {
                Walk {
                    frames: below.push(FrameView { dir: top.dir, rest: top.rest.skip(k + 1) }),
                    ask: Ask::about(top.rest[k], top.dir, self.overwrite),
                    ..self
                }
            }
        }
    }

    /// The walk after the caller has told the outcome of what was asked.
    /// What does not answer the question changes nothing.
    pub open spec fn next(self, told: Told<D>) -> Walk<D> {
        match (self.ask, told) {
            (Ask::List { dir, path }, Told::Entries(entries)) => Walk {
                frames: self.frames.push(FrameView { dir: path, rest: entries }),
                ..self
            }.advance(),
            (Ask::IsDir { entry, path }, Told::Answer(yes)) => Walk {
                ask: if yes {
                    Ask::List { dir: Some(entry), path }
                } else {
                    Ask::MakeDir { entry, path }
                },
                ..self
            },
            (Ask::MakeDir { entry, path }, Told::Done) => Walk {
                ask: Ask::List { dir: Some(entry), path },
                ..self
            },
            (Ask::IsFile { entry, path }, Told::Answer(yes)) => Walk {
                ask: if yes {
                    Ask::Conflict { path }
                } else {
                    Ask::Copy { entry, path }
                },
                ..self
            },
            (Ask::Copy { entry, path }, Told::Done) => self.advance(),
            _ => self,
        }
    }
}

/// One entry of a directory of the image: its name, whether it is a
/// directory, and what the caller reaches it by.
pub struct ImageEntry<D> {
    pub name: String,
    pub is_dir: bool,
    pub handle: D,
}

impl<D> View for ImageEntry<D> {
    type V = EntryView<D>;

    open spec fn view(&self) -> EntryView<D> {
        EntryView { name: self.name@, is_dir: self.is_dir, handle: self.handle }
    }
}

/// The entries of a listing, as the walk sees them.
pub open spec fn entry_views<D>(entries: Seq<ImageEntry<D>>) -> Seq<EntryView<D>> {
    entries.map_values(|entry: ImageEntry<D>| entry@)
}

/// What the caller is to do next.
pub enum Request<D> {
    /// List the directory `dir` of the image (the root, where it is
    /// `None`), and hand the listing to `save_dir`.
    List { dir: Option<D>, path: Vec<String> },
    /// Find out whether the host has a directory at `path`, and `answer`.
    IsDir { entry: D, path: Vec<String> },
    /// Find out whether the host has a file at `path`, and `answer`.
    IsFile { entry: D, path: Vec<String> },
    /// Create the directory `path` on the host, and say `done`.
    MakeDir { entry: D, path: Vec<String> },
    /// Copy the file `entry` of the image to `path` on the host, creating
    /// or truncating it, and say `done`.
    Copy { entry: D, path: Vec<String> },
    /// Stop: the host has a file at `path` already.
    Conflict { path: Vec<String> },
    /// Stop: all is unpacked.
    Finished,
}

impl<D> View for Request<D> {
    type V = Ask<D>;

    open spec fn view(&self) -> Ask<D> {
        match self {
            Request::List { dir, path } => Ask::List { dir: *dir, path: texts(path@) },
            Request::IsDir { entry, path } => Ask::IsDir { entry: *entry, path: texts(path@) },
            Request::IsFile { entry, path } => Ask::IsFile { entry: *entry, path: texts(path@) },
            Request::MakeDir { entry, path } => Ask::MakeDir {
                entry: *entry,
                path: texts(path@),
            },
            Request::Copy { entry, path } => Ask::Copy { entry: *entry, path: texts(path@) },
            Request::Conflict { path } => Ask::Conflict { path: texts(path@) },
            Request::Finished => Ask::Finished,
        }
    }
}

/// A directory that the walk is in. `pending` holds the entries still to
/// visit, the next one last.
struct Frame<D> {
    dir: Vec<String>,
    pending: Vec<ImageEntry<D>>,
}

spec fn rest_of<D>(pending: Seq<ImageEntry<D>>) -> Seq<EntryView<D>> {
    Seq::new(pending.len(), |i: int| pending[pending.len() - 1 - i]@)
}

impl<D> View for Frame<D> {
    type V = FrameView<D>;

    closed spec fn view(&self) -> FrameView<D> {
        FrameView { dir: texts(self.dir@), rest: rest_of(self.pending@) }
    }
}

spec fn frame_views<D>(frames: Seq<Frame<D>>) -> Seq<FrameView<D>> {
    frames.map_values(|frame: Frame<D>| frame@)
}

/// The extraction of one image, from its first question to its last.
pub struct Extraction<D> {
    overwrite: bool,
    frames: Vec<Frame<D>>,
    request: Request<D>,
}

impl<D> View for Extraction<D> {
    type V = Walk<D>;

    closed spec fn view(&self) -> Walk<D> {
        Walk { overwrite: self.overwrite, frames: frame_views(self.frames@), ask: self.request@ }
    }
}

fn is_pseudo_name(name: &String) -> (yes: bool)
    ensures
        yes == is_pseudo(name@),
{
    let text = name.as_str();
    let n = text.unicode_len();
    if n == 1 {
        let yes = text.get_char(0) == '.';
        assert(yes ==> name@ == seq!['.']);
        yes
    } else if n == 2 {
        let yes = text.get_char(0) == '.' && text.get_char(1) == '.';
        assert(yes ==> name@ == seq!['.', '.']);
        yes
    } else {
        false
    }
}

/// Takes the next entry that stands for something out of `frame`, and
/// with it the pseudo-entries before it.
fn next_entry<D>(frame: &mut Frame<D>) -> (entry: Option<ImageEntry<D>>)
    ensures
        final(frame)@.dir == old(frame)@.dir,
        match entry {
            Some(e) => {
                let k = first_real(old(frame)@.rest);
                &&& k < old(frame)@.rest.len()
                &&& e@ == old(frame)@.rest[k]
                &&& final(frame)@.rest == old(frame)@.rest.skip(k + 1)
            },
            None => first_real(old(frame)@.rest) >= old(frame)@.rest.len(),
        },
{
    let ghost all = frame@.rest;
    let ghost mut skipped: int = 0;
    loop
        invariant
            frame@.dir == old(frame)@.dir,
            all == old(frame)@.rest,
            0 <= skipped <= all.len(),
            frame@.rest == all.skip(skipped),
            first_real(all) == skipped + first_real(all.skip(skipped)),
        decreases frame.pending.len(),
    {
        let ghost before = frame.pending@;
        match frame.pending.pop() {
            None => {
                return None;
            },
            Some(e) => {
                assert(rest_of(frame.pending@) == rest_of(before).drop_first());
                assert(e@ == rest_of(before)[0]);
                assert(all.skip(skipped).drop_first() == all.skip(skipped + 1));
                if !is_pseudo_name(&e.name) {
                    return Some(e);
                }
                proof {
                    skipped = skipped + 1;
                }
            },
        }
    }
}

impl<D> Extraction<D> {
    /// An extraction that has not begun: it asks for the listing of the
    /// root of the image.
    pub fn begin(opts: &CliArgs) -> (walk: Extraction<D>)
        ensures
            walk@ == Walk::<D>::start(opts.overwrite),
    {
        let walk = Extraction {
            overwrite: opts.overwrite,
            frames: Vec::new(),
            request: Request::List { dir: None, path: Vec::new() },
        };
        assert(walk@.frames == Seq::<FrameView<D>>::empty());
        assert(texts(Seq::<String>::empty()) == Seq::<Seq<char>>::empty());
        walk
    }

    /// What the caller is to do next.
    pub fn request(&self) -> (request: &Request<D>)
        ensures
            request@ == self@.ask,
    {
        &self.request
    }

    /// Takes what is asked out of `self`, which is left at `Finished`.
    fn take_request(&mut self) -> (request: Request<D>)
        ensures
            request == old(self).request,
            final(self).overwrite == old(self).overwrite,
            final(self).frames == old(self).frames,
            final(self).request == Request::<D>::Finished,
    {
        let mut request = Request::Finished;
        std::mem::swap(&mut self.request, &mut request);
        request
    }

    fn advance(&mut self)
        ensures
            final(self)@ == old(self)@.advance(),
    {
        loop
            invariant
                self@.advance() == old(self)@.advance(),
            decreases self.frames.len(),
        {
            let ghost before = *self;
            match self.frames.pop() {
                None => {
                    self.request = Request::Finished;
                    return ;
                },
                Some(frame) => {
                    let mut frame = frame;
                    let ghost top = frame@;
                    assert(top == before@.frames.last());
                    assert(frame_views(self.frames@) == before@.frames.drop_last());
                    match next_entry(&mut frame) {
                        None => {},
                        Some(entry) => {
                            let path = child_names(&frame.dir, &entry.name);
                            self.request = if entry.is_dir {
                                Request::IsDir { entry: entry.handle, path }
                            } else if self.overwrite {
                                Request::Copy { entry: entry.handle, path }
                            } else {
                                Request::IsFile { entry: entry.handle, path }
                            };
                            self.frames.push(frame);
                            assert(frame_views(self.frames@) == before@.frames.drop_last().push(
                                frame@,
                            ));
                            return ;
                        },
                    }
                },
            }
        }
    }

    /// Tells the answer to `Request::IsDir` or `Request::IsFile`.
    ///
    /// A directory that the host has is listed, one that it lacks is made
    /// first. A file that the host lacks is copied; one that it has is a
    /// conflict, and the walk stops there.
    pub fn answer(&mut self, yes: bool)
        ensures
            final(self)@ == old(self)@.next(Told::Answer(yes)),
    {
        let next = match self.take_request() {
            Request::IsDir { entry, path } => {
                if yes {
                    Request::List { dir: Some(entry), path }
                } else {
                    Request::MakeDir { entry, path }
                }
            },
            Request::IsFile { entry, path } => {
                if yes {
                    Request::Conflict { path }
                } else {
                    Request::Copy { entry, path }
                }
            },
            other => other,
        };
        self.request = next;
    }

    /// Tells that `Request::MakeDir` or `Request::Copy` has been done.
    ///
    /// A directory that was made is listed next; after a copy the walk
    /// goes on to the next entry.
    pub fn done(&mut self)
        ensures
            final(self)@ == old(self)@.next(Told::Done),
    {
        match self.take_request() {
            Request::MakeDir { entry, path } => {
                self.request = Request::List { dir: Some(entry), path };
            },
            Request::Copy { entry, path } => {
                self.request = Request::Copy { entry, path };
                self.advance();
            },
            other => {
                self.request = other;
            },
        }
    }
}

/// Takes the listing that `Request::List` asked for, and begins on that
/// directory: its entries are visited in the order of the listing, `.` and
/// `..` are passed over, and each directory among them is walked to its end
/// before the entry after it.
pub fn save_dir<D>(walk: &mut Extraction<D>, entries: Vec<ImageEntry<D>>)
    ensures
        final(walk)@ == old(walk)@.next(Told::Entries(entry_views(entries@))),
{
    let dir = match &walk.request {
        Request::List { path, .. } => clone_names(path),
        _ => {
            return ;
        },
    };
    let mut entries = entries;
    let ghost listing = entries@;
    let mut pending: Vec<ImageEntry<D>> = Vec::new();
    while entries.len() > 0
        invariant
            entries.len() + pending.len() == listing.len(),
            entries@ == listing.take(entries.len() as int),
            forall|j: int|
                0 <= j < pending.len() ==> pending@[j] == listing[listing.len() - 1 - j],
        decreases entries.len(),
    {
        match entries.pop() {
            Some(entry) => {
                pending.push(entry);
            },
            None => {},
        }
    }
    let frame = Frame { dir, pending };
    assert(frame@.rest == entry_views(listing));
    let ghost before = walk@;
    walk.frames.push(frame);
    assert(walk@.frames == before.frames.push(frame@));
    walk.advance();
}

/// The walk never asks about `.` or `..`: no path that it asks about ends
/// in one of them, whatever the listings hold.
pub proof fn lemma_pseudo_entries_never_asked<D>(walk: Walk<D>, told: Told<D>)
    requires
        walk.ask.path().len() > 0 ==> !is_pseudo(walk.ask.path().last()),
    ensures
        walk.next(told).ask.path().len() > 0 ==> !is_pseudo(walk.next(told).ask.path().last()),
{
    match (walk.ask, told) {
        (Ask::List { dir, path }, Told::Entries(entries)) => {
            lemma_advance_asks_real(
                Walk { frames: walk.frames.push(FrameView { dir: path, rest: entries }), ..walk },
            );
        },
        (Ask::Copy { entry, path }, Told::Done) => {
            lemma_advance_asks_real(walk);
        },
        _ => {},
    }
}

/// `first_real` finds an entry that is no pseudo-entry, and passes over
/// pseudo-entries only.
pub proof fn lemma_first_real<D>(rest: Seq<EntryView<D>>)
    ensures
        0 <= first_real(rest) <= rest.len(),
        first_real(rest) < rest.len() ==> !is_pseudo(rest[first_real(rest)].name),
        forall|i: int| 0 <= i < first_real(rest) ==> is_pseudo(#[trigger] rest[i].name),
    decreases rest.len(),
{
    if rest.len() > 0 && is_pseudo(rest[0].name) {
        lemma_first_real(rest.drop_first());
        assert forall|i: int| 0 <= i < first_real(rest) implies is_pseudo(
            #[trigger] rest[i].name,
        ) by {
            if i > 0 {
                assert(rest[i] == rest.drop_first()[i - 1]);
            }
        }
    }
}

proof fn lemma_advance_asks_real<D>(walk: Walk<D>)
    ensures
        walk.advance().overwrite == walk.overwrite,
        walk.advance().ask is Finished || walk.advance().ask is IsDir || walk.advance().ask
            is Copy || walk.advance().ask is IsFile,
        walk.advance().ask is IsFile ==> !walk.overwrite,
        walk.advance().ask.path().len() > 0 ==> !is_pseudo(walk.advance().ask.path().last()),
    decreases walk.frames.len(),
{
    if walk.frames.len() > 0 {
        let top = walk.frames.last();
        lemma_first_real(top.rest);
        if first_real(top.rest) >= top.rest.len() {
            lemma_advance_asks_real(Walk { frames: walk.frames.drop_last(), ..walk });
        }
    }
}

/// With overwriting asked for, the walk never asks whether the host has a
/// file, and never stops at a conflict: every file that it comes to is
/// copied.
pub proof fn lemma_overwrite_never_conflicts<D>(walk: Walk<D>, told: Told<D>)
    requires
        walk.overwrite,
        !(walk.ask is IsFile),
        !(walk.ask is Conflict),
    ensures
        walk.next(told).overwrite,
        !(walk.next(told).ask is IsFile),
        !(walk.next(told).ask is Conflict),
{
    match (walk.ask, told) {
        (Ask::List { dir, path }, Told::Entries(entries)) => {
            lemma_advance_asks_real(
                Walk { frames: walk.frames.push(FrameView { dir: path, rest: entries }), ..walk },
            );
        },
        (Ask::Copy { entry, path }, Told::Done) => {
            lemma_advance_asks_real(walk);
        },
        _ => {},
    }
}

/// Without overwriting, a file that the host has already stops the walk at
/// once, with a conflict at that file, and nothing that is told afterwards
/// moves it on; a file that the host lacks is copied.
pub proof fn lemma_existing_file_stops<D>(
    walk: Walk<D>,
    entry: D,
    path: Seq<Seq<char>>,
    told: Told<D>,
)
    requires
        walk.ask == (Ask::IsFile { entry, path }),
    ensures
        walk.next(Told::Answer(true)).ask == (Ask::<D>::Conflict { path }),
        walk.next(Told::Answer(true)).next(told) == walk.next(Told::Answer(true)),
        walk.next(Told::Answer(false)).ask == (Ask::Copy { entry, path }),
{
}

} // verus!
