//! The registry of watched paths, their offsets, and the decisions of each dispatch.
//!
//! A dispatch runs in two steps around the caller's I/O: `begin_dispatch` says where to read
//! the file from, and `complete_dispatch` takes what the read gave, updates the offset and says
//! what to hand the path's sink.
use vstd::prelude::*;
use crate::error::{ErrorKind, LogError};
use crate::lines::{
    find_last_line, first_line, last_line_start, lemma_lines_in_order, lines_end, take_line,
};
use crate::paths::{is_key_of, make_absolute_path};

verus! {

/// The text of a line's bytes, each invalid UTF-8 sequence replaced by U+FFFD.
pub uninterp spec fn utf8_lossy(b: Seq<u8>) -> Seq<char>;

/// Relies on String::from_utf8_lossy: the text of `b`, which depends on the bytes alone.
#[verifier::external_body]
fn text_of(b: &Vec<u8>) -> (r: String)
    ensures
        r@ == utf8_lossy(b@),
{
    String::from_utf8_lossy(b.as_slice()).into_owned()
}

/// How a path is registered.
#[derive(Debug, Clone, Copy, PartialEq, Eq)]
pub struct WatchOptions {
    /// Begin at the last complete line present when the path is first dispatched (the
    /// default); when false, begin at offset 0 and deliver the whole file.
    pub skip_to_last_line: bool,
}

impl Default for WatchOptions {
    fn default() -> (r: Self)
        ensures
            r.skip_to_last_line,
    {
        WatchOptions { skip_to_last_line: true }
    }
}

/// Whether a registration with `options` skips to the last line.
pub open spec fn skips_to_last_line(options: Option<WatchOptions>) -> bool {
    match options {
        None => true,
        Some(o) => o.skip_to_last_line,
    }
}

/// Where a dispatch reads the file from.
#[derive(Debug, Clone, Copy, PartialEq, Eq, Structural)]
pub enum ReadStart {
    /// The offset is not resolved yet: read the whole file, from its first byte.
    FromStart,
    /// Read from this offset on.
    At(u64),
}

/// What reading a watched file gave.
#[derive(Debug, Clone, PartialEq, Eq)]
pub enum ReadOutcome {
    /// Opening failed; the description of the I/O error.
    OpenFailed(String),
    /// Seeking to the offset failed; the description of the I/O error.
    SeekFailed(String),
    /// The bytes from the requested start to the end of the file.
    Read(Vec<u8>),
}

/// What a dispatch hands to the path's sink.
#[derive(Debug, Clone, PartialEq, Eq)]
pub enum Delivery {
    /// No complete line was there: the sink is not called.
    Nothing,
    /// One complete line, without its terminator.
    Line(String),
    /// The read failed.
    Failed(LogError),
}

/// The kind of a change notification.
#[derive(Debug, Clone, Copy, PartialEq, Eq, Structural)]
pub enum ChangeKind {
    /// The data of the files changed.
    DataModified,
    /// Anything else: metadata, creation, removal, renaming.
    Other,
}

/// The paths of a notification that a dispatch is owed: all of them for a change of data,
/// none for any other kind.
pub fn paths_to_dispatch(kind: ChangeKind, paths: Vec<String>) -> (r: Vec<String>)
    ensures
        r@ == (if kind == ChangeKind::DataModified {
            paths@
        } else {
            Seq::<String>::empty()
        }),
{
    if kind == ChangeKind::DataModified {
        paths
    } else {
        Vec::new()
    }
}

/// Where the bytes read from `start` begin in the file.
pub open spec fn start_offset(start: ReadStart) -> int {
    match start {
        ReadStart::FromStart => 0,
        ReadStart::At(o) => o as int,
    }
}

/// Where, within the bytes read from `start`, the line to deliver begins: the last complete
/// line when the whole file was read to resolve the offset, else the first byte.
pub open spec fn line_begin(start: ReadStart, bytes: Seq<u8>) -> int {
    match start {
        ReadStart::FromStart => last_line_start(bytes),
        ReadStart::At(_) => 0,
    }
}

/// The line that the bytes read from `start` deliver, and how many bytes it spans.
pub open spec fn line_read(start: ReadStart, bytes: Seq<u8>) -> Option<(Seq<u8>, int)> {
    first_line(bytes.subrange(line_begin(start, bytes), bytes.len() as int))
}

/// The offset stored after the bytes read from `start`; `None` leaves it as it was. A resolved
/// offset moves only past a complete line; an unresolved one is resolved, and moved past the
/// last complete line when there is one.
pub open spec fn offset_after(start: ReadStart, bytes: Seq<u8>) -> Option<int> {
    match line_read(start, bytes) {
        Some((_, n)) => Some(start_offset(start) + line_begin(start, bytes) + n),
        None => match start {
            ReadStart::FromStart => Some(line_begin(start, bytes)),
            ReadStart::At(_) => None,
        },
    }
}

/// The offset that a registration with `options` gives key `p` of the watched paths `m`: a
/// path already watched keeps its own; a new one starts unresolved, or at 0 when it does not
/// skip to the last line.
pub open spec fn offset_on_register<S>(
    m: Map<Seq<char>, (S, Option<u64>)>,
    p: Seq<char>,
    options: Option<WatchOptions>,
) -> Option<u64> {
    if m.contains_key(p) {
        m[p].1
    } else if skips_to_last_line(options) {
        None
    } else {
        Some(0)
    }
}

/// Where a dispatch of path `p` reads from: `None` when `p` is not watched.
pub open spec fn read_start_for<S>(m: Map<Seq<char>, (S, Option<u64>)>, p: Seq<char>) -> Option<
    ReadStart,
> {
    if !m.contains_key(p) {
        None
    } else {
        match m[p].1 {
            None => Some(ReadStart::FromStart),
            Some(o) => Some(ReadStart::At(o)),
        }
    }
}

/// The watched paths after a dispatch of path `p` that read from `start` with `outcome`.
pub open spec fn watched_after<S>(
    m: Map<Seq<char>, (S, Option<u64>)>,
    p: Seq<char>,
    start: ReadStart,
    outcome: ReadOutcome,
) -> Map<Seq<char>, (S, Option<u64>)> {
    match outcome {
        ReadOutcome::Read(b) => match offset_after(start, b@) {
            Some(n) => if m.contains_key(p) {
                m.insert(p, (m[p].0, Some(n as u64)))
            } else {
                m
            },
            None => m,
        },
        _ => m,
    }
}

/// Dispatches deliver a file's lines in order, each once, however appends and notifications
/// interleave: when the offset of a path sits where the first `k` complete lines of its file
/// end (as it does from registration on, at 0, for a path that does not skip to the last line),
/// and bytes are appended, a read from that offset delivers line `k + 1` and moves the offset to
/// where `k + 1` lines end, or, while that line is incomplete, delivers nothing and leaves the
/// offset where it is.
pub proof fn lemma_dispatch_follows_lines(content: Seq<u8>, appended: Seq<u8>, k: nat)
    requires
        0 <= lines_end(content, k) <= u64::MAX,
    ensures
        ({
            let grown = content + appended;
            let at = lines_end(content, k);
            let tail = grown.subrange(at, grown.len() as int);
            &&& lines_end(grown, k) == at
            &&& offset_after(ReadStart::At(at as u64), tail) == (if lines_end(grown, k + 1) >= 0 {
                Some(lines_end(grown, k + 1))
            } else {
                None
            })
            &&& line_read(ReadStart::At(at as u64), tail) is Some == (lines_end(grown, k + 1) >= 0)
        }),
{
    let grown = content + appended;
    let at = lines_end(content, k);
    lemma_lines_in_order(content, appended, k);
    let tail = grown.subrange(at, grown.len() as int);
    assert(tail.subrange(0, tail.len() as int) =~= tail);
}

/// A path that is not watched, or no longer is, is never read: no dispatch of it begins, and
/// a dispatch of it already under way stores nothing.
pub proof fn lemma_unwatched_path_is_silent<S>(
    m: Map<Seq<char>, (S, Option<u64>)>,
    p: Seq<char>,
    start: ReadStart,
    outcome: ReadOutcome,
)
    ensures
        read_start_for(m.remove(p), p) is None,
        watched_after(m.remove(p), p, start, outcome) == m.remove(p),
{
}

/// A rename keeps the sink and the offset: the new path is read as the old one would have
/// been and delivers to the same sink, and the old path, when it differs, is no longer read.
pub proof fn lemma_rename_keeps_sink_and_offset<S>(
    m: Map<Seq<char>, (S, Option<u64>)>,
    from: Seq<char>,
    to: Seq<char>,
)
    requires
        m.contains_key(from),
    ensures
        ({
            let renamed = m.remove(from).insert(to, m[from]);
            &&& read_start_for(renamed, to) == read_start_for(m, from)
            &&& renamed[to].0 == m[from].0
            &&& from != to ==> read_start_for(renamed, from) is None
        }),
{
}

/// The keys under which a rename moved, or would have moved, a registration.
pub struct Rekey {
    /// The key of the old path.
    pub from: String,
    /// The key of the new path.
    pub to: String,
    /// Whether the old path was watched, so that its registration moved.
    pub moved: bool,
}

struct WatchEntry<S> {
    path: String,
    sink: S,
    offset: Option<u64>,
}

/// The watched paths: for each canonical key, its sink and its offset, which stays unresolved
/// until the first dispatch of the path.
pub struct LogWatcher<S> {
    base_dir: String,
    entries: Vec<WatchEntry<S>>,
    model: Ghost<Map<Seq<char>, (S, Option<u64>)>>,
}

impl<S> View for LogWatcher<S> {
    type V = Map<Seq<char>, (S, Option<u64>)>;

    closed spec fn view(&self) -> Self::V {
        self.model@
    }
}

impl<S> LogWatcher<S> {
    /// The working directory against which relative paths are resolved.
    pub closed spec fn base(&self) -> Seq<char> {
        self.base_dir@
    }

    /// Each key is held once, and the entries are the map that the view shows.
    pub closed spec fn wf(&self) -> bool {
        &&& forall|i: int, j: int|
            0 <= i < self.entries@.len() && 0 <= j < self.entries@.len() && i != j
                ==> #[trigger] self.entries@[i].path@ != #[trigger] self.entries@[j].path@
        &&& forall|i: int|
            0 <= i < self.entries@.len() ==> self.model@.contains_key(
                #[trigger] self.entries@[i].path@,
            ) && self.model@[self.entries@[i].path@] == (
                self.entries@[i].sink,
                self.entries@[i].offset,
            )
        &&& forall|p: Seq<char>|
            #[trigger] self.model@.contains_key(p) ==> exists|i: int|
                0 <= i < self.entries@.len() && self.entries@[i].path@ == p
    }

    /// An empty registry that resolves relative paths against `base_dir`.
    pub fn new(base_dir: &str) -> (r: Self)
        ensures
            r.wf(),
            r@ == Map::<Seq<char>, (S, Option<u64>)>::empty(),
            r.base() == base_dir@,
    {
        LogWatcher { base_dir: String::from_str(base_dir), entries: Vec::new(), model: Ghost(Map::empty()) }
    }

    fn find(&self, key: &String) -> (r: Option<usize>)
        requires
            self.wf(),
        ensures
            match r {
                Some(i) => i < self.entries@.len() && self.entries@[i as int].path@ == key@
                    && self@.contains_key(key@),
                None => !self@.contains_key(key@),
            },
    {
        let mut i: usize = 0;
        while i < self.entries.len()
            invariant
                self.wf(),
                i <= self.entries@.len(),
                forall|j: int| 0 <= j < i ==> self.entries@[j].path@ != key@,
            decreases self.entries@.len() - i,
        {
            if self.entries[i].path == *key {
                return Some(i);
            }
            i = i + 1;
        }
        None
    }

    fn remove_at(&mut self, i: usize) -> (e: WatchEntry<S>)
        requires
            old(self).wf(),
            i < old(self).entries@.len(),
        ensures
            final(self).wf(),
            final(self).base() == old(self).base(),
            e == old(self).entries@[i as int],
            old(self)@.contains_key(e.path@),
            old(self)@[e.path@] == (e.sink, e.offset),
            final(self)@ == old(self)@.remove(e.path@),
    {
        let ghost s0 = self.entries@;
        let e = self.entries.remove(i);
        let ghost p = e.path@;
        self.model = Ghost(self.model@.remove(p));
        proof {
            let s = self.entries@;
            assert forall|k: int| 0 <= k < s.len() implies s[k] == (if k < i {
                s0[k]
            } else {
                s0[k + 1]
            }) by {}
            assert forall|k: int| 0 <= k < s.len() implies self.model@.contains_key(
                #[trigger] s[k].path@,
            ) && self.model@[s[k].path@] == (s[k].sink, s[k].offset) by {
                if k < i {
                    assert(s0[k].path@ != s0[i as int].path@);
                } else {
                    assert(s0[k + 1].path@ != s0[i as int].path@);
                }
            }
            assert forall|q: Seq<char>| #[trigger] self.model@.contains_key(q) implies exists|k: int|
                0 <= k < s.len() && s[k].path@ == q by {
                let j = choose|j: int| 0 <= j < s0.len() && s0[j].path@ == q;
                if j < i {
                    assert(s[j] == s0[j]);
                } else {
                    assert(s[j - 1] == s0[j]);
                }
            }
        }
        e
    }

    fn put(&mut self, e: WatchEntry<S>)
        requires
            old(self).wf(),
        ensures
            final(self).wf(),
            final(self).base() == old(self).base(),
            final(self)@ == old(self)@.insert(e.path@, (e.sink, e.offset)),
    {
        let ghost m0 = self.model@;
        match self.find(&e.path) {
            Some(i) => {
                self.remove_at(i);
            },
            None => {},
        }
        let ghost p = e.path@;
        let ghost v = (e.sink, e.offset);
        let ghost s0 = self.entries@;
        self.entries.push(e);
        self.model = Ghost(self.model@.insert(p, v));
        proof {
            let s = self.entries@;
            assert(s[s0.len() as int] == e);
            assert forall|k: int| 0 <= k < s0.len() implies s[k] == s0[k] by {}
            assert forall|k: int| 0 <= k < s.len() implies self.model@.contains_key(
                #[trigger] s[k].path@,
            ) && self.model@[s[k].path@] == (s[k].sink, s[k].offset) by {
                if k < s0.len() {
                    assert(s0[k].path@ != p);
                }
            }
            assert forall|q: Seq<char>| #[trigger] self.model@.contains_key(q) implies exists|k: int|
                0 <= k < s.len() && s[k].path@ == q by {
                if q == p {
                    assert(s[s0.len() as int].path@ == q);
                } else {
                    let j = choose|j: int| 0 <= j < s0.len() && s0[j].path@ == q;
                    assert(s[j] == s0[j]);
                }
            }
            assert forall|a: int, b: int|
                0 <= a < s.len() && 0 <= b < s.len() && a != b implies #[trigger] s[a].path@
                != #[trigger] s[b].path@ by {
                if a < s0.len() && b < s0.len() {
                    assert(s[a] == s0[a] && s[b] == s0[b]);
                } else if a < s0.len() {
                    assert(self.model@.contains_key(s0[a].path@));
                } else {
                    assert(self.model@.contains_key(s0[b].path@));
                }
            }
            assert(self.model@ =~= m0.insert(p, v));
        }
    }

    fn set_offset(&mut self, key: &String, offset: u64)
        requires
            old(self).wf(),
        ensures
            final(self).wf(),
            final(self).base() == old(self).base(),
            final(self)@ == (if old(self)@.contains_key(key@) {
                old(self)@.insert(key@, (old(self)@[key@].0, Some(offset)))
            } else {
                old(self)@
            }),
    {
        let ghost m0 = self@;
        match self.find(key) {
            Some(i) => {
                let mut e = self.remove_at(i);
                e.offset = Some(offset);
                self.put(e);
                proof {
                    assert(self@ =~= m0.insert(key@, (m0[key@].0, Some(offset))));
                }
            },
            None => {},
        }
    }

    /// The canonical key of `path`.
    pub fn key_of(&self, path: &str) -> (r: String)
        ensures
            is_key_of(r@, path@, self.base()),
    {
        make_absolute_path(path, self.base_dir.as_str())
    }

    /// Watches `path` under its canonical key, which it returns, delivering to `sink`. A path
    /// already watched gets the new sink in place of its old one and keeps its offset.
    pub fn register(&mut self, path: &str, sink: S, options: Option<WatchOptions>) -> (key: String)
        requires
            old(self).wf(),
        ensures
            final(self).wf(),
            final(self).base() == old(self).base(),
            is_key_of(key@, path@, old(self).base()),
            final(self)@ == old(self)@.insert(
                key@,
                (sink, offset_on_register(old(self)@, key@, options)),
            ),
    {
        let key = self.key_of(path);
        let offset = match self.find(&key) {
            Some(i) => self.remove_at(i).offset,
            None => {
                let skip = match options {
                    None => true,
                    Some(o) => o.skip_to_last_line,
                };
                if skip {
                    None
                } else {
                    Some(0)
                }
            },
        };
        self.put(WatchEntry { path: key.clone(), sink, offset });
        proof {
            assert(self@ =~= old(self)@.insert(key@, (sink, offset_on_register(old(self)@, key@, options))));
        }
        key
    }

    /// Stops watching `path`, whose canonical key it returns; nothing changes when the path is
    /// not watched.
    pub fn stop_monitoring_file(&mut self, path: &str) -> (key: String)
        requires
            old(self).wf(),
        ensures
            final(self).wf(),
            final(self).base() == old(self).base(),
            is_key_of(key@, path@, old(self).base()),
            final(self)@ == old(self)@.remove(key@),
    {
        let key = self.key_of(path);
        match self.find(&key) {
            Some(i) => {
                self.remove_at(i);
            },
            None => {
                proof {
                    assert(self@ =~= old(self)@.remove(key@));
                }
            },
        }
        key
    }

    /// Moves the registration of `old_path` to `new_path`, keeping its sink and its offset and
    /// replacing any registration of `new_path`; nothing changes when `old_path` is not watched.
    pub fn change_file_path(&mut self, old_path: &str, new_path: &str) -> (r: Rekey)
        requires
            old(self).wf(),
        ensures
            final(self).wf(),
            final(self).base() == old(self).base(),
            is_key_of(r.from@, old_path@, old(self).base()),
            is_key_of(r.to@, new_path@, old(self).base()),
            r.moved == old(self)@.contains_key(r.from@),
            r.moved ==> final(self)@ == old(self)@.remove(r.from@).insert(
                r.to@,
                old(self)@[r.from@],
            ),
            !r.moved ==> final(self)@ == old(self)@,
    {
        let from = self.key_of(old_path);
        let to = self.key_of(new_path);
        match self.find(&from) {
            Some(i) => {
                let mut e = self.remove_at(i);
                e.path = to.clone();
                self.put(e);
                Rekey { from, to, moved: true }
            },
            None => Rekey { from, to, moved: false },
        }
    }

    /// The keys of the watched paths, each once.
    pub fn watched_paths(&self) -> (r: Vec<String>)
        requires
            self.wf(),
        ensures
            forall|i: int| 0 <= i < r@.len() ==> self@.contains_key(#[trigger] r@[i]@),
            forall|p: Seq<char>| self@.contains_key(p) ==> exists|i: int|
                0 <= i < r@.len() && #[trigger] r@[i]@ == p,
            forall|i: int, j: int| 0 <= i < r@.len() && 0 <= j < r@.len() && i != j
                ==> r@[i]@ != r@[j]@,
    {
        let mut r: Vec<String> = Vec::new();
        let mut i: usize = 0;
        while i < self.entries.len()
            invariant
                self.wf(),
                i <= self.entries@.len(),
                r@.len() == i,
                forall|k: int| 0 <= k < i ==> r@[k]@ == self.entries@[k].path@,
            decreases self.entries@.len() - i,
        {
            r.push(self.entries[i].path.clone());
            i = i + 1;
        }
        proof {
            assert forall|p: Seq<char>| self@.contains_key(p) implies exists|i: int|
                0 <= i < r@.len() && #[trigger] r@[i]@ == p by {
                let j = choose|j: int| 0 <= j < self.entries@.len() && self.entries@[j].path@ == p;
                assert(r@[j]@ == p);
            }
            assert forall|i: int| 0 <= i < r@.len() implies self@.contains_key(#[trigger] r@[i]@) by {
                assert(r@[i]@ == self.entries@[i].path@);
            }
        }
        r
    }

    /// Where a dispatch of `path` reads the file from: the whole file while its offset is
    /// unresolved, else from the offset on; `None` when `path` is not watched, so that a path
    /// that is not watched is never read nor delivered to.
    pub fn begin_dispatch(&self, path: &str) -> (r: Option<ReadStart>)
        requires
            self.wf(),
        ensures
            r == read_start_for(self@, path@),
    {
        let key = String::from_str(path);
        match self.find(&key) {
            Some(i) => match self.entries[i].offset {
                None => Some(ReadStart::FromStart),
                Some(o) => Some(ReadStart::At(o)),
            },
            None => None,
        }
    }

    /// The sink of `path`, when it is watched.
    pub fn sink_of(&self, path: &str) -> (r: Option<&S>)
        requires
            self.wf(),
        ensures
            r is Some == self@.contains_key(path@),
            r is Some ==> *r.unwrap() == self@[path@].0,
    {
        let key = String::from_str(path);
        match self.find(&key) {
            Some(i) => Some(&self.entries[i].sink),
            None => None,
        }
    }

    /// Ends a dispatch of `path` that read from `start`: a failed read is delivered as an error
    /// and leaves the offset alone; bytes read deliver their first complete line from the
    /// offset, without terminator, and move the offset past it (`offset_after`). A path no
    /// longer watched still gets its delivery, and nothing is stored for it.
    pub fn complete_dispatch(&mut self, path: &str, start: ReadStart, outcome: ReadOutcome) -> (r:
        Delivery)
        requires
            old(self).wf(),
            outcome is Read ==> start_offset(start) + outcome->Read_0@.len() <= u64::MAX,
        ensures
            final(self).wf(),
            final(self).base() == old(self).base(),
            final(self)@ == watched_after(old(self)@, path@, start, outcome),
            match outcome {
                ReadOutcome::OpenFailed(d) => r is Failed && r->Failed_0.kind
                    == ErrorKind::FileOpenError(d) && r->Failed_0.path@ == path@,
                ReadOutcome::SeekFailed(d) => r is Failed && r->Failed_0.kind
                    == ErrorKind::FileSeekError(d) && r->Failed_0.path@ == path@,
                ReadOutcome::Read(b) => match line_read(start, b@) {
                    Some((text, _)) => r is Line && r->Line_0@ == utf8_lossy(text),
                    None => r is Nothing,
                },
            },
    {
        let key = String::from_str(path);
        match outcome {
            ReadOutcome::OpenFailed(d) => Delivery::Failed(
                LogError { kind: ErrorKind::FileOpenError(d), path: key },
            ),
            ReadOutcome::SeekFailed(d) => Delivery::Failed(
                LogError { kind: ErrorKind::FileSeekError(d), path: key },
            ),
            ReadOutcome::Read(bytes) => {
                let begin: usize = match start {
                    ReadStart::FromStart => find_last_line(bytes.as_slice()) as usize,
                    ReadStart::At(_) => 0,
                };
                match take_line(bytes.as_slice(), begin) {
                    Some((text, n)) => {
                        let offset: u64 = match start {
                            ReadStart::FromStart => (begin + n) as u64,
                            ReadStart::At(o) => o + n as u64,
                        };
                        self.set_offset(&key, offset);
                        Delivery::Line(text_of(&text))
                    },
                    None => {
                        match start {
                            ReadStart::FromStart => self.set_offset(&key, begin as u64),
                            ReadStart::At(_) => {},
                        }
                        Delivery::Nothing
                    },
                }
            },
        }
    }
}

} // verus!
