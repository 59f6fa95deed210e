//! The file collector: it takes the alias files in, line by line, follows
//! their inclusions, and asks for what only the outside can give: the content
//! of a file, or the user's answer to a conflict.
//!
//! The collector never reads a file and never asks the user. `advance` works
//! until something is needed and says what; the caller supplies it through
//! `file_opened`, `file_missing` or `answer`, and calls `advance` again.

use crate::alias::{is_clean, lemma_parsed_is_clean, AliasView};
use crate::alias_map::{map_clean, AliasMap};
use crate::conflict::{
    cache_incoming, cache_incoming_aliases, settle_conflict, settled, Conflict, ConflictView,
    ResolutionState,
};
use crate::plan::{in_order, is_candidate, order_files};
use crate::text::{
    chars_of, holds_text, lemma_lines_hold_no_line_feed, lines_of, matches_at, occurs_at,
    split_lines, trim, trim_between, views_of,
};
use vstd::prelude::*;

verus! {

/// The directory that holds the alias files, and under which the path of an
/// inclusion is resolved.
pub const ALIAS_DIR: &'static str = "aliases";

/// The word that opens an inclusion line.
pub open spec fn inclusion_prefix() -> Seq<char> {
    seq!['#', 'i', 'n', 'c', 'l', 'u', 'd', 'e', ':']
}

/// The path of the file that a line asks to take in, if it asks for one: the
/// trimmed line begins with `#include:`, and what follows, trimmed, is
/// resolved under the directory of the alias files.
pub open spec fn included_path(line: Seq<char>) -> Option<Seq<char>> {
    let t = trim(line);
    if occurs_at(t, inclusion_prefix(), 0) {
        Some(
            ALIAS_DIR@ + seq!['/'] + trim(
                t.subrange(inclusion_prefix().len() as int, t.len() as int),
            ),
        )
    } else {
        None
    }
}

/// Reads `line` as an inclusion, and returns the path of the file that it
/// names.
pub fn included_file(line: &str) -> (r: Option<String>)
    ensures
        match r {
            Some(path) => included_path(line@) == Some(path@),
            None => included_path(line@) is None,
        },
{
    let text = chars_of(line);
    let (a, b) = trim_between(&text, 0, text.len());
    let prefix: Vec<char> = vec!['#', 'i', 'n', 'c', 'l', 'u', 'd', 'e', ':'];
    let ghost t = trim(line@);
    proof {
        assert(text@.subrange(0, text.len() as int) =~= text@);
        assert(prefix@ =~= inclusion_prefix());
    }
    if b - a < 9 {
        return None;
    }
    proof {
        assert(t.subrange(0, 9) =~= text@.subrange(a as int, a + 9));
    }
    if !matches_at(&text, &prefix, a) {
        return None;
    }
    let (pa, pb) = trim_between(&text, a + 9, b);
    proof {
        assert(t.subrange(9, t.len() as int) =~= text@.subrange(a + 9, b as int));
        reveal_strlit("/");
        assert("/"@ =~= seq!['/']);
    }
    let mut path = String::from_str(ALIAS_DIR);
    path.append("/");
    path.append(line.substring_char(pa, pb));
    Some(path)
}

/// What the collector needs from outside before it can go on.
#[derive(Debug, PartialEq, Eq)]
pub enum Request {
    /// Nothing. After `advance` this means that every file has been taken in.
    Nothing,
    /// The content of an alias file of the directory.
    ReadFile(String),
    /// The content of a file that a line asks to take in, or the news that
    /// there is no such file.
    ReadInclude(String),
    /// The user's answer to a conflict.
    Resolve(Conflict),
}

/// A `Request` as a plain value.
pub enum RequestView {
    Nothing,
    ReadFile(Seq<char>),
    ReadInclude(Seq<char>),
    Resolve(ConflictView),
}

impl View for Request {
    type V = RequestView;

    open spec fn view(&self) -> RequestView {
        match self {
            Request::Nothing => RequestView::Nothing,
            Request::ReadFile(path) => RequestView::ReadFile(path@),
            Request::ReadInclude(path) => RequestView::ReadInclude(path@),
            Request::Resolve(conflict) => RequestView::Resolve(conflict@),
        }
    }
}

impl Clone for Request {
    fn clone(&self) -> (r: Self)
        ensures
            r == *self,
    {
        match self {
            Request::Nothing => Request::Nothing,
            Request::ReadFile(path) => Request::ReadFile(path.clone()),
            Request::ReadInclude(path) => Request::ReadInclude(path.clone()),
            Request::Resolve(conflict) => Request::Resolve(conflict.clone()),
        }
    }
}

/// A file that is being taken in: its path and the lines not yet seen.
pub struct FrameView {
    pub path: Seq<char>,
    pub rest: Seq<Seq<char>>,
}

/// The state of a collection as plain values.
pub struct CollectorView {
    /// The alias files of the directory that are still to be opened, in the
    /// order in which they will be.
    pub queue: Seq<Seq<char>>,
    /// The files that are open, the innermost last: each but the first was
    /// taken in by a line of the one before it.
    pub frames: Seq<FrameView>,
    /// The aliases collected so far.
    pub aliases: Map<Seq<char>, AliasView>,
    /// The paths of the files taken in by inclusion so far, in that order.
    pub includes: Seq<Seq<char>>,
    /// The switches of the conflict engine.
    pub state: ResolutionState,
    /// What the collector waits for.
    pub waiting: RequestView,
}

impl CollectorView {
    /// Nothing is waited for and nothing is left to do.
    pub open spec fn finished(self) -> bool {
        self.waiting is Nothing && self.frames.len() == 0 && self.queue.len() == 0
    }

    /// What holds of a collection at every moment. No file has been taken in
    /// twice by inclusion, and none that has been is asked for again. The
    /// lines still to come hold no line feed. The aliases collected, and the
    /// alias that waits for the user's answer, are as the parser gives them.
    pub open spec fn inv(self) -> bool {
        &&& self.includes.no_duplicates()
        &&& self.waiting matches RequestView::ReadInclude(path) ==> !self.includes.contains(path)
        &&& map_clean(self.aliases)
        &&& forall|f: int, i: int|
            0 <= f < self.frames.len() && 0 <= i < self.frames[f].rest.len() ==> !(
            #[trigger] self.frames[f].rest[i]).contains('\n')
        &&& self.waiting matches RequestView::Resolve(c) ==> is_clean(c.name, c.incoming.value)
    }

    /// What one line of the file `path` does. An inclusion of a file that has
    /// been taken in before does nothing; one of another file makes the
    /// collector wait for that file. Any other line goes to the conflict
    /// engine, which may make the collector wait for the user.
    pub open spec fn line(self, path: Seq<char>, line: Seq<char>) -> CollectorView {
        match included_path(line) {
            Some(target) => if self.includes.contains(target) {
                self
            } else {
                CollectorView { waiting: RequestView::ReadInclude(target), ..self }
            },
            None => {
                let (aliases, conflict) = cache_incoming(self.aliases, self.state, path, line);
                CollectorView {
                    aliases,
                    waiting: match conflict {
                        Some(c) => RequestView::Resolve(c),
                        None => RequestView::Nothing,
                    },
                    ..self
                }
            },
        }
    }

    /// One step, taken while nothing is waited for. The next line of the
    /// innermost open file is taken in; a file without lines left is closed;
    /// with no file open, the next file of the queue is asked for.
    pub open spec fn step(self) -> CollectorView {
        if self.frames.len() > 0 {
            let top = self.frames.last();
            if top.rest.len() > 0 {
                let advanced = FrameView { path: top.path, rest: top.rest.drop_first() };
                CollectorView { frames: self.frames.drop_last().push(advanced), ..self }.line(
                    top.path,
                    top.rest.first(),
                )
            } else {
                CollectorView { frames: self.frames.drop_last(), ..self }
            }
        } else if self.queue.len() > 0 {
            CollectorView {
                queue: self.queue.drop_first(),
                waiting: RequestView::ReadFile(self.queue.first()),
                ..self
            }
        } else {
            self
        }
    }

    /// How many lines the innermost open file has left.
    pub open spec fn lines_left(self) -> nat {
        if self.frames.len() > 0 {
            self.frames.last().rest.len()
        } else {
            0
        }
    }

    /// Steps taken until something is waited for or nothing is left to do.
    pub open spec fn run(self) -> CollectorView
        decreases self.queue.len(), self.frames.len(), self.lines_left(),
    {
        if !(self.waiting is Nothing) || (self.frames.len() == 0 && self.queue.len() == 0) {
            self
        } else {
            self.step().run()
        }
    }

    /// The state after the content of the file that was asked for has come.
    /// The file is opened on top of the others with all its lines to go, and
    /// a file taken in by inclusion is recorded as such.
    pub open spec fn opened(self, content: Seq<char>) -> CollectorView {
        match self.waiting {
            RequestView::ReadFile(path) => CollectorView {
                frames: self.frames.push(FrameView { path, rest: split_lines(content) }),
                waiting: RequestView::Nothing,
                ..self
            },
            RequestView::ReadInclude(path) => CollectorView {
                frames: self.frames.push(FrameView { path, rest: split_lines(content) }),
                includes: self.includes.push(path),
                waiting: RequestView::Nothing,
                ..self
            },
            _ => self,
        }
    }

    /// The state after the news that the file to take in does not exist: the
    /// line that asked for it is passed over, and everything else stands.
    pub open spec fn skipped(self) -> CollectorView {
        match self.waiting {
            RequestView::ReadInclude(_) => CollectorView { waiting: RequestView::Nothing, ..self },
            _ => self,
        }
    }

    /// The state after the user's answer to the conflict that was put.
    pub open spec fn answered(self, answer: Seq<char>) -> CollectorView {
        match self.waiting {
            RequestView::Resolve(conflict) => {
                let (aliases, state) = settled(self.aliases, self.state, conflict, answer);
                CollectorView { aliases, state, waiting: RequestView::Nothing, ..self }
            },
            _ => self,
        }
    }
}

/// A step keeps `inv`: an inclusion is asked for only where the file has not
/// been taken in before.
pub proof fn lemma_step_inv(v: CollectorView)
    requires
        v.inv(),
        v.waiting is Nothing,
    ensures
        v.step().inv(),
        v.step().includes == v.includes,
        v.step().state == v.state,
{
    let w = v.step();
    if v.frames.len() > 0 {
        let top = v.frames.last();
        assert forall|f: int, i: int|
            0 <= f < w.frames.len() && 0 <= i < w.frames[f].rest.len() implies !(
        #[trigger] w.frames[f].rest[i]).contains('\n') by {
            if f < v.frames.len() - 1 {
                assert(w.frames[f].rest[i] == v.frames[f].rest[i]);
            } else {
                assert(w.frames[f].rest[i] == v.frames[f].rest[i + 1]);
            }
        }
        if top.rest.len() > 0 {
            assert(top.rest.first() == v.frames[v.frames.len() - 1].rest[0]);
            lemma_parsed_is_clean(top.rest.first());
        }
    }
}

/// Under auto-confirm the collection never asks the user: every conflict
/// between alias files goes to the later line.
pub proof fn lemma_auto_confirm_never_asks(v: CollectorView)
    requires
        v.state.auto_confirm,
        !(v.waiting is Resolve),
    ensures
        !(v.run().waiting is Resolve),
    decreases v.queue.len(), v.frames.len(), v.lines_left(),
{
    if !(v.waiting is Nothing) || (v.frames.len() == 0 && v.queue.len() == 0) {
    } else {
        lemma_auto_confirm_never_asks(v.step());
    }
}

/// A missing file costs only the line that asked for it: after the news that
/// the file does not exist, the collection stands as if the file that holds
/// the line went on without it.
pub proof fn lemma_missing_file_costs_one_line(v: CollectorView)
    requires
        v.waiting is Nothing,
        v.frames.len() > 0,
        v.frames.last().rest.len() > 0,
        included_path(v.frames.last().rest.first()) matches Some(target)
            && !v.includes.contains(target),
    ensures
        v.step().waiting == RequestView::ReadInclude(
            included_path(v.frames.last().rest.first())->0,
        ),
        v.step().skipped() == (CollectorView {
            frames: v.frames.drop_last().push(
                FrameView { path: v.frames.last().path, rest: v.frames.last().rest.drop_first() },
            ),
            ..v
        }),
{
}

/// A file is taken in by inclusion at most once: when its content has come,
/// it is on record, and however the collection goes on from there, it is not
/// asked for again.
pub proof fn lemma_taken_in_once(v: CollectorView, content: Seq<char>)
    requires
        v.inv(),
        v.waiting is ReadInclude,
    ensures
        v.opened(content).includes == v.includes.push(v.waiting->ReadInclude_0),
        v.opened(content).includes.no_duplicates(),
        v.opened(content).run().includes == v.opened(content).includes,
        v.opened(content).run().waiting != v.waiting,
{
    lemma_opened_inv(v, content);
    lemma_run_inv(v.opened(content));
    let p = v.waiting->ReadInclude_0;
    assert(v.opened(content).includes.last() == p);
}

/// The arrival of a file keeps `inv`.
pub proof fn lemma_opened_inv(v: CollectorView, content: Seq<char>)
    requires
        v.inv(),
    ensures
        v.opened(content).inv(),
{
    let w = v.opened(content);
    lemma_lines_hold_no_line_feed(content);
    if v.waiting is ReadFile || v.waiting is ReadInclude {
        assert forall|f: int, i: int|
            0 <= f < w.frames.len() && 0 <= i < w.frames[f].rest.len() implies !(
        #[trigger] w.frames[f].rest[i]).contains('\n') by {
            if f < v.frames.len() {
                assert(w.frames[f].rest[i] == v.frames[f].rest[i]);
            } else {
                assert(w.frames[f].rest[i] == split_lines(content)[i]);
            }
        }
    }
    if let RequestView::ReadInclude(path) = v.waiting {
        assert forall|a: int, b: int|
            0 <= a < w.includes.len() && 0 <= b < w.includes.len() && a != b implies w.includes[a]
            != w.includes[b] by {
            if a < v.includes.len() && b < v.includes.len() {
            } else if a < v.includes.len() {
                assert(v.includes.contains(v.includes[a]));
            } else {
                assert(v.includes.contains(v.includes[b]));
            }
        }
    }
}

/// An answer keeps `inv`.
pub proof fn lemma_answered_inv(v: CollectorView, answer: Seq<char>)
    requires
        v.inv(),
    ensures
        v.answered(answer).inv(),
{
}

/// A run keeps `inv`, and ends waiting for something or with nothing left to
/// do.
pub proof fn lemma_run_inv(v: CollectorView)
    requires
        v.inv(),
    ensures
        v.run().inv(),
        (v.run().waiting is Nothing) == v.run().finished(),
        v.run().includes == v.includes,
        v.run().state == v.state,
    decreases v.queue.len(), v.frames.len(), v.lines_left(),
{
    if !(v.waiting is Nothing) || (v.frames.len() == 0 && v.queue.len() == 0) {
    } else {
        lemma_step_inv(v);
        lemma_run_inv(v.step());
    }
}

/// An open file: its path, its lines, and how many of them have been seen.
#[derive(Debug)]
struct Frame {
    path: String,
    lines: Vec<String>,
    next: usize,
}

impl View for Frame {
    type V = FrameView;

    closed spec fn view(&self) -> FrameView {
        FrameView {
            path: self.path@,
            rest: views_of(self.lines@).subrange(self.next as int, self.lines@.len() as int),
        }
    }
}

/// A collection in progress.
#[derive(Debug)]
pub struct Collector {
    queue: Vec<String>,
    next_file: usize,
    frames: Vec<Frame>,
    aliases: AliasMap,
    includes: Vec<String>,
    state: ResolutionState,
    waiting: Request,
}

impl View for Collector {
    type V = CollectorView;

    closed spec fn view(&self) -> CollectorView {
        CollectorView {
            queue: views_of(self.queue@).subrange(self.next_file as int, self.queue@.len() as int),
            frames: self.frames@.map_values(|f: Frame| f@),
            aliases: self.aliases@,
            includes: views_of(self.includes@),
            state: self.state,
            waiting: self.waiting@,
        }
    }
}

impl Collector {
    /// What every function of the type keeps: the parts are in order, and
    /// the view satisfies `inv`.
    pub closed spec fn wf(&self) -> bool {
        &&& self.aliases.wf()
        &&& self.next_file <= self.queue@.len()
        &&& forall|i: int| 0 <= i < self.frames@.len() ==> (#[trigger] self.frames@[i]).next
            <= self.frames@[i].lines@.len()
        &&& self@.inv()
    }

    /// A collection over the alias files `paths` of the directory, with
    /// nothing collected yet. The files will be taken in by path, in the
    /// dictionary order, so that of two files that give one name different
    /// values the later path speaks last. A file that carries the name of the
    /// program itself, `program`, is left out.
    pub fn new(auto_confirm: bool, program: &str, paths: &Vec<String>) -> (r: Collector)
        ensures
            r.wf(),
            in_order(r@.queue),
            r@.queue.to_multiset() == views_of(paths@).filter(is_candidate(program@)).to_multiset(),
            r@ == (CollectorView {
                queue: r@.queue,
                frames: Seq::empty(),
                aliases: Map::empty(),
                includes: Seq::empty(),
                state: ResolutionState {
                    ignore_future_conflicts: false,
                    accept_all_new: false,
                    auto_confirm,
                },
                waiting: RequestView::Nothing,
            }),
    {
        let files = order_files(program, paths);
        let r = Collector {
            queue: files,
            next_file: 0,
            frames: Vec::new(),
            aliases: AliasMap::new(),
            includes: Vec::new(),
            state: ResolutionState::new(auto_confirm),
            waiting: Request::Nothing,
        };
        proof {
            assert(r@.queue =~= views_of(files@));
            assert(r@.frames =~= Seq::empty());
            assert(r@.includes =~= Seq::empty());
        }
        r
    }

    /// Works until something is needed from outside, and returns what it is.
    /// `Request::Nothing` is returned when every file has been taken in.
    pub fn advance(&mut self) -> (r: Request)
        requires
            old(self).wf(),
        ensures
            final(self).wf(),
            final(self)@ == old(self)@.run(),
            final(self)@.inv(),
            r@ == final(self)@.waiting,
            (r is Nothing) == final(self)@.finished(),
    {
        let ghost start = self@;
        proof {
            lemma_run_inv(start);
        }
        loop
            invariant
                self.wf(),
                self@.run() == start.run(),
            ensures
                self.wf(),
                self@ == start.run(),
            decreases self@.queue.len(), self@.frames.len(), self@.lines_left(),
        {
            let ghost before = self@;
            match self.waiting {
                Request::Nothing => {},
                _ => {
                    break ;
                },
            }
            if self.frames.len() > 0 {
                let top = self.frames.pop().unwrap();
                assert(top@ == before.frames.last());
                assert(self.frames@.map_values(|f: Frame| f@) =~= before.frames.drop_last());
                if top.next < top.lines.len() {
                    let line = top.lines[top.next].as_str();
                    assert(line@ == top@.rest.first());
                    match included_file(line) {
                        Some(target) => {
                            if !holds_text(&self.includes, target.as_str()) {
                                self.waiting = Request::ReadInclude(target);
                            }
                        },
                        None => {
                            match cache_incoming_aliases(
                                top.path.as_str(),
                                &mut self.aliases,
                                line,
                                &self.state,
                            ) {
                                Some(conflict) => {
                                    self.waiting = Request::Resolve(conflict);
                                },
                                None => {},
                            }
                        },
                    }
                    let advanced = Frame { path: top.path, lines: top.lines, next: top.next + 1 };
                    assert(advanced@.rest =~= top@.rest.drop_first());
                    self.frames.push(advanced);
                    assert(self.frames@.map_values(|f: Frame| f@) =~= before.frames.drop_last().push(
                        advanced@,
                    ));
                }
            } else if self.next_file < self.queue.len() {
                self.waiting = Request::ReadFile(self.queue[self.next_file].clone());
                self.next_file = self.next_file + 1;
                assert(self@.queue =~= before.queue.drop_first());
            } else {
                break ;
            }
            proof {
                assert(self@ == before.step());
                lemma_step_inv(before);
            }
        }
        self.waiting.clone()
    }

    /// Supplies the content of the file that was asked for. Returns whether a
    /// file was asked for; if none was, nothing changes.
    pub fn file_opened(&mut self, content: &str) -> (accepted: bool)
        requires
            old(self).wf(),
        ensures
            final(self).wf(),
            final(self)@.inv(),
            final(self)@ == old(self)@.opened(content@),
            accepted == (old(self)@.waiting is ReadFile || old(self)@.waiting is ReadInclude),
    {
        let ghost before = self@;
        proof {
            lemma_opened_inv(before, content@);
        }
        let mut waiting = Request::Nothing;
        std::mem::swap(&mut self.waiting, &mut waiting);
        match waiting {
            Request::ReadFile(path) => {
                self.frames.push(Frame { path, lines: lines_of(content), next: 0 });
                proof {
                    let frame = self.frames@.last();
                    assert(frame@.rest =~= split_lines(content@));
                    assert(self.frames@.map_values(|f: Frame| f@) =~= before.frames.push(frame@));
                }
                true
            },
            Request::ReadInclude(path) => {
                self.includes.push(path.clone());
                self.frames.push(Frame { path, lines: lines_of(content), next: 0 });
                proof {
                    let frame = self.frames@.last();
                    assert(frame@.rest =~= split_lines(content@));
                    assert(self.frames@.map_values(|f: Frame| f@) =~= before.frames.push(frame@));
                    assert(views_of(self.includes@) =~= before.includes.push(path@));
                }
                true
            },
            other => {
                self.waiting = other;
                false
            },
        }
    }

    /// Reports that the file to take in does not exist. The line that asked
    /// for it is passed over, and the rest of the file that holds the line is
    /// still to come. Returns whether a file to take in was asked for; if
    /// none was, nothing changes.
    pub fn file_missing(&mut self) -> (accepted: bool)
        requires
            old(self).wf(),
        ensures
            final(self).wf(),
            final(self)@.inv(),
            final(self)@ == old(self)@.skipped(),
            accepted == (old(self)@.waiting is ReadInclude),
    {
        match self.waiting {
            Request::ReadInclude(_) => {
                self.waiting = Request::Nothing;
                true
            },
            _ => false,
        }
    }

    /// Supplies the user's answer to the conflict that was put. Returns
    /// whether a conflict was put; if none was, nothing changes.
    pub fn answer(&mut self, answer: &str) -> (accepted: bool)
        requires
            old(self).wf(),
        ensures
            final(self).wf(),
            final(self)@.inv(),
            final(self)@ == old(self)@.answered(answer@),
            accepted == (old(self)@.waiting is Resolve),
    {
        proof {
            lemma_answered_inv(self@, answer@);
        }
        let mut waiting = Request::Nothing;
        std::mem::swap(&mut self.waiting, &mut waiting);
        match waiting {
            Request::Resolve(conflict) => {
                settle_conflict(&mut self.aliases, &mut self.state, &conflict, answer);
                true
            },
            other => {
                self.waiting = other;
                false
            },
        }
    }

    /// The aliases collected so far.
    pub fn aliases(&self) -> (r: &AliasMap)
        requires
            self.wf(),
        ensures
            r.wf(),
            r@ == self@.aliases,
            map_clean(r@),
    {
        &self.aliases
    }

    /// The switches of the conflict engine as they stand.
    pub fn state(&self) -> (r: ResolutionState)
        ensures
            r == self@.state,
    {
        self.state
    }

    /// Ends the collection and hands out what was collected.
    pub fn finish(self) -> (r: AliasMap)
        requires
            self.wf(),
        ensures
            r.wf(),
            r@ == self@.aliases,
            map_clean(r@),
    {
        self.aliases
    }
}

} // verus!
