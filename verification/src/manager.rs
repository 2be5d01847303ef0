//! Starting a service after the services it requires.
//!
//! Running a service opens its file `name.service` and reads its entries.
//! A `service.Requires` entry names, as a list, the services to run first:
//! they are run in order, one after the other, and the first that fails
//! stops the list; the entry then counts as failed. A `service.Program`
//! entry names the program to start. Once the file is read to the end the
//! service counts as running, and running it again succeeds at once. The
//! outcome is whether the file could be opened and the last `Requires`
//! entry succeeded.
//!
//! Opening files, reading entries and starting programs is the caller's
//! work: [`manager::run`] and [`manager::resume`] say what to do next, and
//! are told what came of it. The services being run form a stack, the one
//! on top being the one whose file is read.
use vstd::prelude::*;

use crate::service::QUOTE;
use crate::text::{bytes_eq, copy_bytes, join, split, split_on};

verus! {

/// `.service`, the ending of a service file's name.
pub open spec fn suffix() -> Seq<u8> {
    seq![46u8, 115u8, 101u8, 114u8, 118u8, 105u8, 99u8, 101u8]
}

/// `service.Requires`: the key of the list of services to run first.
pub open spec fn requires_key() -> Seq<u8> {
    seq![
        115u8, 101u8, 114u8, 118u8, 105u8, 99u8, 101u8, 46u8,
        82u8, 101u8, 113u8, 117u8, 105u8, 114u8, 101u8, 115u8,
    ]
}

/// `service.Program`: the key of the program to start.
pub open spec fn program_key() -> Seq<u8> {
    seq![
        115u8, 101u8, 114u8, 118u8, 105u8, 99u8, 101u8, 46u8,
        80u8, 114u8, 111u8, 103u8, 114u8, 97u8, 109u8,
    ]
}

/// The name of the file that describes the service `name`.
pub open spec fn service_file(name: Seq<u8>) -> Seq<u8> {
    name + suffix()
}

/// The services that run.
pub struct manager {
    running: Vec<Vec<u8>>,
}

impl View for manager {
    type V = Seq<Seq<u8>>;

    closed spec fn view(&self) -> Seq<Seq<u8>> {
        self.running.deep_view()
    }
}

impl Default for manager {
    fn default() -> (m: manager)
        ensures
            m@ == Seq::<Seq<u8>>::empty(),
    {
        let m = manager { running: Vec::new() };
        assert(m@ =~= Seq::<Seq<u8>>::empty());
        m
    }
}

/// One service being run: its name, whether its file is open, the outcome
/// so far, and, while the services it requires are being run, their list
/// and the position of the one being run.
pub struct Frame {
    pub name: Vec<u8>,
    pub opened: bool,
    pub ret: bool,
    pub deps: Vec<Vec<u8>>,
    pub next: usize,
}

/// The model of a [`Frame`].
pub struct FrameView {
    pub name: Seq<u8>,
    pub opened: bool,
    pub ret: bool,
    pub deps: Seq<Seq<u8>>,
    pub next: nat,
}

impl View for Frame {
    type V = FrameView;

    open spec fn view(&self) -> FrameView {
        FrameView {
            name: self.name@,
            opened: self.opened,
            ret: self.ret,
            deps: self.deps.deep_view(),
            next: self.next as nat,
        }
    }
}

/// The services being run, the one whose file is read on top.
pub struct Run {
    frames: Vec<Frame>,
}

impl View for Run {
    type V = Seq<FrameView>;

    closed spec fn view(&self) -> Seq<FrameView> {
        self.frames@.map_values(|f: Frame| f@)
    }
}

/// What came of the last thing done.
pub enum Event {
    /// The service file was opened, or could not be.
    Opened(bool),
    /// The next entry of the file, or none: the file is read to its end.
    Entry(Option<(Vec<u8>, Vec<u8>)>),
}

/// The model of an [`Event`].
pub enum EventView {
    Opened(bool),
    Entry(Option<(Seq<u8>, Seq<u8>)>),
}

impl View for Event {
    type V = EventView;

    open spec fn view(&self) -> EventView {
        match self {
            Event::Opened(b) => EventView::Opened(*b),
            Event::Entry(None) => EventView::Entry(None),
            Event::Entry(Some((k, v))) => EventView::Entry(Some((k@, v@))),
        }
    }
}

/// What to do next.
pub enum Action {
    /// Open the service file of this name, and say whether that worked.
    Open(Vec<u8>),
    /// Read the next entry of the file on top.
    NextEntry,
    /// Start the program of the service of this name, with these words,
    /// then read the next entry of the file on top.
    Launch(Vec<u8>, Vec<Vec<u8>>),
    /// The service asked for is done: whether it was started.
    Finished(bool),
}

/// The model of an [`Action`].
pub enum ActionView {
    Open(Seq<u8>),
    NextEntry,
    Launch(Seq<u8>, Seq<Seq<u8>>),
    Finished(bool),
}

impl View for Action {
    type V = ActionView;

    open spec fn view(&self) -> ActionView {
        match self {
            Action::Open(f) => ActionView::Open(f@),
            Action::NextEntry => ActionView::NextEntry,
            Action::Launch(n, args) => ActionView::Launch(n@, args.deep_view()),
            Action::Finished(b) => ActionView::Finished(*b),
        }
    }
}

/// A service about to be run: its file is not open yet.
pub open spec fn new_frame(name: Seq<u8>) -> FrameView {
    FrameView { name, opened: false, ret: false, deps: Seq::empty(), next: 0 }
}

/// The frame with its list of required services put away and the outcome
/// `ret`.
pub open spec fn with_ret(f: FrameView, ret: bool) -> FrameView {
    FrameView { name: f.name, opened: f.opened, ret, deps: Seq::empty(), next: 0 }
}

/// The frame with its position in the list moved on by one.
pub open spec fn advanced(f: FrameView) -> FrameView {
    FrameView { name: f.name, opened: f.opened, ret: f.ret, deps: f.deps, next: f.next + 1 }
}

/// Going on through the list of required services of the top frame: those
/// already running count as started; the first that is not gets run; when
/// none is left, the list has succeeded and the file is read on.
pub open spec fn settle(running: Seq<Seq<u8>>, frames: Seq<FrameView>) -> (Seq<FrameView>, ActionView)
    decreases frames.last().deps.len() - frames.last().next,
    when frames.len() > 0
{
    let top = frames.last();
    if top.next >= top.deps.len() {
        (frames.update(frames.len() - 1, with_ret(top, true)), ActionView::NextEntry)
    } else if running.contains(top.deps[top.next as int]) {
        settle(running, frames.update(frames.len() - 1, advanced(top)))
    } else {
        let dep = top.deps[top.next as int];
        (frames.push(new_frame(dep)), ActionView::Open(service_file(dep)))
    }
}

/// The top service is done with outcome `ok`: the one below it takes the
/// outcome as that of the service it required, or, where there is none, the
/// run is over.
pub open spec fn finish(running: Seq<Seq<u8>>, frames: Seq<FrameView>, ok: bool) -> (
    Seq<FrameView>,
    ActionView,
) {
    let rest = frames.drop_last();
    if rest.len() == 0 {
        (rest, ActionView::Finished(ok))
    } else if ok {
        settle(running, rest.update(rest.len() - 1, advanced(rest.last())))
    } else {
        (rest.update(rest.len() - 1, with_ret(rest.last(), false)), ActionView::NextEntry)
    }
}

/// Starting to run the service `name`.
pub open spec fn begin(running: Seq<Seq<u8>>, name: Seq<u8>) -> (Seq<FrameView>, ActionView) {
    if running.contains(name) {
        (Seq::empty(), ActionView::Finished(true))
    } else {
        (seq![new_frame(name)], ActionView::Open(service_file(name)))
    }
}

/// One step of a run: the running services, the stack and what to do next,
/// after `e`.
pub open spec fn resume(running: Seq<Seq<u8>>, frames: Seq<FrameView>, e: EventView) -> (
    Seq<Seq<u8>>,
    Seq<FrameView>,
    ActionView,
) {
    let top = frames.last();
    match e {
        EventView::Opened(false) => {
            let (f, a) = finish(running, frames, false);
            (running, f, a)
        },
        EventView::Opened(true) => {
            let opened = FrameView { name: top.name, opened: true, ret: true, deps: top.deps, next: top.next };
            (running, frames.update(frames.len() - 1, opened), ActionView::NextEntry)
        },
        EventView::Entry(None) => {
            let now = running.push(top.name);
            let (f, a) = finish(now, frames, top.ret);
            (now, f, a)
        },
        EventView::Entry(Some((k, v))) => {
            if k == requires_key() {
                let listed = FrameView {
                    name: top.name,
                    opened: top.opened,
                    ret: top.ret,
                    deps: split(v, QUOTE),
                    next: 0,
                };
                let (f, a) = settle(running, frames.update(frames.len() - 1, listed));
                (running, f, a)
            } else if k == program_key() {
                (running, frames, ActionView::Launch(top.name, split(v, QUOTE)))
            } else {
                (running, frames, ActionView::NextEntry)
            }
        },
    }
}

/// The shape of the stack between steps: every service below the top is
/// open and waits for the one above it, which is the required service its
/// list is at; the top has no list under way.
pub open spec fn wf(frames: Seq<FrameView>) -> bool {
    &&& forall|i: int|
        0 <= i < frames.len() - 1 ==> {
            &&& (#[trigger] frames[i]).opened
            &&& frames[i].next < frames[i].deps.len()
            &&& frames[i + 1].name == frames[i].deps[frames[i].next as int]
        }
    &&& frames.len() > 0 ==> frames.last().next >= frames.last().deps.len()
}

/// Whether `e` is what the top of the stack waits for: whether its file
/// opened, while it is not open, and an entry after that.
pub open spec fn expects(frames: Seq<FrameView>, e: EventView) -> bool {
    &&& frames.len() > 0
    &&& (e is Opened <==> !frames.last().opened)
}

/// What action a stack waits after: the top's file is to be opened, or an
/// entry of it read; the run is over only with the stack empty.
pub open spec fn action_fits(frames: Seq<FrameView>, a: ActionView) -> bool {
    match a {
        ActionView::Open(f) => frames.len() > 0 && !frames.last().opened && f == service_file(
            frames.last().name,
        ),
        ActionView::NextEntry => frames.len() > 0 && frames.last().opened,
        ActionView::Launch(n, _) => frames.len() > 0 && frames.last().opened && n == frames.last().name,
        ActionView::Finished(_) => frames.len() == 0,
    }
}

proof fn lemma_u8_vec_deep_view(v: Vec<u8>)
    ensures
        v.deep_view() == v@,
{
    assert(v.deep_view() =~= v@);
}

proof fn lemma_settle(running: Seq<Seq<u8>>, frames: Seq<FrameView>)
    requires
        frames.len() > 0,
        forall|i: int|
            0 <= i < frames.len() - 1 ==> {
                &&& (#[trigger] frames[i]).opened
                &&& frames[i].next < frames[i].deps.len()
                &&& frames[i + 1].name == frames[i].deps[frames[i].next as int]
            },
        frames.last().opened,
    ensures
        wf(settle(running, frames).0),
        action_fits(settle(running, frames).0, settle(running, frames).1),
        settle(running, frames).1 is Open || settle(running, frames).1 is NextEntry,
    decreases frames.last().deps.len() - frames.last().next,
{
    let top = frames.last();
    if top.next >= top.deps.len() {
    } else if running.contains(top.deps[top.next as int]) {
        lemma_settle(running, frames.update(frames.len() - 1, advanced(top)));
    } else {
        let f = settle(running, frames).0;
        assert forall|i: int| 0 <= i < f.len() - 1 implies {
            &&& (#[trigger] f[i]).opened
            &&& f[i].next < f[i].deps.len()
            &&& f[i + 1].name == f[i].deps[f[i].next as int]
        } by {
            if i == frames.len() - 1 {
                assert(f[i] == top);
            } else {
                assert(f[i] == frames[i]);
            }
        }
    }
}

/// A step keeps the shape of the stack, and what it asks to do next fits
/// the new stack.
pub proof fn resume_keeps_shape(running: Seq<Seq<u8>>, frames: Seq<FrameView>, e: EventView)
    requires
        wf(frames),
        expects(frames, e),
    ensures
        wf(resume(running, frames, e).1),
        action_fits(resume(running, frames, e).1, resume(running, frames, e).2),
{
    let top = frames.last();
    let n = frames.len();
    match e {
        EventView::Opened(ok) => {
            if ok {
                let f = resume(running, frames, e).1;
                assert forall|i: int| 0 <= i < f.len() - 1 implies {
                    &&& (#[trigger] f[i]).opened
                    &&& f[i].next < f[i].deps.len()
                    &&& f[i + 1].name == f[i].deps[f[i].next as int]
                } by {
                    assert(f[i] == frames[i]);
                    if i + 1 < n - 1 {
                        assert(f[i + 1] == frames[i + 1]);
                    }
                }
            } else {
                lemma_finish(running, frames, false);
            }
        },
        EventView::Entry(None) => {
            lemma_finish(running.push(top.name), frames, top.ret);
        },
        EventView::Entry(Some((k, v))) => {
            if k == requires_key() {
                let listed = FrameView {
                    name: top.name,
                    opened: top.opened,
                    ret: top.ret,
                    deps: split(v, QUOTE),
                    next: 0,
                };
                let g = frames.update(n - 1, listed);
                assert forall|i: int| 0 <= i < g.len() - 1 implies {
                    &&& (#[trigger] g[i]).opened
                    &&& g[i].next < g[i].deps.len()
                    &&& g[i + 1].name == g[i].deps[g[i].next as int]
                } by {
                    assert(g[i] == frames[i]);
                    assert(frames[i].opened);
                }
                lemma_settle(running, g);
            }
        },
    }
}

/// A service that runs already is not started again: running it succeeds
/// at once, and nothing is opened.
pub proof fn running_service_succeeds_at_once(running: Seq<Seq<u8>>, name: Seq<u8>)
    requires
        running.contains(name),
    ensures
        begin(running, name) == (Seq::<FrameView>::empty(), ActionView::Finished(true)),
{
}

/// The running services only grow, and a service joins them exactly when its
/// file has been read to the end.
pub proof fn running_grows_at_end_of_file(running: Seq<Seq<u8>>, frames: Seq<FrameView>, e: EventView)
    requires
        expects(frames, e),
    ensures
        resume(running, frames, e).0 == (if e == EventView::Entry(None) {
            running.push(frames.last().name)
        } else {
            running
        }),
{
}

/// A service whose file cannot be opened fails, and so does the entry of
/// the service that required it, whose file is then read on.
pub proof fn failed_service_fails_requirer(running: Seq<Seq<u8>>, frames: Seq<FrameView>)
    requires
        wf(frames),
        frames.len() >= 2,
        !frames.last().opened,
    ensures
        resume(running, frames, EventView::Opened(false)) == ({
            let rest = frames.drop_last();
            (running, rest.update(rest.len() - 1, with_ret(rest.last(), false)), ActionView::NextEntry)
        }),
{
}

/// Only a service that does not run yet gets its file opened: the one now
/// on top of the stack.
pub proof fn only_stopped_services_are_opened(
    running: Seq<Seq<u8>>,
    frames: Seq<FrameView>,
    e: EventView,
)
    requires
        wf(frames),
        expects(frames, e),
    ensures
        resume(running, frames, e).2 is Open ==> ({
            let f = resume(running, frames, e).1;
            &&& f.len() > 0
            &&& resume(running, frames, e).2 == ActionView::Open(service_file(f.last().name))
            &&& !resume(running, frames, e).0.contains(f.last().name)
        }),
{
    resume_keeps_shape(running, frames, e);
    let top = frames.last();
    match e {
        EventView::Opened(ok) => {
            if !ok && frames.len() >= 2 {
                let rest = frames.drop_last();
                lemma_settle_opens_stopped(running, rest.update(rest.len() - 1, advanced(rest.last())));
            }
        },
        EventView::Entry(None) => {
            let now = running.push(top.name);
            if frames.len() >= 2 && top.ret {
                let rest = frames.drop_last();
                lemma_settle_opens_stopped(now, rest.update(rest.len() - 1, advanced(rest.last())));
            }
        },
        EventView::Entry(Some((k, v))) => {
            if k == requires_key() {
                let listed = FrameView {
                    name: top.name,
                    opened: top.opened,
                    ret: top.ret,
                    deps: split(v, QUOTE),
                    next: 0,
                };
                lemma_settle_opens_stopped(running, frames.update(frames.len() - 1, listed));
            }
        },
    }
}

/// A service whose file opens and holds no entries is started: the run
/// succeeds and the service joins the running ones.
pub proof fn service_without_entries_starts(running: Seq<Seq<u8>>, name: Seq<u8>)
    requires
        !running.contains(name),
    ensures
        ({
            let (f1, a1) = begin(running, name);
            let (r2, f2, a2) = resume(running, f1, EventView::Opened(true));
            let (r3, f3, a3) = resume(r2, f2, EventView::Entry(None));
            &&& a1 == ActionView::Open(service_file(name))
            &&& a2 == ActionView::NextEntry
            &&& a3 == ActionView::Finished(true)
            &&& r3 == running.push(name)
            &&& f3.len() == 0
        }),
{
}

/// A service whose file cannot be opened is not started: the run fails and
/// the running services stay as they were.
pub proof fn unopened_service_fails(running: Seq<Seq<u8>>, name: Seq<u8>)
    requires
        !running.contains(name),
    ensures
        ({
            let (f1, a1) = begin(running, name);
            resume(running, f1, EventView::Opened(false)) == (
                running,
                Seq::<FrameView>::empty(),
                ActionView::Finished(false),
            )
        }),
{
    let (f1, a1) = begin(running, name);
    assert(f1.drop_last() =~= Seq::<FrameView>::empty());
}

/// A `Requires` list whose services all run already succeeds at once:
/// nothing is opened and the file is read on.
pub proof fn running_requirements_succeed_at_once(
    running: Seq<Seq<u8>>,
    frames: Seq<FrameView>,
    v: Seq<u8>,
)
    requires
        expects(frames, EventView::Entry(Some((requires_key(), v)))),
        forall|i: int| 0 <= i < split(v, QUOTE).len() ==> running.contains(#[trigger] split(v, QUOTE)[i]),
    ensures
        resume(running, frames, EventView::Entry(Some((requires_key(), v)))) == (
            running,
            frames.update(frames.len() - 1, with_ret(frames.last(), true)),
            ActionView::NextEntry,
        ),
{
    let top = frames.last();
    let listed = FrameView { name: top.name, opened: top.opened, ret: top.ret, deps: split(v, QUOTE), next: 0 };
    lemma_settle_all_running(running, frames.update(frames.len() - 1, listed));
    assert(frames.update(frames.len() - 1, listed).update(frames.len() - 1, with_ret(listed, true))
        =~= frames.update(frames.len() - 1, with_ret(top, true)));
}

proof fn lemma_settle_all_running(running: Seq<Seq<u8>>, frames: Seq<FrameView>)
    requires
        frames.len() > 0,
        forall|i: int|
            frames.last().next <= i < frames.last().deps.len() ==> running.contains(
                #[trigger] frames.last().deps[i],
            ),
    ensures
        settle(running, frames) == (
            frames.update(frames.len() - 1, with_ret(frames.last(), true)),
            ActionView::NextEntry,
        ),
    decreases frames.last().deps.len() - frames.last().next,
{
    let top = frames.last();
    if top.next < top.deps.len() {
        let g = frames.update(frames.len() - 1, advanced(top));
        assert(running.contains(top.deps[top.next as int]));
        lemma_settle_all_running(running, g);
        assert(g.update(g.len() - 1, with_ret(g.last(), true)) =~= frames.update(
            frames.len() - 1,
            with_ret(top, true),
        ));
    }
}

/// A `service.Program` entry starts the program of the service on top with
/// every word of its value, in order and none dropped: the words hold no
/// `'`, and joined back with `'` they give the value.
pub proof fn program_gets_every_word(running: Seq<Seq<u8>>, frames: Seq<FrameView>, v: Seq<u8>)
    requires
        expects(frames, EventView::Entry(Some((program_key(), v)))),
    ensures
        ({
            let (r2, f2, a) = resume(running, frames, EventView::Entry(Some((program_key(), v))));
            &&& a is Launch
            &&& a->Launch_0 == frames.last().name
            &&& a->Launch_1.len() >= 1
            &&& join(a->Launch_1, QUOTE) == v
            &&& forall|i: int| 0 <= i < a->Launch_1.len() ==> !(#[trigger] a->Launch_1[i]).contains(QUOTE)
            &&& r2 == running
            &&& f2 == frames
        }),
{
    assert(program_key()[8] != requires_key()[8]);
    crate::text::join_of_split(v, QUOTE);
    crate::text::split_pieces_lack_separator(v, QUOTE);
    crate::text::lemma_split_nonempty(v, QUOTE);
}

/// Starting a service that does not run opens its file.
pub proof fn stopped_service_is_opened(running: Seq<Seq<u8>>, name: Seq<u8>)
    requires
        !running.contains(name),
    ensures
        begin(running, name) == (seq![new_frame(name)], ActionView::Open(service_file(name))),
        wf(begin(running, name).0),
{
}

pub proof fn lemma_settle_opens_stopped(running: Seq<Seq<u8>>, frames: Seq<FrameView>)
    requires
        frames.len() > 0,
    ensures
        settle(running, frames).1 is Open ==> {
            let f = settle(running, frames).0;
            &&& f.len() > 0
            &&& settle(running, frames).1 == ActionView::Open(service_file(f.last().name))
            &&& !running.contains(f.last().name)
        },
    decreases frames.last().deps.len() - frames.last().next,
{
    let top = frames.last();
    if top.next < top.deps.len() && running.contains(top.deps[top.next as int]) {
        lemma_settle_opens_stopped(running, frames.update(frames.len() - 1, advanced(top)));
    }
}

/// No name occurs twice in `s`.
pub open spec fn no_duplicates(s: Seq<Seq<u8>>) -> bool {
    forall|i: int, j: int| 0 <= i < s.len() && 0 <= j < s.len() && i != j ==> s[i] != s[j]
}

/// No name occurs twice on the stack.
pub open spec fn distinct_names(frames: Seq<FrameView>) -> bool {
    forall|i: int, j: int| 0 <= i < frames.len() && 0 <= j < frames.len() && i != j ==> frames[i].name != frames[j].name
}

/// The running services hold no name twice, and none of the services being
/// run runs already.
pub open spec fn clean(running: Seq<Seq<u8>>, frames: Seq<FrameView>) -> bool {
    &&& no_duplicates(running)
    &&& forall|i: int| 0 <= i < frames.len() ==> !running.contains(#[trigger] frames[i].name)
}

/// Where going on through a list leaves the stack: the frames below stay,
/// the top keeps its name, and a frame pushed on top names a service that
/// does not run.
proof fn lemma_settle_names(running: Seq<Seq<u8>>, frames: Seq<FrameView>)
    requires
        frames.len() > 0,
    ensures
        ({
            let f = settle(running, frames).0;
            &&& frames.len() <= f.len() <= frames.len() + 1
            &&& forall|i: int| 0 <= i < frames.len() ==> (#[trigger] f[i]).name == frames[i].name
            &&& f.len() == frames.len() + 1 ==> !running.contains(f[frames.len() as int].name)
        }),
    decreases frames.last().deps.len() - frames.last().next,
{
    let top = frames.last();
    if top.next < top.deps.len() && running.contains(top.deps[top.next as int]) {
        lemma_settle_names(running, frames.update(frames.len() - 1, advanced(top)));
    }
}

/// A step of a run keeps the running services free of repeated names and
/// only adds to their end. A service is added after the services it
/// required, and before those that required it: none of the services still
/// waiting on the stack below it runs yet. Where the step leaves no name
/// twice on the stack (a service does not require itself through others),
/// none of the services on the stack runs yet either, so that the next
/// step keeps all this too.
pub proof fn step_keeps_running_clean(running: Seq<Seq<u8>>, frames: Seq<FrameView>, e: EventView)
    requires
        wf(frames),
        expects(frames, e),
        clean(running, frames),
        distinct_names(frames),
    ensures
        ({
            let (r2, f2, a) = resume(running, frames, e);
            &&& no_duplicates(r2)
            &&& r2.len() >= running.len()
            &&& r2.take(running.len() as int) == running
            &&& (e == EventView::Entry(None) ==> {
                &&& r2 == running.push(frames.last().name)
                &&& forall|i: int| 0 <= i < frames.len() - 1 ==> !r2.contains(#[trigger] frames[i].name)
            })
            &&& distinct_names(f2) ==> clean(r2, f2)
        }),
{
    let (r2, f2, a) = resume(running, frames, e);
    let n = frames.len();
    let top = frames.last();
    assert(!running.contains(frames[n - 1].name));
    // The names of the stack below the top do not run, even with the top
    // added.
    let now = running.push(top.name);
    assert forall|i: int| 0 <= i < n - 1 implies !now.contains(#[trigger] frames[i].name) by {
        assert(!running.contains(frames[i].name));
        if now.contains(frames[i].name) {
            let j = choose|j: int| 0 <= j < now.len() && now[j] == frames[i].name;
            if j < running.len() {
                assert(running[j] == frames[i].name);
            } else {
                assert(frames[i].name == frames[n - 1].name);
            }
        }
    }
    if e == EventView::Entry(None) {
        assert forall|i: int, j: int| 0 <= i < now.len() && 0 <= j < now.len() && i != j implies now[i]
            != now[j] by {
            if i < running.len() && j < running.len() {
            } else if i < running.len() {
                assert(running.contains(running[i]));
            } else if j < running.len() {
                assert(running.contains(running[j]));
            }
        }
        assert(now.take(running.len() as int) =~= running);
    } else {
        assert(r2 == running);
        assert(running.take(running.len() as int) =~= running);
    }
    if distinct_names(f2) {
        // Each name on the new stack is an old one that does not run, or a
        // service just opened, which does not run either.
        let rest = frames.drop_last();
        match e {
            EventView::Opened(true) => {
                assert forall|i: int| 0 <= i < f2.len() implies !r2.contains(#[trigger] f2[i].name) by {
                    assert(f2[i].name == frames[i].name);
                }
            },
            EventView::Opened(false) => {
                lemma_finish_names(running, frames, false);
            },
            EventView::Entry(None) => {
                lemma_finish_names(now, frames, top.ret);
            },
            EventView::Entry(Some((k, v))) => {
                if k == requires_key() {
                    let listed = FrameView {
                        name: top.name,
                        opened: top.opened,
                        ret: top.ret,
                        deps: split(v, QUOTE),
                        next: 0,
                    };
                    let g = frames.update(n - 1, listed);
                    lemma_settle_names(running, g);
                    assert forall|i: int| 0 <= i < f2.len() implies !r2.contains(#[trigger] f2[i].name) by {
                        if i < n {
                            assert(g[i].name == frames[i].name);
                        }
                    }
                } else {
                    assert forall|i: int| 0 <= i < f2.len() implies !r2.contains(#[trigger] f2[i].name) by {
                        assert(f2[i].name == frames[i].name);
                    }
                }
            },
        }
    }
}

/// Where finishing the top service leaves the names of the stack: those
/// below it stay, and a frame pushed names a service that does not run.
proof fn lemma_finish_names(running: Seq<Seq<u8>>, frames: Seq<FrameView>, ok: bool)
    requires
        frames.len() > 0,
        forall|i: int| 0 <= i < frames.len() - 1 ==> !running.contains(#[trigger] frames[i].name),
    ensures
        forall|i: int|
            0 <= i < finish(running, frames, ok).0.len() ==> !running.contains(
                #[trigger] finish(running, frames, ok).0[i].name,
            ),
{
    let rest = frames.drop_last();
    let f = finish(running, frames, ok).0;
    if rest.len() > 0 {
        if ok {
            let g = rest.update(rest.len() - 1, advanced(rest.last()));
            lemma_settle_names(running, g);
            assert forall|i: int| 0 <= i < f.len() implies !running.contains(#[trigger] f[i].name) by {
                if i < g.len() {
                    assert(g[i].name == frames[i].name);
                    assert(!running.contains(frames[i].name));
                }
            }
        } else {
            assert forall|i: int| 0 <= i < f.len() implies !running.contains(#[trigger] f[i].name) by {
                assert(f[i].name == frames[i].name);
                assert(!running.contains(frames[i].name));
            }
        }
    }
}

/// Starting a run keeps the running services clean: the service started
/// does not run, or the run is over at once.
pub proof fn begin_keeps_running_clean(running: Seq<Seq<u8>>, name: Seq<u8>)
    requires
        no_duplicates(running),
    ensures
        clean(running, begin(running, name).0),
        distinct_names(begin(running, name).0),
{
}

/// The running services and the stack after the events `es`, one step
/// each.
pub open spec fn replay(running: Seq<Seq<u8>>, frames: Seq<FrameView>, es: Seq<EventView>) -> (
    Seq<Seq<u8>>,
    Seq<FrameView>,
)
    decreases es.len(),
{
    if es.len() == 0 {
        (running, frames)
    } else {
        let (r1, f1, _) = resume(running, frames, es[0]);
        replay(r1, f1, es.drop_first())
    }
}

/// Whether each of the events `es` is what the stack waits for, and no
/// step puts a name twice on the stack (no service requires itself through
/// others).
pub open spec fn replay_fits(running: Seq<Seq<u8>>, frames: Seq<FrameView>, es: Seq<EventView>) -> bool
    decreases es.len(),
{
    es.len() == 0 || {
        &&& expects(frames, es[0])
        &&& distinct_names(resume(running, frames, es[0]).1)
        &&& replay_fits(resume(running, frames, es[0]).0, resume(running, frames, es[0]).1, es.drop_first())
    }
}

/// Over a whole run of the service `name`, where no service requires itself
/// through others, the running services stay free of repeated names and
/// only grow at their end.
pub proof fn run_keeps_running_clean(running: Seq<Seq<u8>>, name: Seq<u8>, es: Seq<EventView>)
    requires
        no_duplicates(running),
        replay_fits(running, begin(running, name).0, es),
    ensures
        ({
            let (r, f) = replay(running, begin(running, name).0, es);
            &&& no_duplicates(r)
            &&& r.len() >= running.len()
            &&& r.take(running.len() as int) == running
        }),
{
    begin_keeps_running_clean(running, name);
    lemma_replay(running, begin(running, name).0, es);
}

proof fn lemma_replay(running: Seq<Seq<u8>>, frames: Seq<FrameView>, es: Seq<EventView>)
    requires
        wf(frames),
        clean(running, frames),
        distinct_names(frames),
        replay_fits(running, frames, es),
    ensures
        ({
            let (r, f) = replay(running, frames, es);
            &&& no_duplicates(r)
            &&& r.len() >= running.len()
            &&& r.take(running.len() as int) == running
        }),
    decreases es.len(),
{
    if es.len() == 0 {
        assert(running.take(running.len() as int) =~= running);
    } else {
        let (r1, f1, _) = resume(running, frames, es[0]);
        step_keeps_running_clean(running, frames, es[0]);
        resume_keeps_shape(running, frames, es[0]);
        lemma_replay(r1, f1, es.drop_first());
        let (r, f) = replay(running, frames, es);
        assert(r.take(r1.len() as int) == r1);
        assert(r.take(running.len() as int) =~= r1.take(running.len() as int));
    }
}

pub proof fn lemma_finish(running: Seq<Seq<u8>>, frames: Seq<FrameView>, ok: bool)
    requires
        wf(frames),
        frames.len() > 0,
    ensures
        wf(finish(running, frames, ok).0),
        action_fits(finish(running, frames, ok).0, finish(running, frames, ok).1),
{
    let rest = frames.drop_last();
    if rest.len() > 0 {
        assert forall|i: int| 0 <= i < rest.len() - 1 implies {
            &&& (#[trigger] rest[i]).opened
            &&& rest[i].next < rest[i].deps.len()
            &&& rest[i + 1].name == rest[i].deps[rest[i].next as int]
        } by {
            assert(rest[i] == frames[i]);
            assert(frames[i].opened);
        }
        assert(frames[rest.len() - 1].opened);
        if ok {
            let g = rest.update(rest.len() - 1, advanced(rest.last()));
            assert forall|i: int| 0 <= i < g.len() - 1 implies {
                &&& (#[trigger] g[i]).opened
                &&& g[i].next < g[i].deps.len()
                &&& g[i + 1].name == g[i].deps[g[i].next as int]
            } by {
                assert(g[i] == frames[i]);
                assert(frames[i].opened);
            }
            lemma_settle(running, g);
        }
    }
}

/// Whether `running` holds `name`.
fn contains_name(running: &Vec<Vec<u8>>, name: &[u8]) -> (r: bool)
    ensures
        r == running.deep_view().contains(name@),
{
    let mut i: usize = 0;
    while i < running.len()
        invariant
            i <= running.len(),
            forall|j: int| 0 <= j < i ==> running.deep_view()[j] != name@,
        decreases running.len() - i,
    {
        proof {
            lemma_u8_vec_deep_view(running@[i as int]);
        }
        if bytes_eq(running[i].as_slice(), name) {
            assert(running.deep_view()[i as int] == name@);
            return true;
        }
        i = i + 1;
    }
    false
}

/// The name of the file of the service `name`: the name and `.service`.
pub fn service_file_name(name: &[u8]) -> (f: Vec<u8>)
    ensures
        f@ == service_file(name@),
{
    let mut f = copy_bytes(name);
    f.push(46u8);
    f.push(115u8);
    f.push(101u8);
    f.push(114u8);
    f.push(118u8);
    f.push(105u8);
    f.push(99u8);
    f.push(101u8);
    assert(f@ =~= service_file(name@));
    f
}

fn is_requires_key(k: &[u8]) -> (r: bool)
    ensures
        r == (k@ == requires_key()),
{
    let key: Vec<u8> = vec![
        115u8, 101u8, 114u8, 118u8, 105u8, 99u8, 101u8, 46u8,
        82u8, 101u8, 113u8, 117u8, 105u8, 114u8, 101u8, 115u8,
    ];
    assert(key@ =~= requires_key());
    bytes_eq(k, key.as_slice())
}

fn is_program_key(k: &[u8]) -> (r: bool)
    ensures
        r == (k@ == program_key()),
{
    let key: Vec<u8> = vec![
        115u8, 101u8, 114u8, 118u8, 105u8, 99u8, 101u8, 46u8,
        80u8, 114u8, 111u8, 103u8, 114u8, 97u8, 109u8,
    ];
    assert(key@ =~= program_key());
    bytes_eq(k, key.as_slice())
}

impl Frame {
    fn fresh(name: Vec<u8>) -> (f: Frame)
        ensures
            f@ == new_frame(name@),
    {
        let f = Frame { name, opened: false, ret: false, deps: Vec::new(), next: 0 };
        assert(f.deps.deep_view() =~= Seq::<Seq<u8>>::empty());
        f
    }
}

impl Run {
    /// The model of the stack after pushing `f`.
    proof fn lemma_push(old_frames: Vec<Frame>, new_frames: Vec<Frame>, f: Frame)
        requires
            new_frames@ == old_frames@.push(f),
        ensures
            new_frames@.map_values(|g: Frame| g@) == old_frames@.map_values(|g: Frame| g@).push(f@),
    {
        assert(new_frames@.map_values(|g: Frame| g@) =~= old_frames@.map_values(|g: Frame| g@).push(
            f@,
        ));
    }

    /// The model of the stack after popping its top.
    proof fn lemma_pop(old_frames: Vec<Frame>, new_frames: Vec<Frame>, f: Frame)
        requires
            old_frames@.len() > 0,
            new_frames@ == old_frames@.drop_last(),
            f == old_frames@.last(),
        ensures
            new_frames@.map_values(|g: Frame| g@) == old_frames@.map_values(|g: Frame| g@).drop_last(),
            f@ == old_frames@.map_values(|g: Frame| g@).last(),
    {
        assert(new_frames@.map_values(|g: Frame| g@) =~= old_frames@.map_values(
            |g: Frame| g@,
        ).drop_last());
    }

    /// Whether the run is over: no service is left on the stack.
    pub fn is_done(&self) -> (r: bool)
        ensures
            r == (self@.len() == 0),
    {
        self.frames.len() == 0
    }

    /// Whether the top of the stack waits for `e`.
    pub fn expects(&self, e: &Event) -> (r: bool)
        ensures
            r == expects(self@, e@),
    {
        if self.frames.len() == 0 {
            return false;
        }
        let opened = self.frames[self.frames.len() - 1].opened;
        match e {
            Event::Opened(_) => !opened,
            Event::Entry(_) => opened,
        }
    }

    /// Goes on through the list of required services of the top frame.
    fn settle(&mut self, running: &Vec<Vec<u8>>) -> (a: Action)
        requires
            old(self)@.len() > 0,
        ensures
            (final(self)@, a@) == settle(running.deep_view(), old(self)@),
    {
        let ghost goal = settle(running.deep_view(), self@);
        let ghost start = self.frames;
        let ghost start_view = self@;
        let mut top = self.frames.pop().unwrap();
        proof {
            Run::lemma_pop(start, self.frames, top);
            assert(self@.push(top@) =~= start_view);
        }
        loop
            invariant
                settle(running.deep_view(), self@.push(top@)) == goal,
                goal == settle(running.deep_view(), old(self)@),
            decreases top.deps.len() - top.next,
        {
            let ghost below = self.frames;
            let ghost before = self@.push(top@);
            assert(before.last() == top@);
            assert(before.drop_last() =~= self@);
            if top.next >= top.deps.len() {
                top.ret = true;
                top.deps = Vec::new();
                top.next = 0;
                assert(top.deps.deep_view() =~= Seq::<Seq<u8>>::empty());
                self.frames.push(top);
                proof {
                    Run::lemma_push(below, self.frames, top);
                    assert(self@ =~= before.update(before.len() - 1, with_ret(before.last(), true)));
                }
                return Action::NextEntry;
            }
            proof {
                lemma_u8_vec_deep_view(top.deps@[top.next as int]);
            }
            if contains_name(running, top.deps[top.next].as_slice()) {
                top.next = top.next + 1;
                assert(self@.push(top@) =~= before.update(before.len() - 1, advanced(before.last())));
            } else {
                let dep = copy_bytes(top.deps[top.next].as_slice());
                let file = service_file_name(dep.as_slice());
                self.frames.push(top);
                proof {
                    Run::lemma_push(below, self.frames, top);
                }
                let ghost middle = self.frames;
                let child = Frame::fresh(dep);
                self.frames.push(child);
                proof {
                    Run::lemma_push(middle, self.frames, child);
                    assert(self@ =~= before.push(new_frame(top.deps.deep_view()[top.next as int])));
                }
                return Action::Open(file);
            }
        }
    }
}

impl manager {
    /// Starts to run the service `name`: done at once, with success, when
    /// it runs already; otherwise its file is to be opened.
    pub fn run(&self, name: &[u8]) -> (r: (Run, Action))
        ensures
            (r.0@, r.1@) == begin(self@, name@),
            wf(r.0@),
            action_fits(r.0@, r.1@),
    {
        let mut frames: Vec<Frame> = Vec::new();
        if contains_name(&self.running, name) {
            let run = Run { frames };
            assert(run@ =~= Seq::<FrameView>::empty());
            return (run, Action::Finished(true));
        }
        let file = service_file_name(name);
        let ghost empty = frames;
        let f = Frame::fresh(copy_bytes(name));
        frames.push(f);
        proof {
            Run::lemma_push(empty, frames, f);
        }
        let run = Run { frames };
        assert(run@ =~= seq![new_frame(name@)]);
        (run, Action::Open(file))
    }

    /// Takes what came of the last action of `run` and says what to do
    /// next.
    pub fn resume(&mut self, run: &mut Run, e: Event) -> (a: Action)
        requires
            wf(old(run)@),
            expects(old(run)@, e@),
        ensures
            (final(self)@, final(run)@, a@) == resume(old(self)@, old(run)@, e@),
            wf(final(run)@),
            action_fits(final(run)@, a@),
    {
        proof {
            resume_keeps_shape(self@, run@, e@);
        }
        let ghost frames0 = run@;
        let ghost running0 = self@;
        let ghost start = run.frames;
        let mut top = run.frames.pop().unwrap();
        proof {
            Run::lemma_pop(start, run.frames, top);
            assert(run@.push(top@) =~= frames0);
            assert(top.deps.deep_view().len() == top.deps.len());
        }
        match e {
            Event::Opened(true) => {
                let ghost below = run.frames;
                top.opened = true;
                top.ret = true;
                run.frames.push(top);
                proof {
                    Run::lemma_push(below, run.frames, top);
                    assert(run@ =~= frames0.update(frames0.len() - 1, FrameView {
                        name: frames0.last().name,
                        opened: true,
                        ret: true,
                        deps: frames0.last().deps,
                        next: frames0.last().next,
                    }));
                }
                Action::NextEntry
            },
            Event::Opened(false) => self.finish(run, false),
            Event::Entry(None) => {
                let ok = top.ret;
                let ghost pushed = top.name;
                self.running.push(top.name);
                proof {
                    lemma_u8_vec_deep_view(pushed);
                    assert(self@ =~= running0.push(frames0.last().name));
                }
                self.finish(run, ok)
            },
            Event::Entry(Some((k, v))) => {
                if is_requires_key(k.as_slice()) {
                    let ghost below = run.frames;
                    top.deps = split_on(v.as_slice(), QUOTE);
                    top.next = 0;
                    run.frames.push(top);
                    proof {
                        Run::lemma_push(below, run.frames, top);
                        assert(run@ =~= frames0.update(frames0.len() - 1, FrameView {
                            name: frames0.last().name,
                            opened: frames0.last().opened,
                            ret: frames0.last().ret,
                            deps: split(v@, QUOTE),
                            next: 0,
                        }));
                    }
                    run.settle(&self.running)
                } else if is_program_key(k.as_slice()) {
                    let ghost below = run.frames;
                    let name = copy_bytes(top.name.as_slice());
                    let args = split_on(v.as_slice(), QUOTE);
                    run.frames.push(top);
                    proof {
                        Run::lemma_push(below, run.frames, top);
                        assert(run@ =~= frames0);
                    }
                    Action::Launch(name, args)
                } else {
                    let ghost below = run.frames;
                    run.frames.push(top);
                    proof {
                        Run::lemma_push(below, run.frames, top);
                        assert(run@ =~= frames0);
                    }
                    Action::NextEntry
                }
            },
        }
    }

    /// The top service, already taken off the stack, is done with outcome
    /// `ok`.
    fn finish(&self, run: &mut Run, ok: bool) -> (a: Action)
        requires
            old(run)@.len() > 0 ==> old(run)@.last().next < old(run)@.last().deps.len(),
        ensures
            ({
                let frames = old(run)@;
                (final(run)@, a@) == (if frames.len() == 0 {
                    (frames, ActionView::Finished(ok))
                } else if ok {
                    settle(self@, frames.update(frames.len() - 1, advanced(frames.last())))
                } else {
                    (frames.update(frames.len() - 1, with_ret(frames.last(), false)), ActionView::NextEntry)
                })
            }),
    {
        if run.frames.len() == 0 {
            return Action::Finished(ok);
        }
        let ghost frames0 = run@;
        let ghost start = run.frames;
        let mut parent = run.frames.pop().unwrap();
        proof {
            Run::lemma_pop(start, run.frames, parent);
            assert(run@.push(parent@) =~= frames0);
            assert(parent.deps.deep_view().len() == parent.deps.len());
        }
        let ghost below = run.frames;
        if ok {
            parent.next = parent.next + 1;
            run.frames.push(parent);
            proof {
                Run::lemma_push(below, run.frames, parent);
                assert(run@ =~= frames0.update(frames0.len() - 1, advanced(frames0.last())));
            }
            run.settle(&self.running)
        } else {
            parent.ret = false;
            parent.deps = Vec::new();
            parent.next = 0;
            assert(parent.deps.deep_view() =~= Seq::<Seq<u8>>::empty());
            run.frames.push(parent);
            proof {
                Run::lemma_push(below, run.frames, parent);
                assert(run@ =~= frames0.update(frames0.len() - 1, with_ret(frames0.last(), false)));
            }
            Action::NextEntry
        }
    }
}

} // verus!
