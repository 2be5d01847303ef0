//! What a whole run gives, stated against running a service recursively.
//!
//! Given the entries of each service file (a service without a file is
//! missing from the map), running a service recursively goes: a service
//! that runs already succeeds at once; one without a file fails; otherwise
//! its entries are gone through in order, each `service.Requires` entry
//! running the services it lists, in order, until one fails, and setting
//! the outcome to whether all succeeded; at the end the service joins the
//! running ones. The run of [`crate::manager::manager`], driven by the
//! same files, ends with the running services and the outcome that this
//! recursion gives.
use vstd::prelude::*;

use crate::manager::{
    lemma_finish, advanced, begin, expects, finish, lemma_settle_opens_stopped, new_frame, requires_key,
    resume, resume_keeps_shape, settle, wf, with_ret, ActionView, EventView, FrameView,
};
use crate::service::QUOTE;
use crate::text::split;

verus! {

/// Running the service `name` recursively, with at most `fuel` nested runs
/// of services that have files (none where that is not enough).
pub open spec fn run_spec(
    files: Map<Seq<u8>, Seq<(Seq<u8>, Seq<u8>)>>,
    running: Seq<Seq<u8>>,
    name: Seq<u8>,
    fuel: nat,
) -> Option<(Seq<Seq<u8>>, bool)>
    decreases fuel, 0nat, 0nat,
{
    if running.contains(name) {
        Some((running, true))
    } else if !files.dom().contains(name) {
        Some((running, false))
    } else if fuel == 0 {
        None
    } else {
        match entries_spec(files, running, name, files[name], true, (fuel - 1) as nat) {
            Some((r, ok)) => Some((r.push(name), ok)),
            None => None,
        }
    }
}

/// Going through the entries `es` of the service `name`, the outcome so
/// far being `ret`.
pub open spec fn entries_spec(
    files: Map<Seq<u8>, Seq<(Seq<u8>, Seq<u8>)>>,
    running: Seq<Seq<u8>>,
    name: Seq<u8>,
    es: Seq<(Seq<u8>, Seq<u8>)>,
    ret: bool,
    fuel: nat,
) -> Option<(Seq<Seq<u8>>, bool)>
    decreases fuel, 2nat, es.len(),
{
    if es.len() == 0 {
        Some((running, ret))
    } else if es[0].0 == requires_key() {
        match all_spec(files, running, split(es[0].1, QUOTE), fuel) {
            Some((r, ok)) => entries_spec(files, r, name, es.drop_first(), ok, fuel),
            None => None,
        }
    } else {
        entries_spec(files, running, name, es.drop_first(), ret, fuel)
    }
}

/// Running the services `deps` in order until one fails: whether all
/// succeeded.
pub open spec fn all_spec(
    files: Map<Seq<u8>, Seq<(Seq<u8>, Seq<u8>)>>,
    running: Seq<Seq<u8>>,
    deps: Seq<Seq<u8>>,
    fuel: nat,
) -> Option<(Seq<Seq<u8>>, bool)>
    decreases fuel, 1nat, deps.len(),
{
    if deps.len() == 0 {
        Some((running, true))
    } else {
        match run_spec(files, running, deps[0], fuel) {
            Some((r, true)) => all_spec(files, r, deps.drop_first(), fuel),
            Some((r, false)) => Some((r, false)),
            None => None,
        }
    }
}

/// Going on with the list `rest` after one of its services ran with
/// outcome `x`.
pub open spec fn all_step(
    files: Map<Seq<u8>, Seq<(Seq<u8>, Seq<u8>)>>,
    x: Option<(Seq<Seq<u8>>, bool)>,
    rest: Seq<Seq<u8>>,
    fuel: nat,
) -> Option<(Seq<Seq<u8>>, bool)> {
    match x {
        Some((r, true)) => all_spec(files, r, rest, fuel),
        Some((r, false)) => Some((r, false)),
        None => None,
    }
}

/// The outcome of the run, once the service above `frames` is done with
/// outcome `ok`: each service below takes it as that of the service it
/// required, goes on with its list and its entries, and is done in turn.
pub open spec fn unwind(
    files: Map<Seq<u8>, Seq<(Seq<u8>, Seq<u8>)>>,
    running: Seq<Seq<u8>>,
    ok: bool,
    frames: Seq<FrameView>,
    positions: Seq<nat>,
    fuel: nat,
) -> Option<(Seq<Seq<u8>>, bool)>
    decreases frames.len(),
{
    if frames.len() == 0 {
        Some((running, ok))
    } else {
        let b = frames.last();
        let p = positions[frames.len() - 1];
        let a = if ok {
            all_spec(files, running, b.deps.skip(b.next + 1int), fuel)
        } else {
            Some((running, false))
        };
        match a {
            Some((r2, ok2)) => match entries_spec(files, r2, b.name, files[b.name].skip(p as int), ok2, fuel) {
                Some((r3, ok3)) => unwind(files, r3.push(b.name), ok3, frames.drop_last(), positions.drop_last(), fuel),
                None => None,
            },
            None => None,
        }
    }
}

/// What is left of the run, as the recursion would finish it, from a stack
/// whose files have been read up to `positions`.
pub open spec fn outcome_of(
    files: Map<Seq<u8>, Seq<(Seq<u8>, Seq<u8>)>>,
    running: Seq<Seq<u8>>,
    frames: Seq<FrameView>,
    positions: Seq<nat>,
    fuel: nat,
) -> Option<(Seq<Seq<u8>>, bool)> {
    let t = frames.last();
    let p = positions.last();
    let top = if !t.opened {
        run_spec(files, running, t.name, fuel)
    } else {
        match entries_spec(files, running, t.name, files[t.name].skip(p as int), t.ret, fuel) {
            Some((r, ok)) => Some((r.push(t.name), ok)),
            None => None,
        }
    };
    match top {
        Some((r, ok)) => unwind(files, r, ok, frames.drop_last(), positions.drop_last(), fuel),
        None => None,
    }
}

/// What the files answer to the top of the stack: whether its file opens,
/// or its next entry.
pub open spec fn env_event(
    files: Map<Seq<u8>, Seq<(Seq<u8>, Seq<u8>)>>,
    frames: Seq<FrameView>,
    positions: Seq<nat>,
) -> EventView {
    let t = frames.last();
    if !t.opened {
        EventView::Opened(files.dom().contains(t.name))
    } else {
        let es = files[t.name];
        let p = positions.last();
        if p < es.len() {
            EventView::Entry(Some(es[p as int]))
        } else {
            EventView::Entry(None)
        }
    }
}

/// How far each file on the new stack has been read.
pub open spec fn next_positions(positions: Seq<nat>, e: EventView, new_len: nat) -> Seq<nat> {
    let q = match e {
        EventView::Entry(Some(_)) => positions.update(positions.len() - 1, positions.last() + 1),
        EventView::Opened(true) => positions,
        _ => positions.drop_last(),
    };
    if new_len > q.len() {
        q.push(0)
    } else {
        q
    }
}

/// One step of a run driven by the files.
pub open spec fn closed_step(
    files: Map<Seq<u8>, Seq<(Seq<u8>, Seq<u8>)>>,
    running: Seq<Seq<u8>>,
    frames: Seq<FrameView>,
    positions: Seq<nat>,
) -> (Seq<Seq<u8>>, Seq<FrameView>, Seq<nat>, ActionView) {
    let e = env_event(files, frames, positions);
    let (r2, f2, a) = resume(running, frames, e);
    (r2, f2, next_positions(positions, e, f2.len()), a)
}

/// The run driven by the files, for at most `steps` steps: the running
/// services and the outcome, where it is over by then.
pub open spec fn closed_run(
    files: Map<Seq<u8>, Seq<(Seq<u8>, Seq<u8>)>>,
    running: Seq<Seq<u8>>,
    frames: Seq<FrameView>,
    positions: Seq<nat>,
    a: ActionView,
    steps: nat,
) -> Option<(Seq<Seq<u8>>, bool)>
    decreases steps,
{
    match a {
        ActionView::Finished(b) => Some((running, b)),
        _ => if steps == 0 {
            None
        } else {
            let (r2, f2, p2, a2) = closed_step(files, running, frames, positions);
            closed_run(files, r2, f2, p2, a2, (steps - 1) as nat)
        },
    }
}

/// The run of the service `name` driven by the files, for at most `steps`
/// steps.
pub open spec fn start_run(
    files: Map<Seq<u8>, Seq<(Seq<u8>, Seq<u8>)>>,
    running: Seq<Seq<u8>>,
    name: Seq<u8>,
    steps: nat,
) -> Option<(Seq<Seq<u8>>, bool)> {
    let (f, a) = begin(running, name);
    closed_run(files, running, f, Seq::new(f.len(), |i: int| 0nat), a, steps)
}

/// The shape of a stack between steps of a run driven by the files.
pub open spec fn closed_inv(
    files: Map<Seq<u8>, Seq<(Seq<u8>, Seq<u8>)>>,
    running: Seq<Seq<u8>>,
    frames: Seq<FrameView>,
    positions: Seq<nat>,
) -> bool {
    &&& wf(frames)
    &&& frames.len() > 0
    &&& positions.len() == frames.len()
    &&& forall|i: int|
        0 <= i < frames.len() && (#[trigger] frames[i]).opened ==> files.dom().contains(frames[i].name)
            && positions[i] <= files[frames[i].name].len()
    &&& !frames.last().opened ==> !running.contains(frames.last().name) && positions.last() == 0
}

/// A run with more fuel gives the same outcome.
proof fn lemma_run_mono(
    files: Map<Seq<u8>, Seq<(Seq<u8>, Seq<u8>)>>,
    running: Seq<Seq<u8>>,
    name: Seq<u8>,
    fuel: nat,
)
    ensures
        run_spec(files, running, name, fuel) is Some ==> run_spec(files, running, name, fuel + 1)
            == run_spec(files, running, name, fuel),
    decreases fuel, 0nat, 0nat,
{
    if !running.contains(name) && files.dom().contains(name) && fuel > 0 {
        lemma_entries_mono(files, running, name, files[name], true, (fuel - 1) as nat);
    }
}

proof fn lemma_entries_mono(
    files: Map<Seq<u8>, Seq<(Seq<u8>, Seq<u8>)>>,
    running: Seq<Seq<u8>>,
    name: Seq<u8>,
    es: Seq<(Seq<u8>, Seq<u8>)>,
    ret: bool,
    fuel: nat,
)
    ensures
        entries_spec(files, running, name, es, ret, fuel) is Some ==> entries_spec(
            files,
            running,
            name,
            es,
            ret,
            fuel + 1,
        ) == entries_spec(files, running, name, es, ret, fuel),
    decreases fuel, 2nat, es.len(),
{
    if es.len() > 0 {
        if es[0].0 == requires_key() {
            lemma_all_mono(files, running, split(es[0].1, QUOTE), fuel);
            match all_spec(files, running, split(es[0].1, QUOTE), fuel) {
                Some((r, ok)) => lemma_entries_mono(files, r, name, es.drop_first(), ok, fuel),
                None => {},
            }
        } else {
            lemma_entries_mono(files, running, name, es.drop_first(), ret, fuel);
        }
    }
}

proof fn lemma_all_mono(
    files: Map<Seq<u8>, Seq<(Seq<u8>, Seq<u8>)>>,
    running: Seq<Seq<u8>>,
    deps: Seq<Seq<u8>>,
    fuel: nat,
)
    ensures
        all_spec(files, running, deps, fuel) is Some ==> all_spec(files, running, deps, fuel + 1) == all_spec(
            files,
            running,
            deps,
            fuel,
        ),
    decreases fuel, 1nat, deps.len(),
{
    if deps.len() > 0 {
        lemma_run_mono(files, running, deps[0], fuel);
        match run_spec(files, running, deps[0], fuel) {
            Some((r, true)) => lemma_all_mono(files, r, deps.drop_first(), fuel),
            _ => {},
        }
    }
}

/// Going on through the list of the top frame is running what is left of
/// the list: the services that run already count as started, and the
/// first that does not is the one pushed.
proof fn lemma_settle_all(
    files: Map<Seq<u8>, Seq<(Seq<u8>, Seq<u8>)>>,
    running: Seq<Seq<u8>>,
    frames: Seq<FrameView>,
    fuel: nat,
)
    requires
        frames.len() > 0,
        frames.last().next <= frames.last().deps.len(),
    ensures
        ({
            let (f2, a) = settle(running, frames);
            let t = frames.last();
            let n = frames.len();
            &&& a is NextEntry ==> f2 == frames.update(n - 1, with_ret(t, true)) && all_spec(
                files,
                running,
                t.deps.skip(t.next as int),
                fuel,
            ) == Some((running, true))
            &&& a is Open ==> {
                let b = f2[n - 1];
                &&& f2.len() == n + 1
                &&& f2.take(n - 1) == frames.take(n - 1)
                &&& b == FrameView { next: b.next, ..t }
                &&& t.next <= b.next < t.deps.len()
                &&& f2.last() == new_frame(t.deps[b.next as int])
                &&& all_spec(files, running, t.deps.skip(t.next as int), fuel) == all_step(
                    files,
                    run_spec(files, running, t.deps[b.next as int], fuel),
                    t.deps.skip(b.next + 1int),
                    fuel,
                )
            }
            &&& a is NextEntry || a is Open
        }),
    decreases frames.last().deps.len() - frames.last().next,
{
    let t = frames.last();
    let n = frames.len();
    let rest = t.deps.skip(t.next as int);
    if t.next >= t.deps.len() {
        assert(rest =~= Seq::<Seq<u8>>::empty());
    } else {
        assert(rest[0] == t.deps[t.next as int]);
        assert(rest.drop_first() =~= t.deps.skip(t.next + 1int));
        if running.contains(t.deps[t.next as int]) {
            let g = frames.update(n - 1, advanced(t));
            lemma_settle_all(files, running, g, fuel);
            assert(g.last() == advanced(t));
            assert(g.update(n - 1, with_ret(g.last(), true)) =~= frames.update(n - 1, with_ret(t, true)));
            let (f2, a) = settle(running, frames);
            if a is Open {
                assert(f2.take(n - 1) =~= g.take(n - 1));
                assert(g.take(n - 1) =~= frames.take(n - 1));
            }
        } else {
            let (f2, a) = settle(running, frames);
            assert(f2[n - 1] == t);
            assert(f2.take(n - 1) =~= frames.take(n - 1));
        }
    }
}



/// The top service is done with outcome `ok`, the running services being
/// `r`: the step that pops it keeps what is left of the run.
proof fn lemma_top_done(
    files: Map<Seq<u8>, Seq<(Seq<u8>, Seq<u8>)>>,
    r: Seq<Seq<u8>>,
    frames: Seq<FrameView>,
    positions: Seq<nat>,
    ok: bool,
    fuel: nat,
    x: (Seq<Seq<u8>>, bool),
)
    requires
        closed_inv(files, r, frames, positions) || (closed_inv(files, r.drop_last(), frames, positions)
            && r == r.drop_last().push(frames.last().name)),
        unwind(files, r, ok, frames.drop_last(), positions.drop_last(), fuel) == Some(x),
    ensures
        ({
            let (f2, a2) = finish(r, frames, ok);
            let q = positions.drop_last();
            let p2 = if f2.len() > q.len() { q.push(0nat) } else { q };
            match a2 {
                ActionView::Finished(b) => (r, b) == x,
                _ => closed_inv(files, r, f2, p2) && outcome_of(files, r, f2, p2, fuel) == Some(x),
            }
        }),
{
    let n = frames.len();
    let below = frames.drop_last();
    let pb = positions.drop_last();
    let m = below.len();
    lemma_finish(r, frames, ok);
    let (f2, a2) = finish(r, frames, ok);
    if m > 0 {
        let b = below.last();
        assert(b == frames[n - 2]);
        assert(b.opened && b.next < b.deps.len());
        let pbl = pb.last();
        assert(pbl == positions[n - 2]);
        assert(files.dom().contains(b.name) && pbl <= files[b.name].len());
        assert forall|i: int| 0 <= i < m && (#[trigger] below[i]).opened implies files.dom().contains(
            below[i].name,
        ) && pb[i] <= files[below[i].name].len() by {
            assert(below[i] == frames[i]);
        }
        if !ok {
            assert(f2.drop_last() =~= below.drop_last());
            assert(f2.last() == with_ret(b, false));
            assert forall|i: int| 0 <= i < f2.len() && (#[trigger] f2[i]).opened implies files.dom().contains(
                f2[i].name,
            ) && pb[i] <= files[f2[i].name].len() by {
                assert(f2[i].name == below[i].name);
            }
        } else {
            let g = below.update(m - 1, advanced(b));
            lemma_settle_all(files, r, g, fuel);
            lemma_settle_opens_stopped(r, g);
            assert(g.last() == advanced(b));
            assert(advanced(b).deps.skip(advanced(b).next as int) == b.deps.skip(b.next + 1int));
            if a2 is NextEntry {
                assert(f2.drop_last() =~= below.drop_last());
                assert forall|i: int| 0 <= i < f2.len() && (#[trigger] f2[i]).opened implies files.dom().contains(
                    f2[i].name,
                ) && pb[i] <= files[f2[i].name].len() by {
                    assert(f2[i].name == below[i].name);
                }
            } else {
                let p2 = pb.push(0nat);
                let bb = f2[m - 1];
                let d = b.deps[bb.next as int];
                assert(f2.drop_last().drop_last() =~= below.drop_last()) by {
                    assert(f2.take(m - 1) == g.take(m - 1));
                    assert(f2.drop_last().drop_last() =~= f2.take(m - 1));
                    assert(g.take(m - 1) =~= below.drop_last());
                }
                assert(f2.drop_last().last() == bb);
                assert(p2.drop_last() =~= pb);
                assert(p2.last() == 0);
                assert forall|i: int| 0 <= i < f2.len() && (#[trigger] f2[i]).opened implies files.dom().contains(
                    f2[i].name,
                ) && p2[i] <= files[f2[i].name].len() by {
                    if i < m - 1 {
                        assert(f2.take(m - 1)[i] == g.take(m - 1)[i]);
                        assert(f2[i] == below[i]);
                    } else if i == m - 1 {
                        assert(f2[i].name == b.name);
                    }
                }
                match run_spec(files, r, d, fuel) {
                    Some((r1, ok1)) => {
                        assert(outcome_of(files, r, f2, p2, fuel) == unwind(
                            files,
                            r1,
                            ok1,
                            f2.drop_last(),
                            pb,
                            fuel,
                        ));
                    },
                    None => {},
                }
            }
        }
    }
}

/// The top service takes its next entry: the step keeps what is left of the
/// run.
proof fn lemma_entry_step(
    files: Map<Seq<u8>, Seq<(Seq<u8>, Seq<u8>)>>,
    running: Seq<Seq<u8>>,
    frames: Seq<FrameView>,
    positions: Seq<nat>,
    fuel: nat,
    x: (Seq<Seq<u8>>, bool),
)
    requires
        closed_inv(files, running, frames, positions),
        frames.last().opened,
        positions.last() < files[frames.last().name].len(),
        outcome_of(files, running, frames, positions, fuel) == Some(x),
    ensures
        ({
            let (r2, f2, p2, a2) = closed_step(files, running, frames, positions);
            !(a2 is Finished) && closed_inv(files, r2, f2, p2) && outcome_of(files, r2, f2, p2, fuel) == Some(x)
        }),
{
    let n = frames.len();
    let t = frames.last();
    let p = positions.last();
    let es = files[t.name];
    let below = frames.drop_last();
    let pb = positions.drop_last();
    let (k, v) = es[p as int];
    let e = env_event(files, frames, positions);
    assert(e == EventView::Entry(Some((k, v))));
    resume_keeps_shape(running, frames, e);
    let (r2, f2, p2, a2) = closed_step(files, running, frames, positions);
    let q = positions.update(n - 1, p + 1);
    assert(es.skip(p as int)[0] == (k, v));
    assert(es.skip(p as int).drop_first() =~= es.skip(p + 1int));
    assert(q.drop_last() =~= pb);
    assert(q.last() == p + 1);
    assert forall|i: int| 0 <= i < n && (#[trigger] frames[i]).opened implies files.dom().contains(
        frames[i].name,
    ) && q[i] <= files[frames[i].name].len() by {
        if i == n - 1 {
            assert(frames[i] == t);
        }
    }
    if k == requires_key() {
        let listed = FrameView { name: t.name, opened: t.opened, ret: t.ret, deps: split(v, QUOTE), next: 0 };
        let g = frames.update(n - 1, listed);
        lemma_settle_all(files, running, g, fuel);
        lemma_settle_opens_stopped(running, g);
        assert(g.last() == listed);
        assert(listed.deps.skip(0) =~= split(v, QUOTE));
        if a2 is NextEntry {
            assert(p2 == q);
            assert(f2.drop_last() =~= below);
            assert forall|i: int| 0 <= i < f2.len() && (#[trigger] f2[i]).opened implies files.dom().contains(
                f2[i].name,
            ) && p2[i] <= files[f2[i].name].len() by {
                assert(f2[i].name == frames[i].name);
                assert(frames[i].opened);
            }
        } else {
            assert(p2 == q.push(0nat));
            let bb = f2[n - 1];
            let d = listed.deps[bb.next as int];
            assert(f2.drop_last().drop_last() =~= below) by {
                assert(f2.take(n - 1) == g.take(n - 1));
                assert(f2.drop_last().drop_last() =~= f2.take(n - 1));
                assert(g.take(n - 1) =~= below);
            }
            assert(f2.drop_last().last() == bb);
            assert(p2.drop_last() =~= q);
            assert forall|i: int| 0 <= i < f2.len() && (#[trigger] f2[i]).opened implies files.dom().contains(
                f2[i].name,
            ) && p2[i] <= files[f2[i].name].len() by {
                if i < n - 1 {
                    assert(f2.take(n - 1)[i] == g.take(n - 1)[i]);
                    assert(f2[i] == frames[i]);
                } else if i == n - 1 {
                    assert(f2[i].name == t.name);
                }
            }
            match run_spec(files, running, d, fuel) {
                Some((r1, ok1)) => {
                    assert(outcome_of(files, r2, f2, p2, fuel) == unwind(files, r1, ok1, f2.drop_last(), q, fuel));
                },
                None => {},
            }
        }
    } else {
        assert(f2 == frames);
        assert(p2 == q);
    }
}

/// The run of the service `name` driven by the files `files`, where it is
/// over within `steps` steps, ends with the running services and the
/// outcome that running it recursively gives, where that ends within
/// `fuel` nested runs.
pub proof fn run_matches_recursion(
    files: Map<Seq<u8>, Seq<(Seq<u8>, Seq<u8>)>>,
    running: Seq<Seq<u8>>,
    name: Seq<u8>,
    steps: nat,
    fuel: nat,
)
    requires
        start_run(files, running, name, steps) is Some,
        run_spec(files, running, name, fuel) is Some,
    ensures
        start_run(files, running, name, steps) == run_spec(files, running, name, fuel),
{
    if !running.contains(name) {
        let (f, a) = begin(running, name);
        let ps = Seq::new(f.len(), |i: int| 0nat);
        assert(f.drop_last() =~= Seq::<FrameView>::empty());
        assert(ps.drop_last() =~= Seq::<nat>::empty());
        assert(outcome_of(files, running, f, ps, fuel) == run_spec(files, running, name, fuel));
        lemma_closed_run(files, running, f, ps, a, steps, fuel, run_spec(files, running, name, fuel).unwrap());
    }
}

proof fn lemma_closed_run(
    files: Map<Seq<u8>, Seq<(Seq<u8>, Seq<u8>)>>,
    running: Seq<Seq<u8>>,
    frames: Seq<FrameView>,
    positions: Seq<nat>,
    a: ActionView,
    steps: nat,
    fuel: nat,
    x: (Seq<Seq<u8>>, bool),
)
    requires
        closed_inv(files, running, frames, positions),
        !(a is Finished),
        outcome_of(files, running, frames, positions, fuel) == Some(x),
        closed_run(files, running, frames, positions, a, steps) is Some,
    ensures
        closed_run(files, running, frames, positions, a, steps) == Some(x),
    decreases steps,
{
    let (r2, f2, p2, a2) = closed_step(files, running, frames, positions);
    lemma_closed_step(files, running, frames, positions, fuel, x);
    if !(a2 is Finished) {
        lemma_closed_run(files, r2, f2, p2, a2, (steps - 1) as nat, fuel, x);
    }
}

/// A step of the run driven by the files keeps what is left of the run as
/// the recursion would finish it; where the run is over, it is over with
/// that outcome.
proof fn lemma_closed_step(
    files: Map<Seq<u8>, Seq<(Seq<u8>, Seq<u8>)>>,
    running: Seq<Seq<u8>>,
    frames: Seq<FrameView>,
    positions: Seq<nat>,
    fuel: nat,
    x: (Seq<Seq<u8>>, bool),
)
    requires
        closed_inv(files, running, frames, positions),
        outcome_of(files, running, frames, positions, fuel) == Some(x),
    ensures
        ({
            let (r2, f2, p2, a2) = closed_step(files, running, frames, positions);
            match a2 {
                ActionView::Finished(b) => (r2, b) == x,
                _ => closed_inv(files, r2, f2, p2) && outcome_of(files, r2, f2, p2, fuel) == Some(x),
            }
        }),
{
    let n = frames.len();
    let t = frames.last();
    let p = positions.last();
    let below = frames.drop_last();
    let pb = positions.drop_last();
    let e = env_event(files, frames, positions);
    assert(expects(frames, e));
    resume_keeps_shape(running, frames, e);
    let (r2, f2, p2, a2) = closed_step(files, running, frames, positions);
    if !t.opened {
        if !files.dom().contains(t.name) {
            // The file does not open: the service fails.
            assert(run_spec(files, running, t.name, fuel) == Some((running, false)));
            lemma_top_done(files, running, frames, positions, false, fuel, x);
        } else {
            // The file opens: its entries are gone through from the first.
            let es = files[t.name];
            assert(fuel > 0);
            let inner = entries_spec(files, running, t.name, es, true, (fuel - 1) as nat);
            lemma_entries_mono(files, running, t.name, es, true, (fuel - 1) as nat);
            assert(es.skip(0) =~= es);
            assert(p2 == positions);
            assert(f2.drop_last() =~= below);
            assert(f2.last().opened && f2.last().ret && f2.last().name == t.name);
            assert forall|i: int| 0 <= i < f2.len() && (#[trigger] f2[i]).opened implies files.dom().contains(
                f2[i].name,
            ) && p2[i] <= files[f2[i].name].len() by {
                if i < n - 1 {
                    assert(f2[i] == frames[i]);
                }
            }
        }
    } else {
        let es = files[t.name];
        assert(files.dom().contains(t.name) && p <= es.len()) by {
            assert(frames[n - 1] == t);
        }
        if p < es.len() {
            lemma_entry_step(files, running, frames, positions, fuel, x);
        } else {
            assert(es.skip(p as int) =~= Seq::<(Seq<u8>, Seq<u8>)>::empty());
            lemma_top_done(files, running.push(t.name), frames, positions, t.ret, fuel, x);
        }
    }
}

} // verus!
