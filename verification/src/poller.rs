//! Waiting for the events that wake services: data on a socket, a timer
//! running out, a change to a watched file.
//!
//! The ready events of one wait are handed out by a cursor that walks the
//! event array from the back; a wait is needed again only where the cursor
//! stands at the front. Changes to files come through one inotify
//! descriptor, and the watch descriptor of a change says which service file
//! it is for and which changes matter.
use vstd::prelude::*;

verus! {

/// Milliseconds in a second.
pub const MSEC_PER_SEC: i64 = 1000;
/// Nanoseconds in a millisecond.
pub const NSEC_PER_MSEC: i64 = 1000000;

/// Where the cursor goes, and which event it hands out, after a request for
/// the next event. `ready` is what the wait gave, where the cursor stood at
/// the front and a wait was made (`None`: the wait failed); `n` is the room
/// in the event array.
pub open spec fn advance(cursor: nat, ready: Option<i32>, n: nat) -> (nat, Option<nat>) {
    let c: int = if cursor == 0 {
        match ready {
            Some(k) => k - 1,
            None => -1,
        }
    } else {
        cursor as int
    };
    if c < 0 {
        (cursor, None)
    } else if c >= n {
        (c as nat, None)
    } else {
        (if c > 1 {
            (c - 1) as nat
        } else {
            c as nat
        }, Some(c as nat))
    }
}

/// What a request for the next event needs: where the cursor stands at the
/// front, a wait, and one that reported at least one event (a wait with no
/// timeout never reports none).
pub open spec fn ready_fits(cursor: nat, ready: Option<i32>) -> bool {
    cursor == 0 ==> (ready matches Some(k) ==> k >= 1)
}

/// A wait that fails hands out nothing, and the next request waits again.
pub proof fn failed_wait_hands_out_nothing(n: nat)
    ensures
        advance(0, None, n) == (0nat, None::<nat>),
{
}

/// After a wait that reports one event, that event (at the front) is handed
/// out and the next request waits again.
pub proof fn single_event_then_wait(n: nat)
    requires
        n >= 1,
    ensures
        advance(0, Some(1i32), n) == (0nat, Some(0nat)),
{
}

/// After a wait that reports `k` events, two or more, that fit in the
/// array, the last of them is handed out first.
pub proof fn wait_hands_out_last_first(k: i32, n: nat)
    requires
        2 <= k <= n,
    ensures
        advance(0, Some(k), n) == ((if k > 2 {
            k - 2
        } else {
            1
        }) as nat, Some((k - 1) as nat)),
{
}

/// Away from the front, each request hands out the event under the cursor
/// and moves it one place to the front, but never onto the front itself:
/// the event at the front is handed out only after a wait that reports one
/// event, and once the cursor has left the front no wait is made again.
pub proof fn cursor_counts_down(c: nat, ready: Option<i32>, n: nat)
    requires
        1 <= c < n,
    ensures
        advance(c, ready, n) == ((if c > 1 {
            c - 1
        } else {
            1
        }) as nat, Some(c)),
        advance(c, ready, n).0 >= 1,
{
}

/// More events reported than the array holds hand out nothing, and the
/// cursor stays past the end.
pub proof fn overfull_wait_hands_out_nothing(k: i32, n: nat)
    requires
        k >= 1,
        k - 1 >= n,
    ensures
        advance(0, Some(k), n) == ((k - 1) as nat, None::<nat>),
        advance((k - 1) as nat, None, n) == ((k - 1) as nat, None::<nat>),
{
}

/// Moves the cursor and says which event to hand out.
fn advance_cursor(cursor: usize, ready: Option<i32>, n: usize) -> (r: (usize, Option<usize>))
    requires
        ready_fits(cursor as nat, ready),
    ensures
        ({
            let (c, i) = advance(cursor as nat, ready, n as nat);
            r.0 == c && match (r.1, i) {
                (Some(x), Some(y)) => x == y,
                (None, None) => true,
                _ => false,
            }
        }),
{
    let c: usize = if cursor == 0 {
        match ready {
            Some(k) => (k - 1) as usize,
            None => return (cursor, None),
        }
    } else {
        cursor
    };
    if c >= n {
        return (c, None);
    }
    let next = if c > 1 {
        c - 1
    } else {
        c
    };
    (next, Some(c))
}

/// The `(seconds, nanoseconds)` of a timer that runs out after `msec`
/// milliseconds: the quotient and the remainder of a division by 1000 that
/// rounds towards zero, the remainder made nanoseconds.
pub open spec fn timer_value(msec: int, sec: int, nsec: int) -> bool {
    let rem = nsec / NSEC_PER_MSEC as int;
    &&& nsec == rem * NSEC_PER_MSEC
    &&& msec == sec * MSEC_PER_SEC + rem
    &&& -MSEC_PER_SEC < rem < MSEC_PER_SEC
    &&& (msec >= 0 ==> rem >= 0)
    &&& (msec < 0 ==> rem <= 0)
}

/// The time after which a timer set to `msec` milliseconds runs out, as
/// `timerfd_settime(2)` takes it.
pub fn timer_spec(msec: i64) -> (r: (i64, i64))
    ensures
        timer_value(msec as int, r.0 as int, r.1 as int),
{
    let sec = msec / MSEC_PER_SEC;
    let rem = msec % MSEC_PER_SEC;
    assert((rem as int) * 1000000 / 1000000 == rem as int) by (nonlinear_arith)
        requires
            -1000 < rem < 1000,
    ;
    (sec, rem * NSEC_PER_MSEC)
}

/// The poller of the service manager: the epoll descriptor, the cursor over
/// the ready events, the inotify descriptor and, for each watch descriptor,
/// the service file it wakes and the changes that matter.
pub struct epoll<const N: usize> {
    pub epfd: i32,
    pub cursor: usize,
    pub notifyfd: i32,
    pub nevents: Vec<(u64, u32)>,
}

impl<const N: usize> epoll<N> {
    /// The shape of the poller: one watch slot per place in the event
    /// array.
    pub open spec fn wf(&self) -> bool {
        self.nevents@.len() == N
    }

    /// A poller over the epoll descriptor `epfd` and the inotify descriptor
    /// `notifyfd`: the cursor at the front, no file watched.
    pub fn init(epfd: i32, notifyfd: i32) -> (p: Self)
        ensures
            p.wf(),
            p.epfd == epfd,
            p.notifyfd == notifyfd,
            p.cursor == 0,
            forall|i: int| 0 <= i < N ==> p.nevents@[i] == (0u64, 0u32),
    {
        let mut nevents: Vec<(u64, u32)> = Vec::new();
        let mut i: usize = 0;
        while i < N
            invariant
                i <= N,
                nevents@.len() == i,
                forall|j: int| 0 <= j < i ==> nevents@[j] == (0u64, 0u32),
            decreases N - i,
        {
            nevents.push((0u64, 0u32));
            i = i + 1;
        }
        epoll { epfd, cursor: 0, notifyfd, nevents }
    }

    /// Whether the next request for an event needs a wait first.
    pub fn must_wait(&self) -> (r: bool)
        ensures
            r == (self.cursor == 0),
    {
        self.cursor == 0
    }

    /// The place in the event array of the next event to hand out, if
    /// any; `ready` is what the wait gave, where one was needed.
    pub fn next(&mut self, ready: Option<i32>) -> (i: Option<usize>)
        requires
            ready_fits(old(self).cursor as nat, ready),
        ensures
            ({
                let (c, j) = advance(old(self).cursor as nat, ready, N as nat);
                final(self).cursor == c && match (i, j) {
                    (Some(x), Some(y)) => x == y,
                    (None, None) => true,
                    _ => false,
                }
            }),
            final(self).epfd == old(self).epfd,
            final(self).notifyfd == old(self).notifyfd,
            final(self).nevents == old(self).nevents,
    {
        let (c, i) = advance_cursor(self.cursor, ready, N);
        self.cursor = c;
        i
    }

    /// Whether an event with this data comes from the inotify descriptor.
    pub fn is_notify(&self, data: u64) -> (r: bool)
        ensures
            r == (data == self.notifyfd as u64),
    {
        data == self.notifyfd as u64
    }

    /// The service file that a change with watch descriptor `wd` and
    /// change mask `mask` wakes: the one recorded for `wd`, where one of the
    /// changes recorded with it happened.
    pub open spec fn watched(&self, wd: i32, mask: u32) -> Option<u64> {
        if 0 <= wd < N && self.nevents@[wd as int].1 & mask != 0 {
            Some(self.nevents@[wd as int].0)
        } else {
            None
        }
    }

    /// What a ready event with data `data` hands to the callback: for an
    /// event of the inotify descriptor, the service file that the change
    /// `notice` (watch descriptor and change mask, read from that
    /// descriptor) wakes, if any; for any other event, its data.
    pub fn wait(&self, data: u64, notice: Option<(i32, u32)>) -> (r: Option<u64>)
        requires
            self.wf(),
        ensures
            r == (if data == self.notifyfd as u64 {
                match notice {
                    Some((wd, mask)) => self.watched(wd, mask),
                    None => None,
                }
            } else {
                Some(data)
            }),
    {
        if !self.is_notify(data) {
            return Some(data);
        }
        let (wd, mask) = match notice {
            Some(n) => n,
            None => return None,
        };
        if wd < 0 {
            return None;
        }
        let i = wd as usize;
        if i >= self.nevents.len() {
            return None;
        }
        let (fd, wanted) = self.nevents[i];
        if wanted & mask != 0 {
            Some(fd)
        } else {
            None
        }
    }

    /// Records that changes in `mask` to the file watched by `wd` wake the
    /// service file `sfd`.
    pub fn watch_on_file(&mut self, wd: i32, sfd: u64, mask: u32)
        requires
            old(self).wf(),
            0 <= wd < N,
        ensures
            final(self).wf(),
            final(self).nevents@ == old(self).nevents@.update(wd as int, (sfd, mask)),
            final(self).cursor == old(self).cursor,
            final(self).epfd == old(self).epfd,
            final(self).notifyfd == old(self).notifyfd,
    {
        self.nevents.set(wd as usize, (sfd, mask));
    }
}

/// The poller of the program: an epoll descriptor and the cursor over the
/// ready events.
pub struct Epoll<const N: usize> {
    pub fd: i32,
    pub cursor: usize,
}

impl<const N: usize> Epoll<N> {
    /// A poller over the epoll descriptor `fd`, the cursor at the front.
    pub fn init(fd: i32) -> (p: Self)
        ensures
            p.fd == fd,
            p.cursor == 0,
    {
        Epoll { fd, cursor: 0 }
    }

    /// Whether the next request for an event needs a wait first.
    pub fn must_wait(&self) -> (r: bool)
        ensures
            r == (self.cursor == 0),
    {
        self.cursor == 0
    }

    /// The place in the event array of the next event to hand out, if
    /// any; `ready` is what the wait gave, where one was needed.
    pub fn next(&mut self, ready: Option<i32>) -> (i: Option<usize>)
        requires
            ready_fits(old(self).cursor as nat, ready),
        ensures
            ({
                let (c, j) = advance(old(self).cursor as nat, ready, N as nat);
                final(self).cursor == c && match (i, j) {
                    (Some(x), Some(y)) => x == y,
                    (None, None) => true,
                    _ => false,
                }
            }),
            final(self).fd == old(self).fd,
    {
        let (c, i) = advance_cursor(self.cursor, ready, N);
        self.cursor = c;
        i
    }
}

/// A change wakes the service file recorded for its watch descriptor just
/// when it shares at least one change with the mask recorded with it; and
/// after a watch is recorded, a change that shares a bit with its mask
/// wakes the service file recorded, whatever was recorded there before.
pub proof fn change_wakes_watching_service<const N: usize>(
    p: epoll<N>,
    q: epoll<N>,
    wd: i32,
    sfd: u64,
    wanted: u32,
    mask: u32,
)
    requires
        p.wf(),
        0 <= wd < N,
        q.nevents@ == p.nevents@.update(wd as int, (sfd, wanted)),
    ensures
        (p.nevents@[wd as int].1 & mask) != 0 ==> p.watched(wd, mask) == Some(p.nevents@[wd as int].0),
        (p.nevents@[wd as int].1 & mask) == 0 ==> p.watched(wd, mask) is None,
        (wanted & mask) != 0 ==> q.watched(wd, mask) == Some(sfd),
        (wanted & mask) == 0 ==> q.watched(wd, mask) is None,
{
}

} // verus!
