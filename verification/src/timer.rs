//! One-shot and repeating timers, named by tokens.
//!
//! The queue keeps the pending timers in the order in which they fall due.
//! It has no clock: every call is told the time, in milliseconds since the
//! service started.

use vstd::prelude::*;

verus! {

/// The name a caller gives a timer.
pub type Token = u64;

/// What the timer service reports: the timer that fired.
#[derive(Clone, Copy, Debug, PartialEq, Eq, Structural)]
pub struct TimerResponse {
    pub id: Token,
}

/// What is asked of the timer service.
#[derive(Clone, Copy, Debug, PartialEq, Eq, Structural)]
pub enum TimerRequest {
    /// Start a timer.
    Timer(TimerInfo),
    /// Drop the timers with this token that have not fired.
    Cancel(Token),
}

/// A timer to start: it fires `timer_len` milliseconds from now, and again
/// after each firing if `repeat` is set.
#[derive(Clone, Copy, Debug, PartialEq, Eq, Structural)]
pub struct TimerInfo {
    pub timer_len: u64,
    pub id: Token,
    pub repeat: bool,
}


/// A pending timer.
#[derive(Clone, Copy, Debug, PartialEq, Eq, Structural)]
pub struct Timer {
    /// When the timer falls due.
    pub expiration: u64,
    /// The length the timer was asked for.
    pub timer_len: u64,
    pub id: Token,
    pub repeat: bool,
}

/// The order in which timers fire: by the time they fall due; among those
/// due together by length, then by token, and a one-shot timer before a
/// repeating one.
pub open spec fn before(a: Timer, b: Timer) -> bool {
    if a.expiration != b.expiration {
        a.expiration < b.expiration
    } else if a.timer_len != b.timer_len {
        a.timer_len < b.timer_len
    } else if a.id != b.id {
        a.id < b.id
    } else {
        !a.repeat && b.repeat
    }
}

/// Whether the timers stand in firing order, none of them twice.
pub open spec fn sorted(s: Seq<Timer>) -> bool {
    forall|i: int, j: int| 0 <= i < j < s.len() ==> before(#[trigger] s[i], #[trigger] s[j])
}

/// The number of timers among the first `k` that fire before `t`.
pub open spec fn rank(s: Seq<Timer>, t: Timer, k: int) -> int
    decreases k,
{
    if k <= 0 {
        0
    } else {
        rank(s, t, k - 1) + if before(s[k - 1], t) {
            1int
        } else {
            0int
        }
    }
}

/// The queue with `t` put in its place; a queue that holds `t` already
/// is left as it is.
pub open spec fn inserted(s: Seq<Timer>, t: Timer) -> Seq<Timer> {
    if s.contains(t) {
        s
    } else {
        s.insert(rank(s, t, s.len() as int), t)
    }
}

/// The timers whose token is not `token`, in their order.
pub open spec fn cancelled(s: Seq<Timer>, token: Token) -> Seq<Timer>
    decreases s.len(),
{
    if s.len() == 0 {
        s
    } else if s.last().id == token {
        cancelled(s.drop_last(), token)
    } else {
        cancelled(s.drop_last(), token).push(s.last())
    }
}

/// `now + length`, or the largest `u64` if that is less.
pub open spec fn due(now: u64, length: u64) -> u64 {
    if now + length > u64::MAX {
        u64::MAX
    } else {
        (now + length) as u64
    }
}

/// The timer that `info` asks for at the time `now`.
pub open spec fn armed(now: u64, info: TimerInfo) -> Timer {
    Timer { expiration: due(now, info.timer_len), timer_len: info.timer_len, id: info.id, repeat: info.repeat }
}

/// The queue after the timer at its head has fired at the time `now`: the
/// timer is gone if it is one-shot, and armed again for its length from
/// `now` if it repeats.
pub open spec fn fired(s: Seq<Timer>, now: u64) -> Seq<Timer> {
    let head = s[0];
    if head.repeat {
        inserted(s.remove(0), Timer { expiration: due(now, head.timer_len), ..head })
    } else {
        s.remove(0)
    }
}

proof fn lemma_rank(s: Seq<Timer>, t: Timer, k: int)
    requires
        sorted(s),
        0 <= k <= s.len(),
    ensures
        0 <= rank(s, t, k) <= k,
        forall|i: int| 0 <= i < rank(s, t, k) ==> before(#[trigger] s[i], t),
        forall|i: int| rank(s, t, k) <= i < k ==> !before(#[trigger] s[i], t),
    decreases k,
{
    if k > 0 {
        lemma_rank(s, t, k - 1);
        let r = rank(s, t, k - 1);
        if before(s[k - 1], t) {
            if r < k - 1 {
                // s[r] does not fire before t, yet fires before s[k - 1], which does
                assert(!before(s[r], t));
                assert(before(s[r], s[k - 1]));
            }
        }
    }
}

/// Putting a timer in its place keeps the firing order, and the place is
/// after every timer that fires earlier and before every one that fires
/// later.
pub proof fn lemma_inserted(s: Seq<Timer>, t: Timer)
    requires
        sorted(s),
    ensures
        sorted(inserted(s, t)),
        inserted(s, t).contains(t),
        forall|x: Timer| s.contains(x) ==> inserted(s, t).contains(x),
        forall|x: Timer| inserted(s, t).contains(x) ==> x == t || s.contains(x),
{
    let out = inserted(s, t);
    if s.contains(t) {
    } else {
        let r = rank(s, t, s.len() as int);
        lemma_rank(s, t, s.len() as int);
        assert forall|i: int, j: int| 0 <= i < j < out.len() implies before(#[trigger] out[i], #[trigger] out[j]) by {
            let a = if i < r { s[i] } else if i == r { t } else { s[i - 1] };
            let b = if j < r { s[j] } else if j == r { t } else { s[j - 1] };
            assert(out[i] == a && out[j] == b);
            if j == r {
            } else if i == r {
                assert(!before(s[j - 1], t));
                assert(s.contains(s[j - 1]));
            }
        }
        assert(out[r] == t);
        assert forall|x: Timer| s.contains(x) implies out.contains(x) by {
            let i = choose|i: int| 0 <= i < s.len() && s[i] == x;
            if i < r {
                assert(out[i] == x);
            } else {
                assert(out[i + 1] == x);
            }
        }
        assert forall|x: Timer| out.contains(x) implies x == t || s.contains(x) by {
            let i = choose|i: int| 0 <= i < out.len() && out[i] == x;
            if i < r {
                assert(s[i] == x);
            } else if i > r {
                assert(s[i - 1] == x);
            }
        }
    }
}

/// Cancelling keeps the firing order, leaves no timer with the token, and
/// takes out no other.
pub proof fn lemma_cancelled(s: Seq<Timer>, token: Token)
    ensures
        cancelled(s, token).len() <= s.len(),
        forall|i: int|
            0 <= i < cancelled(s, token).len() ==> s.contains(#[trigger] cancelled(s, token)[i]) && cancelled(
                s,
                token,
            )[i].id != token,
        forall|i: int| 0 <= i < s.len() && s[i].id != token ==> cancelled(s, token).contains(#[trigger] s[i]),
        sorted(s) ==> sorted(cancelled(s, token)),
    decreases s.len(),
{
    if s.len() > 0 {
        let front = s.drop_last();
        let rest = cancelled(front, token);
        lemma_cancelled(front, token);
        let out = cancelled(s, token);
        assert forall|x: Timer| front.contains(x) implies s.contains(x) by {
            let j = choose|j: int| 0 <= j < front.len() && front[j] == x;
            assert(s[j] == x);
        }
        assert forall|i: int| 0 <= i < out.len() implies s.contains(#[trigger] out[i]) && out[i].id != token by {
            if i < rest.len() {
                assert(out[i] == rest[i]);
            } else {
                assert(out[i] == s[s.len() - 1]);
            }
        }
        assert forall|i: int| 0 <= i < s.len() && s[i].id != token implies out.contains(#[trigger] s[i]) by {
            if i < front.len() {
                assert(front[i] == s[i]);
                let j = choose|j: int| 0 <= j < rest.len() && rest[j] == s[i];
                assert(out[j] == s[i]);
            } else {
                assert(out[out.len() - 1] == s[i]);
            }
        }
        if sorted(s) {
            assert forall|i: int, j: int| 0 <= i < j < front.len() implies before(
                #[trigger] front[i],
                #[trigger] front[j],
            ) by {
                assert(front[i] == s[i] && front[j] == s[j]);
            }
            assert forall|i: int, j: int| 0 <= i < j < out.len() implies before(#[trigger] out[i], #[trigger] out[j]) by {
                assert(out[i] == rest[i]);
                if j < rest.len() {
                    assert(out[j] == rest[j]);
                } else {
                    assert(front.contains(rest[i]));
                    let a = choose|a: int| 0 <= a < front.len() && front[a] == rest[i];
                    assert(s[a] == rest[i]);
                    assert(out[j] == s[s.len() - 1]);
                }
            }
        }
    }
}

/// Of two timers in the queue, the one that falls due earlier stands
/// earlier, and so fires first.
pub proof fn lemma_due_order(s: Seq<Timer>, i: int, j: int)
    requires
        sorted(s),
        0 <= i < s.len(),
        0 <= j < s.len(),
        s[i].expiration < s[j].expiration,
    ensures
        i < j,
{
    if j < i {
        assert(before(s[j], s[i]));
    }
}

/// Two timers of the same length, asked for one after the other, fire in
/// the order in which they were asked for: after both requests the first
/// stands before the second in the queue, if its token is not in use.
pub proof fn lemma_timer_order(s: Seq<Timer>, t1: u64, t2: u64, first: TimerInfo, second: TimerInfo)
    requires
        sorted(s),
        t1 < t2,
        first.timer_len == second.timer_len,
        t2 + second.timer_len <= u64::MAX,
    ensures
        ({
            let q = inserted(inserted(s, armed(t1, first)), armed(t2, second));
            &&& sorted(q)
            &&& q.contains(armed(t1, first))
            &&& q.contains(armed(t2, second))
            &&& q.index_of(armed(t1, first)) < q.index_of(armed(t2, second))
        }),
{
    let a = armed(t1, first);
    let b = armed(t2, second);
    let q1 = inserted(s, a);
    lemma_inserted(s, a);
    let q = inserted(q1, b);
    lemma_inserted(q1, b);
    lemma_due_order(q, q.index_of(a), q.index_of(b));
}

/// The pending timers, in the order in which they will fire.
pub struct TimerQueue {
    timers: Vec<Timer>,
}

impl View for TimerQueue {
    type V = Seq<Timer>;

    closed spec fn view(&self) -> Seq<Timer> {
        self.timers@
    }
}

fn fires_before(a: &Timer, b: &Timer) -> (r: bool)
    ensures
        r == before(*a, *b),
{
    if a.expiration != b.expiration {
        a.expiration < b.expiration
    } else if a.timer_len != b.timer_len {
        a.timer_len < b.timer_len
    } else if a.id != b.id {
        a.id < b.id
    } else {
        !a.repeat && b.repeat
    }
}

fn due_at(now: u64, length: u64) -> (r: u64)
    ensures
        r == due(now, length),
{
    if length > u64::MAX - now {
        u64::MAX
    } else {
        now + length
    }
}

impl TimerQueue {
    /// The timers stand in firing order.
    pub open spec fn wf(&self) -> bool {
        sorted(self@)
    }

    /// A queue with no timer.
    pub fn new() -> (r: Self)
        ensures
            r.wf(),
            r@ == Seq::<Timer>::empty(),
    {
        TimerQueue { timers: Vec::new() }
    }

    /// The number of pending timers.
    pub fn len(&self) -> (r: usize)
        ensures
            r == self@.len(),
    {
        self.timers.len()
    }

    fn insert(&mut self, timer: Timer)
        requires
            old(self).wf(),
        ensures
            final(self).wf(),
            final(self)@ == inserted(old(self)@, timer),
    {
        let mut i: usize = 0;
        while i < self.timers.len() && fires_before(&self.timers[i], &timer)
            invariant
                i <= self.timers@.len(),
                self.timers@ == old(self).timers@,
                sorted(self.timers@),
                i == rank(self.timers@, timer, i as int),
                forall|k: int| 0 <= k < i ==> before(#[trigger] self.timers@[k], timer),
            decreases self.timers@.len() - i,
        {
            i += 1;
        }
        proof {
            let s = self.timers@;
            lemma_rank(s, timer, s.len() as int);
            lemma_inserted(s, timer);
            // the walk stopped at the first timer that does not fire before the new one
            let r = rank(s, timer, s.len() as int);
            if i < s.len() {
                assert(!before(s[i as int], timer));
                if r > i {
                    assert(before(s[i as int], timer));
                }
            }
            if r < i {
                assert(before(s[r], timer));
            }
            assert(r == i);
            if s.contains(timer) {
                let k = choose|k: int| 0 <= k < s.len() && s[k] == timer;
                if k < i {
                    assert(before(s[k], timer));
                } else if k > i {
                    assert(before(s[i as int], s[k]));
                }
                assert(k == i);
            }
        }
        if i < self.timers.len() && self.timers[i] == timer {
            return ;
        }
        proof {
            let s = self.timers@;
            if s.contains(timer) {
                let k = choose|k: int| 0 <= k < s.len() && s[k] == timer;
                assert(k == i);
            }
        }
        self.timers.insert(i, timer);
    }

    /// Starts the timer that `info` asks for: it falls due `info.timer_len`
    /// milliseconds after `now`.
    pub fn schedule(&mut self, now: u64, info: TimerInfo)
        requires
            old(self).wf(),
        ensures
            final(self).wf(),
            final(self)@ == inserted(old(self)@, armed(now, info)),
    {
        let timer = Timer {
            expiration: due_at(now, info.timer_len),
            timer_len: info.timer_len,
            id: info.id,
            repeat: info.repeat,
        };
        self.insert(timer);
    }

    /// Drops every pending timer with the token `token`.
    pub fn cancel(&mut self, token: Token)
        requires
            old(self).wf(),
        ensures
            final(self).wf(),
            final(self)@ == cancelled(old(self)@, token),
    {
        let ghost all = self.timers@;
        let mut i: usize = 0;
        let ghost mut j: int = 0;
        assert(all.take(0) =~= Seq::<Timer>::empty());
        while i < self.timers.len()
            invariant
                0 <= j <= all.len(),
                i <= self.timers@.len(),
                self.timers@.len() - i == all.len() - j,
                self.timers@.take(i as int) == cancelled(all.take(j), token),
                self.timers@.skip(i as int) == all.skip(j),
            decreases self.timers@.len() - i,
        {
            proof {
                assert(all.take(j + 1).drop_last() =~= all.take(j));
                assert(all.take(j + 1).last() == all[j]);
                assert(self.timers@.skip(i as int)[0] == all.skip(j)[0]);
            }
            let ghost prior = self.timers@;
            if self.timers[i].id == token {
                self.timers.remove(i);
                proof {
                    assert(self.timers@.take(i as int) =~= prior.take(i as int));
                    assert(self.timers@.skip(i as int) =~= prior.skip(i as int).skip(1));
                    assert(all.skip(j).skip(1) =~= all.skip(j + 1));
                }
            } else {
                i += 1;
                proof {
                    assert(prior.take(i as int) =~= prior.take(i - 1).push(prior[i - 1]));
                    assert(prior.skip(i as int) =~= prior.skip(i - 1).skip(1));
                    assert(all.skip(j).skip(1) =~= all.skip(j + 1));
                }
            }
            proof {
                j = j + 1;
            }
        }
        proof {
            assert(all.take(j) =~= all);
            assert(self.timers@.take(i as int) =~= self.timers@);
            lemma_cancelled(all, token);
        }
    }

    /// Carries out a request to the service at the time `now`.
    pub fn handle(&mut self, now: u64, request: TimerRequest)
        requires
            old(self).wf(),
        ensures
            final(self).wf(),
            final(self)@ == (match request {
                TimerRequest::Timer(info) => inserted(old(self)@, armed(now, info)),
                TimerRequest::Cancel(token) => cancelled(old(self)@, token),
            }),
    {
        match request {
            TimerRequest::Timer(info) => self.schedule(now, info),
            TimerRequest::Cancel(token) => self.cancel(token),
        }
    }

    /// How long the service may sleep at the time `now`: until the first
    /// timer falls due, not at all if it is due already, and without end
    /// (`None`) if no timer is pending.
    pub fn next_timeout(&self, now: u64) -> (r: Option<u64>)
        ensures
            self@.len() == 0 ==> r is None,
            self@.len() > 0 ==> r == Some(
                if self@[0].expiration > now {
                    (self@[0].expiration - now) as u64
                } else {
                    0u64
                },
            ),
    {
        if self.timers.len() == 0 {
            None
        } else if self.timers[0].expiration > now {
            Some(self.timers[0].expiration - now)
        } else {
            Some(0)
        }
    }

    /// Fires the first timer if it is due at the time `now`: it leaves the
    /// queue, or is armed again if it repeats, and its token is returned.
    /// Returns `None`, and changes nothing, if no timer is due.
    pub fn expire(&mut self, now: u64) -> (r: Option<TimerResponse>)
        requires
            old(self).wf(),
        ensures
            final(self).wf(),
            old(self)@.len() > 0 && old(self)@[0].expiration <= now ==> r == Some(
                TimerResponse { id: old(self)@[0].id },
            ) && final(self)@ == fired(old(self)@, now),
            !(old(self)@.len() > 0 && old(self)@[0].expiration <= now) ==> r is None && final(self)@ == old(self)@,
    {
        if self.timers.len() == 0 || self.timers[0].expiration > now {
            return None;
        }
        let head = self.timers.remove(0);
        proof {
            let s = old(self)@;
            let rest = s.remove(0);
            assert forall|i: int, j: int| 0 <= i < j < rest.len() implies before(#[trigger] rest[i], #[trigger] rest[j]) by {
                assert(rest[i] == s[i + 1] && rest[j] == s[j + 1]);
            }
        }
        if head.repeat {
            self.insert(
                Timer { expiration: due_at(now, head.timer_len), timer_len: head.timer_len, id: head.id, repeat: true },
            );
        }
        Some(TimerResponse { id: head.id })
    }
}

} // verus!
