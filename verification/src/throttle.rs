//! The throttle: a ticker that lets one dispatch through per interval, so
//! that no window of time sees more dispatches than the policy allows.
//!
//! Of the two ways to keep a quota, a pool of permits and a fixed interval
//! between dispatches, this library keeps the rate by the interval: a
//! dispatch is never granted earlier than one interval after the one before
//! it. A grant that its caller will not use can be given back: its time
//! is then spare and goes to the next caller who can still make it. Grants
//! that lie too far back to hold anyone back are forgotten: they stay in
//! the log, and can no longer be given back. The order in which callers
//! began their requests is not kept: a dispatch goes to whoever reaches the
//! throttle first. The pool of permits that a client handle also holds
//! bounds how many requests are under way at once; it does not keep the
//! rate.
//!
//! Times are milliseconds on a clock of the caller's choice that never runs
//! backwards.

use vstd::prelude::*;
use vstd::seq_lib::seq_to_set_is_finite;
use std::time::Duration;

verus! {

/// Dispatches allowed per window unless the caller says otherwise.
pub const DEFAULT_MAX_REQUESTS: u64 = 50;

/// Length of the window in milliseconds unless the caller says otherwise.
/// The service bans at 50 requests in 30 seconds; 50 in 35 seconds stays
/// clear of that.
pub const DEFAULT_WINDOW_MS: u64 = 35_000;

/// The whole milliseconds that a `Duration` holds.
pub uninterp spec fn millis(span: Duration) -> nat;

/// `Duration::as_millis` returns the number of whole milliseconds in the
/// duration; that number is what `millis` names.
pub assume_specification[ Duration::as_millis ](span: &Duration) -> (ms: u128)
    ensures
        ms == millis(*span),
;

/// A number of milliseconds as the length of a window: at least one, and
/// `u64::MAX` where it does not fit.
pub open spec fn clamped(ms: nat) -> u64 {
    if ms == 0 {
        1
    } else if ms > u64::MAX {
        u64::MAX
    } else {
        ms as u64
    }
}

/// The length of the window that `span` stands for.
pub open spec fn clamped_millis(span: Duration) -> u64 {
    clamped(millis(span))
}

/// Brings a number of milliseconds into the range of a window's length. A
/// window shorter than a millisecond counts as one millisecond.
pub fn clamp_window(ms: u128) -> (window_ms: u64)
    ensures
        window_ms == clamped(ms as nat),
        window_ms >= 1,
{
    if ms == 0 {
        1
    } else if ms > u64::MAX as u128 {
        u64::MAX
    } else {
        ms as u64
    }
}

/// A quota: at most `max_requests` dispatches in any `window_ms` milliseconds.
#[derive(Clone, Copy, Debug, PartialEq, Eq, Structural)]
pub struct ThrottlePolicy {
    pub max_requests: u64,
    pub window_ms: u64,
}

impl ThrottlePolicy {
    /// A policy allows at least one request per window, and its window has
    /// a length.
    pub open spec fn wf(&self) -> bool {
        self.max_requests >= 1 && self.window_ms >= 1
    }

    /// The least number of milliseconds between two dispatches that keeps
    /// the quota: the window divided by the maximum, rounded up.
    pub open spec fn spacing(&self) -> int {
        (self.window_ms + self.max_requests - 1) / (self.max_requests as int)
    }

    /// The default number of requests in a window of the given length.
    pub fn per_window(span: Duration) -> (policy: Self)
        ensures
            policy.max_requests == DEFAULT_MAX_REQUESTS,
            policy.window_ms == clamped_millis(span),
            policy.wf(),
    {
        ThrottlePolicy {
            max_requests: DEFAULT_MAX_REQUESTS,
            window_ms: clamp_window(span.as_millis()),
        }
    }

    /// Milliseconds that the throttle keeps between two dispatches; `None`
    /// for a policy that allows no request at all or has no window.
    pub fn interval(&self) -> (ms: Option<u64>)
        ensures
            self.wf() <==> ms.is_some(),
            ms.is_some() ==> ms.unwrap() == self.spacing(),
    {
        if self.max_requests >= 1 && self.window_ms >= 1 {
            Option::Some(self.spacing_in_ms())
        } else {
            Option::None
        }
    }

    /// The spacing of a policy that allows a request.
    fn spacing_in_ms(&self) -> (ms: u64)
        requires
            self.wf(),
        ensures
            ms == self.spacing(),
            ms >= 1,
    {
        proof {
            self.lemma_spacing_covers_window();
        }
        let whole: u64 = self.window_ms / self.max_requests;
        let rest: u64 = self.window_ms % self.max_requests;
        proof {
            lemma_rounded_up(self.window_ms as int, self.max_requests as int);
        }
        if rest == 0 {
            whole
        } else {
            assert(whole < u64::MAX) by (nonlinear_arith)
                requires
                    self.window_ms == self.max_requests * whole + rest,
                    0 < rest < self.max_requests,
                    whole >= 0,
                    self.window_ms <= u64::MAX,
            ;
            whole + 1
        }
    }

    /// `max_requests` intervals span the window, allowing no more than the
    /// quota in it.
    pub proof fn lemma_spacing_covers_window(&self)
        requires
            self.wf(),
        ensures
            self.spacing() >= 1,
            self.max_requests * self.spacing() >= self.window_ms,
    {
        lemma_rounded_up(self.window_ms as int, self.max_requests as int);
        assert(self.spacing() >= 1) by (nonlinear_arith)
            requires
                self.spacing() >= 0,
                self.max_requests * self.spacing() >= self.window_ms,
                self.window_ms >= 1,
        ;
    }
}

impl Default for ThrottlePolicy {
    /// 50 requests in 35 seconds.
    fn default() -> (policy: Self)
        ensures
            policy.max_requests == DEFAULT_MAX_REQUESTS,
            policy.window_ms == DEFAULT_WINDOW_MS,
            policy.wf(),
    {
        ThrottlePolicy { max_requests: DEFAULT_MAX_REQUESTS, window_ms: DEFAULT_WINDOW_MS }
    }
}

/// Division rounded up, by quotient and remainder.
proof fn lemma_rounded_up(a: int, b: int)
    requires
        a >= 0,
        b >= 1,
    ensures
        (a + b - 1) / b == a / b + if a % b == 0 { 0int } else { 1int },
        b * ((a + b - 1) / b) >= a,
        (a + b - 1) / b >= 0,
        a == b * (a / b) + a % b,
        0 <= a % b < b,
{
    let q = a / b;
    let r = a % b;
    assert(a == b * q + r && 0 <= r < b) by {
        vstd::arithmetic::div_mod::lemma_fundamental_div_mod(a, b);
        vstd::arithmetic::div_mod::lemma_mod_bound(a, b);
    }
    assert(q >= 0) by (nonlinear_arith)
        requires
            a == b * q + r,
            0 <= r < b,
            a >= 0,
            b >= 1,
    ;
    if r == 0 {
        assert(a + b - 1 == q * b + (b - 1)) by (nonlinear_arith)
            requires
                a == b * q + r,
                r == 0,
        ;
        assert((a + b - 1) / b == q) by {
            vstd::arithmetic::div_mod::lemma_fundamental_div_mod_converse(a + b - 1, b, q, b - 1);
        }
    } else {
        assert(a + b - 1 == (q + 1) * b + (r - 1)) by (nonlinear_arith)
            requires
                a == b * q + r,
        ;
        assert((a + b - 1) / b == q + 1) by {
            vstd::arithmetic::div_mod::lemma_fundamental_div_mod_converse(
                a + b - 1,
                b,
                q + 1,
                r - 1,
            );
        }
    }
}

/// Each time of the sequence comes at least `interval` after the one before.
pub open spec fn spaced(log: Seq<int>, interval: int) -> bool {
    forall|i: int| 0 <= i < log.len() - 1 ==> #[trigger] log[i] + interval <= log[i + 1]
}

/// The window `from <= t < until`, as the test of a time.
pub open spec fn in_window(from: int, until: int) -> spec_fn(int) -> bool {
    |t: int| from <= t < until
}

/// How many times of the sequence fall in the window `from <= t < until`.
pub open spec fn counted_within(log: Seq<int>, from: int, until: int) -> nat {
    log.filter(in_window(from, until)).len()
}

/// How many dispatches of the log fall in the window `from <= t < until`.
pub open spec fn dispatched_within(log: Set<int>, from: int, until: int) -> nat {
    log.filter(in_window(from, until)).len()
}

/// In a spaced sequence, times `j - i` places apart are that many intervals
/// apart.
pub proof fn lemma_spaced_apart(log: Seq<int>, interval: int, i: int, j: int)
    requires
        spaced(log, interval),
        0 <= i <= j < log.len(),
    ensures
        log[j] - log[i] >= (j - i) * interval,
    decreases j - i,
{
    if i < j {
        lemma_spaced_apart(log, interval, i, j - 1);
        assert(log[j - 1] + interval <= log[j - 1 + 1]);
        assert((j - i) * interval == (j - 1 - i) * interval + interval) by (nonlinear_arith);
    } else {
        assert((j - i) * interval == 0) by (nonlinear_arith)
            requires
                i == j,
        ;
    }
}

/// Where everything before place `skip` lies before the window, the window
/// holds no more dispatches than the log has from `skip` on.
proof fn lemma_count_after(log: Seq<int>, from: int, until: int, skip: int)
    requires
        0 <= skip,
        forall|i: int| 0 <= i < log.len() && i < skip ==> log[i] < from,
    ensures
        counted_within(log, from, until) <= if log.len() <= skip {
            0
        } else {
            log.len() - skip
        },
    decreases log.len(),
{
    reveal(Seq::filter);
    if log.len() > 0 {
        lemma_count_after(log.drop_last(), from, until, skip);
    }
}

/// The rate law of a spaced sequence: a window that `quota` intervals cover
/// holds at most `quota` of its times, wherever the window starts.
pub proof fn lemma_window_quota(log: Seq<int>, interval: int, quota: nat, from: int, span: int)
    requires
        spaced(log, interval),
        interval >= 0,
        quota * interval >= span,
    ensures
        counted_within(log, from, from + span) <= quota,
    decreases log.len(),
{
    reveal(Seq::filter);
    if log.len() > 0 {
        let rest = log.drop_last();
        let last = log.last();
        let n = log.len() as int;
        lemma_window_quota(rest, interval, quota, from, span);
        if from <= last < from + span {
            let skip = if n <= quota { 0int } else { n - quota };
            assert forall|i: int| 0 <= i < n && i < skip implies log[i] < from by {
                lemma_spaced_apart(log, interval, i, n - 1);
                assert((n - 1 - i) * interval >= quota * interval) by (nonlinear_arith)
                    requires
                        n - 1 - i >= quota,
                        interval >= 0,
                ;
            }
            lemma_count_after(log, from, from + span, skip);
        }
    }
}

/// The earliest new time after the grants of `past`: one spacing after the
/// last of them, or 0 where there is none.
pub open spec fn floor_of(past: Seq<int>, interval: int) -> int {
    if past.len() == 0 {
        0
    } else {
        past.last() + interval
    }
}

/// The throttle's state: the times that it has handed out, and which of
/// them were given back and wait for another caller. Times that lie too far
/// back to matter to any caller are forgotten: they stay counted, and the
/// record of them is dropped.
pub struct Throttle {
    policy: ThrottlePolicy,
    interval: u64,
    slots: Vec<u64>,
    returned: Vec<bool>,
    floor: u128,
    past: Ghost<Seq<int>>,
}

impl Throttle {
    /// The quota that this throttle keeps.
    pub closed spec fn policy(&self) -> ThrottlePolicy {
        self.policy
    }

    /// The forgotten grants and then the times on record, oldest first.
    closed spec fn times(&self) -> Seq<int> {
        self.past@ + Seq::new(self.slots@.len(), |i: int| self.slots@[i] as int)
    }

    /// For every such time, whether it was given back. No forgotten grant
    /// was.
    closed spec fn marks(&self) -> Seq<bool> {
        Seq::new(self.past@.len(), |g: int| false) + self.returned@
    }

    /// How many grants are forgotten.
    closed spec fn base(&self) -> int {
        self.past@.len() as int
    }

    /// Place `g` holds `time`, and it was granted and not given back.
    closed spec fn held_at(&self, g: int, time: int) -> bool {
        0 <= g < self.times().len() && self.times()[g] == time && !self.marks()[g]
    }

    /// Place `g` is on record and holds `time`, which a caller has.
    closed spec fn kept_at(&self, g: int, time: int) -> bool {
        self.base() <= g && self.held_at(g, time)
    }

    /// Place `g` is on record and holds `time`, which was given back.
    closed spec fn free_at(&self, g: int, time: int) -> bool {
        self.base() <= g < self.times().len() && self.times()[g] == time && self.marks()[g]
    }

    /// The dispatch times that this throttle has granted and that were not
    /// given back.
    pub closed spec fn log(&self) -> Set<int> {
        Set::new(|time: int| exists|g: int| self.held_at(g, time))
    }

    /// The grants of the log that are on record: they can be given back.
    pub closed spec fn outstanding(&self) -> Set<int> {
        Set::new(|time: int| exists|g: int| self.kept_at(g, time))
    }

    /// The spare times: those that were given back and that no caller has
    /// taken since.
    pub closed spec fn spare(&self) -> Set<int> {
        Set::new(|time: int| exists|g: int| self.free_at(g, time))
    }

    /// The earliest time at which a dispatch that takes no spare time may go out.
    pub closed spec fn earliest(&self) -> int {
        if self.slots@.len() == 0 {
            self.floor as int
        } else {
            self.slots@.last() + self.interval
        }
    }

    /// The state is sound: the times handed out are spaced by the policy's
    /// spacing, and the last of them on record is one that a caller has.
    pub closed spec fn wf(&self) -> bool {
        &&& self.policy.wf()
        &&& self.interval == self.policy.spacing()
        &&& self.interval >= 1
        &&& self.slots@.len() == self.returned@.len()
        &&& spaced(self.times(), self.interval as int)
        &&& (forall|g: int| 0 <= g < self.base() ==> 0 <= #[trigger] self.past@[g])
        &&& (self.slots@.len() > 0 ==> !self.returned@.last())
        &&& self.floor == floor_of(self.past@, self.interval as int)
    }

    /// `time` is the earliest spare time that a caller who asks at
    /// `now` can still make.
    pub open spec fn first_returned(&self, now: u64, time: int) -> bool {
        &&& self.spare().contains(time)
        &&& time >= now
        &&& forall|other: int| #[trigger] self.spare().contains(other) && other >= now ==> time <= other
    }

    /// The time at which a caller who asks at `now` may dispatch: the
    /// earliest spare time that is not before `now`; where there is
    /// none, at once, unless the last dispatch is less than one spacing
    /// away.
    pub open spec fn dispatch_time(&self, now: u64) -> int {
        if exists|time: int| self.first_returned(now, time) {
            choose|time: int| self.first_returned(now, time)
        } else if self.earliest() > now {
            self.earliest()
        } else {
            now as int
        }
    }

    /// What a caller who asks at `now` is answered in this state: the time
    /// of dispatch, or `None` where that time is beyond what the clock can
    /// count.
    pub open spec fn granted(&self, now: u64) -> Option<u64> {
        if self.dispatch_time(now) <= u64::MAX {
            Option::Some(self.dispatch_time(now) as u64)
        } else {
            Option::None
        }
    }

    /// The grant at `at` is outstanding: it was made, not given back, and
    /// is still on record.
    pub open spec fn returnable(&self, at: u64) -> bool {
        self.outstanding().contains(at as int)
    }

    /// `after` is this state once `time` was granted: the log holds it as
    /// an outstanding grant, it is no spare time any longer, and where it is
    /// a new time the next new one comes a spacing later.
    pub open spec fn grants(&self, after: Throttle, time: int) -> bool {
        &&& after.policy() == self.policy()
        &&& after.log() == self.log().insert(time)
        &&& after.outstanding() == self.outstanding().insert(time)
        &&& after.spare() == self.spare().remove(time)
        &&& after.earliest() == if self.spare().contains(time) {
            self.earliest()
        } else {
            time + self.policy().spacing()
        }
    }

    /// `after` is this state once the grant at `at` was given back: the log
    /// no longer holds it, its time is spare unless no grant after it
    /// is left, and no caller is answered a later time than before.
    pub open spec fn takes_back(&self, after: Throttle, at: int) -> bool {
        &&& after.policy() == self.policy()
        &&& after.log() == self.log().remove(at)
        &&& after.outstanding() == self.outstanding().remove(at)
        &&& after.spare() == self.spare().insert(at).filter(
            |time: int| time + self.policy().spacing() < after.earliest(),
        )
        &&& after.earliest() <= self.earliest()
        &&& forall|now: u64| #[trigger]
            after.dispatch_time(now) <= self.dispatch_time(now)
        &&& forall|now: u64| now <= at ==> #[trigger] after.dispatch_time(now) <= at
    }

    /// `after` is this state once every time that lies a spacing or more
    /// before `now` was forgotten: the log is the same, such grants are no
    /// longer outstanding, such times are no
    /// longer spare, and a
    /// caller who asks at `now` or later is answered as before.
    pub open spec fn forgets(&self, after: Throttle, now: u64) -> bool {
        &&& after.policy() == self.policy()
        &&& after.log() == self.log()
        &&& after.outstanding() == self.outstanding().filter(
            |time: int| time + self.policy().spacing() > now,
        )
        &&& after.spare() == self.spare().filter(|time: int| time + self.policy().spacing() > now)
        &&& after.earliest() == self.earliest()
        &&& forall|later: u64|
            later >= now ==> #[trigger] after.dispatch_time(later) == self.dispatch_time(later)
    }

    /// Place `i` of the record is place `base + i` of all times.
    proof fn lemma_record(&self, i: int)
        requires
            self.wf(),
            0 <= i < self.slots@.len(),
        ensures
            self.times().len() == self.base() + self.slots@.len(),
            self.marks().len() == self.times().len(),
            self.times()[self.base() + i] == self.slots@[i],
            self.marks()[self.base() + i] == self.returned@[i],
    {
    }

    /// Times are apart by at least the spacing, in their order.
    proof fn lemma_order(&self, g: int, h: int)
        requires
            self.wf(),
            0 <= g < h < self.times().len(),
        ensures
            self.times()[g] + self.interval <= self.times()[h],
    {
        lemma_spaced_apart(self.times(), self.interval as int, g, h);
        assert((h - g) * self.interval >= self.interval) by (nonlinear_arith)
            requires
                h - g >= 1,
                self.interval >= 0,
        ;
    }

    /// No time on record lies before the floor.
    proof fn lemma_floor(&self, g: int)
        requires
            self.wf(),
            self.base() <= g < self.times().len(),
        ensures
            self.floor <= self.times()[g],
            0 <= self.times()[g] <= u64::MAX,
    {
        self.lemma_record(g - self.base());
        if self.base() > 0 {
            self.lemma_order(self.base() - 1, g);
        }
    }

    /// The first place of the record from `from` on that holds a spare time
    /// not before `now`, or the length of the record.
    proof fn find_returned(&self, now: u64, from: int) -> (found: int)
        requires
            0 <= from <= self.slots@.len(),
            self.slots@.len() == self.returned@.len(),
        ensures
            from <= found <= self.slots@.len(),
            forall|k: int| from <= k < found ==> !(self.returned@[k] && self.slots@[k] >= now),
            found < self.slots@.len() ==> self.returned@[found] && self.slots@[found] >= now,
        decreases self.slots@.len() - from,
    {
        if from == self.slots@.len() {
            from
        } else if self.returned@[from] && self.slots@[from] >= now {
            from
        } else {
            self.find_returned(now, from + 1)
        }
    }

    /// Where place `i` of the record is the first that holds a spare time
    /// not before `now`, that time is the answer.
    proof fn lemma_first(&self, now: u64, i: int)
        requires
            self.wf(),
            0 <= i < self.slots@.len(),
            self.returned@[i],
            self.slots@[i] >= now,
            forall|k: int| 0 <= k < i ==> !(self.returned@[k] && self.slots@[k] >= now),
        ensures
            self.first_returned(now, self.slots@[i] as int),
            self.dispatch_time(now) == self.slots@[i],
    {
        let time = self.slots@[i] as int;
        self.lemma_record(i);
        assert(self.free_at(self.base() + i, time));
        assert forall|other: int| #[trigger] self.spare().contains(other) && other >= now implies time
            <= other by {
            let g = choose|g: int| self.free_at(g, other);
            self.lemma_record(g - self.base());
            if g > self.base() + i {
                self.lemma_order(self.base() + i, g);
            }
        }
        assert(self.spare().contains(time));
        assert(self.first_returned(now, time));
        let chosen = choose|t: int| self.first_returned(now, t);
        assert(self.first_returned(now, chosen));
        assert(self.spare().contains(chosen) && chosen >= now);
    }

    /// Where no place of the record holds a spare time not before
    /// `now`, the answer is a new time.
    proof fn lemma_none(&self, now: u64)
        requires
            self.wf(),
            forall|k: int|
                0 <= k < self.slots@.len() ==> !(self.returned@[k] && self.slots@[k] >= now),
        ensures
            forall|time: int| self.spare().contains(time) ==> time < now,
            self.dispatch_time(now) == if self.earliest() > now {
                self.earliest()
            } else {
                now as int
            },
    {
        assert forall|time: int| self.spare().contains(time) implies time < now by {
            let g = choose|g: int| self.free_at(g, time);
            self.lemma_record(g - self.base());
        }
        assert forall|time: int| !self.first_returned(now, time) by {
            if self.first_returned(now, time) {
                assert(self.spare().contains(time));
            }
        }
    }

    /// What holds of every sound state: log and spare times are finite and share
    /// no time, and the outstanding grants are part of the log; every time
    /// of the log lies at least one spacing before the earliest new time,
    /// every spare time more than that; and the time one spacing
    /// before the earliest new time is in the log, unless nothing was ever
    /// granted that is still counted.
    #[verifier::rlimit(100)]
    #[verifier::spinoff_prover]
    pub proof fn lemma_state(&self)
        requires
            self.wf(),
        ensures
            self.policy().wf(),
            self.policy().spacing() >= 1,
            self.log().finite(),
            self.spare().finite(),
            self.outstanding().subset_of(self.log()),
            self.log().disjoint(self.spare()),
            self.earliest() >= 0,
            forall|time: int| #[trigger]
                self.log().contains(time) ==> 0 <= time && time + self.policy().spacing()
                    <= self.earliest(),
            forall|time: int| #[trigger]
                self.spare().contains(time) ==> 0 <= time && time + self.policy().spacing()
                    < self.earliest(),
            self.earliest() > 0 ==> self.log().contains(self.earliest() - self.policy().spacing()),
            self.earliest() == 0 ==> self.log() == Set::<int>::empty() && self.spare()
                == Set::<int>::empty(),
    {
        let n = self.slots@.len() as int;
        let len = self.times().len() as int;
        let all = self.times().to_set();
        seq_to_set_is_finite(self.times());
        if n > 0 {
            self.lemma_record(n - 1);
            self.lemma_floor(len - 1);
        }
        assert forall|time: int| #[trigger] self.log().contains(time) implies all.contains(time)
            && 0 <= time && time + self.policy().spacing() <= self.earliest() by {
            let g = choose|g: int| self.held_at(g, time);
            assert(self.times()[g] == time);
            if g < self.base() {
                assert(0 <= self.past@[g]);
                if g < self.base() - 1 {
                    self.lemma_order(g, self.base() - 1);
                }
                if n > 0 {
                    self.lemma_floor(self.base());
                    self.lemma_order(self.base() - 1, len - 1);
                }
            } else {
                self.lemma_floor(g);
                if g < len - 1 {
                    self.lemma_order(g, len - 1);
                }
            }
        }
        assert forall|time: int| #[trigger] self.spare().contains(time) implies all.contains(time)
            && 0 <= time && time + self.policy().spacing() < self.earliest() by {
            let g = choose|g: int| self.free_at(g, time);
            assert(self.times()[g] == time);
            self.lemma_floor(g);
            self.lemma_record(g - self.base());
            self.lemma_order(g, len - 1);
        }
        vstd::set_lib::lemma_len_subset(self.log(), all);
        vstd::set_lib::lemma_len_subset(self.spare(), all);
        assert forall|time: int| self.outstanding().contains(time) implies self.log().contains(
            time,
        ) by {
            let g = choose|g: int| self.kept_at(g, time);
            assert(self.held_at(g, time));
        }
        assert forall|time: int| !(self.log().contains(time) && self.spare().contains(time)) by {
            if self.log().contains(time) && self.spare().contains(time) {
                let g = choose|g: int| self.held_at(g, time);
                let h = choose|h: int| self.free_at(h, time);
                if g < h {
                    self.lemma_order(g, h);
                } else if h < g {
                    self.lemma_order(h, g);
                }
            }
        }
        if n > 0 {
            assert(self.held_at(len - 1, self.earliest() - self.policy().spacing()));
        } else if self.base() > 0 {
            assert(self.held_at(self.base() - 1, self.earliest() - self.policy().spacing()));
        } else {
            assert(self.log() =~= Set::<int>::empty());
            assert(self.spare() =~= Set::<int>::empty());
        }
    }

    /// The answer to a caller who asks at `now` is never before `now`. It
    /// is a spare time wherever there is one that is not before `now`, and
    /// else the later of `now` and the earliest new time.
    pub proof fn lemma_dispatch_time(&self, now: u64)
        requires
            self.wf(),
        ensures
            self.dispatch_time(now) >= now,
            (exists|time: int| #[trigger] self.spare().contains(time) && time >= now)
                ==> self.first_returned(now, self.dispatch_time(now)),
            !(exists|time: int| #[trigger] self.spare().contains(time) && time >= now)
                ==> self.dispatch_time(now) == if self.earliest() > now {
                self.earliest()
            } else {
                now as int
            },
    {
        let found = self.find_returned(now, 0);
        if found < self.slots@.len() {
            self.lemma_first(now, found);
        } else {
            self.lemma_none(now);
        }
    }

    /// A throttle that has granted nothing yet.
    pub(crate) fn fresh(policy: ThrottlePolicy) -> (fresh: Self)
        requires
            policy.wf(),
        ensures
            fresh.wf(),
            fresh.policy() == policy,
            fresh.log() == Set::<int>::empty(),
            fresh.outstanding() == Set::<int>::empty(),
            fresh.spare() == Set::<int>::empty(),
            fresh.earliest() == 0,
    {
        let interval = policy.spacing_in_ms();
        let fresh = Throttle {
            policy,
            interval,
            slots: Vec::new(),
            returned: Vec::new(),
            floor: 0,
            past: Ghost(Seq::empty()),
        };
        assert(fresh.log() =~= Set::<int>::empty());
        assert(fresh.outstanding() =~= Set::<int>::empty());
        assert(fresh.spare() =~= Set::<int>::empty());
        fresh
    }

    /// A throttle that has granted nothing yet, unless the policy allows no
    /// request at all or has no window: there is no throttle for that.
    pub fn new(policy: ThrottlePolicy) -> (made: Option<Self>)
        ensures
            policy.wf() <==> made.is_some(),
            made.is_some() ==> made.unwrap().wf() && made.unwrap().policy() == policy
                && made.unwrap().log() == Set::<int>::empty() && made.unwrap().outstanding()
                == Set::<int>::empty() && made.unwrap().spare() == Set::<int>::empty()
                && made.unwrap().earliest() == 0,
    {
        if policy.max_requests >= 1 && policy.window_ms >= 1 {
            Option::Some(Self::fresh(policy))
        } else {
            Option::None
        }
    }

    /// Asks for the next dispatch. The answer is the time at which the caller
    /// may dispatch, and the caller waits until then. Every caller is
    /// answered; `None` comes only where that time is beyond what the clock
    /// can count, and then nothing is granted and the state is unchanged.
    #[verifier::rlimit(100)]
    #[verifier::spinoff_prover]
    pub fn acquire(&mut self, now: u64) -> (at: Option<u64>)
        requires
            old(self).wf(),
        ensures
            final(self).wf(),
            final(self).policy() == old(self).policy(),
            at == old(self).granted(now),
            at.is_some() ==> at.unwrap() >= now && old(self).grants(
                *final(self),
                at.unwrap() as int,
            ),
            at.is_none() ==> *final(self) == *old(self),
    {
        let n = self.slots.len();
        let mut i: usize = 0;
        while i < n && !(self.returned[i] && self.slots[i] >= now)
            invariant
                *self == *old(self),
                n == self.slots@.len(),
                n == self.returned@.len(),
                i <= n,
                forall|k: int| 0 <= k < i ==> !(self.returned@[k] && self.slots@[k] >= now),
            decreases n - i,
        {
            i += 1;
        }
        if i < n {
            let time = self.slots[i];
            proof {
                self.lemma_first(now, i as int);
            }
            self.returned.set(i, false);
            proof {
                Self::lemma_taken(*old(self), *self, i as int);
            }
            return Option::Some(time);
        }
        proof {
            self.lemma_none(now);
            self.lemma_state();
        }
        let earliest: u128 = if n == 0 {
            self.floor
        } else {
            self.slots[n - 1] as u128 + self.interval as u128
        };
        let time: u128 = if earliest > now as u128 {
            earliest
        } else {
            now as u128
        };
        if time > u64::MAX as u128 {
            return Option::None;
        }
        self.slots.push(time as u64);
        self.returned.push(false);
        proof {
            Self::lemma_added(*old(self), *self, time as int);
        }
        Option::Some(time as u64)
    }

    /// The state after a spare time was taken by a caller.
    #[verifier::rlimit(100)]
    #[verifier::spinoff_prover]
    proof fn lemma_taken(before: Throttle, after: Throttle, i: int)
        requires
            before.wf(),
            0 <= i < before.slots@.len(),
            before.returned@[i],
            after.policy == before.policy,
            after.interval == before.interval,
            after.floor == before.floor,
            after.past@ == before.past@,
            after.slots@ == before.slots@,
            after.returned@ == before.returned@.update(i, false),
        ensures
            after.wf(),
            before.grants(after, before.slots@[i] as int),
    {
        let time = before.slots@[i] as int;
        let at = before.base() + i;
        before.lemma_record(i);
        assert(after.times() =~= before.times());
        assert(after.marks() =~= before.marks().update(at, false));
        assert(after.wf());
        assert(before.free_at(at, time));
        assert(after.kept_at(at, time));
        assert(after.held_at(at, time));
        assert forall|t: int| after.log().contains(t) <==> before.log().insert(time).contains(
            t,
        ) by {
            if after.log().contains(t) {
                let g = choose|g: int| after.held_at(g, t);
                if g != at {
                    assert(before.held_at(g, t));
                }
            }
            if before.log().contains(t) {
                let g = choose|g: int| before.held_at(g, t);
                assert(after.held_at(g, t));
            }
        }
        assert forall|t: int| after.outstanding().contains(t) <==> before.outstanding().insert(
            time,
        ).contains(t) by {
            if after.outstanding().contains(t) {
                let g = choose|g: int| after.kept_at(g, t);
                if g != at {
                    assert(before.kept_at(g, t));
                }
            }
            if before.outstanding().contains(t) {
                let g = choose|g: int| before.kept_at(g, t);
                assert(after.kept_at(g, t));
            }
        }
        assert forall|t: int| after.spare().contains(t) <==> before.spare().remove(time).contains(
            t,
        ) by {
            if after.spare().contains(t) {
                let g = choose|g: int| after.free_at(g, t);
                assert(before.free_at(g, t));
                if g < at {
                    before.lemma_order(g, at);
                } else {
                    before.lemma_order(at, g);
                }
            }
            if before.spare().contains(t) && t != time {
                let g = choose|g: int| before.free_at(g, t);
                assert(after.free_at(g, t));
            }
        }
        assert(after.log() =~= before.log().insert(time));
        assert(after.outstanding() =~= before.outstanding().insert(time));
        assert(after.spare() =~= before.spare().remove(time));
    }

    /// The state after a new time was handed out.
    #[verifier::rlimit(100)]
    #[verifier::spinoff_prover]
    proof fn lemma_added(before: Throttle, after: Throttle, time: int)
        requires
            before.wf(),
            0 <= time <= u64::MAX,
            before.earliest() <= time,
            forall|t: int| before.spare().contains(t) ==> t < time,
            after.policy == before.policy,
            after.interval == before.interval,
            after.floor == before.floor,
            after.past@ == before.past@,
            after.slots@ == before.slots@.push(time as u64),
            after.returned@ == before.returned@.push(false),
        ensures
            after.wf(),
            before.grants(after, time),
    {
        let len = before.times().len() as int;
        before.lemma_state();
        assert(after.times() =~= before.times().push(time));
        assert(after.marks() =~= before.marks().push(false));
        assert forall|k: int| 0 <= k < after.times().len() - 1 implies #[trigger] after.times()[k]
            + after.interval <= after.times()[k + 1] by {
            if k < len - 1 {
                assert(before.times()[k] + before.interval <= before.times()[k + 1]);
            } else {
                Self::lemma_last_is_early(before);
            }
        }
        assert(after.wf());
        assert(after.kept_at(len, time));
        assert(after.held_at(len, time));
        assert forall|t: int| after.log().contains(t) <==> before.log().insert(time).contains(
            t,
        ) by {
            if after.log().contains(t) {
                let g = choose|g: int| after.held_at(g, t);
                if g < len {
                    assert(before.held_at(g, t));
                }
            }
            if before.log().contains(t) {
                let g = choose|g: int| before.held_at(g, t);
                assert(after.held_at(g, t));
            }
        }
        assert forall|t: int| after.outstanding().contains(t) <==> before.outstanding().insert(
            time,
        ).contains(t) by {
            if after.outstanding().contains(t) {
                let g = choose|g: int| after.kept_at(g, t);
                if g < len {
                    assert(before.kept_at(g, t));
                }
            }
            if before.outstanding().contains(t) {
                let g = choose|g: int| before.kept_at(g, t);
                assert(after.kept_at(g, t));
            }
        }
        assert forall|t: int| after.spare().contains(t) <==> before.spare().contains(t) by {
            if after.spare().contains(t) {
                let g = choose|g: int| after.free_at(g, t);
                assert(before.free_at(g, t));
            }
            if before.spare().contains(t) {
                let g = choose|g: int| before.free_at(g, t);
                assert(after.free_at(g, t));
            }
        }
        assert(after.log() =~= before.log().insert(time));
        assert(after.outstanding() =~= before.outstanding().insert(time));
        assert(after.spare() =~= before.spare().remove(time));
    }

    /// The last of all times lies at least one spacing before the earliest
    /// new time.
    proof fn lemma_last_is_early(state: Throttle)
        requires
            state.wf(),
            state.times().len() > 0,
        ensures
            state.times().last() + state.interval <= state.earliest(),
    {
        if state.slots@.len() > 0 {
            state.lemma_record(state.slots@.len() - 1);
        }
    }

    /// Gives a grant back that will not be used: the caller gave up waiting,
    /// or the request could not be built. Every outstanding grant can be
    /// given back, whatever was granted since, and `true` is returned: the
    /// log no longer holds it, and its time goes to the next caller who can
    /// still make it. `false` is returned for a time that is no outstanding
    /// grant, and then nothing changes.
    #[verifier::rlimit(100)]
    #[verifier::spinoff_prover]
    pub fn give_back(&mut self, at: u64) -> (given: bool)
        requires
            old(self).wf(),
        ensures
            final(self).wf(),
            final(self).policy() == old(self).policy(),
            given == old(self).returnable(at),
            given ==> old(self).takes_back(*final(self), at as int),
            !given ==> *final(self) == *old(self),
    {
        let n = self.slots.len();
        let mut i: usize = 0;
        while i < n && !(self.slots[i] == at && !self.returned[i])
            invariant
                *self == *old(self),
                self.wf(),
                n == self.slots@.len(),
                n == self.returned@.len(),
                i <= n,
                forall|k: int| 0 <= k < i ==> !(self.slots@[k] == at && !self.returned@[k]),
            decreases n - i,
        {
            i += 1;
        }
        if i == n {
            proof {
                if self.outstanding().contains(at as int) {
                    let g = choose|g: int| self.kept_at(g, at as int);
                    self.lemma_record(g - self.base());
                }
            }
            return false;
        }
        proof {
            self.lemma_record(i as int);
            assert(self.kept_at(self.base() + i, at as int));
        }
        self.returned.set(i, true);
        let ghost marked = self.returned@;
        let mut m: usize = n;
        assert(self.slots@ =~= old(self).slots@.take(n as int));
        assert(self.returned@ =~= marked.take(n as int));
        while m > 0 && self.returned[m - 1]
            invariant
                m <= n,
                i < n,
                n == old(self).slots@.len(),
                n == old(self).returned@.len(),
                m == self.slots@.len(),
                m == self.returned@.len(),
                self.policy == old(self).policy,
                self.interval == old(self).interval,
                self.floor == old(self).floor,
                self.past@ == old(self).past@,
                self.slots@ == old(self).slots@.take(m as int),
                self.returned@ == marked.take(m as int),
                marked == old(self).returned@.update(i as int, true),
                marked.len() == n,
                forall|k: int| m <= k < n ==> marked[k],
            decreases m,
        {
            self.slots.pop();
            self.returned.pop();
            m -= 1;
            assert(self.slots@ =~= old(self).slots@.take(m as int));
            assert(self.returned@ =~= marked.take(m as int));
        }
        proof {
            Self::lemma_given_back(*old(self), *self, i as int, m as int);
        }
        true
    }

    /// The state after the grant at place `i` of the record was given back
    /// and the record was cut back to its first `m` places.
    #[verifier::rlimit(100)]
    #[verifier::spinoff_prover]
    proof fn lemma_given_back(before: Throttle, after: Throttle, i: int, m: int)
        requires
            before.wf(),
            0 <= i < before.slots@.len(),
            !before.returned@[i],
            0 <= m <= before.slots@.len(),
            after.policy == before.policy,
            after.interval == before.interval,
            after.floor == before.floor,
            after.past@ == before.past@,
            after.slots@ == before.slots@.take(m),
            after.returned@ == before.returned@.update(i, true).take(m),
            forall|k: int| m <= k < before.slots@.len() ==> before.returned@.update(i, true)[k],
            m > 0 ==> !before.returned@.update(i, true)[m - 1],
        ensures
            after.wf(),
            before.takes_back(after, before.slots@[i] as int),
    {
        let n = before.slots@.len() as int;
        let base = before.base();
        let at = before.slots@[i] as int;
        let here = base + i;
        let marked = before.marks().update(here, true);
        before.lemma_record(i);
        assert(after.times() =~= before.times().take(base + m));
        assert(after.marks() =~= marked.take(base + m));
        assert forall|g: int| base + m <= g < base + n implies marked[g] by {
            before.lemma_record(g - base);
            assert(before.returned@.update(i, true)[g - base]);
        }
        if m > 0 {
            before.lemma_record(m - 1);
            assert(!marked[base + m - 1]);
        }
        assert forall|k: int| 0 <= k < after.times().len() - 1 implies #[trigger] after.times()[k]
            + after.interval <= after.times()[k + 1] by {
            assert(before.times()[k] + before.interval <= before.times()[k + 1]);
        }
        assert(after.wf());
        if m > 0 {
            if m < n {
                before.lemma_order(base + m - 1, base + n - 1);
            }
            before.lemma_record(n - 1);
        } else {
            before.lemma_floor(base + n - 1);
            before.lemma_record(n - 1);
        }
        assert(after.earliest() <= before.earliest());
        assert forall|t: int| after.log().contains(t) <==> before.log().remove(at).contains(
            t,
        ) by {
            if after.log().contains(t) {
                let g = choose|g: int| after.held_at(g, t);
                assert(before.held_at(g, t));
                if g < here {
                    before.lemma_order(g, here);
                } else if here < g {
                    before.lemma_order(here, g);
                }
            }
            if before.log().contains(t) && t != at {
                let g = choose|g: int| before.held_at(g, t);
                assert(!marked[g]);
                assert(after.held_at(g, t));
            }
        }
        assert forall|t: int| after.outstanding().contains(t) <==> before.outstanding().remove(
            at,
        ).contains(t) by {
            if after.outstanding().contains(t) {
                let g = choose|g: int| after.kept_at(g, t);
                assert(before.kept_at(g, t));
                if g < here {
                    before.lemma_order(g, here);
                } else if here < g {
                    before.lemma_order(here, g);
                }
            }
            if before.outstanding().contains(t) && t != at {
                let g = choose|g: int| before.kept_at(g, t);
                assert(!marked[g]);
                assert(after.kept_at(g, t));
            }
        }
        assert(after.log() =~= before.log().remove(at));
        assert(after.outstanding() =~= before.outstanding().remove(at));
        let kept = |time: int| time + before.policy().spacing() < after.earliest();
        assert forall|t: int| after.spare().contains(t) <==> before.spare().insert(at).filter(
            kept,
        ).contains(t) by {
            if after.spare().contains(t) {
                let g = choose|g: int| after.free_at(g, t);
                assert(marked[g]);
                if g != here {
                    assert(before.free_at(g, t));
                }
                assert(g < base + m - 1);
                before.lemma_order(g, base + m - 1);
                before.lemma_record(m - 1);
            }
            if before.spare().insert(at).contains(t) && kept(t) {
                let g = if t == at {
                    here
                } else {
                    choose|g: int| before.free_at(g, t)
                };
                assert(marked[g]);
                if g >= base + m {
                    if m > 0 {
                        before.lemma_order(base + m - 1, g);
                        before.lemma_record(m - 1);
                    } else {
                        before.lemma_floor(g);
                    }
                }
                assert(after.free_at(g, t));
            }
        }
        assert(after.spare() =~= before.spare().insert(at).filter(kept));
        assert forall|other: int| #[trigger]
            before.spare().insert(at).contains(other) && !after.spare().contains(
                other,
            ) implies other >= after.earliest() by {
            let g = if other == at {
                here
            } else {
                choose|g: int| before.free_at(g, other)
            };
            assert(marked[g]);
            if g < base + m {
                assert(after.free_at(g, other));
            } else if m > 0 {
                before.lemma_order(base + m - 1, g);
                before.lemma_record(m - 1);
            } else {
                before.lemma_floor(g);
            }
        }
        after.lemma_state();
        before.lemma_state();
        assert forall|now: u64| #[trigger]
            after.dispatch_time(now) <= before.dispatch_time(now) by {
            before.lemma_dispatch_time(now);
            after.lemma_dispatch_time(now);
            let was = before.dispatch_time(now);
            let is = after.dispatch_time(now);
            if exists|time: int| #[trigger] before.spare().contains(time) && time >= now {
                assert(before.spare().insert(at).contains(was));
                if after.spare().contains(was) {
                } else {
                    assert(was >= after.earliest());
                    if exists|time: int| #[trigger] after.spare().contains(time) && time >= now {
                        assert(after.spare().contains(is));
                    }
                }
            } else {
                if exists|time: int| #[trigger] after.spare().contains(time) && time >= now {
                    assert(after.spare().contains(is));
                }
            }
        }
        assert forall|now: u64| now <= at implies #[trigger] after.dispatch_time(now) <= at by {
            after.lemma_dispatch_time(now);
            let is = after.dispatch_time(now);
            assert(before.spare().insert(at).contains(at));
            if after.spare().contains(at) {
            } else {
                assert(at >= after.earliest());
                if exists|time: int| #[trigger] after.spare().contains(time) && time >= now {
                    assert(after.spare().contains(is));
                }
            }
        }
    }

    /// The forgotten grants once the first `k` places of the record are
    /// forgotten too: the grants among them are added, in their order.
    closed spec fn moved(&self, k: int) -> Seq<int>
        decreases k,
    {
        if k <= 0 {
            self.past@
        } else if !self.returned@[k - 1] {
            self.moved(k - 1).push(self.slots@[k - 1] as int)
        } else {
            self.moved(k - 1)
        }
    }

    /// The places of the record from `k` on.
    closed spec fn rest(&self, k: int) -> Seq<int> {
        Seq::new((self.slots@.len() - k) as nat, |i: int| self.slots@[k + i] as int)
    }

    /// Place `j` of the record is among the first `k` and holds the grant
    /// `time`.
    closed spec fn early_at(&self, j: int, k: int, time: int) -> bool {
        0 <= j < k && j < self.slots@.len() && self.slots@[j] == time && !self.returned@[j]
    }

    /// What `moved` holds.
    proof fn lemma_moved_holds(&self, k: int)
        requires
            self.wf(),
            0 <= k <= self.slots@.len(),
        ensures
            self.moved(k).len() <= self.base() + k,
            forall|g: int| 0 <= g < self.moved(k).len() ==> 0 <= #[trigger] self.moved(k)[g],
            forall|t: int| #[trigger]
                self.moved(k).contains(t) <==> (self.past@.contains(t) || exists|j: int|
                    self.early_at(j, k, t)),
            self.slots@.len() > 0 && k == self.slots@.len() ==> self.moved(k).len() > 0
                && self.moved(k).last() == self.slots@.last(),
        decreases k,
    {
        if k > 0 {
            self.lemma_moved_holds(k - 1);
            let prev = self.moved(k - 1);
            let next = self.moved(k);
            let cut = prev.len() as int;
            let less = k - 1;
            assert forall|t: int| next.contains(t) implies (self.past@.contains(t) || exists|
                j: int,
            | self.early_at(j, k, t)) by {
                let g = choose|g: int| 0 <= g < next.len() && next[g] == t;
                if g < cut {
                    assert(prev[g] == t);
                    assert(prev.contains(t));
                    if !self.past@.contains(t) {
                        let j = choose|j: int| self.early_at(j, less, t);
                        assert(self.early_at(j, k, t));
                    }
                } else {
                    assert(self.early_at(k - 1, k, t));
                }
            }
            assert forall|t: int|
                (self.past@.contains(t) || exists|j: int|
                    self.early_at(j, k, t)) implies next.contains(t) by {
                if !self.past@.contains(t) {
                    let j = choose|j: int| self.early_at(j, k, t);
                    if j < k - 1 {
                        assert(self.early_at(j, less, t));
                    }
                }
                if prev.contains(t) {
                    let g = choose|g: int| 0 <= g < prev.len() && prev[g] == t;
                    assert(next[g] == t);
                } else {
                    assert(next[cut] == t);
                }
            }
        }
    }

    /// `moved` keeps the times spaced.
    proof fn lemma_moved_spaced(&self, k: int)
        requires
            self.wf(),
            0 <= k <= self.slots@.len(),
        ensures
            spaced(self.moved(k) + self.rest(k), self.interval as int),
        decreases k,
    {
        if k == 0 {
            assert(self.moved(0) + self.rest(0) =~= self.times());
        } else {
            self.lemma_moved_spaced(k - 1);
            let prev = self.moved(k - 1);
            let was = prev + self.rest(k - 1);
            let is = self.moved(k) + self.rest(k);
            let cut = prev.len() as int;
            if !self.returned@[k - 1] {
                assert(is =~= was);
            } else {
                assert(is.len() == was.len() - 1);
                assert forall|p: int| 0 <= p < is.len() implies is[p] == if p < cut {
                    was[p]
                } else {
                    was[p + 1]
                } by {}
                assert forall|p: int| 0 <= p < is.len() - 1 implies #[trigger] is[p]
                    + self.interval <= is[p + 1] by {
                    if p + 1 < cut {
                        assert(was[p] + self.interval <= was[p + 1]);
                    } else if p >= cut {
                        assert(was[p + 1] + self.interval <= was[p + 1 + 1]);
                    } else {
                        assert(was[p] + self.interval <= was[p + 1]);
                        assert(was[p + 1] + self.interval <= was[p + 1 + 1]);
                    }
                }
            }
        }
    }

    /// Forgets every time on record that lies a spacing or more before
    /// `now`: no caller who asks at `now` or later can be held back by it or
    /// take it as a spare time. The grants among them stay in the log and
    /// can no longer be given back.
    #[verifier::rlimit(100)]
    #[verifier::spinoff_prover]
    pub fn forget(&mut self, now: u64)
        requires
            old(self).wf(),
        ensures
            final(self).wf(),
            old(self).forgets(*final(self), now),
    {
        let n = self.slots.len();
        let mut k: usize = 0;
        let mut floor: u128 = self.floor;
        while k < n && self.slots[k] as u128 + self.interval as u128 <= now as u128
            invariant
                *self == *old(self),
                self.wf(),
                n == self.slots@.len(),
                n == self.returned@.len(),
                k <= n,
                forall|j: int| 0 <= j < k ==> self.slots@[j] + self.interval <= now,
                floor == floor_of(self.moved(k as int), self.interval as int),
            decreases n - k,
        {
            if !self.returned[k] {
                floor = self.slots[k] as u128 + self.interval as u128;
            }
            k += 1;
        }
        if k > 0 {
            let kept_slots = self.slots.split_off(k);
            self.slots = kept_slots;
            let kept_returned = self.returned.split_off(k);
            self.returned = kept_returned;
            self.floor = floor;
            proof {
                self.past = Ghost(old(self).moved(k as int));
            }
        }
        proof {
            assert(old(self).slots@.subrange(0, n as int) =~= old(self).slots@);
            assert(old(self).returned@.subrange(0, n as int) =~= old(self).returned@);
            Self::lemma_forgotten(*old(self), *self, k as int, now);
        }
    }

    /// `after` is `before` with the first `k` places of its record forgotten,
    /// and these are the places that lie a spacing or more before `now`.
    closed spec fn forgot(before: Throttle, after: Throttle, k: int, now: u64) -> bool {
        &&& before.wf()
        &&& 0 <= k <= before.slots@.len()
        &&& (forall|j: int| 0 <= j < k ==> #[trigger] before.slots@[j] + before.interval <= now)
        &&& (k < before.slots@.len() ==> before.slots@[k] + before.interval > now)
        &&& after.policy == before.policy
        &&& after.interval == before.interval
        &&& after.floor == floor_of(before.moved(k), before.interval as int)
        &&& after.past@ == before.moved(k)
        &&& after.slots@ == before.slots@.subrange(k, before.slots@.len() as int)
        &&& after.returned@ == before.returned@.subrange(k, before.slots@.len() as int)
    }

    /// After forgetting, the state is sound, and what is left on record is
    /// what was on record from place `k` on.
    #[verifier::rlimit(100)]
    #[verifier::spinoff_prover]
    proof fn lemma_forgotten_record(before: Throttle, after: Throttle, k: int, now: u64)
        requires
            Self::forgot(before, after, k, now),
        ensures
            after.wf(),
            after.earliest() == before.earliest(),
            after.times().len() == after.base() + before.slots@.len() - k,
            forall|j: int|
                k <= j < before.slots@.len() ==> after.times()[after.base() + j - k]
                    == #[trigger] before.slots@[j] && after.marks()[after.base() + j - k]
                    == before.returned@[j] && before.times()[before.base() + j]
                    == before.slots@[j] && before.marks()[before.base() + j]
                    == before.returned@[j] && before.slots@[j] + before.interval > now,
    {
        let n = before.slots@.len() as int;
        let base = before.base();
        before.lemma_moved_holds(k);
        before.lemma_moved_spaced(k);
        assert(after.times() =~= before.moved(k) + before.rest(k));
        if k < n {
            before.lemma_record(n - 1);
        }
        assert(after.wf());
        assert forall|j: int| k <= j < n implies after.times()[after.base() + j - k]
            == #[trigger] before.slots@[j] && after.marks()[after.base() + j - k]
            == before.returned@[j] && before.times()[base + j] == before.slots@[j]
            && before.marks()[base + j] == before.returned@[j] && before.slots@[j]
            + before.interval > now by {
            before.lemma_record(j);
            after.lemma_record(j - k);
            if j > k {
                before.lemma_order(base + k, base + j);
                before.lemma_record(k);
            }
        }
    }

    /// Forgetting leaves the log as it is.
    #[verifier::rlimit(100)]
    #[verifier::spinoff_prover]
    proof fn lemma_forgotten_log(before: Throttle, after: Throttle, k: int, now: u64)
        requires
            Self::forgot(before, after, k, now),
        ensures
            after.log() == before.log(),
    {
        let base = before.base();
        let shift = after.base();
        let gone = before.moved(k);
        let past = before.past@;
        before.lemma_moved_holds(k);
        Self::lemma_forgotten_record(before, after, k, now);
        assert forall|t: int| after.log().contains(t) implies before.log().contains(t) by {
            let g = choose|g: int| after.held_at(g, t);
            if g < shift {
                assert(gone[g] == t);
                assert(gone.contains(t));
                if past.contains(t) {
                    let h = choose|h: int| 0 <= h < past.len() && past[h] == t;
                    assert(before.held_at(h, t));
                } else {
                    let j = choose|j: int| before.early_at(j, k, t);
                    before.lemma_record(j);
                    assert(before.held_at(base + j, t));
                }
            } else {
                let j = g - shift + k;
                assert(before.slots@[j] == t);
                assert(before.held_at(base + j, t));
            }
        }
        assert forall|t: int| before.log().contains(t) implies after.log().contains(t) by {
            let g = choose|g: int| before.held_at(g, t);
            if g < base {
                assert(past[g] == t);
                assert(past.contains(t));
                assert(gone.contains(t));
                let h = choose|h: int| 0 <= h < gone.len() && gone[h] == t;
                assert(after.held_at(h, t));
            } else if g - base < k {
                before.lemma_record(g - base);
                assert(before.early_at(g - base, k, t));
                assert(gone.contains(t));
                let h = choose|h: int| 0 <= h < gone.len() && gone[h] == t;
                assert(after.held_at(h, t));
            } else {
                let j = g - base;
                before.lemma_record(j);
                assert(before.slots@[j] == t);
                assert(after.held_at(shift + j - k, t));
            }
        }
        assert(after.log() =~= before.log());
    }

    /// Forgetting keeps of the outstanding grants and of the spare times
    /// those that lie less than a spacing before `now`.
    #[verifier::rlimit(100)]
    #[verifier::spinoff_prover]
    proof fn lemma_forgotten_sets(before: Throttle, after: Throttle, k: int, now: u64)
        requires
            Self::forgot(before, after, k, now),
        ensures
            after.outstanding() == before.outstanding().filter(
                |time: int| time + before.policy().spacing() > now,
            ),
            after.spare() == before.spare().filter(
                |time: int| time + before.policy().spacing() > now,
            ),
    {
        let base = before.base();
        let shift = after.base();
        Self::lemma_forgotten_record(before, after, k, now);
        let recent = |time: int| time + before.policy().spacing() > now;
        assert forall|t: int| after.outstanding().contains(t) <==> before.outstanding().filter(
            recent,
        ).contains(t) by {
            if after.outstanding().contains(t) {
                let g = choose|g: int| after.kept_at(g, t);
                let j = g - shift + k;
                assert(before.slots@[j] == t);
                assert(before.kept_at(base + j, t));
            }
            if before.outstanding().contains(t) && recent(t) {
                let g = choose|g: int| before.kept_at(g, t);
                let j = g - base;
                before.lemma_record(j);
                assert(before.slots@[j] == t);
                assert(after.kept_at(shift + j - k, t));
            }
        }
        assert forall|t: int| after.spare().contains(t) <==> before.spare().filter(recent).contains(
            t,
        ) by {
            if after.spare().contains(t) {
                let g = choose|g: int| after.free_at(g, t);
                let j = g - shift + k;
                assert(before.slots@[j] == t);
                assert(before.free_at(base + j, t));
            }
            if before.spare().contains(t) && recent(t) {
                let g = choose|g: int| before.free_at(g, t);
                let j = g - base;
                before.lemma_record(j);
                assert(before.slots@[j] == t);
                assert(after.free_at(shift + j - k, t));
            }
        }
        assert(after.outstanding() =~= before.outstanding().filter(recent));
        assert(after.spare() =~= before.spare().filter(recent));
    }

    /// The state after the first `k` places of the record were forgotten.
    proof fn lemma_forgotten(before: Throttle, after: Throttle, k: int, now: u64)
        requires
            Self::forgot(before, after, k, now),
        ensures
            after.wf(),
            before.forgets(after, now),
    {
        Self::lemma_forgotten_record(before, after, k, now);
        Self::lemma_forgotten_log(before, after, k, now);
        Self::lemma_forgotten_sets(before, after, k, now);
        before.lemma_state();
        let recent = |time: int| time + before.policy().spacing() > now;
        assert forall|later: u64| later >= now implies #[trigger] after.dispatch_time(later)
            == before.dispatch_time(later) by {
            before.lemma_dispatch_time(later);
            after.lemma_dispatch_time(later);
            let was = before.dispatch_time(later);
            let is = after.dispatch_time(later);
            if exists|time: int| #[trigger] before.spare().contains(time) && time >= later {
                assert(before.spare().contains(was) && was >= later);
                assert(recent(was));
                assert(after.spare().contains(was));
                assert(after.spare().contains(is));
                assert(before.spare().contains(is));
            } else {
                if exists|time: int| #[trigger] after.spare().contains(time) && time >= later {
                    assert(after.spare().contains(is));
                    assert(before.spare().contains(is));
                }
            }
        }
    }

    /// A grant that is given back costs nothing: the log is what it was
    /// before the grant, and so are the outstanding grants. So a caller who
    /// gave up waiting, or whose request could not be built, leaves no
    /// dispatch counted and no later caller held back.
    pub proof fn lemma_unused_grant_costs_nothing(
        before: Throttle,
        granted: Throttle,
        after: Throttle,
        now: u64,
        time: u64,
    )
        requires
            before.wf(),
            before.granted(now) == Option::Some(time),
            before.grants(granted, time as int),
            granted.takes_back(after, time as int),
        ensures
            after.log() == before.log(),
            after.outstanding() == before.outstanding(),
            forall|later: u64| later <= time ==> #[trigger] after.dispatch_time(later) <= time,
    {
        before.lemma_state();
        before.lemma_dispatch_time(now);
        assert(!before.log().contains(time as int));
        assert(!before.outstanding().contains(time as int));
        assert(after.log() =~= before.log());
        assert(after.outstanding() =~= before.outstanding());
    }

    /// The rate law: whatever was asked of this throttle and when, no window of
    /// the policy's length holds more dispatches than its maximum.
    pub proof fn lemma_quota_kept(&self, from: int)
        requires
            self.wf(),
        ensures
            dispatched_within(self.log(), from, from + self.policy().window_ms)
                <= self.policy().max_requests,
    {
        self.policy.lemma_spacing_covers_window();
        self.lemma_span_quota(from, self.policy.window_ms as int, self.policy.max_requests as nat);
    }

    /// The rate law for any window: one that `quota` spacings cover holds
    /// at most `quota` dispatches.
    pub proof fn lemma_span_quota(&self, from: int, span: int, quota: nat)
        requires
            self.wf(),
            quota * self.policy().spacing() >= span,
        ensures
            dispatched_within(self.log(), from, from + span) <= quota,
    {
        let window = in_window(from, from + span);
        let times = self.times();
        lemma_window_quota(times, self.interval as int, quota, from, span);
        let inside = times.filter(window);
        let seen = self.log().filter(window);
        assert forall|time: int| seen.contains(time) implies inside.to_set().contains(time) by {
            let i = choose|i: int| self.held_at(i, time);
            assert(times[i] == time);
            times.lemma_filter_contains(window, i);
        }
        seq_to_set_is_finite(inside);
        inside.lemma_cardinality_of_set();
        vstd::set_lib::lemma_len_subset(seen, inside.to_set());
    }
}

/// Under the default policy no 35 seconds hold more than 50 dispatches, and
/// no 30 seconds more than 43: well under the 50 at which the service bans.
pub proof fn lemma_default_quota(throttle: Throttle, from: int)
    requires
        throttle.wf(),
        throttle.policy() == (ThrottlePolicy {
            max_requests: DEFAULT_MAX_REQUESTS,
            window_ms: DEFAULT_WINDOW_MS,
        }),
    ensures
        dispatched_within(throttle.log(), from, from + 35_000) <= 50,
        dispatched_within(throttle.log(), from, from + 30_000) <= 43,
{
    throttle.lemma_quota_kept(from);
    assert(throttle.policy().spacing() == 700) by {
        assert(throttle.policy().max_requests == 50 && throttle.policy().window_ms == 35_000);
        vstd::arithmetic::div_mod::lemma_fundamental_div_mod_converse(35_049, 50, 700, 49);
    }
    throttle.lemma_span_quota(from, 30_000, 43);
}

} // verus!
