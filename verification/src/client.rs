//! The client handle: a backend, the identification value that every request
//! carries, and the throttle. Clones are cheap and share one throttle.

use vstd::prelude::*;
use vstd::rwlock::RwLock;
use vstd::rwlock::RwLockPredicate;
use std::sync::Arc;
use std::time::Duration;
use tokio::sync::Semaphore;
use crate::error::ConfigurationError;
use crate::pipeline::Event;
use crate::throttle::Throttle;
use crate::throttle::ThrottlePolicy;

verus! {

/// How many requests of one handle, clones included, may be under way at once.
pub const SLOTS: usize = 15;

/// The pool of permits that bounds the requests under way. Permits are taken
/// and given back by the code that awaits; the library only makes the pool
/// and hands it to every clone.
#[verifier::external_type_specification]
#[verifier::external_body]
pub struct ExSemaphore(tokio::sync::Semaphore);

/// The number of permits that a pool was made with.
pub uninterp spec fn permits_made(pool: Semaphore) -> nat;

/// `Semaphore::new` makes a pool with the given number of permits, all of
/// them free. It panics above `Semaphore::MAX_PERMITS`, which is
/// `usize::MAX >> 3`.
pub assume_specification[ Semaphore::new ](permits: usize) -> (pool: Semaphore)
    requires
        permits <= usize::MAX / 8,
    ensures
        permits_made(pool) == permits,
;

/// `Arc::clone` gives another pointer to the same allocation, so what the
/// two point to is one value.
#[verifier::external_body]
fn share<T>(pointer: &Arc<T>) -> (same: Arc<T>)
    ensures
        same == *pointer,
{
    Arc::clone(pointer)
}

/// What the lock of a handle holds: a sound throttle that keeps the
/// handle's policy.
struct KeepsPolicy {
    policy: ThrottlePolicy,
}

impl RwLockPredicate<Throttle> for KeepsPolicy {
    closed spec fn inv(self, state: Throttle) -> bool {
        state.wf() && state.policy() == self.policy
    }
}

/// The identification value that a handle gets: the configured one, or else
/// the environment's.
pub open spec fn chosen_agent(
    configured: Option<Seq<char>>,
    environment: Option<Seq<char>>,
) -> Option<Seq<char>> {
    if configured.is_some() {
        configured
    } else {
        environment
    }
}

/// The text of an optional string slice.
pub open spec fn text(value: Option<&str>) -> Option<Seq<char>> {
    match value {
        Option::Some(s) => Option::Some(s@),
        Option::None => Option::None,
    }
}

/// The policy that a handle gets: the default quota, over the configured
/// window or else the default one.
pub open spec fn chosen_policy(window: Option<Duration>) -> ThrottlePolicy {
    match window {
        Option::Some(span) => ThrottlePolicy {
            max_requests: crate::throttle::DEFAULT_MAX_REQUESTS,
            window_ms: crate::throttle::clamped_millis(span),
        },
        Option::None => ThrottlePolicy {
            max_requests: crate::throttle::DEFAULT_MAX_REQUESTS,
            window_ms: crate::throttle::DEFAULT_WINDOW_MS,
        },
    }
}

/// The main handle for sending requests to the service.
pub struct NsClient<C> {
    client: C,
    user_agent: String,
    policy: ThrottlePolicy,
    throttle: Arc<RwLock<Throttle, KeepsPolicy>>,
    slot: Arc<Semaphore>,
}

impl<C> NsClient<C> {
    #[verifier::type_invariant]
    spec fn throttle_keeps_policy(&self) -> bool {
        self.policy.wf() && self.throttle.pred().policy == self.policy
    }

    /// The backend that this handle sends through.
    pub closed spec fn backend_spec(&self) -> C {
        self.client
    }

    /// The identification value of this handle.
    pub closed spec fn agent(&self) -> Seq<char> {
        self.user_agent@
    }

    /// The quota that this handle keeps.
    pub closed spec fn policy_spec(&self) -> ThrottlePolicy {
        self.throttle.pred().policy
    }

    /// The pool of permits of this handle. It was made with `SLOTS` permits.
    pub closed spec fn pool(&self) -> Arc<Semaphore> {
        self.slot
    }

    /// Both handles pass their requests through one throttle and one pool.
    pub closed spec fn shares_throttle(&self, other: &Self) -> bool {
        self.throttle == other.throttle && self.slot == other.slot
    }

    /// `state` is one that the throttle of this handle can be in.
    pub closed spec fn may_hold(&self, state: Throttle) -> bool {
        self.throttle.inv(state)
    }

    /// Handles that share a throttle see the same states of it, keep the
    /// same quota and draw on the same pool.
    pub proof fn lemma_clones_share(&self, other: &Self)
        requires
            self.shares_throttle(other),
        ensures
            self.policy_spec() == other.policy_spec(),
            self.pool() == other.pool(),
            forall|state: Throttle| self.may_hold(state) == other.may_hold(state),
    {
    }

    /// Whatever state the shared throttle is in, and whichever handles asked
    /// it, no window of the policy's length holds more dispatches than the
    /// policy's maximum.
    pub proof fn lemma_combined_quota(&self, state: Throttle, from: int)
        requires
            self.may_hold(state),
        ensures
            state.wf(),
            state.policy() == self.policy_spec(),
            crate::throttle::dispatched_within(
                state.log(),
                from,
                from + self.policy_spec().window_ms,
            ) <= self.policy_spec().max_requests,
    {
        state.lemma_quota_kept(from);
    }

    /// A handle with the default settings, identified by the environment's
    /// value.
    pub fn new(client: C, environment: Option<&str>) -> (made: Result<Self, ConfigurationError>)
        ensures
            environment.is_none() ==> made == Result::<Self, ConfigurationError>::Err(
                ConfigurationError::MissingUserAgent,
            ),
            environment.is_some() ==> made.is_ok() && made.unwrap().backend_spec() == client
                && made.unwrap().agent() == environment.unwrap()@ && made.unwrap().policy_spec()
                == chosen_policy(Option::None) && permits_made(*made.unwrap().pool()) == SLOTS,
    {
        NsClientBuilder::new().build(client, environment)
    }

    /// The backend that this handle sends through.
    pub fn backend(&self) -> (client: &C)
        ensures
            *client == self.backend_spec(),
    {
        &self.client
    }

    /// The identification value that requests of this handle carry.
    pub fn user_agent(&self) -> (agent: &str)
        ensures
            agent@ == self.agent(),
    {
        self.user_agent.as_str()
    }

    /// The quota that this handle keeps.
    pub fn policy(&self) -> (policy: ThrottlePolicy)
        ensures
            policy == self.policy_spec(),
            policy.wf(),
    {
        proof {
            use_type_invariant(self);
        }
        self.policy
    }

    /// The pool of permits shared by this handle and its clones.
    pub fn slot(&self) -> (pool: &Arc<Semaphore>)
        ensures
            *pool == self.pool(),
    {
        &self.slot
    }

    /// Asks the shared throttle for the next dispatch, at time `now`. The
    /// answer is the time at which this caller may dispatch: what
    /// `Throttle::acquire` answers at `now` in the state that the shared
    /// throttle is in when it is asked, once it has forgotten what lies a
    /// spacing or more before `now`. Other handles may have moved that
    /// state since this one last saw it, so which state it is cannot be said
    /// here; it is one that keeps this handle's policy.
    pub fn acquire(&self, now: u64) -> (at: Option<u64>)
        ensures
            exists|state: Throttle| #[trigger] self.may_hold(state) && at == state.granted(now),
            at.is_some() ==> at.unwrap() >= now,
    {
        proof {
            use_type_invariant(self);
        }
        let (mut state, handle) = self.throttle.acquire_write();
        state.forget(now);
        let ghost asked = state;
        let at = state.acquire(now);
        handle.release_write(state);
        assert(self.may_hold(asked) && at == asked.granted(now));
        at
    }

    /// Gives back a grant of the shared throttle that will not be used, as
    /// `Throttle::give_back` does in the state that the shared throttle is
    /// in when it is asked. It tells whether the grant's time is free again:
    /// that is so where the grant is the latest of that state, which it is
    /// as long as no handle was granted anything since.
    pub fn give_back(&self, at: u64) -> (given: bool)
        ensures
            exists|state: Throttle| #[trigger] self.may_hold(state) && given == state.returnable(at),
    {
        proof {
            use_type_invariant(self);
        }
        let (mut state, handle) = self.throttle.acquire_write();
        let ghost asked = state;
        let given = state.give_back(at);
        handle.release_write(state);
        assert(self.may_hold(asked) && given == asked.returnable(at));
        given
    }

    /// Settles the grant of a request that has ended, as `settle` does in
    /// the state that the shared throttle is in when it is asked: the grant
    /// of a request that could not be built is given back, any other stays
    /// counted. It tells whether the grant was given back.
    pub fn settle(&self, at: u64, event: Event) -> (given: bool)
        ensures
            exists|state: Throttle| #[trigger]
                self.may_hold(state) && given == (crate::pipeline::returns_grant(event)
                    && state.returnable(at)),
            !crate::pipeline::returns_grant(event) ==> !given,
    {
        proof {
            use_type_invariant(self);
        }
        let (mut state, handle) = self.throttle.acquire_write();
        let ghost asked = state;
        let given = crate::pipeline::settle(&mut state, at, event);
        handle.release_write(state);
        assert(self.may_hold(asked) && given == (crate::pipeline::returns_grant(event)
            && asked.returnable(at)));
        given
    }
}

impl<C: Clone> Clone for NsClient<C> {
    /// Another handle on the same throttle: the quota is the service's, not
    /// the handle's.
    fn clone(&self) -> (twin: Self)
        ensures
            twin.shares_throttle(self),
            twin.agent() == self.agent(),
            twin.policy_spec() == self.policy_spec(),
            cloned(self.backend_spec(), twin.backend_spec()),
    {
        proof {
            use_type_invariant(self);
        }
        NsClient {
            client: self.client.clone(),
            user_agent: self.user_agent.clone(),
            policy: self.policy,
            throttle: share(&self.throttle),
            slot: share(&self.slot),
        }
    }
}

/// Options for a client handle.
#[derive(Debug, Clone)]
pub struct NsClientBuilder {
    user_agent: Option<String>,
    throttle: Option<Duration>,
}

impl NsClientBuilder {
    /// The identification value configured so far.
    pub closed spec fn agent(&self) -> Option<Seq<char>> {
        match self.user_agent {
            Option::Some(s) => Option::Some(s@),
            Option::None => Option::None,
        }
    }

    /// The window configured so far.
    pub closed spec fn window(&self) -> Option<Duration> {
        self.throttle
    }

    /// The identification value configured so far.
    pub fn configured_user_agent(&self) -> (agent: Option<&str>)
        ensures
            text(agent) == self.agent(),
    {
        match &self.user_agent {
            Option::Some(configured) => Option::Some(configured.as_str()),
            Option::None => Option::None,
        }
    }

    /// The window configured so far.
    pub fn configured_throttle(&self) -> (window: Option<Duration>)
        ensures
            window == self.window(),
    {
        self.throttle
    }

    /// Options with nothing configured.
    pub fn new() -> (options: Self)
        ensures
            options.agent().is_none(),
            options.window().is_none(),
    {
        NsClientBuilder { user_agent: Option::None, throttle: Option::None }
    }

    /// Sets the identification value, in place of the environment's.
    pub fn user_agent(self, user_agent: &str) -> (options: Self)
        ensures
            options.agent() == Option::Some(user_agent@),
            options.window() == self.window(),
    {
        let mut options = self;
        options.user_agent = Option::Some(user_agent.to_owned());
        options
    }

    /// Sets the length of the window in which the default number of
    /// requests may be dispatched.
    pub fn throttle(self, throttle: Duration) -> (options: Self)
        ensures
            options.agent() == self.agent(),
            options.window() == Option::Some(throttle),
    {
        let mut options = self;
        options.throttle = Option::Some(throttle);
        options
    }

    /// Makes the handle. It fails exactly where no identification value is
    /// to be had: none configured, none in the environment.
    pub fn build<C>(self, client: C, environment: Option<&str>) -> (made: Result<
        NsClient<C>,
        ConfigurationError,
    >)
        ensures
            match chosen_agent(self.agent(), text(environment)) {
                Option::None => made == Result::<NsClient<C>, ConfigurationError>::Err(
                    ConfigurationError::MissingUserAgent,
                ),
                Option::Some(agent) => made.is_ok() && made.unwrap().backend_spec() == client
                    && made.unwrap().agent() == agent && made.unwrap().policy_spec()
                    == chosen_policy(self.window()) && permits_made(*made.unwrap().pool())
                    == SLOTS,
            },
    {
        let user_agent: String = match self.user_agent {
            Option::Some(configured) => configured,
            Option::None => match environment {
                Option::Some(value) => value.to_owned(),
                Option::None => {
                    return Result::Err(ConfigurationError::MissingUserAgent);
                },
            },
        };
        let policy = match self.throttle {
            Option::Some(span) => ThrottlePolicy::per_window(span),
            Option::None => ThrottlePolicy::default(),
        };
        let state = RwLock::new(Throttle::fresh(policy), Ghost(KeepsPolicy { policy }));
        Result::Ok(
            NsClient {
                client,
                user_agent,
                policy,
                throttle: Arc::new(state),
                slot: Arc::new(Semaphore::new(SLOTS)),
            },
        )
    }
}

} // verus!
