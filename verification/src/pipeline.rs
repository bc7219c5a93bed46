//! One request on its way: assembled, held back by the throttle, dispatched,
//! and then completed or failed.
//!
//! The library decides each step; the caller does the waiting and awaits the
//! send. A status of 400 or above is a completed request like any other: what
//! it means is for the caller to say.

use vstd::prelude::*;
use bytes::Bytes;
use crate::client::NsClient;
use crate::error::NsError;
use crate::query::Query;
use crate::request::Client;
use crate::request::RequestBuilder;
use crate::request::Response;
use crate::throttle::Throttle;

verus! {

/// Name of the header that identifies the caller to the service.
pub const IDENTIFICATION_HEADER: &'static str = "User-Agent";

/// Where a request stands.
#[derive(Debug, Clone, Copy, PartialEq, Eq, Structural)]
pub enum Stage {
    /// Parameters and headers are being put on the builder.
    Assembling,
    /// Waiting for the throttle. This is the one place where a request waits.
    Throttled,
    /// The backend builds the request and, where that succeeds, sends it.
    Dispatching,
    /// A response came back, whatever its status.
    Completed,
    /// Building or sending failed.
    Failed,
}

/// What can happen to a request.
#[derive(Debug, Clone, Copy, PartialEq, Eq, Structural)]
pub enum Event {
    /// The builder holds the parameters and the identification header.
    Assembled,
    /// The throttle granted a dispatch and its time has come.
    Granted,
    /// The backend refused to build the request.
    BuildFailed,
    /// The backend could not send the request or receive the answer.
    SendFailed,
    /// The service answered.
    Responded,
}

/// What the caller does for a request in a given stage.
#[derive(Debug, Clone, Copy, PartialEq, Eq, Structural)]
pub enum Action {
    /// Assemble the builder.
    Assemble,
    /// Ask the throttle and wait until the time it names.
    Wait,
    /// Build and send.
    Dispatch,
    /// Hand the response or the error to the caller; nothing else follows.
    Return,
}

impl Stage {
    /// The stage that follows on an event, where the event can occur in this
    /// stage at all.
    pub open spec fn next(self, event: Event) -> Option<Stage> {
        match (self, event) {
            (Stage::Assembling, Event::Assembled) => Option::Some(Stage::Throttled),
            (Stage::Throttled, Event::Granted) => Option::Some(Stage::Dispatching),
            (Stage::Dispatching, Event::BuildFailed) => Option::Some(Stage::Failed),
            (Stage::Dispatching, Event::SendFailed) => Option::Some(Stage::Failed),
            (Stage::Dispatching, Event::Responded) => Option::Some(Stage::Completed),
            _ => Option::None,
        }
    }

    /// The stage reached from this one by a run of events; `None` where one
    /// of them cannot occur in the stage reached before it.
    pub open spec fn run(self, events: Seq<Event>) -> Option<Stage>
        decreases events.len(),
    {
        if events.len() == 0 {
            Option::Some(self)
        } else {
            match self.run(events.drop_last()) {
                Option::Some(stage) => stage.next(events.last()),
                Option::None => Option::None,
            }
        }
    }

    /// Moves on by one event.
    pub fn after(self, event: Event) -> (stage: Option<Stage>)
        ensures
            stage == self.next(event),
    {
        match (self, event) {
            (Stage::Assembling, Event::Assembled) => Option::Some(Stage::Throttled),
            (Stage::Throttled, Event::Granted) => Option::Some(Stage::Dispatching),
            (Stage::Dispatching, Event::BuildFailed) => Option::Some(Stage::Failed),
            (Stage::Dispatching, Event::SendFailed) => Option::Some(Stage::Failed),
            (Stage::Dispatching, Event::Responded) => Option::Some(Stage::Completed),
            _ => Option::None,
        }
    }

    /// Moves on by a run of events, from this stage.
    pub fn replay(self, events: &Vec<Event>) -> (stage: Option<Stage>)
        ensures
            stage == self.run(events@),
    {
        let mut stage = self;
        let mut i: usize = 0;
        assert(events@.take(0) =~= Seq::<Event>::empty());
        while i < events.len()
            invariant
                0 <= i <= events.len(),
                self.run(events@.take(i as int)) == Option::Some(stage),
            decreases events.len() - i,
        {
            assert(events@.take(i + 1).drop_last() =~= events@.take(i as int));
            match stage.after(events[i]) {
                Option::Some(next) => {
                    stage = next;
                },
                Option::None => {
                    proof {
                        Self::lemma_run_stays_refused(self, events@, i + 1);
                    }
                    return Option::None;
                },
            }
            i += 1;
        }
        assert(events@.take(events.len() as int) =~= events@);
        Option::Some(stage)
    }

    /// What the caller does next.
    pub fn action(self) -> (action: Action)
        ensures
            action == match self {
                Stage::Assembling => Action::Assemble,
                Stage::Throttled => Action::Wait,
                Stage::Dispatching => Action::Dispatch,
                Stage::Completed => Action::Return,
                Stage::Failed => Action::Return,
            },
    {
        match self {
            Stage::Assembling => Action::Assemble,
            Stage::Throttled => Action::Wait,
            Stage::Dispatching => Action::Dispatch,
            Stage::Completed => Action::Return,
            Stage::Failed => Action::Return,
        }
    }

    /// A run that a prefix of it cannot make cannot be made.
    pub proof fn lemma_run_stays_refused(start: Stage, events: Seq<Event>, upto: int)
        requires
            0 <= upto <= events.len(),
            start.run(events.take(upto)).is_none(),
        ensures
            start.run(events).is_none(),
        decreases events.len() - upto,
    {
        if upto < events.len() {
            assert(events.take(upto + 1).drop_last() =~= events.take(upto));
            Self::lemma_run_stays_refused(start, events, upto + 1);
        } else {
            assert(events.take(upto) =~= events);
        }
    }

    /// A request that is completed or failed stays so: no event moves it.
    pub proof fn lemma_ends_are_final(self, event: Event)
        requires
            self == Stage::Completed || self == Stage::Failed,
        ensures
            self.next(event).is_none(),
    {
    }

    /// Whatever happens to a new request, it is dispatched only after the
    /// throttle granted it, and it ends only after it was dispatched: the
    /// runs that end a request are these three and no others, each with one
    /// grant, and a failed build sends nothing.
    pub proof fn lemma_ways_to_end(events: Seq<Event>)
        ensures
            Stage::Assembling.run(events) == Option::Some(Stage::Completed) <==> events
                == seq![Event::Assembled, Event::Granted, Event::Responded],
            Stage::Assembling.run(events) == Option::Some(Stage::Failed) <==> (events
                == seq![Event::Assembled, Event::Granted, Event::BuildFailed] || events
                == seq![Event::Assembled, Event::Granted, Event::SendFailed]),
            Stage::Assembling.run(events) == Option::Some(Stage::Dispatching) <==> events
                == seq![Event::Assembled, Event::Granted],
    {
        Self::lemma_runs(events);
        if events.len() <= 3 {
            if events.len() == 3 {
                assert(events =~= seq![events[0], events[1], events[2]]);
            } else if events.len() == 2 {
                assert(events =~= seq![events[0], events[1]]);
            }
        }
        assert(seq![Event::Assembled, Event::Granted, Event::Responded].len() == 3);
        assert(seq![Event::Assembled, Event::Granted, Event::BuildFailed].len() == 3);
        assert(seq![Event::Assembled, Event::Granted, Event::SendFailed].len() == 3);
        assert(seq![Event::Assembled, Event::Granted].len() == 2);
    }

    /// Every run of a new request, by its length.
    proof fn lemma_runs(events: Seq<Event>)
        ensures
            events.len() == 0 ==> Stage::Assembling.run(events) == Option::Some(Stage::Assembling),
            events.len() == 1 ==> Stage::Assembling.run(events) == Stage::Assembling.next(
                events[0],
            ),
            events.len() == 2 ==> Stage::Assembling.run(events) == if events[0]
                == Event::Assembled {
                Stage::Throttled.next(events[1])
            } else {
                Option::None
            },
            events.len() == 3 ==> Stage::Assembling.run(events) == if events[0]
                == Event::Assembled && events[1] == Event::Granted {
                Stage::Dispatching.next(events[2])
            } else {
                Option::None
            },
            events.len() > 3 ==> Stage::Assembling.run(events).is_none(),
        decreases events.len(),
    {
        if events.len() > 0 {
            Self::lemma_runs(events.drop_last());
            if events.len() > 4 {
                assert(Stage::Assembling.run(events.drop_last()).is_none());
            }
        }
    }
}

/// A response as the pipeline hands it over.
pub struct NsResponse<R> {
    response: R,
}

impl<R: Response> NsResponse<R> {
    /// The backend's response inside.
    pub closed spec fn inner(&self) -> R {
        self.response
    }

    /// HTTP status code of the response.
    pub fn status(&self) -> (code: u16)
        ensures
            code == self.inner().code(),
    {
        self.response.status()
    }

    /// The value of the named header, if there is one.
    pub fn get_header(&self, name: &str) -> (value: Option<Bytes>)
        ensures
            value == self.inner().header(name),
    {
        self.response.get_header(name)
    }

    /// Reads the body. The response is used up by it.
    pub fn body(self) -> (read: Result<Bytes, R::Error>)
        ensures
            self.inner().reads(read),
    {
        self.response.body()
    }

    /// Gives the backend's response back.
    pub fn into_inner(self) -> (response: R)
        ensures
            response == self.inner(),
    {
        self.response
    }
}

/// A request in the making, bound to a handle and a query.
pub struct NsRequest<'a, C, Q> {
    client: &'a NsClient<C>,
    query: Q,
    user_agent: Option<String>,
}

impl<C> NsClient<C> {
    /// Begins a request for the given query. Nothing is sent and the
    /// throttle is not asked.
    pub fn request<Q: Query>(&self, query: Q) -> (request: NsRequest<'_, C, Q>)
        ensures
            *request.handle() == *self,
            request.query() == query,
            request.agent() == self.agent(),
    {
        NsRequest { client: self, query, user_agent: Option::None }
    }
}

impl<'a, C, Q> NsRequest<'a, C, Q> {
    /// The handle that this request goes through.
    pub closed spec fn handle(&self) -> &'a NsClient<C> {
        self.client
    }

    /// What this request asks for.
    pub closed spec fn query(&self) -> Q {
        self.query
    }

    /// The identification value that this request carries: its own where it
    /// was given one, else the handle's.
    pub closed spec fn agent(&self) -> Seq<char> {
        match self.user_agent {
            Option::Some(own) => own@,
            Option::None => self.client.agent(),
        }
    }

    /// The handle that this request goes through.
    pub fn client(&self) -> (handle: &'a NsClient<C>)
        ensures
            handle == self.handle(),
    {
        self.client
    }

    /// Gives this one request an identification value of its own. The
    /// handle keeps its value.
    pub fn user_agent(self, user_agent: &str) -> (request: Self)
        ensures
            request.agent() == user_agent@,
            request.handle() == self.handle(),
            request.query() == self.query(),
    {
        let mut request = self;
        request.user_agent = Option::Some(user_agent.to_owned());
        request
    }
}

impl<'a, C: Client, Q: Query> NsRequest<'a, C, Q> {
    /// Assembles the request on a fresh builder of the backend: the query's
    /// parameters, then the identification header.
    pub fn assemble(&self) -> (builder: C::Builder)
        ensures
            builder.url() == crate::NS_URL@,
            builder.queries() == self.query().parameters(),
            builder.headers() == seq![(IDENTIFICATION_HEADER@, self.agent())],
    {
        let fresh = self.client.backend().get(crate::NS_URL);
        let asked = self.query.add_query(fresh);
        let built = match &self.user_agent {
            Option::Some(own) => asked.add_header(IDENTIFICATION_HEADER, own.as_str()),
            Option::None => asked.add_header(IDENTIFICATION_HEADER, self.client.user_agent()),
        };
        assert(built.queries() =~= self.query().parameters());
        assert(built.headers() =~= seq![(IDENTIFICATION_HEADER@, self.agent())]);
        built
    }
}

/// Builds the request and, where that succeeds, starts sending what was
/// built. Where the backend refuses to build, that is the error and nothing
/// is sent.
pub fn dispatch<C: Client>(client: &C, builder: C::Builder) -> (sent: Result<
    C::Output,
    NsError<<C::Builder as RequestBuilder>::BuildError, C::Error>,
>)
    ensures
        match builder.outcome() {
            Result::Ok(request) => match sent {
                Result::Ok(pending) => client.sends(request, pending),
                Result::Err(_) => false,
            },
            Result::Err(cause) => sent == Result::<
                C::Output,
                NsError<<C::Builder as RequestBuilder>::BuildError, C::Error>,
            >::Err(NsError::BuildError(cause)),
        },
{
    match builder.build() {
        Result::Ok(request) => Result::Ok(client.send(request)),
        Result::Err(cause) => Result::Err(NsError::BuildError(cause)),
    }
}

/// Ends a request that was sent: a response completes it, whatever its
/// status; a failure of the backend fails it.
pub fn conclude<R: Response, B, S>(outcome: Result<R, S>) -> (done: Result<
    NsResponse<R>,
    NsError<B, S>,
>)
    ensures
        match outcome {
            Result::Ok(response) => match done {
                Result::Ok(wrapped) => wrapped.inner() == response,
                Result::Err(_) => false,
            },
            Result::Err(cause) => done == Result::<NsResponse<R>, NsError<B, S>>::Err(
                NsError::SendError(cause),
            ),
        },
{
    match outcome {
        Result::Ok(response) => Result::Ok(NsResponse { response }),
        Result::Err(cause) => Result::Err(NsError::SendError(cause)),
    }
}

/// Whether a request that ended by `event` gives its grant back: one that
/// could not be built does, for nothing of it went out. A request that was
/// sent stays counted, whether an answer came or not.
pub open spec fn returns_grant(event: Event) -> bool {
    event == Event::BuildFailed
}

/// Settles the grant at `at` of a request that ended by `event`: the grant
/// of a request that could not be built is given back to the throttle, any
/// other stays in its log. It tells whether the grant was given back.
pub fn settle(throttle: &mut Throttle, at: u64, event: Event) -> (given: bool)
    requires
        old(throttle).wf(),
    ensures
        final(throttle).wf(),
        final(throttle).policy() == old(throttle).policy(),
        given == (returns_grant(event) && old(throttle).returnable(at)),
        given ==> old(throttle).takes_back(*final(throttle), at as int),
        !given ==> *final(throttle) == *old(throttle),
{
    match event {
        Event::BuildFailed => throttle.give_back(at),
        _ => false,
    }
}

/// The event that ended a request, read off its result.
pub fn ending<R, B, S>(done: &Result<NsResponse<R>, NsError<B, S>>) -> (event: Event)
    ensures
        event == match *done {
            Result::Ok(_) => Event::Responded,
            Result::Err(NsError::BuildError(_)) => Event::BuildFailed,
            Result::Err(NsError::SendError(_)) => Event::SendFailed,
        },
        Stage::Dispatching.next(event) == Option::Some(
            if done.is_ok() {
                Stage::Completed
            } else {
                Stage::Failed
            },
        ),
{
    match done {
        Result::Ok(_) => Event::Responded,
        Result::Err(NsError::BuildError(_)) => Event::BuildFailed,
        Result::Err(NsError::SendError(_)) => Event::SendFailed,
    }
}

} // verus!
