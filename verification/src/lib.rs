//! Client library for a rate-limited HTTP/XML service: a request pipeline
//! that is generic over the HTTP backend, composable queries, and a throttle
//! shared by every clone of a client handle.

use vstd::prelude::*;

pub mod census;
pub mod client;
pub mod error;
pub mod pipeline;
pub mod plain;
pub mod query;
pub mod request;
pub mod throttle;

pub use crate::client::NsClient;
pub use crate::error::NsError;
pub use crate::pipeline::NsRequest;

verus! {

/// Address of the service endpoint. Every request goes to this one URL.
pub const NS_URL: &'static str = "https://www.nationstates.net/cgi-bin/api.cgi";

/// Version of the service interface that this library speaks.
pub const API_VERSION: usize = 11;

/// The identification value that is used when a caller configures none:
/// the value found in the process environment, which the caller hands in.
pub fn get_user_agent(environment: &Option<String>) -> (agent: Option<&str>)
    ensures
        environment.is_some() ==> agent.is_some() && agent.unwrap()@ == environment.unwrap()@,
        environment.is_none() ==> agent.is_none(),
{
    match environment {
        Option::Some(value) => Option::Some(value.as_str()),
        Option::None => Option::None,
    }
}

} // verus!
