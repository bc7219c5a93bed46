//! The three capabilities that an HTTP backend provides: a client, a request
//! builder and a response. The pipeline is written against these alone.

use vstd::prelude::*;
use bytes::Bytes;
use std::future::Future;

verus! {

/// Raw bytes as the backend hands them over. The library carries them to the
/// caller and never looks inside.
#[verifier::external_type_specification]
#[verifier::external_body]
pub struct ExBytes(bytes::Bytes);

/// What a list of owned pairs says: each pair by the text of its two halves.
pub open spec fn pairs(list: Seq<(String, String)>) -> Seq<(Seq<char>, Seq<char>)> {
    list.map_values(|pair: (String, String)| (pair.0@, pair.1@))
}

/// A builder for one request. It gathers headers and query parameters in the
/// order in which they are added, and is consumed by `build`.
pub trait RequestBuilder: Sized {
    /// The request that is ready to be sent.
    type Built;

    /// Why the backend refused to build.
    type BuildError;

    /// Address that the request goes to.
    spec fn url(&self) -> Seq<char>;

    /// Headers added so far, oldest first.
    spec fn headers(&self) -> Seq<(Seq<char>, Seq<char>)>;

    /// Query parameters added so far, oldest first.
    spec fn queries(&self) -> Seq<(Seq<char>, Seq<char>)>;

    /// What `build` gives for this builder: it depends on nothing else.
    spec fn outcome(&self) -> Result<Self::Built, Self::BuildError>;

    /// Adds one header after those already there.
    fn add_header(self, name: &str, value: &str) -> (next: Self)
        ensures
            next.url() == self.url(),
            next.headers() == self.headers().push((name@, value@)),
            next.queries() == self.queries(),
    ;

    /// Adds the given key-value pairs, in their order, after the parameters
    /// already there.
    fn add_queries(self, query: &Vec<(String, String)>) -> (next: Self)
        ensures
            next.url() == self.url(),
            next.headers() == self.headers(),
            next.queries() == self.queries() + pairs(query@),
    ;

    /// Builds the request, or says why it cannot be built.
    fn build(self) -> (built: Result<Self::Built, Self::BuildError>)
        ensures
            built == self.outcome(),
    ;
}

/// What came back from the service. Status and headers can be read any number
/// of times; reading the body consumes the response.
pub trait Response: Sized {
    /// Why the body could not be read.
    type Error;

    /// The status code of this response.
    spec fn code(&self) -> u16;

    /// HTTP status code. A code of 400 or above is still a response.
    fn status(&self) -> (code: u16)
        ensures
            code == self.code(),
    ;

    /// The value of the named header in this response, if it has one.
    spec fn header(&self, name: &str) -> Option<Bytes>;

    /// `read` is what reading the body of this response gave. Whether a
    /// read succeeds is the backend's and the network's affair.
    spec fn reads(&self, read: Result<Bytes, Self::Error>) -> bool;

    /// The value of the named header, if the response has it.
    fn get_header(&self, name: &str) -> (value: Option<Bytes>)
        ensures
            value == self.header(name),
    ;

    /// Reads the whole body.
    fn body(self) -> (read: Result<Bytes, Self::Error>)
        ensures
            self.reads(read),
    ;
}

/// An HTTP client.
pub trait Client {
    /// Why sending failed.
    type Error;

    /// What a successful send yields.
    type Response: Response;

    /// The pending send, to be awaited by the caller.
    type Output: Future<Output = Result<Self::Response, Self::Error>> + Unpin + Send;

    /// The builder that `get` hands out.
    type Builder: RequestBuilder;

    /// `pending` is a send of `request` that this client has started. What
    /// comes of it is the backend's and the network's affair.
    spec fn sends(
        &self,
        request: <Self::Builder as RequestBuilder>::Built,
        pending: Self::Output,
    ) -> bool;

    /// Starts sending a built request.
    fn send(&self, request: <Self::Builder as RequestBuilder>::Built) -> (pending: Self::Output)
        ensures
            self.sends(request, pending),
    ;

    /// A builder for a GET request to `url`, with no header and no parameter.
    fn get(&self, url: &str) -> (builder: Self::Builder)
        ensures
            builder.url() == url@,
            builder.headers() == Seq::<(Seq<char>, Seq<char>)>::empty(),
            builder.queries() == Seq::<(Seq<char>, Seq<char>)>::empty(),
    ;
}

} // verus!
