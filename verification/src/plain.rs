//! A request builder that holds a request as plain values. A backend can
//! take the built request apart and hand it to its own HTTP stack; a caller
//! can read what the pipeline put on it. Which headers can be sent is for
//! the HTTP stack to say: the builder asks it and refuses what it refuses.

use vstd::prelude::*;
use crate::request::RequestBuilder;
use crate::request::pairs;

verus! {

/// Whether the HTTP stack takes the text as the name of a header.
pub uninterp spec fn name_accepted(name: Seq<char>) -> bool;

/// Whether the HTTP stack takes the text as the value of a header.
pub uninterp spec fn value_accepted(value: Seq<char>) -> bool;

/// `HeaderName::from_bytes` parses the bytes of the text as a header's name
/// and fails on what is none; `name_accepted` names whether it succeeds.
#[verifier::external_body]
fn accepts_name(name: &str) -> (ok: bool)
    ensures
        ok == name_accepted(name@),
{
    reqwest::header::HeaderName::from_bytes(name.as_bytes()).is_ok()
}

/// `HeaderValue::from_str` parses the text as a header's value and fails
/// on what is none; `value_accepted` names whether it succeeds.
#[verifier::external_body]
fn accepts_value(value: &str) -> (ok: bool)
    ensures
        ok == value_accepted(value@),
{
    reqwest::header::HeaderValue::from_str(value).is_ok()
}

/// A header that can be sent: the HTTP stack takes its name and its value.
pub open spec fn valid_header(header: (Seq<char>, Seq<char>)) -> bool {
    name_accepted(header.0) && value_accepted(header.1)
}

/// The header at `index` is the first that cannot be sent.
pub open spec fn first_invalid(headers: Seq<(Seq<char>, Seq<char>)>, index: int) -> bool {
    &&& 0 <= index < headers.len()
    &&& !valid_header(headers[index])
    &&& forall|j: int| 0 <= j < index ==> valid_header(#[trigger] headers[j])
}

/// A request refused because of one of its headers.
#[derive(Debug, Clone, Copy, PartialEq, Eq, Structural)]
pub struct InvalidHeader {
    /// Place of the first header that cannot be sent, counting from 0.
    pub index: usize,
}

/// A request ready to be sent.
#[derive(Debug, Clone, PartialEq, Eq)]
pub struct PlainRequest {
    pub url: String,
    pub headers: Vec<(String, String)>,
    pub queries: Vec<(String, String)>,
}

/// A request in the making.
#[derive(Debug, Clone, PartialEq, Eq)]
pub struct PlainBuilder {
    pub url: String,
    pub headers: Vec<(String, String)>,
    pub queries: Vec<(String, String)>,
}

/// The place of the first `false`, if there is one.
pub fn first_refused(verdicts: &Vec<bool>) -> (index: Option<usize>)
    ensures
        match index {
            Option::Some(i) => i < verdicts@.len() && !verdicts@[i as int] && forall|j: int|
                0 <= j < i ==> verdicts@[j],
            Option::None => forall|j: int| 0 <= j < verdicts@.len() ==> verdicts@[j],
        },
{
    let mut i: usize = 0;
    while i < verdicts.len()
        invariant
            i <= verdicts@.len(),
            forall|j: int| 0 <= j < i ==> verdicts@[j],
        decreases verdicts@.len() - i,
    {
        if !verdicts[i] {
            return Option::Some(i);
        }
        i += 1;
    }
    Option::None
}

impl PlainBuilder {
    /// For each header, whether it can be sent.
    fn verdicts(&self) -> (verdicts: Vec<bool>)
        ensures
            verdicts@.len() == self.headers().len(),
            forall|j: int|
                0 <= j < verdicts@.len() ==> verdicts@[j] == valid_header(
                    #[trigger] self.headers()[j],
                ),
    {
        let mut verdicts: Vec<bool> = Vec::new();
        let mut i: usize = 0;
        while i < self.headers.len()
            invariant
                i <= self.headers.len(),
                verdicts@.len() == i,
                self.headers().len() == self.headers.len(),
                forall|j: int|
                    0 <= j < i ==> verdicts@[j] == valid_header(#[trigger] self.headers()[j]),
            decreases self.headers.len() - i,
        {
            let ok = accepts_name(self.headers[i].0.as_str()) && accepts_value(
                self.headers[i].1.as_str(),
            );
            verdicts.push(ok);
            i += 1;
        }
        verdicts
    }

    /// A builder for a GET request to `url`, with no header and no parameter.
    pub fn get(url: &str) -> (builder: Self)
        ensures
            builder.url() == url@,
            builder.headers() == Seq::<(Seq<char>, Seq<char>)>::empty(),
            builder.queries() == Seq::<(Seq<char>, Seq<char>)>::empty(),
    {
        let builder = PlainBuilder { url: url.to_owned(), headers: Vec::new(), queries: Vec::new() };
        assert(builder.headers() =~= Seq::<(Seq<char>, Seq<char>)>::empty());
        assert(builder.queries() =~= Seq::<(Seq<char>, Seq<char>)>::empty());
        builder
    }
}

impl RequestBuilder for PlainBuilder {
    type Built = PlainRequest;

    type BuildError = InvalidHeader;

    open spec fn url(&self) -> Seq<char> {
        self.url@
    }

    open spec fn headers(&self) -> Seq<(Seq<char>, Seq<char>)> {
        pairs(self.headers@)
    }

    open spec fn queries(&self) -> Seq<(Seq<char>, Seq<char>)> {
        pairs(self.queries@)
    }

    /// The request with everything that was added, unless a header cannot be
    /// sent: then the place of the first such header.
    open spec fn outcome(&self) -> Result<PlainRequest, InvalidHeader> {
        if exists|index: int| first_invalid(self.headers(), index) {
            Result::Err(
                InvalidHeader {
                    index: (choose|index: int| first_invalid(self.headers(), index)) as usize,
                },
            )
        } else {
            Result::Ok(
                PlainRequest { url: self.url, headers: self.headers, queries: self.queries },
            )
        }
    }

    fn add_header(self, name: &str, value: &str) -> (next: Self) {
        let mut next = self;
        next.headers.push((name.to_owned(), value.to_owned()));
        assert(next.headers() =~= self.headers().push((name@, value@)));
        next
    }

    fn add_queries(self, query: &Vec<(String, String)>) -> (next: Self) {
        let mut next = self;
        let mut i: usize = 0;
        while i < query.len()
            invariant
                0 <= i <= query.len(),
                next.url == self.url,
                next.headers == self.headers,
                next.queries() == self.queries() + pairs(query@.take(i as int)),
            decreases query.len() - i,
        {
            let ghost before = next.queries();
            next.queries.push((query[i].0.clone(), query[i].1.clone()));
            assert(next.queries() =~= before.push((query@[i as int].0@, query@[i as int].1@)));
            assert(pairs(query@.take(i + 1)) =~= pairs(query@.take(i as int)).push(
                (query@[i as int].0@, query@[i as int].1@),
            ));
            i += 1;
        }
        assert(query@.take(query.len() as int) =~= query@);
        next
    }

    fn build(self) -> (built: Result<PlainRequest, InvalidHeader>) {
        let verdicts = self.verdicts();
        match first_refused(&verdicts) {
            Option::Some(i) => {
                proof {
                    assert(first_invalid(self.headers(), i as int));
                    let chosen = choose|index: int| first_invalid(self.headers(), index);
                    assert(chosen == i) by {
                        if chosen < i {
                            assert(valid_header(self.headers()[chosen]));
                        } else if chosen > i {
                            assert(valid_header(self.headers()[i as int]));
                        }
                    }
                }
                Result::Err(InvalidHeader { index: i })
            },
            Option::None => {
                proof {
                    assert forall|index: int| !first_invalid(self.headers(), index) by {
                        if 0 <= index < self.headers().len() {
                            assert(valid_header(self.headers()[index]));
                        }
                    }
                }
                Result::Ok(
                    PlainRequest { url: self.url, headers: self.headers, queries: self.queries },
                )
            },
        }
    }
}

} // verus!
