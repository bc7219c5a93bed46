//! Queries say which shards of data a request asks for. They compose.

use vstd::prelude::*;
use crate::request::RequestBuilder;

verus! {

/// A description of parameters to put on a request.
pub trait Query {
    /// The parameters that this query contributes, in order.
    spec fn parameters(&self) -> Seq<(Seq<char>, Seq<char>)>;

    /// Puts this query's parameters on the builder, after those it has.
    fn add_query<R: RequestBuilder>(&self, builder: R) -> (next: R)
        ensures
            next.url() == builder.url(),
            next.headers() == builder.headers(),
            next.queries() == builder.queries() + self.parameters(),
    ;
}

/// Two queries as one: the left one's parameters, then the right one's.
#[derive(Copy, Clone, Eq, PartialEq, Ord, PartialOrd, Debug, Hash)]
pub struct And<T, U>(pub T, pub U);

impl<T: Query, U: Query> Query for And<T, U> {
    open spec fn parameters(&self) -> Seq<(Seq<char>, Seq<char>)> {
        self.0.parameters() + self.1.parameters()
    }

    fn add_query<R: RequestBuilder>(&self, builder: R) -> (next: R) {
        let left = self.0.add_query(builder);
        let both = self.1.add_query(left);
        assert(both.queries() =~= builder.queries() + self.parameters());
        both
    }
}

/// The empty query: no parameter, so the service answers with its defaults.
#[derive(Copy, Clone, Eq, PartialEq, Ord, PartialOrd, Debug, Hash)]
pub struct Nothing;

impl Query for Nothing {
    open spec fn parameters(&self) -> Seq<(Seq<char>, Seq<char>)> {
        Seq::empty()
    }

    fn add_query<R: RequestBuilder>(&self, builder: R) -> (next: R) {
        assert(builder.queries() + self.parameters() =~= builder.queries());
        builder
    }
}

/// One parameter of a request: a key and the shard asked for under it.
#[derive(Clone, Eq, PartialEq, Debug, Hash)]
pub struct Shard {
    pub key: String,
    pub value: String,
}

impl Shard {
    /// The parameter `key=value`.
    pub fn new(key: &str, value: &str) -> (shard: Self)
        ensures
            shard.key@ == key@,
            shard.value@ == value@,
    {
        Shard { key: key.to_owned(), value: value.to_owned() }
    }
}

impl Query for Shard {
    open spec fn parameters(&self) -> Seq<(Seq<char>, Seq<char>)> {
        seq![(self.key@, self.value@)]
    }

    fn add_query<R: RequestBuilder>(&self, builder: R) -> (next: R) {
        let mut list: Vec<(String, String)> = Vec::new();
        list.push((self.key.clone(), self.value.clone()));
        assert(crate::request::pairs(list@) =~= self.parameters());
        builder.add_queries(&list)
    }
}

/// The parameters of each query of a list, one query after the other.
pub open spec fn joined<Q: Query>(list: Seq<Q>) -> Seq<(Seq<char>, Seq<char>)> {
    list.map_values(|query: Q| query.parameters()).flatten()
}

/// Any number of queries as one: each one's parameters, in the list's order.
#[derive(Clone, Eq, PartialEq, Debug, Hash)]
pub struct All<Q>(pub Vec<Q>);

impl<Q: Query> Query for All<Q> {
    open spec fn parameters(&self) -> Seq<(Seq<char>, Seq<char>)> {
        joined(self.0@)
    }

    fn add_query<R: RequestBuilder>(&self, builder: R) -> (next: R) {
        let mut next = builder;
        let mut i: usize = 0;
        assert(builder.queries() + joined(self.0@.take(0)) =~= builder.queries());
        while i < self.0.len()
            invariant
                0 <= i <= self.0.len(),
                next.url() == builder.url(),
                next.headers() == builder.headers(),
                next.queries() == builder.queries() + joined(self.0@.take(i as int)),
            decreases self.0.len() - i,
        {
            proof {
                lemma_joined_push(self.0@.take(i as int), self.0@[i as int]);
                assert(self.0@.take(i as int).push(self.0@[i as int]) =~= self.0@.take(i + 1));
            }
            next = self.0[i].add_query(next);
            assert(next.queries() =~= builder.queries() + joined(self.0@.take(i + 1)));
            i += 1;
        }
        assert(self.0@.take(self.0.len() as int) =~= self.0@);
        next
    }
}

/// One more query at the end of a list adds its parameters at the end.
pub proof fn lemma_joined_push<Q: Query>(list: Seq<Q>, query: Q)
    ensures
        joined(list.push(query)) == joined(list) + query.parameters(),
{
    let each = list.map_values(|query: Q| query.parameters());
    assert(list.push(query).map_values(|query: Q| query.parameters()) =~= each.push(
        query.parameters(),
    ));
    each.lemma_flatten_push(query.parameters());
}

/// The parameters of two lists of queries put together are those of the
/// first list followed by those of the second.
pub proof fn lemma_joined_concat<Q: Query>(first: Seq<Q>, second: Seq<Q>)
    ensures
        joined(first + second) == joined(first) + joined(second),
    decreases second.len(),
{
    if second.len() == 0 {
        assert(first + second =~= first);
        assert(joined(second) =~= Seq::<(Seq<char>, Seq<char>)>::empty());
        assert(joined(first) + joined(second) =~= joined(first));
    } else {
        let init = second.drop_last();
        lemma_joined_concat(first, init);
        lemma_joined_push(first + init, second.last());
        lemma_joined_push(init, second.last());
        assert((first + init).push(second.last()) =~= first + second);
        assert(init.push(second.last()) =~= second);
        assert(joined(first + second) =~= joined(first) + joined(second));
    }
}

/// Queries paired in any nesting: one query, or two nestings side by side.
/// `And(And(a, b), c)` and `And(a, And(b, c))` are two nestings of the same
/// three queries.
#[derive(Debug)]
pub enum Nest<Q> {
    One(Q),
    Both(Box<Nest<Q>>, Box<Nest<Q>>),
}

/// The queries of a nesting, from left to right.
pub open spec fn leaves<Q>(nest: Nest<Q>) -> Seq<Q>
    decreases nest,
{
    match nest {
        Nest::One(query) => seq![query],
        Nest::Both(left, right) => leaves(*left) + leaves(*right),
    }
}

/// The parameters of a nesting as composition gives them: those of its left
/// side, then those of its right side.
pub open spec fn composed<Q: Query>(nest: Nest<Q>) -> Seq<(Seq<char>, Seq<char>)>
    decreases nest,
{
    match nest {
        Nest::One(query) => query.parameters(),
        Nest::Both(left, right) => composed(*left) + composed(*right),
    }
}

impl<Q: Query> Nest<Q> {
    /// Applies the left side, then the right side.
    fn apply<R: RequestBuilder>(&self, builder: R) -> (next: R)
        ensures
            next.url() == builder.url(),
            next.headers() == builder.headers(),
            next.queries() == builder.queries() + composed(*self),
        decreases self,
    {
        match self {
            Nest::One(query) => query.add_query(builder),
            Nest::Both(left, right) => {
                let half = left.apply(builder);
                let both = right.apply(half);
                assert(both.queries() =~= builder.queries() + composed(*self));
                both
            },
        }
    }
}

impl<Q: Query> Query for Nest<Q> {
    open spec fn parameters(&self) -> Seq<(Seq<char>, Seq<char>)> {
        composed(*self)
    }

    fn add_query<R: RequestBuilder>(&self, builder: R) -> (next: R) {
        self.apply(builder)
    }
}

/// The law of composition for every nesting of any number of queries: the
/// parameters applied are those of each query, one query after the other
/// from left to right, however the queries are paired.
pub proof fn lemma_nesting_is_joined<Q: Query>(nest: Nest<Q>)
    ensures
        composed(nest) == joined(leaves(nest)),
        leaves(nest).len() >= 1,
    decreases nest,
{
    match nest {
        Nest::One(query) => {
            lemma_joined_push(Seq::<Q>::empty(), query);
            assert(Seq::<Q>::empty().push(query) =~= seq![query]);
            assert(joined(Seq::<Q>::empty()) =~= Seq::<(Seq<char>, Seq<char>)>::empty());
            assert(joined(seq![query]) =~= query.parameters());
        },
        Nest::Both(left, right) => {
            lemma_nesting_is_joined(*left);
            lemma_nesting_is_joined(*right);
            lemma_joined_concat(leaves(*left), leaves(*right));
        },
    }
}

/// Two nestings of the same queries in the same order apply the same
/// parameters.
pub proof fn lemma_nestings_agree<Q: Query>(first: Nest<Q>, second: Nest<Q>)
    requires
        leaves(first) == leaves(second),
    ensures
        composed(first) == composed(second),
{
    lemma_nesting_is_joined(first);
    lemma_nesting_is_joined(second);
}

/// Composition is associative: however three queries are paired, the same
/// parameters are applied in the same order.
pub proof fn lemma_and_associative<A: Query, B: Query, C: Query>(a: A, b: B, c: C)
    ensures
        And(And(a, b), c).parameters() == And(a, And(b, c)).parameters(),
        And(And(a, b), c).parameters() == a.parameters() + b.parameters() + c.parameters(),
{
    assert((a.parameters() + b.parameters()) + c.parameters() =~= a.parameters() + (b.parameters()
        + c.parameters()));
}

/// The empty query changes nothing on either side of a composition.
pub proof fn lemma_nothing_is_neutral<A: Query>(a: A)
    ensures
        And(Nothing, a).parameters() == a.parameters(),
        And(a, Nothing).parameters() == a.parameters(),
{
    assert(Nothing.parameters() + a.parameters() =~= a.parameters());
    assert(a.parameters() + Nothing.parameters() =~= a.parameters());
}

} // verus!
