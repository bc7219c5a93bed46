use nationstates::plain::{first_refused, InvalidHeader, PlainBuilder, PlainRequest};
use nationstates::query::{All, And, Nest, Nothing, Query, Shard};
use nationstates::request::RequestBuilder;

fn pair(key: &str, value: &str) -> (String, String) {
    (key.to_string(), value.to_string())
}

fn built(builder: PlainBuilder) -> PlainRequest {
    match builder.build() {
        Ok(request) => request,
        Err(error) => panic!("unexpected {:?}", error),
    }
}

#[test]
fn two_shards_give_two_parameters_in_order() {
    let query = And(Shard::new("shard", "A"), Shard::new("shard", "B"));
    let request = built(query.add_query(PlainBuilder::get("https://example.test/api")));
    assert_eq!(request.queries, vec![pair("shard", "A"), pair("shard", "B")]);
    assert_eq!(request.queries.len(), 2);
    assert!(request.headers.is_empty());
    assert_eq!(request.url, "https://example.test/api");
}

#[test]
fn composition_is_associative() {
    let left = And(And(Shard::new("q", "name"), Shard::new("q", "motto")), Shard::new("q", "flag"));
    let right = And(Shard::new("q", "name"), And(Shard::new("q", "motto"), Shard::new("q", "flag")));
    let a = built(left.add_query(PlainBuilder::get("u")));
    let b = built(right.add_query(PlainBuilder::get("u")));
    assert_eq!(a, b);
    assert_eq!(a.queries, vec![pair("q", "name"), pair("q", "motto"), pair("q", "flag")]);
}

#[test]
fn composition_keeps_what_the_builder_had() {
    let start = PlainBuilder::get("u").add_queries(&vec![pair("nation", "testlandia")]).add_header("X", "1");
    let request = built(And(Shard::new("q", "a"), Shard::new("q", "b")).add_query(start));
    assert_eq!(request.queries, vec![pair("nation", "testlandia"), pair("q", "a"), pair("q", "b")]);
    assert_eq!(request.headers, vec![pair("X", "1")]);
}

#[test]
fn empty_query_applies_nothing() {
    let request = built(Nothing.add_query(PlainBuilder::get("u")));
    assert!(request.queries.is_empty());
    assert!(request.headers.is_empty());
    assert_eq!(request.url, "u");
}

#[test]
fn empty_query_is_neutral_in_a_composition() {
    let with = built(And(Nothing, And(Shard::new("q", "x"), Nothing)).add_query(PlainBuilder::get("u")));
    let without = built(Shard::new("q", "x").add_query(PlainBuilder::get("u")));
    assert_eq!(with, without);
}

#[test]
fn list_of_queries_applies_each_once_in_order() {
    let list = All(vec![Shard::new("q", "1"), Shard::new("q", "2"), Shard::new("q", "3"), Shard::new("q", "4")]);
    let request = built(list.add_query(PlainBuilder::get("u")));
    assert_eq!(request.queries, vec![pair("q", "1"), pair("q", "2"), pair("q", "3"), pair("q", "4")]);
    let nested = And(And(Shard::new("q", "1"), Shard::new("q", "2")), And(Shard::new("q", "3"), Shard::new("q", "4")));
    assert_eq!(built(nested.add_query(PlainBuilder::get("u"))), request);
}

#[test]
fn empty_list_applies_nothing() {
    let list: All<Shard> = All(Vec::new());
    let request = built(list.add_query(PlainBuilder::get("u")));
    assert!(request.queries.is_empty());
}

#[test]
fn list_of_compositions() {
    let list = All(vec![
        And(Shard::new("a", "1"), Shard::new("b", "2")),
        And(Shard::new("c", "3"), Shard::new("d", "4")),
    ]);
    let request = built(list.add_query(PlainBuilder::get("u")));
    assert_eq!(request.queries, vec![pair("a", "1"), pair("b", "2"), pair("c", "3"), pair("d", "4")]);
}

#[test]
fn builder_records_headers_and_parameters_in_order() {
    let builder = PlainBuilder::get("https://example.test")
        .add_header("User-Agent", "tester")
        .add_queries(&vec![pair("k1", "v1"), pair("k2", "v2")])
        .add_header("Accept", "text/xml")
        .add_queries(&vec![])
        .add_queries(&vec![pair("k3", "v3")]);
    let request = built(builder);
    assert_eq!(request.url, "https://example.test");
    assert_eq!(request.headers, vec![pair("User-Agent", "tester"), pair("Accept", "text/xml")]);
    assert_eq!(request.queries, vec![pair("k1", "v1"), pair("k2", "v2"), pair("k3", "v3")]);
}

#[test]
fn build_gives_the_same_request_for_the_same_state() {
    let builder = PlainBuilder::get("u").add_header("A", "b").add_queries(&vec![pair("k", "v")]);
    let first = builder.clone().build();
    let second = builder.build();
    assert_eq!(first, second);
}

#[test]
fn build_refuses_a_header_without_a_name() {
    let builder = PlainBuilder::get("u").add_header("Good", "yes").add_header("", "value");
    assert_eq!(builder.build(), Err(InvalidHeader { index: 1 }));
}

#[test]
fn build_refuses_a_line_break_in_a_header() {
    let in_value = PlainBuilder::get("u").add_header("User-Agent", "two\nlines");
    assert_eq!(in_value.build(), Err(InvalidHeader { index: 0 }));
    let in_name = PlainBuilder::get("u").add_header("A", "b").add_header("C", "d").add_header("Bad\rName", "x");
    assert_eq!(in_name.build(), Err(InvalidHeader { index: 2 }));
}

#[test]
fn build_names_the_first_of_several_bad_headers() {
    let builder = PlainBuilder::get("u")
        .add_header("ok", "fine")
        .add_header("bad", "a\r\nb")
        .add_header("", "also bad");
    assert_eq!(builder.build(), Err(InvalidHeader { index: 1 }));
}

#[test]
fn build_refuses_what_the_http_stack_refuses() {
    let spaced = PlainBuilder::get("u").add_header("Bad Name", "x");
    assert_eq!(spaced.build(), Err(InvalidHeader { index: 0 }));
    let control = PlainBuilder::get("u").add_header("X-Ok", "fine").add_header("X-Bad", "bell\u{7}");
    assert_eq!(control.build(), Err(InvalidHeader { index: 1 }));
    let delete = PlainBuilder::get("u").add_header("X-Bad", "del\u{7f}");
    assert_eq!(delete.build(), Err(InvalidHeader { index: 0 }));
}

#[test]
fn first_refused_is_the_first_false() {
    assert_eq!(first_refused(&vec![]), None);
    assert_eq!(first_refused(&vec![true, true, true]), None);
    assert_eq!(first_refused(&vec![false]), Some(0));
    assert_eq!(first_refused(&vec![true, false, true, false]), Some(1));
    assert_eq!(first_refused(&vec![true, true, false]), Some(2));
}

#[test]
fn build_accepts_other_characters() {
    let request = built(PlainBuilder::get("u").add_header("User-Agent", "Tab\there; ünïcode (ok)"));
    assert_eq!(request.headers, vec![pair("User-Agent", "Tab\there; ünïcode (ok)")]);
}

fn one(value: &str) -> Box<Nest<Shard>> {
    Box::new(Nest::One(Shard::new("q", value)))
}

#[test]
fn every_nesting_applies_the_same_parameters() {
    let balanced = Nest::Both(
        Box::new(Nest::Both(one("1"), one("2"))),
        Box::new(Nest::Both(one("3"), one("4"))),
    );
    let right = Nest::Both(
        one("1"),
        Box::new(Nest::Both(one("2"), Box::new(Nest::Both(one("3"), one("4"))))),
    );
    let left = Nest::Both(
        Box::new(Nest::Both(Box::new(Nest::Both(one("1"), one("2"))), one("3"))),
        one("4"),
    );
    let expected = vec![pair("q", "1"), pair("q", "2"), pair("q", "3"), pair("q", "4")];
    assert_eq!(built(balanced.add_query(PlainBuilder::get("u"))).queries, expected);
    assert_eq!(built(right.add_query(PlainBuilder::get("u"))).queries, expected);
    assert_eq!(built(left.add_query(PlainBuilder::get("u"))).queries, expected);
}

#[test]
fn nesting_of_one_query_is_that_query() {
    let alone = Nest::One(Shard::new("q", "flag"));
    let request = built(alone.add_query(PlainBuilder::get("u").add_queries(&vec![pair("a", "b")])));
    assert_eq!(request.queries, vec![pair("a", "b"), pair("q", "flag")]);
}
