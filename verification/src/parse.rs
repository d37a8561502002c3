//! From pairs, or from raw text, to a parameter map.

use vstd::prelude::*;
use crate::decode::{decode, form_pairs, has_segment};
use crate::model::{aggregated, grouped, lemma_grouped_map, lemma_grouped_push};
use crate::params::ParameterMap;

verus! {

/// Groups the pairs by key: each key maps to all of its values, in the order
/// in which the pairs held them.
pub fn combine_duplicates(q: Vec<(String, String)>) -> (deduplicated: ParameterMap)
    ensures
        deduplicated.wf(),
        deduplicated.spec_entries() == grouped(q.deep_view()),
        deduplicated@ == aggregated(q.deep_view()),
{
    let ghost pairs = q.deep_view();
    let ghost items = q@;
    let mut deduplicated = ParameterMap::new();
    assert(pairs.take(0) =~= Seq::empty());
    for pair in it: q.into_iter()
        invariant
            it.seq() == items,
            pairs.len() == items.len(),
            forall|i: int| 0 <= i < items.len() ==> pairs[i] == (#[trigger] items[i]).deep_view(),
            deduplicated.wf(),
            deduplicated.spec_entries() == grouped(pairs.take(it.index())),
    {
        let (k, v) = pair;
        proof {
            let n = it.index();
            assert(pairs.take(n + 1) =~= pairs.take(n).push((k@, v@)));
            lemma_grouped_push(pairs.take(n), k@, v@);
        }
        deduplicated.append(k, v);
    }
    proof {
        assert(pairs.take(pairs.len() as int) =~= pairs);
        lemma_grouped_map(pairs);
    }
    deduplicated
}

/// Parses form-urlencoded text into a parameter map; empty text gives `None`.
pub fn create_param_hashmap(data: &str) -> (params: Option<ParameterMap>)
    ensures
        params is None <==> data@.len() == 0,
        params matches Some(map) ==> {
            &&& map.wf()
            &&& map.spec_entries() == grouped(form_pairs(data@))
            &&& map@ == aggregated(form_pairs(data@))
            &&& map.spec_entries().len() > 0 <==> has_segment(data@)
        },
{
    if data.is_empty() {
        None
    } else {
        let pairs = decode(data);
        Some(combine_duplicates(pairs))
    }
}

/// Parses the query component of a request. An absent query and an empty one
/// both give `None`; any other gives the map of its grouped pairs.
pub fn parse_query(raw: Option<&str>) -> (params: Option<ParameterMap>)
    ensures
        params is None <==> (raw is None || raw.unwrap()@.len() == 0),
        params matches Some(map) ==> {
            &&& map.wf()
            &&& map.spec_entries() == grouped(form_pairs(raw.unwrap()@))
            &&& map@ == aggregated(form_pairs(raw.unwrap()@))
            &&& map.spec_entries().len() > 0 <==> has_segment(raw.unwrap()@)
        },
{
    match raw {
        Some(query) => create_param_hashmap(query),
        None => None,
    }
}

/// Parses the body of a request. An empty body gives `None`; any other gives
/// the map of its grouped pairs.
pub fn parse_body(raw: &str) -> (params: Option<ParameterMap>)
    ensures
        params is None <==> raw@.len() == 0,
        params matches Some(map) ==> {
            &&& map.wf()
            &&& map.spec_entries() == grouped(form_pairs(raw@))
            &&& map@ == aggregated(form_pairs(raw@))
            &&& map.spec_entries().len() > 0 <==> has_segment(raw@)
        },
{
    create_param_hashmap(raw)
}

/// The two texts of a request that hold form-urlencoded parameters.
pub struct RequestParts {
    /// The query component of the request's target, where it has one.
    pub query: Option<String>,
    /// The content of the request's body.
    pub body: String,
}

/// Parsing of the form-urlencoded parameters that a request carries.
///
/// Each result is `Some` only if the text it is parsed from is there and is not
/// empty. A key that appears several times maps to all of its values:
/// `a=b&a=c` gives `a => [b, c]`.
pub trait UrlEncodedMixin {
    /// The query component that the request carries, where it has one.
    spec fn query_text(&self) -> Option<Seq<char>>;

    /// The content of the request's body.
    spec fn body_text(&self) -> Seq<char>;

    /// Parses the query component.
    fn parse_urlencoded_query(&self) -> (params: Option<ParameterMap>)
        ensures
            params is None <==> (self.query_text() is None || self.query_text().unwrap().len() == 0),
            params matches Some(map) ==> {
                &&& map.wf()
                &&& map.spec_entries() == grouped(form_pairs(self.query_text().unwrap()))
                &&& map@ == aggregated(form_pairs(self.query_text().unwrap()))
                &&& map.spec_entries().len() > 0 <==> has_segment(self.query_text().unwrap())
            },
    ;

    /// Parses the body.
    fn parse_urlencoded_body(&self) -> (params: Option<ParameterMap>)
        ensures
            params is None <==> self.body_text().len() == 0,
            params matches Some(map) ==> {
                &&& map.wf()
                &&& map.spec_entries() == grouped(form_pairs(self.body_text()))
                &&& map@ == aggregated(form_pairs(self.body_text()))
                &&& map.spec_entries().len() > 0 <==> has_segment(self.body_text())
            },
    ;
}

impl UrlEncodedMixin for RequestParts {
    open spec fn query_text(&self) -> Option<Seq<char>> {
        match self.query {
            Some(query) => Some(query@),
            None => None,
        }
    }

    open spec fn body_text(&self) -> Seq<char> {
        self.body@
    }

    fn parse_urlencoded_query(&self) -> (params: Option<ParameterMap>) {
        match &self.query {
            Some(query) => create_param_hashmap(query.as_str()),
            None => None,
        }
    }

    fn parse_urlencoded_body(&self) -> (params: Option<ParameterMap>) {
        create_param_hashmap(self.body.as_str())
    }
}

} // verus!
