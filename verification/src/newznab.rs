//! Newznab requests and their answers.
//!
//! One code path covers every indexer of the family and every search type.
use vstd::prelude::*;

use crate::caps_parser;
use crate::caps_parser::parse_caps;
use crate::order;
use crate::search_parser;
use crate::search_parser::{parse_error, parse_search_results};
use crate::text;
use crate::text::{chars_of, join, parse_unsigned, to_decimal};
use crate::types::{CapsView, IndexerCaps, IndexerConfig, QueryView, ResultView, SearchQuery, SearchResult, SearchType};
use crate::xml;

verus! {

/// Why a request to an indexer failed.
#[derive(Debug)]
pub enum IndexError {
    /// The indexer refused the request.
    Api { code: u16, description: String },
    /// The indexer asks for a pause.
    RateLimited { indexer: String, retry_after_s: u64 },
    /// The capabilities cannot be read.
    CapsParse(String),
    /// The results cannot be read.
    SearchParse(String),
}

/// What an [`IndexError`] says.
pub enum IndexErrorView {
    Api { code: u16, description: Seq<char> },
    RateLimited { indexer: Seq<char>, retry_after_s: u64 },
    CapsParse(Seq<char>),
    SearchParse(Seq<char>),
}

impl View for IndexError {
    type V = IndexErrorView;

    open spec fn view(&self) -> IndexErrorView {
        match self {
            IndexError::Api { code, description } => IndexErrorView::Api {
                code: *code,
                description: description@,
            },
            IndexError::RateLimited { indexer, retry_after_s } => IndexErrorView::RateLimited {
                indexer: indexer@,
                retry_after_s: *retry_after_s,
            },
            IndexError::CapsParse(m) => IndexErrorView::CapsParse(m@),
            IndexError::SearchParse(m) => IndexErrorView::SearchParse(m@),
        }
    }
}

/// The parameters of a request, in order.
pub type Pairs = Seq<(Seq<char>, Seq<char>)>;

/// What a list of parameters holds.
pub open spec fn pair_views(v: Seq<(String, String)>) -> Pairs {
    v.map_values(|p: (String, String)| (p.0@, p.1@))
}

/// The address that `url::Url` makes of a base address and parameters behind its query;
/// `None` where the base is not an address.
pub uninterp spec fn url_with_query(base: Seq<char>, pairs: Pairs) -> Option<Seq<char>>;

/// Calls `url::Url::parse` and adds the parameters to the query, in order, with
/// `query_pairs_mut` and `extend_pairs`, which percent-encodes them. The encoding is left
/// unsaid.
#[verifier::external_body]
pub(crate) fn add_query(base: &str, pairs: &Vec<(String, String)>) -> (r: Option<String>)
    ensures
        match r {
            Some(s) => url_with_query(base@, pair_views(pairs@)) == Some(s@),
            None => url_with_query(base@, pair_views(pairs@)) is None,
        },
{
    let mut url = url::Url::parse(base).ok()?;
    url.query_pairs_mut().extend_pairs(pairs);
    Some(url.to_string())
}

/// What `reqwest::StatusCode` displays of a status code; `None` where it is not one.
pub uninterp spec fn status_text(code: u16) -> Option<Seq<char>>;

/// Calls `reqwest::StatusCode::from_u16`, which accepts the codes of three digits, and
/// displays the code with its reason. The reasons are left unsaid.
#[verifier::external_body]
pub(crate) fn describe_status(code: u16) -> (r: Option<String>)
    ensures
        match r {
            Some(s) => status_text(code) == Some(s@),
            None => status_text(code) is None,
        },
        r is Some == (100 <= code <= 999),
{
    reqwest::StatusCode::from_u16(code).ok().map(|s| s.to_string())
}

/// The parameter `key`, if there is a value.
pub open spec fn text_pair(key: Seq<char>, v: Option<Seq<char>>) -> Pairs {
    match v {
        Some(s) => seq![(key, s)],
        None => Seq::empty(),
    }
}

/// The parameter `key`, if there is a number.
pub open spec fn number_pair(key: Seq<char>, v: Option<nat>) -> Pairs {
    match v {
        Some(n) => seq![(key, text::decimal(n))],
        None => Seq::empty(),
    }
}

/// A 32-bit number as a number.
pub open spec fn small(v: Option<u32>) -> Option<nat> {
    match v {
        Some(n) => Some(n as nat),
        None => None,
    }
}

/// A 64-bit number as a number.
pub open spec fn large(v: Option<u64>) -> Option<nat> {
    match v {
        Some(n) => Some(n as nat),
        None => None,
    }
}

/// A list of numbers, in decimal, with commas between.
pub open spec fn number_list(v: Seq<u32>) -> Seq<char> {
    text::joined(v.map_values(|n: u32| text::decimal(n as nat)), ","@)
}

/// The parameters that every request has.
pub open spec fn request_pairs(api_key: Seq<char>, func: Seq<char>) -> Pairs {
    seq![("apikey"@, api_key), ("t"@, func)]
}

/// The parameters that every search type has.
pub open spec fn common_pairs(q: QueryView) -> Pairs {
    text_pair("q"@, q.q) + number_pair(
        "limit"@,
        if q.limit != 100 {
            Some(q.limit as nat)
        } else {
            None
        },
    ) + number_pair(
        "offset"@,
        if q.offset > 0 {
            Some(q.offset as nat)
        } else {
            None
        },
    ) + number_pair("maxage"@, small(q.max_age_days)) + number_pair("minsize"@, large(q.min_size))
        + number_pair("maxsize"@, large(q.max_size)) + text_pair(
        "cat"@,
        if q.categories.len() > 0 {
            Some(number_list(q.categories))
        } else {
            None
        },
    )
}

/// The parameters of the search type.
pub open spec fn typed_pairs(q: QueryView) -> Pairs {
    match q.ty {
        SearchType::TvSearch => number_pair("season"@, small(q.season)) + number_pair(
            "ep"@,
            small(q.episode),
        ) + number_pair("tvdbid"@, small(q.tvdb_id)) + number_pair(
            "tvmazeid"@,
            small(q.tvmaze_id),
        ) + number_pair("rid"@, small(q.rage_id)),
        SearchType::Movie => text_pair("imdbid"@, q.imdb_id),
        SearchType::Music => text_pair("artist"@, q.artist) + text_pair("album"@, q.album)
            + text_pair("label"@, q.label) + number_pair("year"@, small(q.year)),
        SearchType::Book => text_pair("author"@, q.author) + text_pair("title"@, q.title),
        SearchType::Search => Seq::empty(),
    }
}

/// The parameters of a search: the request, the query, and always the extended attributes.
pub open spec fn search_pairs(api_key: Seq<char>, q: QueryView) -> Pairs {
    request_pairs(api_key, q.ty.name()) + common_pairs(q) + typed_pairs(q) + seq![
        ("extended"@, "1"@),
    ]
}

fn push_text(pairs: &mut Vec<(String, String)>, key: &str, v: &Option<String>)
    ensures
        pair_views(final(pairs)@) == pair_views(old(pairs)@) + text_pair(
            key@,
            crate::types::text_of(*v),
        ),
{
    if let Some(s) = v {
        pairs.push((key.to_owned(), s.clone()));
    }
    assert(pair_views(pairs@) =~= pair_views(old(pairs)@) + text_pair(
        key@,
        crate::types::text_of(*v),
    ));
}

fn push_number(pairs: &mut Vec<(String, String)>, key: &str, v: Option<u64>)
    ensures
        pair_views(final(pairs)@) == pair_views(old(pairs)@) + number_pair(key@, large(v)),
{
    if let Some(n) = v {
        pairs.push((key.to_owned(), to_decimal(n)));
    }
    assert(pair_views(pairs@) =~= pair_views(old(pairs)@) + number_pair(key@, large(v)));
}

fn widen(v: Option<u32>) -> (r: Option<u64>)
    ensures
        large(r) == small(v),
{
    match v {
        Some(n) => Some(n as u64),
        None => None,
    }
}

/// A list of numbers, in decimal, with commas between.
pub fn decimal_list(v: &Vec<u32>) -> (r: String)
    ensures
        r@ == number_list(v@),
{
    let mut parts: Vec<String> = Vec::new();
    for i in 0..v.len()
        invariant
            parts.len() == i,
            forall|j: int| 0 <= j < i ==> (#[trigger] parts@[j])@ == text::decimal(v@[j] as nat),
    {
        parts.push(to_decimal(v[i] as u64));
    }
    assert(text::strings(parts@) =~= v@.map_values(|n: u32| text::decimal(n as nat)));
    join(&parts, ",")
}

proof fn lemma_first_pairs(p: Pairs)
    ensures
        pair_views(Seq::<(String, String)>::empty()) + p == p,
{
    assert(pair_views(Seq::<(String, String)>::empty()) =~= Seq::empty());
    assert(Seq::empty() + p =~= p);
}

fn common_params(q: &SearchQuery) -> (r: Vec<(String, String)>)
    ensures
        pair_views(r@) == common_pairs(q@),
{
    let mut pairs: Vec<(String, String)> = Vec::new();
    proof {
        lemma_first_pairs(text_pair("q"@, q@.q));
    }
    push_text(&mut pairs, "q", &q.q);
    push_number(
        &mut pairs,
        "limit",
        if q.limit != 100 {
            Some(q.limit as u64)
        } else {
            None
        },
    );
    push_number(
        &mut pairs,
        "offset",
        if q.offset > 0 {
            Some(q.offset as u64)
        } else {
            None
        },
    );
    push_number(&mut pairs, "maxage", widen(q.max_age_days));
    push_number(&mut pairs, "minsize", q.min_size);
    push_number(&mut pairs, "maxsize", q.max_size);
    let cats = if q.categories.len() > 0 {
        Some(decimal_list(&q.categories))
    } else {
        None
    };
    push_text(&mut pairs, "cat", &cats);
    pairs
}

fn typed_params(q: &SearchQuery) -> (r: Vec<(String, String)>)
    ensures
        pair_views(r@) == typed_pairs(q@),
{
    let mut pairs: Vec<(String, String)> = Vec::new();
    match q.ty {
        SearchType::TvSearch => {
            proof {
                lemma_first_pairs(number_pair("season"@, small(q@.season)));
            }
            push_number(&mut pairs, "season", widen(q.season));
            push_number(&mut pairs, "ep", widen(q.episode));
            push_number(&mut pairs, "tvdbid", widen(q.tvdb_id));
            push_number(&mut pairs, "tvmazeid", widen(q.tvmaze_id));
            push_number(&mut pairs, "rid", widen(q.rage_id));
        },
        SearchType::Movie => {
            proof {
                lemma_first_pairs(text_pair("imdbid"@, q@.imdb_id));
            }
            push_text(&mut pairs, "imdbid", &q.imdb_id);
        },
        SearchType::Music => {
            proof {
                lemma_first_pairs(text_pair("artist"@, q@.artist));
            }
            push_text(&mut pairs, "artist", &q.artist);
            push_text(&mut pairs, "album", &q.album);
            push_text(&mut pairs, "label", &q.label);
            push_number(&mut pairs, "year", widen(q.year));
        },
        SearchType::Book => {
            proof {
                lemma_first_pairs(text_pair("author"@, q@.author));
            }
            push_text(&mut pairs, "author", &q.author);
            push_text(&mut pairs, "title", &q.title);
        },
        SearchType::Search => {
            proof {
                lemma_first_pairs(Seq::empty());
            }
        },
    }
    pairs
}

/// The parameters of a search.
pub fn query_pairs(api_key: &str, q: &SearchQuery) -> (r: Vec<(String, String)>)
    ensures
        pair_views(r@) == search_pairs(api_key@, q@),
{
    let mut pairs: Vec<(String, String)> = Vec::new();
    pairs.push(("apikey".to_owned(), api_key.to_owned()));
    pairs.push(("t".to_owned(), q.ty.as_str().to_owned()));
    assert(pair_views(pairs@) =~= request_pairs(api_key@, q@.ty.name()));
    let mut common = common_params(q);
    let mut typed = typed_params(q);
    let ghost c = common@;
    let ghost t = typed@;
    let ghost p = pairs@;
    pairs.append(&mut common);
    pairs.append(&mut typed);
    pairs.push(("extended".to_owned(), "1".to_owned()));
    assert(pair_views(pairs@) =~= pair_views(p) + pair_views(c) + pair_views(t) + seq![
        ("extended"@, "1"@),
    ]);
    pairs
}

/// The error that an HTTP status other than success means, with the status displayed as
/// `shown`.
pub open spec fn http_error(code: u16, shown: Seq<char>) -> IndexErrorView {
    IndexErrorView::Api { code, description: "HTTP "@ + shown }
}

/// The error that an HTTP status other than success means.
pub fn status_error(code: u16, shown: &str) -> (r: IndexError)
    ensures
        r@ == http_error(code, shown@),
{
    let mut description = "HTTP ".to_owned();
    description.append(shown);
    IndexError::Api { code, description }
}

/// How many seconds to wait: the number in a `Retry-After` header, or a minute.
pub open spec fn pause_of(retry_after: Option<Seq<char>>) -> u64 {
    match retry_after {
        Some(s) => match text::unsigned(s, u64::MAX as nat) {
            Some(n) => n as u64,
            None => 60,
        },
        None => 60,
    }
}

/// What the answer to a capabilities request with this status and body says.
pub open spec fn caps_answer(status: u16, body: Seq<char>) -> Result<CapsView, IndexErrorView> {
    if !(200 <= status <= 299) {
        Err(http_error(status, status_text(status)->0))
    } else {
        match caps_parser::CapsReaderView::start().finished(xml::xml_steps(body)) {
            Ok(c) => Ok(c),
            Err(m) => Err(IndexErrorView::CapsParse(m)),
        }
    }
}

/// What the answer to a search with this status, `Retry-After` header and body says.
pub open spec fn search_answer(
    indexer: Seq<char>,
    status: u16,
    retry_after: Option<Seq<char>>,
    body: Seq<char>,
) -> Result<Seq<ResultView>, IndexErrorView> {
    if status == 429 {
        Err(IndexErrorView::RateLimited { indexer, retry_after_s: pause_of(retry_after) })
    } else if !(200 <= status <= 299) {
        Err(http_error(status, status_text(status)->0))
    } else {
        results_in(indexer, body)
    }
}

/// What the body of a successful search says: a refusal, the results, or the message of an
/// XML error.
pub open spec fn results_in(indexer: Seq<char>, body: Seq<char>) -> Result<
    Seq<ResultView>,
    IndexErrorView,
> {
    let steps = xml::xml_steps(body);
    match (search_parser::may_refuse(body), search_parser::first_refusal(steps)) {
        (true, Some(e)) => Err(
            IndexErrorView::Api { code: e.code, description: e.description },
        ),
        _ => match search_parser::CollectorView::start(indexer).finished(steps) {
            Ok(v) => Ok(v),
            Err(m) => Err(IndexErrorView::SearchParse(m)),
        },
    }
}

/// What a parsed answer holds.
pub open spec fn found_view(r: Result<Vec<SearchResult>, IndexError>) -> Result<
    Seq<ResultView>,
    IndexErrorView,
> {
    match r {
        Ok(v) => Ok(order::views(v@)),
        Err(e) => Err(e@),
    }
}

/// Requests to one indexer and their answers.
#[derive(Debug)]
pub struct NewznabClient {
    config: IndexerConfig,
}

impl View for NewznabClient {
    type V = crate::types::IndexerConfigView;

    closed spec fn view(&self) -> crate::types::IndexerConfigView {
        self.config@
    }
}

impl NewznabClient {
    /// A client of the indexer in `config`.
    pub fn new(config: IndexerConfig) -> (r: Self)
        ensures
            r@ == config@,
    {
        NewznabClient { config }
    }

    /// The name of the indexer.
    pub fn name(&self) -> (r: &str)
        ensures
            r@ == self@.name,
    {
        self.config.name.as_str()
    }

    /// How the indexer is reached.
    pub fn config(&self) -> (r: &IndexerConfig)
        ensures
            r@ == self@,
    {
        &self.config
    }

    /// The address of a request for `func`; `None` where the configured address is not one.
    pub fn build_url(&self, func: &str) -> (r: Option<String>)
        ensures
            crate::types::text_of(r) == url_with_query(
                self@.url,
                request_pairs(self@.api_key, func@),
            ),
    {
        let mut pairs: Vec<(String, String)> = Vec::new();
        pairs.push(("apikey".to_owned(), self.config.api_key.clone()));
        pairs.push(("t".to_owned(), func.to_owned()));
        assert(pair_views(pairs@) =~= request_pairs(self@.api_key, func@));
        add_query(&self.config.url, &pairs)
    }

    /// The address of a search; `None` where the configured address is not one.
    pub fn build_search_url(&self, q: &SearchQuery) -> (r: Option<String>)
        ensures
            crate::types::text_of(r) == url_with_query(
                self@.url,
                search_pairs(self@.api_key, q@),
            ),
    {
        let pairs = query_pairs(&self.config.api_key, q);
        add_query(&self.config.url, &pairs)
    }

    /// Why an answer with this status holds no capabilities.
    pub fn refused_caps(&self, status: u16) -> (r: Option<IndexError>)
        requires
            100 <= status <= 999,
        ensures
            match r {
                Some(e) => !(200 <= status <= 299) && e@ == http_error(
                    status,
                    status_text(status)->0,
                ),
                None => 200 <= status <= 299,
            },
    {
        if 200 <= status && status <= 299 {
            return None;
        }
        match describe_status(status) {
            Some(shown) => Some(status_error(status, &shown)),
            None => None,
        }
    }

    /// Why an answer with this status and `Retry-After` header holds no results.
    pub fn refused_search(&self, status: u16, retry_after: Option<&str>) -> (r: Option<IndexError>)
        requires
            100 <= status <= 999,
        ensures
            match r {
                Some(e) => if status == 429 {
                    e@ == (IndexErrorView::RateLimited {
                        indexer: self@.name,
                        retry_after_s: pause_of(
                            match retry_after {
                                Some(s) => Some(s@),
                                None => None,
                            },
                        ),
                    })
                } else {
                    !(200 <= status <= 299) && e@ == http_error(status, status_text(status)->0)
                },
                None => 200 <= status <= 299,
            },
    {
        if status == 429 {
            let retry_after_s: u64 = match retry_after {
                Some(s) => {
                    let cs = chars_of(s);
                    match parse_unsigned(&cs, u64::MAX) {
                        Some(n) => n,
                        None => 60,
                    }
                },
                None => 60,
            };
            return Some(
                IndexError::RateLimited { indexer: self.config.name.clone(), retry_after_s },
            );
        }
        self.refused_caps(status)
    }

    /// What the answer to a capabilities request says.
    pub fn read_caps(&self, status: u16, body: &str) -> (r: Result<IndexerCaps, IndexError>)
        requires
            100 <= status <= 999,
        ensures
            match r {
                Ok(c) => caps_answer(status, body@) == Ok::<CapsView, IndexErrorView>(c@),
                Err(e) => caps_answer(status, body@) == Err::<CapsView, IndexErrorView>(e@),
            },
    {
        match self.refused_caps(status) {
            Some(e) => Err(e),
            None => match parse_caps(body) {
                Ok(c) => Ok(c),
                Err(m) => Err(IndexError::CapsParse(m)),
            },
        }
    }

    /// What the body of a successful search says.
    pub fn read_results(&self, body: &str) -> (r: Result<Vec<SearchResult>, IndexError>)
        ensures
            found_view(r) == results_in(self@.name, body@),
    {
        if let Some(e) = parse_error(body) {
            return Err(IndexError::Api { code: e.code, description: e.description });
        }
        match parse_search_results(body, &self.config.name) {
            Ok(v) => Ok(v),
            Err(m) => Err(IndexError::SearchParse(m)),
        }
    }

    /// What the answer to a search says.
    pub fn read_search(&self, status: u16, retry_after: Option<&str>, body: &str) -> (r: Result<
        Vec<SearchResult>,
        IndexError,
    >)
        requires
            100 <= status <= 999,
        ensures
            found_view(r) == search_answer(
                self@.name,
                status,
                match retry_after {
                    Some(s) => Some(s@),
                    None => None,
                },
                body@,
            ),
    {
        match self.refused_search(status, retry_after) {
            Some(e) => Err(e),
            None => self.read_results(body),
        }
    }
}

/// 1 where something holds, and else 0.
pub open spec fn one_if(holds: bool) -> nat {
    if holds {
        1
    } else {
        0
    }
}

proof fn lemma_text_pair(key: Seq<char>, t: Option<Seq<char>>, k: Seq<char>, v: Seq<char>)
    ensures
        text_pair(key, t).contains((k, v)) <==> k == key && t == Some(v),
        text_pair(key, t).len() == if t is Some {
            1nat
        } else {
            0nat
        },
{
    if t is Some {
        assert(text_pair(key, t)[0] == (key, t->0));
    }
}

proof fn lemma_number_pair(key: Seq<char>, n: Option<nat>, k: Seq<char>, v: Seq<char>)
    ensures
        number_pair(key, n).contains((k, v)) <==> k == key && n is Some && v == text::decimal(n->0),
        number_pair(key, n).len() == if n is Some {
            1nat
        } else {
            0nat
        },
{
    if n is Some {
        assert(number_pair(key, n)[0] == (key, text::decimal(n->0)));
    }
}

proof fn lemma_either(a: Pairs, b: Pairs, p: (Seq<char>, Seq<char>))
    ensures
        (a + b).contains(p) <==> a.contains(p) || b.contains(p),
{
    if a.contains(p) {
        let i = choose|i: int| 0 <= i < a.len() && a[i] == p;
        assert((a + b)[i] == p);
    }
    if b.contains(p) {
        let i = choose|i: int| 0 <= i < b.len() && b[i] == p;
        assert((a + b)[a.len() + i] == p);
    }
}

proof fn lemma_common(q: QueryView, k: Seq<char>, v: Seq<char>)
    ensures
        common_pairs(q).contains((k, v)) <==> {
            ||| k == "q"@ && q.q == Some(v)
            ||| k == "limit"@ && q.limit != 100 && v == text::decimal(q.limit as nat)
            ||| k == "offset"@ && q.offset > 0 && v == text::decimal(q.offset as nat)
            ||| k == "maxage"@ && q.max_age_days is Some && v == text::decimal(
                q.max_age_days->0 as nat,
            )
            ||| k == "minsize"@ && q.min_size is Some && v == text::decimal(q.min_size->0 as nat)
            ||| k == "maxsize"@ && q.max_size is Some && v == text::decimal(q.max_size->0 as nat)
            ||| k == "cat"@ && q.categories.len() > 0 && v == text::joined(
                q.categories.map_values(|n: u32| text::decimal(n as nat)),
                ","@,
            )
        },
        common_pairs(q).len() == one_if(q.q is Some) + one_if(q.limit != 100) + one_if(q.offset > 0)
            + one_if(q.max_age_days is Some) + one_if(q.min_size is Some) + one_if(
            q.max_size is Some,
        ) + one_if(q.categories.len() > 0),
{
    let p = (k, v);
    let a = text_pair("q"@, q.q);
    let limit = if q.limit != 100 {
        Some(q.limit as nat)
    } else {
        None
    };
    let b = number_pair("limit"@, limit);
    let offset = if q.offset > 0 {
        Some(q.offset as nat)
    } else {
        None
    };
    let c = number_pair("offset"@, offset);
    let d = number_pair("maxage"@, small(q.max_age_days));
    let e = number_pair("minsize"@, large(q.min_size));
    let f = number_pair("maxsize"@, large(q.max_size));
    let cats = if q.categories.len() > 0 {
        Some(number_list(q.categories))
    } else {
        None
    };
    let g = text_pair("cat"@, cats);
    lemma_text_pair("q"@, q.q, k, v);
    lemma_number_pair("limit"@, limit, k, v);
    lemma_number_pair("offset"@, offset, k, v);
    lemma_number_pair("maxage"@, small(q.max_age_days), k, v);
    lemma_number_pair("minsize"@, large(q.min_size), k, v);
    lemma_number_pair("maxsize"@, large(q.max_size), k, v);
    lemma_text_pair("cat"@, cats, k, v);
    lemma_either(a, b, p);
    lemma_either(a + b, c, p);
    lemma_either(a + b + c, d, p);
    lemma_either(a + b + c + d, e, p);
    lemma_either(a + b + c + d + e, f, p);
    lemma_either(a + b + c + d + e + f, g, p);
    assert(common_pairs(q) == a + b + c + d + e + f + g);
}

proof fn lemma_typed(q: QueryView, k: Seq<char>, v: Seq<char>)
    ensures
        typed_pairs(q).contains((k, v)) <==> match q.ty {
            SearchType::TvSearch => {
                ||| k == "season"@ && q.season is Some && v == text::decimal(q.season->0 as nat)
                ||| k == "ep"@ && q.episode is Some && v == text::decimal(q.episode->0 as nat)
                ||| k == "tvdbid"@ && q.tvdb_id is Some && v == text::decimal(q.tvdb_id->0 as nat)
                ||| k == "tvmazeid"@ && q.tvmaze_id is Some && v == text::decimal(
                    q.tvmaze_id->0 as nat,
                )
                ||| k == "rid"@ && q.rage_id is Some && v == text::decimal(q.rage_id->0 as nat)
            },
            SearchType::Movie => k == "imdbid"@ && q.imdb_id == Some(v),
            SearchType::Music => {
                ||| k == "artist"@ && q.artist == Some(v)
                ||| k == "album"@ && q.album == Some(v)
                ||| k == "label"@ && q.label == Some(v)
                ||| k == "year"@ && q.year is Some && v == text::decimal(q.year->0 as nat)
            },
            SearchType::Book => {
                ||| k == "author"@ && q.author == Some(v)
                ||| k == "title"@ && q.title == Some(v)
            },
            SearchType::Search => false,
        },
{
    let p = (k, v);
    match q.ty {
        SearchType::TvSearch => {
            let a = number_pair("season"@, small(q.season));
            let b = number_pair("ep"@, small(q.episode));
            let c = number_pair("tvdbid"@, small(q.tvdb_id));
            let d = number_pair("tvmazeid"@, small(q.tvmaze_id));
            let e = number_pair("rid"@, small(q.rage_id));
            lemma_number_pair("season"@, small(q.season), k, v);
            lemma_number_pair("ep"@, small(q.episode), k, v);
            lemma_number_pair("tvdbid"@, small(q.tvdb_id), k, v);
            lemma_number_pair("tvmazeid"@, small(q.tvmaze_id), k, v);
            lemma_number_pair("rid"@, small(q.rage_id), k, v);
            lemma_either(a, b, p);
            lemma_either(a + b, c, p);
            lemma_either(a + b + c, d, p);
            lemma_either(a + b + c + d, e, p);
            assert(typed_pairs(q) == a + b + c + d + e);
        },
        SearchType::Movie => lemma_text_pair("imdbid"@, q.imdb_id, k, v),
        SearchType::Music => {
            let a = text_pair("artist"@, q.artist);
            let b = text_pair("album"@, q.album);
            let c = text_pair("label"@, q.label);
            let d = number_pair("year"@, small(q.year));
            lemma_text_pair("artist"@, q.artist, k, v);
            lemma_text_pair("album"@, q.album, k, v);
            lemma_text_pair("label"@, q.label, k, v);
            lemma_number_pair("year"@, small(q.year), k, v);
            lemma_either(a, b, p);
            lemma_either(a + b, c, p);
            lemma_either(a + b + c, d, p);
            assert(typed_pairs(q) == a + b + c + d);
        },
        SearchType::Book => {
            let a = text_pair("author"@, q.author);
            let b = text_pair("title"@, q.title);
            lemma_text_pair("author"@, q.author, k, v);
            lemma_text_pair("title"@, q.title, k, v);
            lemma_either(a, b, p);
        },
        SearchType::Search => {},
    }
}

/// A search names its key, its function, and each field of the query that is set and belongs to
/// the search type, under the name that Newznab gives it. The limit stands there unless it is the
/// usual hundred, and the offset unless it is none. Nothing else stands there but the wish for
/// all attributes.
pub proof fn set_fields_are_asked_for(
    api_key: Seq<char>,
    q: QueryView,
    k: Seq<char>,
    v: Seq<char>,
)
    ensures
        search_pairs(api_key, q).contains((k, v)) <==> {
            ||| k == "apikey"@ && v == api_key
            ||| k == "t"@ && v == match q.ty {
                SearchType::Search => "search"@,
                SearchType::TvSearch => "tvsearch"@,
                SearchType::Movie => "movie"@,
                SearchType::Music => "music"@,
                SearchType::Book => "book"@,
            }
            ||| k == "q"@ && q.q == Some(v)
            ||| k == "limit"@ && q.limit != 100 && v == text::decimal(q.limit as nat)
            ||| k == "offset"@ && q.offset > 0 && v == text::decimal(q.offset as nat)
            ||| k == "maxage"@ && q.max_age_days is Some && v == text::decimal(
                q.max_age_days->0 as nat,
            )
            ||| k == "minsize"@ && q.min_size is Some && v == text::decimal(q.min_size->0 as nat)
            ||| k == "maxsize"@ && q.max_size is Some && v == text::decimal(q.max_size->0 as nat)
            ||| k == "cat"@ && q.categories.len() > 0 && v == text::joined(
                q.categories.map_values(|n: u32| text::decimal(n as nat)),
                ","@,
            )
            ||| q.ty is TvSearch && k == "season"@ && q.season is Some && v == text::decimal(
                q.season->0 as nat,
            )
            ||| q.ty is TvSearch && k == "ep"@ && q.episode is Some && v == text::decimal(
                q.episode->0 as nat,
            )
            ||| q.ty is TvSearch && k == "tvdbid"@ && q.tvdb_id is Some && v == text::decimal(
                q.tvdb_id->0 as nat,
            )
            ||| q.ty is TvSearch && k == "tvmazeid"@ && q.tvmaze_id is Some && v == text::decimal(
                q.tvmaze_id->0 as nat,
            )
            ||| q.ty is TvSearch && k == "rid"@ && q.rage_id is Some && v == text::decimal(
                q.rage_id->0 as nat,
            )
            ||| q.ty is Movie && k == "imdbid"@ && q.imdb_id == Some(v)
            ||| q.ty is Music && k == "artist"@ && q.artist == Some(v)
            ||| q.ty is Music && k == "album"@ && q.album == Some(v)
            ||| q.ty is Music && k == "label"@ && q.label == Some(v)
            ||| q.ty is Music && k == "year"@ && q.year is Some && v == text::decimal(
                q.year->0 as nat,
            )
            ||| q.ty is Book && k == "author"@ && q.author == Some(v)
            ||| q.ty is Book && k == "title"@ && q.title == Some(v)
            ||| k == "extended"@ && v == "1"@
        },
{
    let p = (k, v);
    let a = request_pairs(api_key, q.ty.name());
    let d = seq![("extended"@, "1"@)];
    assert(a[0] == ("apikey"@, api_key) && a[1] == ("t"@, q.ty.name()));
    assert(d[0] == ("extended"@, "1"@));
    lemma_common(q, k, v);
    lemma_typed(q, k, v);
    lemma_either(a, common_pairs(q), p);
    lemma_either(a + common_pairs(q), typed_pairs(q), p);
    lemma_either(a + common_pairs(q) + typed_pairs(q), d, p);
}

/// No field is asked for twice: there are as many parameters as fields that are set, beside the
/// key, the function and the wish for all attributes.
pub proof fn fields_are_asked_for_once(api_key: Seq<char>, q: QueryView)
    ensures
        search_pairs(api_key, q).len() == 3 + one_if(q.q is Some) + one_if(q.limit != 100) + one_if(
            q.offset > 0,
        ) + one_if(q.max_age_days is Some) + one_if(q.min_size is Some) + one_if(
            q.max_size is Some,
        ) + one_if(q.categories.len() > 0) + match q.ty {
            SearchType::Search => 0nat,
            SearchType::TvSearch => one_if(q.season is Some) + one_if(q.episode is Some) + one_if(
                q.tvdb_id is Some,
            ) + one_if(q.tvmaze_id is Some) + one_if(q.rage_id is Some),
            SearchType::Movie => one_if(q.imdb_id is Some),
            SearchType::Music => one_if(q.artist is Some) + one_if(q.album is Some) + one_if(
                q.label is Some,
            ) + one_if(q.year is Some),
            SearchType::Book => one_if(q.author is Some) + one_if(q.title is Some),
        },
{
    lemma_common(q, Seq::empty(), Seq::empty());
    lemma_typed_length(q);
    let a = request_pairs(api_key, q.ty.name());
    let d = seq![("extended"@, "1"@)];
    assert(a.len() == 2 && d.len() == 1);
    assert(search_pairs(api_key, q) == a + common_pairs(q) + typed_pairs(q) + d);
}

proof fn lemma_typed_length(q: QueryView)
    ensures
        typed_pairs(q).len() == match q.ty {
            SearchType::Search => 0nat,
            SearchType::TvSearch => one_if(q.season is Some) + one_if(q.episode is Some) + one_if(
                q.tvdb_id is Some,
            ) + one_if(q.tvmaze_id is Some) + one_if(q.rage_id is Some),
            SearchType::Movie => one_if(q.imdb_id is Some),
            SearchType::Music => one_if(q.artist is Some) + one_if(q.album is Some) + one_if(
                q.label is Some,
            ) + one_if(q.year is Some),
            SearchType::Book => one_if(q.author is Some) + one_if(q.title is Some),
        },
{
    let none = Seq::<char>::empty();
    lemma_number_pair("season"@, small(q.season), none, none);
    lemma_number_pair("ep"@, small(q.episode), none, none);
    lemma_number_pair("tvdbid"@, small(q.tvdb_id), none, none);
    lemma_number_pair("tvmazeid"@, small(q.tvmaze_id), none, none);
    lemma_number_pair("rid"@, small(q.rage_id), none, none);
    lemma_number_pair("year"@, small(q.year), none, none);
}

/// The categories of a query are read back from the list that stands for them.
pub proof fn category_lists_are_read_back(v: Seq<u32>)
    requires
        v.len() > 0,
    ensures
        text::fields(text::joined(v.map_values(|n: u32| text::decimal(n as nat)), ","@), ',').len()
            == v.len(),
        forall|i: int|
            0 <= i < v.len() ==> text::unsigned(
                text::fields(
                    text::joined(v.map_values(|n: u32| text::decimal(n as nat)), ","@),
                    ',',
                )[i],
                u32::MAX as nat,
            ) == Some(#[trigger] v[i] as nat),
{
    let parts = v.map_values(|n: u32| text::decimal(n as nat));
    reveal_strlit(",");
    assert(","@ =~= seq![',']);
    assert forall|i: int| 0 <= i < parts.len() implies !(#[trigger] parts[i]).contains(',') by {
        text::decimals_are_plain(v[i] as nat);
    }
    text::joined_texts_are_split_again(parts, ',');
    assert forall|i: int| 0 <= i < v.len() implies text::unsigned(
        parts[i],
        u32::MAX as nat,
    ) == Some(#[trigger] v[i] as nat) by {
        text::decimal_is_read_back(v[i] as nat, u32::MAX as nat);
    }
}

proof fn lemma_same_categories(a: Seq<u32>, b: Seq<u32>)
    requires
        a.len() > 0,
        b.len() > 0,
        text::joined(a.map_values(|n: u32| text::decimal(n as nat)), ","@) == text::joined(
            b.map_values(|n: u32| text::decimal(n as nat)),
            ","@,
        ),
    ensures
        a == b,
{
    category_lists_are_read_back(a);
    category_lists_are_read_back(b);
    let f = text::fields(text::joined(a.map_values(|n: u32| text::decimal(n as nat)), ","@), ',');
    assert forall|i: int| 0 <= i < a.len() implies a[i] == b[i] by {
        assert(text::unsigned(f[i], u32::MAX as nat) == Some(a[i] as nat));
        assert(text::unsigned(f[i], u32::MAX as nat) == Some(b[i] as nat));
    }
    assert(a =~= b);
}

proof fn lemma_names_differ()
    ensures
        "apikey"@.len() == 6 && "apikey"@[0] == 'a' && "apikey"@[1] == 'p',
        "t"@.len() == 1 && "t"@[0] == 't',
        "q"@.len() == 1 && "q"@[0] == 'q',
        "limit"@.len() == 5 && "limit"@[0] == 'l' && "limit"@[1] == 'i',
        "offset"@.len() == 6 && "offset"@[0] == 'o',
        "maxage"@.len() == 6 && "maxage"@[0] == 'm',
        "minsize"@.len() == 7 && "minsize"@[0] == 'm' && "minsize"@[1] == 'i',
        "maxsize"@.len() == 7 && "maxsize"@[0] == 'm' && "maxsize"@[1] == 'a',
        "cat"@.len() == 3 && "cat"@[0] == 'c',
        "season"@.len() == 6 && "season"@[0] == 's',
        "ep"@.len() == 2 && "ep"@[0] == 'e',
        "tvdbid"@.len() == 6 && "tvdbid"@[0] == 't',
        "tvmazeid"@.len() == 8 && "tvmazeid"@[0] == 't',
        "rid"@.len() == 3 && "rid"@[0] == 'r',
        "imdbid"@.len() == 6 && "imdbid"@[0] == 'i',
        "artist"@.len() == 6 && "artist"@[0] == 'a' && "artist"@[1] == 'r',
        "album"@.len() == 5 && "album"@[0] == 'a',
        "label"@.len() == 5 && "label"@[0] == 'l' && "label"@[1] == 'a',
        "year"@.len() == 4 && "year"@[0] == 'y',
        "author"@.len() == 6 && "author"@[0] == 'a' && "author"@[1] == 'u',
        "title"@.len() == 5 && "title"@[0] == 't',
        "extended"@.len() == 8 && "extended"@[0] == 'e',
{
    reveal_strlit("apikey");
    reveal_strlit("t");
    reveal_strlit("q");
    reveal_strlit("limit");
    reveal_strlit("offset");
    reveal_strlit("maxage");
    reveal_strlit("minsize");
    reveal_strlit("maxsize");
    reveal_strlit("cat");
    reveal_strlit("season");
    reveal_strlit("ep");
    reveal_strlit("tvdbid");
    reveal_strlit("tvmazeid");
    reveal_strlit("rid");
    reveal_strlit("imdbid");
    reveal_strlit("artist");
    reveal_strlit("album");
    reveal_strlit("label");
    reveal_strlit("year");
    reveal_strlit("author");
    reveal_strlit("title");
    reveal_strlit("extended");
}

proof fn lemma_no_less_is_asked(api_key: Seq<char>, a: QueryView, b: QueryView)
    requires
        a.ty == b.ty,
        search_pairs(api_key, a) == search_pairs(api_key, b),
    ensures
        a.q is Some ==> b.q == a.q,
        a.max_age_days is Some ==> b.max_age_days == a.max_age_days,
        a.min_size is Some ==> b.min_size == a.min_size,
        a.max_size is Some ==> b.max_size == a.max_size,
        a.limit != 100 ==> b.limit == a.limit,
        a.offset > 0 ==> b.offset == a.offset,
        a.categories.len() > 0 ==> b.categories == a.categories,
        a.ty is Movie && a.imdb_id is Some ==> b.imdb_id == a.imdb_id,
        a.ty is TvSearch && a.season is Some ==> b.season == a.season,
        a.ty is TvSearch && a.episode is Some ==> b.episode == a.episode,
        a.ty is TvSearch && a.tvdb_id is Some ==> b.tvdb_id == a.tvdb_id,
        a.ty is TvSearch && a.tvmaze_id is Some ==> b.tvmaze_id == a.tvmaze_id,
        a.ty is TvSearch && a.rage_id is Some ==> b.rage_id == a.rage_id,
        a.ty is Music && a.artist is Some ==> b.artist == a.artist,
        a.ty is Music && a.album is Some ==> b.album == a.album,
        a.ty is Music && a.label is Some ==> b.label == a.label,
        a.ty is Music && a.year is Some ==> b.year == a.year,
        a.ty is Book && a.author is Some ==> b.author == a.author,
        a.ty is Book && a.title is Some ==> b.title == a.title,
{
    lemma_names_differ();
    lemma_text_asked(api_key, a, b, "q"@, a.q);
    lemma_text_asked(api_key, a, b, "imdbid"@, a.imdb_id);
    lemma_text_asked(api_key, a, b, "artist"@, a.artist);
    lemma_text_asked(api_key, a, b, "album"@, a.album);
    lemma_text_asked(api_key, a, b, "label"@, a.label);
    lemma_text_asked(api_key, a, b, "author"@, a.author);
    lemma_text_asked(api_key, a, b, "title"@, a.title);
    lemma_number_asked(api_key, a, b, "limit"@, a.limit as nat);
    lemma_number_asked(api_key, a, b, "offset"@, a.offset as nat);
    lemma_number_asked(api_key, a, b, "maxage"@, a.max_age_days->0 as nat);
    lemma_number_asked(api_key, a, b, "minsize"@, a.min_size->0 as nat);
    lemma_number_asked(api_key, a, b, "maxsize"@, a.max_size->0 as nat);
    lemma_number_asked(api_key, a, b, "season"@, a.season->0 as nat);
    lemma_number_asked(api_key, a, b, "ep"@, a.episode->0 as nat);
    lemma_number_asked(api_key, a, b, "tvdbid"@, a.tvdb_id->0 as nat);
    lemma_number_asked(api_key, a, b, "tvmazeid"@, a.tvmaze_id->0 as nat);
    lemma_number_asked(api_key, a, b, "rid"@, a.rage_id->0 as nat);
    lemma_number_asked(api_key, a, b, "year"@, a.year->0 as nat);
    if a.categories.len() > 0 {
        let v = text::joined(a.categories.map_values(|n: u32| text::decimal(n as nat)), ","@);
        set_fields_are_asked_for(api_key, a, "cat"@, v);
        set_fields_are_asked_for(api_key, b, "cat"@, v);
        lemma_same_categories(a.categories, b.categories);
    }
}

proof fn lemma_text_asked(
    api_key: Seq<char>,
    a: QueryView,
    b: QueryView,
    k: Seq<char>,
    v: Option<Seq<char>>,
)
    requires
        search_pairs(api_key, a) == search_pairs(api_key, b),
        a.ty == b.ty,
    ensures
        k == "q"@ && a.q is Some && v == a.q ==> b.q == a.q,
        k == "imdbid"@ && a.ty is Movie && a.imdb_id is Some && v == a.imdb_id ==> b.imdb_id
            == a.imdb_id,
        k == "artist"@ && a.ty is Music && a.artist is Some && v == a.artist ==> b.artist
            == a.artist,
        k == "album"@ && a.ty is Music && a.album is Some && v == a.album ==> b.album == a.album,
        k == "label"@ && a.ty is Music && a.label is Some && v == a.label ==> b.label == a.label,
        k == "author"@ && a.ty is Book && a.author is Some && v == a.author ==> b.author
            == a.author,
        k == "title"@ && a.ty is Book && a.title is Some && v == a.title ==> b.title == a.title,
{
    lemma_names_differ();
    set_fields_are_asked_for(api_key, a, k, v->0);
    set_fields_are_asked_for(api_key, b, k, v->0);
}

proof fn lemma_number_asked(api_key: Seq<char>, a: QueryView, b: QueryView, k: Seq<char>, n: nat)
    requires
        search_pairs(api_key, a) == search_pairs(api_key, b),
        a.ty == b.ty,
    ensures
        k == "limit"@ && a.limit != 100 && n == a.limit ==> b.limit == a.limit,
        k == "offset"@ && a.offset > 0 && n == a.offset ==> b.offset == a.offset,
        k == "maxage"@ && a.max_age_days is Some && n == a.max_age_days->0 ==> b.max_age_days
            == a.max_age_days,
        k == "minsize"@ && a.min_size is Some && n == a.min_size->0 ==> b.min_size == a.min_size,
        k == "maxsize"@ && a.max_size is Some && n == a.max_size->0 ==> b.max_size == a.max_size,
        k == "season"@ && a.ty is TvSearch && a.season is Some && n == a.season->0 ==> b.season
            == a.season,
        k == "ep"@ && a.ty is TvSearch && a.episode is Some && n == a.episode->0 ==> b.episode
            == a.episode,
        k == "tvdbid"@ && a.ty is TvSearch && a.tvdb_id is Some && n == a.tvdb_id->0 ==> b.tvdb_id
            == a.tvdb_id,
        k == "tvmazeid"@ && a.ty is TvSearch && a.tvmaze_id is Some && n == a.tvmaze_id->0
            ==> b.tvmaze_id == a.tvmaze_id,
        k == "rid"@ && a.ty is TvSearch && a.rage_id is Some && n == a.rage_id->0 ==> b.rage_id
            == a.rage_id,
        k == "year"@ && a.ty is Music && a.year is Some && n == a.year->0 ==> b.year == a.year,
{
    lemma_names_differ();
    let v = text::decimal(n);
    set_fields_are_asked_for(api_key, a, k, v);
    set_fields_are_asked_for(api_key, b, k, v);
    assert forall|m: nat| #[trigger] text::decimal(m) == v implies m == n by {
        text::decimals_differ(m, n);
    }
}

/// Two searches of one type with the same parameters ask for the same: a field that belongs to
/// the type cannot differ and go unseen.
pub proof fn different_searches_are_asked_differently(
    api_key: Seq<char>,
    a: QueryView,
    b: QueryView,
)
    requires
        a.ty == b.ty,
        search_pairs(api_key, a) == search_pairs(api_key, b),
    ensures
        a.q == b.q,
        a.limit == b.limit,
        a.offset == b.offset,
        a.max_age_days == b.max_age_days,
        a.min_size == b.min_size,
        a.max_size == b.max_size,
        a.categories == b.categories,
        a.ty is TvSearch ==> a.season == b.season && a.episode == b.episode && a.tvdb_id
            == b.tvdb_id && a.tvmaze_id == b.tvmaze_id && a.rage_id == b.rage_id,
        a.ty is Movie ==> a.imdb_id == b.imdb_id,
        a.ty is Music ==> a.artist == b.artist && a.album == b.album && a.label == b.label
            && a.year == b.year,
        a.ty is Book ==> a.author == b.author && a.title == b.title,
{
    lemma_no_less_is_asked(api_key, a, b);
    lemma_no_less_is_asked(api_key, b, a);
    assert(a.categories =~= b.categories);
}

/// An indexer that asks for a pause is given the one that it asks for, in seconds, and a minute
/// where it names none.
pub proof fn pauses_are_kept(n: nat, s: Seq<char>)
    ensures
        n <= u64::MAX ==> pause_of(Some(text::decimal(n))) == n,
        pause_of(None) == 60,
        (exists|i: int| 1 <= i < s.len() && !('0' as u32 <= (#[trigger] s[i]) as u32 <= '9' as u32))
            ==> pause_of(Some(s)) == 60,
{
    if n <= u64::MAX {
        text::decimal_is_read_back(n, u64::MAX as nat);
    }
    if exists|i: int| 1 <= i < s.len() && !('0' as u32 <= (#[trigger] s[i]) as u32 <= '9' as u32) {
        let i = choose|i: int|
            1 <= i < s.len() && !('0' as u32 <= (#[trigger] s[i]) as u32 <= '9' as u32);
        assert(s.skip(1)[i - 1] == s[i]);
        assert(!text::is_digit(s[i]));
    }
}

/// Only an answer with a status from 200 to 299 is read; a status of 429 asks for a pause, and
/// any other is an error that names the status.
pub proof fn only_successful_answers_are_read(
    indexer: Seq<char>,
    status: u16,
    retry_after: Option<Seq<char>>,
    body: Seq<char>,
)
    ensures
        status == 429 ==> search_answer(indexer, status, retry_after, body) == Err::<
            Seq<ResultView>,
            IndexErrorView,
        >(IndexErrorView::RateLimited { indexer, retry_after_s: pause_of(retry_after) }),
        (status < 200 || status >= 300) && status != 429 ==> match search_answer(
            indexer,
            status,
            retry_after,
            body,
        ) {
            Err(IndexErrorView::Api { code, description }) => code == status && description
                == "HTTP "@ + status_text(status)->0,
            _ => false,
        },
        200 <= status < 300 ==> search_answer(indexer, status, retry_after, body) == results_in(
            indexer,
            body,
        ),
        (status < 200 || status >= 300) ==> match caps_answer(status, body) {
            Err(IndexErrorView::Api { code, description }) => code == status && description
                == "HTTP "@ + status_text(status)->0,
            _ => false,
        },
        200 <= status < 300 ==> !(caps_answer(status, body) matches Err(
            IndexErrorView::Api { .. },
        )),
{
}

/// Every request names the key and the function, and nothing else.
pub proof fn requests_name_key_and_function(
    api_key: Seq<char>,
    func: Seq<char>,
    p: (Seq<char>, Seq<char>),
)
    ensures
        request_pairs(api_key, func).contains(p) <==> p == ("apikey"@, api_key) || p == (
            "t"@,
            func,
        ),
        request_pairs(api_key, func).len() == 2,
{
    let r = request_pairs(api_key, func);
    assert(r[0] == ("apikey"@, api_key) && r[1] == ("t"@, func));
}

/// A refusal by status tells the status, as a number and in words.
pub proof fn refusals_tell_the_status(code: u16, shown: Seq<char>)
    ensures
        http_error(code, shown) == (IndexErrorView::Api { code, description: "HTTP "@ + shown }),
{
}

} // verus!
