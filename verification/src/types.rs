//! Types shared by the search providers, the indexer client and the aggregator.
use vstd::prelude::*;

use crate::text;
use crate::text::{chars_of, is_text_before, same_text, split_on, string_of, to_lowercase, trim};

verus! {

/// What an optional text holds.
pub open spec fn text_of(o: Option<String>) -> Option<Seq<char>> {
    match o {
        Some(s) => Some(s@),
        None => None,
    }
}

/// A second copy of an optional text.
pub fn copy_text(o: &Option<String>) -> (r: Option<String>)
    ensures
        text_of(r) == text_of(*o),
{
    match o {
        Some(s) => Some(s.clone()),
        None => None,
    }
}

/// Which search function of an indexer to call.
#[derive(Debug, Clone, Copy, PartialEq, Eq, Hash, Structural)]
pub enum SearchType {
    /// Text search.
    Search,
    /// TV search with optional season, episode and ids.
    TvSearch,
    /// Movie search with an optional imdb id.
    Movie,
    /// Music search with optional artist, album, label and year.
    Music,
    /// Book search with optional author and title.
    Book,
}

impl SearchType {
    /// The value of the `t` parameter.
    pub open spec fn name(self) -> Seq<char> {
        match self {
            SearchType::Search => "search"@,
            SearchType::TvSearch => "tvsearch"@,
            SearchType::Movie => "movie"@,
            SearchType::Music => "music"@,
            SearchType::Book => "book"@,
        }
    }

    /// The value of the `t` parameter.
    pub fn as_str(&self) -> (r: &'static str)
        ensures
            r@ == self.name(),
    {
        match self {
            SearchType::Search => "search",
            SearchType::TvSearch => "tvsearch",
            SearchType::Movie => "movie",
            SearchType::Music => "music",
            SearchType::Book => "book",
        }
    }
}

/// One search, with the parameters of every search type.
#[derive(Debug)]
pub struct SearchQuery {
    pub ty: SearchType,
    pub q: Option<String>,
    pub limit: u32,
    pub offset: u32,
    pub max_age_days: Option<u32>,
    pub min_size: Option<u64>,
    pub max_size: Option<u64>,
    pub categories: Vec<u32>,
    pub season: Option<u32>,
    pub episode: Option<u32>,
    pub tvdb_id: Option<u32>,
    pub tvmaze_id: Option<u32>,
    pub rage_id: Option<u32>,
    pub imdb_id: Option<String>,
    pub artist: Option<String>,
    pub album: Option<String>,
    pub label: Option<String>,
    pub year: Option<u32>,
    pub author: Option<String>,
    pub title: Option<String>,
}

/// What a [`SearchQuery`] asks for.
#[verifier::ext_equal]
pub struct QueryView {
    pub ty: SearchType,
    pub q: Option<Seq<char>>,
    pub limit: u32,
    pub offset: u32,
    pub max_age_days: Option<u32>,
    pub min_size: Option<u64>,
    pub max_size: Option<u64>,
    pub categories: Seq<u32>,
    pub season: Option<u32>,
    pub episode: Option<u32>,
    pub tvdb_id: Option<u32>,
    pub tvmaze_id: Option<u32>,
    pub rage_id: Option<u32>,
    pub imdb_id: Option<Seq<char>>,
    pub artist: Option<Seq<char>>,
    pub album: Option<Seq<char>>,
    pub label: Option<Seq<char>>,
    pub year: Option<u32>,
    pub author: Option<Seq<char>>,
    pub title: Option<Seq<char>>,
}

impl View for SearchQuery {
    type V = QueryView;

    open spec fn view(&self) -> QueryView {
        QueryView {
            ty: self.ty,
            q: text_of(self.q),
            limit: self.limit,
            offset: self.offset,
            max_age_days: self.max_age_days,
            min_size: self.min_size,
            max_size: self.max_size,
            categories: self.categories@,
            season: self.season,
            episode: self.episode,
            tvdb_id: self.tvdb_id,
            tvmaze_id: self.tvmaze_id,
            rage_id: self.rage_id,
            imdb_id: text_of(self.imdb_id),
            artist: text_of(self.artist),
            album: text_of(self.album),
            label: text_of(self.label),
            year: self.year,
            author: text_of(self.author),
            title: text_of(self.title),
        }
    }
}

/// A text search for nothing, for the first hundred results.
pub open spec fn plain_query() -> QueryView {
    QueryView {
        ty: SearchType::Search,
        q: None,
        limit: 100,
        offset: 0,
        max_age_days: None,
        min_size: None,
        max_size: None,
        categories: Seq::empty(),
        season: None,
        episode: None,
        tvdb_id: None,
        tvmaze_id: None,
        rage_id: None,
        imdb_id: None,
        artist: None,
        album: None,
        label: None,
        year: None,
        author: None,
        title: None,
    }
}

impl Default for SearchQuery {
    fn default() -> (r: Self)
        ensures
            r@ == plain_query(),
    {
        SearchQuery {
            ty: SearchType::Search,
            q: None,
            limit: 100,
            offset: 0,
            max_age_days: None,
            min_size: None,
            max_size: None,
            categories: Vec::new(),
            season: None,
            episode: None,
            tvdb_id: None,
            tvmaze_id: None,
            rage_id: None,
            imdb_id: None,
            artist: None,
            album: None,
            label: None,
            year: None,
            author: None,
            title: None,
        }
    }
}

impl Clone for SearchQuery {
    fn clone(&self) -> (r: Self)
        ensures
            r@ == self@,
    {
        SearchQuery {
            ty: self.ty,
            q: copy_text(&self.q),
            limit: self.limit,
            offset: self.offset,
            max_age_days: self.max_age_days,
            min_size: self.min_size,
            max_size: self.max_size,
            categories: self.categories.clone(),
            season: self.season,
            episode: self.episode,
            tvdb_id: self.tvdb_id,
            tvmaze_id: self.tvmaze_id,
            rage_id: self.rage_id,
            imdb_id: copy_text(&self.imdb_id),
            artist: copy_text(&self.artist),
            album: copy_text(&self.album),
            label: copy_text(&self.label),
            year: self.year,
            author: copy_text(&self.author),
            title: copy_text(&self.title),
        }
    }
}

impl SearchQuery {
    /// A text search.
    pub fn text(q: &str) -> (r: Self)
        ensures
            r@ == (QueryView { q: Some(q@), ..plain_query() }),
    {
        let mut r = SearchQuery::default();
        r.q = Some(q.to_owned());
        r
    }

    /// A TV search by title, season and episode.
    pub fn tv(q: &str, season: u32, episode: u32) -> (r: Self)
        ensures
            r@ == (QueryView {
                ty: SearchType::TvSearch,
                q: Some(q@),
                season: Some(season),
                episode: Some(episode),
                ..plain_query()
            }),
    {
        let mut r = SearchQuery::default();
        r.ty = SearchType::TvSearch;
        r.q = Some(q.to_owned());
        r.season = Some(season);
        r.episode = Some(episode);
        r
    }

    /// A movie search by imdb id.
    pub fn movie(imdb: &str) -> (r: Self)
        ensures
            r@ == (QueryView {
                ty: SearchType::Movie,
                imdb_id: Some(imdb@),
                ..plain_query()
            }),
    {
        let mut r = SearchQuery::default();
        r.ty = SearchType::Movie;
        r.imdb_id = Some(imdb.to_owned());
        r
    }
}

/// Whether a release is protected by a password.
#[derive(Debug, Clone, Copy, PartialEq, Eq, Structural)]
pub enum PasswordStatus {
    NoPassword,
    Rar,
    InnerArchive,
    Unknown,
}

impl PasswordStatus {
    /// The status that an indexer writes as the number `v`.
    pub open spec fn numbered(v: u32) -> PasswordStatus {
        if v == 0 {
            PasswordStatus::NoPassword
        } else if v == 1 {
            PasswordStatus::Rar
        } else if v == 2 {
            PasswordStatus::InnerArchive
        } else {
            PasswordStatus::Unknown
        }
    }
}

impl From<u32> for PasswordStatus {
    fn from(v: u32) -> (r: Self) {
        match v {
            0 => PasswordStatus::NoPassword,
            1 => PasswordStatus::Rar,
            2 => PasswordStatus::InnerArchive,
            _ => PasswordStatus::Unknown,
        }
    }
}

impl vstd::std_specs::convert::FromSpecImpl<u32> for PasswordStatus {
    open spec fn obeys_from_spec() -> bool {
        true
    }

    open spec fn from_spec(v: u32) -> Self {
        PasswordStatus::numbered(v)
    }
}

/// What an indexer says of a TV release.
#[derive(Debug)]
pub struct TvInfo {
    pub season: Option<u32>,
    pub episode: Option<u32>,
    pub rage_id: Option<u32>,
    pub tvdb_id: Option<u32>,
    pub tvmaze_id: Option<u32>,
    pub title: Option<String>,
    pub air_date: Option<String>,
}

/// What a [`TvInfo`] says.
pub struct TvView {
    pub season: Option<u32>,
    pub episode: Option<u32>,
    pub rage_id: Option<u32>,
    pub tvdb_id: Option<u32>,
    pub tvmaze_id: Option<u32>,
    pub title: Option<Seq<char>>,
    pub air_date: Option<Seq<char>>,
}

impl View for TvInfo {
    type V = TvView;

    open spec fn view(&self) -> TvView {
        TvView {
            season: self.season,
            episode: self.episode,
            rage_id: self.rage_id,
            tvdb_id: self.tvdb_id,
            tvmaze_id: self.tvmaze_id,
            title: text_of(self.title),
            air_date: text_of(self.air_date),
        }
    }
}

impl Clone for TvInfo {
    fn clone(&self) -> (r: Self)
        ensures
            r@ == self@,
    {
        TvInfo {
            season: self.season,
            episode: self.episode,
            rage_id: self.rage_id,
            tvdb_id: self.tvdb_id,
            tvmaze_id: self.tvmaze_id,
            title: copy_text(&self.title),
            air_date: copy_text(&self.air_date),
        }
    }
}

/// What an indexer says of a movie release.
#[derive(Debug)]
pub struct MovieInfo {
    pub imdb_id: Option<String>,
    pub imdb_score: Option<String>,
    pub imdb_year: Option<u32>,
    pub genre: Option<String>,
}

/// What a [`MovieInfo`] says.
pub struct MovieView {
    pub imdb_id: Option<Seq<char>>,
    pub imdb_score: Option<Seq<char>>,
    pub imdb_year: Option<u32>,
    pub genre: Option<Seq<char>>,
}

impl View for MovieInfo {
    type V = MovieView;

    open spec fn view(&self) -> MovieView {
        MovieView {
            imdb_id: text_of(self.imdb_id),
            imdb_score: text_of(self.imdb_score),
            imdb_year: self.imdb_year,
            genre: text_of(self.genre),
        }
    }
}

impl Clone for MovieInfo {
    fn clone(&self) -> (r: Self)
        ensures
            r@ == self@,
    {
        MovieInfo {
            imdb_id: copy_text(&self.imdb_id),
            imdb_score: copy_text(&self.imdb_score),
            imdb_year: self.imdb_year,
            genre: copy_text(&self.genre),
        }
    }
}

/// One result of a search.
#[derive(Debug)]
pub struct SearchResult {
    /// Title of the release.
    pub title: String,
    /// Identifier that the indexer gave it.
    pub guid: String,
    /// Where its NZB file can be fetched.
    pub nzb_url: String,
    /// Size in bytes, 0 if unknown.
    pub size: u64,
    /// Unix time of the post, 0 if unknown.
    pub post_date: u64,
    /// Top-level category id.
    pub category: u32,
    /// Category as the indexer writes it.
    pub category_name: String,
    /// Number of downloads, 0 if unknown.
    pub grabs: u32,
    /// Number of files, 0 if unknown.
    pub files: u32,
    /// Whether the release is protected by a password.
    pub password: PasswordStatus,
    /// Name of the indexer that returned it.
    pub indexer: String,
    pub tv: Option<TvInfo>,
    pub movie: Option<MovieInfo>,
}

/// What a [`SearchResult`] says.
pub struct ResultView {
    pub title: Seq<char>,
    pub guid: Seq<char>,
    pub nzb_url: Seq<char>,
    pub size: u64,
    pub post_date: u64,
    pub category: u32,
    pub category_name: Seq<char>,
    pub grabs: u32,
    pub files: u32,
    pub password: PasswordStatus,
    pub indexer: Seq<char>,
    pub tv: Option<TvView>,
    pub movie: Option<MovieView>,
}

impl View for SearchResult {
    type V = ResultView;

    open spec fn view(&self) -> ResultView {
        ResultView {
            title: self.title@,
            guid: self.guid@,
            nzb_url: self.nzb_url@,
            size: self.size,
            post_date: self.post_date,
            category: self.category,
            category_name: self.category_name@,
            grabs: self.grabs,
            files: self.files,
            password: self.password,
            indexer: self.indexer@,
            tv: match self.tv {
                Some(t) => Some(t@),
                None => None,
            },
            movie: match self.movie {
                Some(m) => Some(m@),
                None => None,
            },
        }
    }
}

impl Clone for SearchResult {
    fn clone(&self) -> (r: Self)
        ensures
            r@ == self@,
    {
        SearchResult {
            title: self.title.clone(),
            guid: self.guid.clone(),
            nzb_url: self.nzb_url.clone(),
            size: self.size,
            post_date: self.post_date,
            category: self.category,
            category_name: self.category_name.clone(),
            grabs: self.grabs,
            files: self.files,
            password: self.password,
            indexer: self.indexer.clone(),
            tv: match &self.tv {
                Some(t) => Some(t.clone()),
                None => None,
            },
            movie: match &self.movie {
                Some(m) => Some(m.clone()),
                None => None,
            },
        }
    }
}

/// A set of parameter names, kept in dictionary order without repetition.
#[derive(Debug)]
pub struct ParamSet {
    names: Vec<String>,
}

/// Whether each text of `s` comes before the next ones.
pub open spec fn ascending(s: Seq<Seq<char>>) -> bool {
    forall|i: int, j: int| 0 <= i < j < s.len() ==> text::text_before(#[trigger] s[i], #[trigger] s[j])
}

impl View for ParamSet {
    type V = Set<Seq<char>>;

    closed spec fn view(&self) -> Set<Seq<char>> {
        text::strings(self.names@).to_set()
    }
}

impl ParamSet {
    #[verifier::type_invariant]
    spec fn wf(self) -> bool {
        ascending(text::strings(self.names@))
    }

    /// The empty set.
    pub fn new() -> (r: Self)
        ensures
            r@ == Set::<Seq<char>>::empty(),
    {
        let r = ParamSet { names: Vec::new() };
        assert(text::strings(r.names@).to_set() =~= Set::empty());
        r
    }

    /// The names in dictionary order.
    pub fn names(&self) -> (r: &Vec<String>)
        ensures
            text::strings(r@).to_set() == self@,
            ascending(text::strings(r@)),
    {
        proof {
            use_type_invariant(self);
        }
        &self.names
    }

    /// Whether `name` is in the set.
    pub fn contains(&self, name: &str) -> (r: bool)
        ensures
            r == self@.contains(name@),
    {
        let mut i: usize = 0;
        while i < self.names.len()
            invariant
                i <= self.names.len(),
                forall|j: int| 0 <= j < i ==> #[trigger] text::strings(self.names@)[j] != name@,
            decreases self.names.len() - i,
        {
            assert(text::strings(self.names@)[i as int] == self.names@[i as int]@);
            if same_text(&self.names[i], name) {
                assert(text::strings(self.names@).contains(name@));
                return true;
            }
            i += 1;
        }
        false
    }

    /// Adds `name`.
    pub fn insert(&mut self, name: String)
        ensures
            final(self)@ == old(self)@.insert(name@),
    {
        proof {
            use_type_invariant(&*self);
        }
        let mut names: Vec<String> = Vec::new();
        std::mem::swap(&mut names, &mut self.names);
        let ghost was = text::strings(names@);
        let mut k: usize = 0;
        while k < names.len() && is_text_before(&names[k], &name)
            invariant
                k <= names.len(),
                was == text::strings(names@),
                forall|j: int| 0 <= j < k ==> text::text_before(#[trigger] was[j], name@),
            decreases names.len() - k,
        {
            assert(was[k as int] == names@[k as int]@);
            k += 1;
        }
        if k < names.len() && same_text(&names[k], &name) {
            assert(was[k as int] == name@);
            assert(was.to_set().insert(name@) =~= was.to_set());
        } else {
            let ghost n = name@;
            names.insert(k, name);
            proof {
                let now = text::strings(names@);
                assert(now == was.insert(k as int, n));
                assert forall|i: int, j: int| 0 <= i < j < now.len() implies text::text_before(
                    #[trigger] now[i],
                    #[trigger] now[j],
                ) by {
                    if k < was.len() {
                        text::text_before_is_total(was[k as int], n, n);
                        if j == k {
                            assert(now[i] == was[i]);
                        } else if i == k {
                            text::text_before_is_total(n, was[k as int], was[j - 1]);
                            if j - 1 > k {
                                assert(text::text_before(was[k as int], was[j - 1]));
                            }
                        }
                    } else if j == k {
                        assert(now[i] == was[i]);
                    }
                    if i < k && j < k {
                        assert(now[i] == was[i] && now[j] == was[j]);
                    } else if i < k && j > k {
                        assert(now[i] == was[i] && now[j] == was[j - 1]);
                    } else if i > k {
                        assert(now[i] == was[i - 1] && now[j] == was[j - 1]);
                    }
                }
                assert forall|t: Seq<char>| #[trigger] now.contains(t) == was.to_set().insert(
                    n,
                ).contains(t) by {
                    if was.contains(t) {
                        let i = choose|i: int| 0 <= i < was.len() && was[i] == t;
                        if i < k {
                            assert(now[i] == t);
                        } else {
                            assert(now[i + 1] == t);
                        }
                    }
                    if t == n {
                        assert(now[k as int] == t);
                    }
                    if now.contains(t) {
                        let i = choose|i: int| 0 <= i < now.len() && now[i] == t;
                        if i < k {
                            assert(was[i] == t);
                        } else if i > k {
                            assert(was[i - 1] == t);
                        }
                    }
                }
                assert(now.to_set() =~= was.to_set().insert(n));
            }
        }
        self.names = names;
    }
}

impl Clone for ParamSet {
    fn clone(&self) -> (r: Self)
        ensures
            r@ == self@,
    {
        proof {
            use_type_invariant(self);
        }
        let names = copy_texts(&self.names);
        ParamSet { names }
    }
}

/// A second copy of a list of texts.
pub fn copy_texts(v: &Vec<String>) -> (r: Vec<String>)
    ensures
        text::strings(r@) == text::strings(v@),
{
    let mut r: Vec<String> = Vec::new();
    for i in 0..v.len()
        invariant
            r.len() == i,
            forall|j: int| 0 <= j < i ==> (#[trigger] r@[j])@ == v@[j]@,
    {
        r.push(v[i].clone());
    }
    r
}

/// Which parameters one search function of an indexer takes.
#[derive(Debug)]
pub struct SearchCaps {
    pub available: bool,
    pub supported_params: ParamSet,
}

/// What a [`SearchCaps`] says.
pub struct SearchCapsView {
    pub available: bool,
    pub supported_params: Set<Seq<char>>,
}

impl View for SearchCaps {
    type V = SearchCapsView;

    open spec fn view(&self) -> SearchCapsView {
        SearchCapsView { available: self.available, supported_params: self.supported_params@ }
    }
}

/// The parameters that a comma-separated list names: each trimmed, in lower case, and not
/// empty.
pub open spec fn listed_params(s: Seq<char>) -> Set<Seq<char>> {
    Set::new(|p: Seq<char>| p.len() > 0 && lowered_fields(s).contains(p))
}

/// The fields of a comma-separated list, each trimmed and in lower case.
pub open spec fn lowered_fields(s: Seq<char>) -> Seq<Seq<char>> {
    text::fields(s, ',').map_values(|f: Seq<char>| text::lowered(text::trimmed(f)))
}

impl Clone for SearchCaps {
    fn clone(&self) -> (r: Self)
        ensures
            r@ == self@,
    {
        SearchCaps { available: self.available, supported_params: self.supported_params.clone() }
    }
}

impl SearchCaps {
    /// Adds one field of the list, already trimmed and in lower case, unless it is empty.
    pub fn add_param(params: &mut ParamSet, field: String)
        ensures
            final(params)@ == if field@.len() == 0 {
                old(params)@
            } else {
                old(params)@.insert(field@)
            },
    {
        if chars_of(&field).len() > 0 {
            params.insert(field);
        }
    }

    /// Reads a `supportedParams` attribute such as `q,rid,season`.
    pub fn parse_params(s: &str) -> (r: ParamSet)
        ensures
            r@ == listed_params(s@),
    {
        let cs = chars_of(s);
        let parts = split_on(&cs, ',');
        let ghost low = lowered_fields(s@);
        let mut r = ParamSet::new();
        let mut i: usize = 0;
        while i < parts.len()
            invariant
                i <= parts.len(),
                text::texts(parts@) == text::fields(s@, ','),
                low == lowered_fields(s@),
                forall|p: Seq<char>| #[trigger]
                    r@.contains(p) <==> p.len() > 0 && low.take(i as int).contains(p),
            decreases parts.len() - i,
        {
            let lowered = to_lowercase(&string_of(trim(&parts[i])));
            let ghost l = lowered@;
            let ghost was = r@;
            assert(text::texts(parts@)[i as int] == parts@[i as int]@);
            assert(low[i as int] == l);
            SearchCaps::add_param(&mut r, lowered);
            assert(low.take(i + 1) == low.take(i as int).push(l));
            assert forall|p: Seq<char>| #[trigger] r@.contains(p) <==> p.len() > 0 && low.take(
                i + 1,
            ).contains(p) by {
                let t = low.take(i as int);
                if t.contains(p) {
                    let j = choose|j: int| 0 <= j < t.len() && t[j] == p;
                    assert(t.push(l)[j] == p);
                }
                assert(t.push(l)[i as int] == l);
                if t.push(l).contains(p) && p != l {
                    let j = choose|j: int| 0 <= j < t.push(l).len() && t.push(l)[j] == p;
                    assert(t[j] == p);
                }
                assert(was.contains(p) <==> p.len() > 0 && t.contains(p));
            }
            i += 1;
        }
        assert(low.take(parts.len() as int) == low);
        assert(r@ =~= listed_params(s@));
        r
    }
}

/// A category that an indexer offers.
#[derive(Debug)]
pub struct CapsCategory {
    pub id: u32,
    pub name: String,
    pub subcats: Vec<CapsCategory>,
}

/// What a [`CapsCategory`] says.
pub struct CategoryView {
    pub id: u32,
    pub name: Seq<char>,
    pub subcats: Seq<CategoryView>,
}

/// What a category says, with its subcategories.
pub open spec fn category_view(c: CapsCategory) -> CategoryView
    decreases c,
{
    CategoryView {
        id: c.id,
        name: c.name@,
        subcats: Seq::new(
            c.subcats@.len(),
            |i: int|
                if 0 <= i < c.subcats@.len() {
                    category_view(c.subcats@[i])
                } else {
                    arbitrary()
                },
        ),
    }
}

impl View for CapsCategory {
    type V = CategoryView;

    open spec fn view(&self) -> CategoryView {
        category_view(*self)
    }
}

/// What an indexer can do.
#[derive(Debug)]
pub struct IndexerCaps {
    pub server_version: String,
    pub protocol_version: String,
    pub title: String,
    pub email: String,
    pub url: String,
    pub retention_days: Option<u32>,
    pub max_results: u32,
    pub default_results: u32,
    pub search: Option<SearchCaps>,
    pub tv_search: Option<SearchCaps>,
    pub movie_search: Option<SearchCaps>,
    pub audio_search: Option<SearchCaps>,
    pub book_search: Option<SearchCaps>,
    /// The categories that the indexer offers.
    pub categories: Vec<CapsCategory>,
}

/// What an [`IndexerCaps`] says.
#[verifier::ext_equal]
pub struct CapsView {
    pub server_version: Seq<char>,
    pub protocol_version: Seq<char>,
    pub title: Seq<char>,
    pub email: Seq<char>,
    pub url: Seq<char>,
    pub retention_days: Option<u32>,
    pub max_results: u32,
    pub default_results: u32,
    pub search: Option<SearchCapsView>,
    pub tv_search: Option<SearchCapsView>,
    pub movie_search: Option<SearchCapsView>,
    pub audio_search: Option<SearchCapsView>,
    pub book_search: Option<SearchCapsView>,
    pub categories: Seq<CategoryView>,
}

/// What optional search capabilities say.
pub open spec fn search_caps_of(o: Option<SearchCaps>) -> Option<SearchCapsView> {
    match o {
        Some(c) => Some(c@),
        None => None,
    }
}

impl View for IndexerCaps {
    type V = CapsView;

    open spec fn view(&self) -> CapsView {
        CapsView {
            server_version: self.server_version@,
            protocol_version: self.protocol_version@,
            title: self.title@,
            email: self.email@,
            url: self.url@,
            retention_days: self.retention_days,
            max_results: self.max_results,
            default_results: self.default_results,
            search: search_caps_of(self.search),
            tv_search: search_caps_of(self.tv_search),
            movie_search: search_caps_of(self.movie_search),
            audio_search: search_caps_of(self.audio_search),
            book_search: search_caps_of(self.book_search),
            categories: crate::order::views(self.categories@),
        }
    }
}

/// Capabilities of which nothing is known.
pub open spec fn no_caps() -> CapsView {
    CapsView {
        server_version: Seq::empty(),
        protocol_version: Seq::empty(),
        title: Seq::empty(),
        email: Seq::empty(),
        url: Seq::empty(),
        retention_days: None,
        max_results: 0,
        default_results: 0,
        search: None,
        tv_search: None,
        movie_search: None,
        audio_search: None,
        book_search: None,
        categories: Seq::empty(),
    }
}

impl Default for IndexerCaps {
    fn default() -> (r: Self)
        ensures
            r@ == no_caps(),
    {
        let r = IndexerCaps {
            server_version: String::new(),
            protocol_version: String::new(),
            title: String::new(),
            email: String::new(),
            url: String::new(),
            retention_days: None,
            max_results: 0,
            default_results: 0,
            search: None,
            tv_search: None,
            movie_search: None,
            audio_search: None,
            book_search: None,
            categories: Vec::new(),
        };
        assert(r@ =~= no_caps());
        r
    }
}

/// How to reach one indexer.
#[derive(Debug)]
pub struct IndexerConfig {
    /// Display name.
    pub name: String,
    /// Address of its API.
    pub url: String,
    pub api_key: String,
    /// Number of searches it may be asked at once.
    pub max_concurrent: u32,
    /// Timeout in seconds.
    pub timeout_s: u64,
    /// Rank among the indexers, lower first.
    pub priority: u32,
}

/// What an [`IndexerConfig`] says.
pub struct IndexerConfigView {
    pub name: Seq<char>,
    pub url: Seq<char>,
    pub api_key: Seq<char>,
    pub max_concurrent: u32,
    pub timeout_s: u64,
    pub priority: u32,
}

impl View for IndexerConfig {
    type V = IndexerConfigView;

    open spec fn view(&self) -> IndexerConfigView {
        IndexerConfigView {
            name: self.name@,
            url: self.url@,
            api_key: self.api_key@,
            max_concurrent: self.max_concurrent,
            timeout_s: self.timeout_s,
            priority: self.priority,
        }
    }
}

impl Clone for IndexerConfig {
    fn clone(&self) -> (r: Self)
        ensures
            r@ == self@,
    {
        IndexerConfig {
            name: self.name.clone(),
            url: self.url.clone(),
            api_key: self.api_key.clone(),
            max_concurrent: self.max_concurrent,
            timeout_s: self.timeout_s,
            priority: self.priority,
        }
    }
}

/// How many searches an indexer may be asked at once where nothing is set.
pub fn default_max_concurrent() -> (r: u32)
    ensures
        r == 1,
{
    1
}

/// The timeout in seconds where none is set.
pub fn default_timeout() -> (r: u64)
    ensures
        r == 15,
{
    15
}

/// A list names a parameter if one of its fields is that parameter, in lower case and without the
/// white space around it; an empty field names none.
pub proof fn listed_params_are_the_fields(parts: Seq<Seq<char>>, p: Seq<char>)
    requires
        parts.len() > 0,
        forall|i: int| 0 <= i < parts.len() ==> !(#[trigger] parts[i]).contains(','),
    ensures
        listed_params(text::joined(parts, seq![','])).contains(p) <==> p.len() > 0 && exists|i: int|
            0 <= i < parts.len() && text::lowered(text::trimmed(#[trigger] parts[i])) == p,
{
    let s = text::joined(parts, seq![',']);
    text::joined_texts_are_split_again(parts, ',');
    let low = lowered_fields(s);
    if low.contains(p) {
        let i = choose|i: int| 0 <= i < low.len() && low[i] == p;
        assert(low[i] == text::lowered(text::trimmed(parts[i])));
    }
    if exists|i: int|
        0 <= i < parts.len() && text::lowered(text::trimmed(#[trigger] parts[i])) == p {
        let i = choose|i: int|
            0 <= i < parts.len() && text::lowered(text::trimmed(#[trigger] parts[i])) == p;
        assert(low[i] == p);
    }
}

/// An indexer writes no password as 0, one on the archive as 1 and one within it as 2; any other
/// number tells nothing.
pub proof fn password_numbers_mean(v: u32)
    ensures
        PasswordStatus::numbered(0) == PasswordStatus::NoPassword,
        PasswordStatus::numbered(1) == PasswordStatus::Rar,
        PasswordStatus::numbered(2) == PasswordStatus::InnerArchive,
        v > 2 ==> PasswordStatus::numbered(v) == PasswordStatus::Unknown,
{
}

/// A plain query is a text search that asks for nothing but the first hundred results.
pub proof fn plain_queries_ask_for_nothing()
    ensures
        ({
            let q = plain_query();
            &&& q.ty == SearchType::Search && q.limit == 100 && q.offset == 0
            &&& q.q is None && q.max_age_days is None && q.min_size is None && q.max_size is None
            &&& q.categories.len() == 0
            &&& q.season is None && q.episode is None && q.tvdb_id is None && q.tvmaze_id is None
            &&& q.rage_id is None && q.imdb_id is None && q.artist is None && q.album is None
            &&& q.label is None && q.year is None && q.author is None && q.title is None
        }),
{
}

/// The names under which indexers know the kinds of search.
pub proof fn kinds_of_search_have_names()
    ensures
        SearchType::Search.name() == "search"@,
        SearchType::TvSearch.name() == "tvsearch"@,
        SearchType::Movie.name() == "movie"@,
        SearchType::Music.name() == "music"@,
        SearchType::Book.name() == "book"@,
{
}

/// Of an indexer that told nothing nothing is known.
pub proof fn silent_indexers_can_nothing()
    ensures
        ({
            let c = no_caps();
            &&& c.server_version.len() == 0 && c.protocol_version.len() == 0
            &&& c.title.len() == 0 && c.email.len() == 0 && c.url.len() == 0
            &&& c.retention_days is None && c.max_results == 0 && c.default_results == 0
            &&& c.search is None && c.tv_search is None && c.movie_search is None
            &&& c.audio_search is None && c.book_search is None
            &&& c.categories.len() == 0
        }),
{
}

} // verus!
