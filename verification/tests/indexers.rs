//! Searches: queries, addresses, answers and how they are merged.
use nobz::aggregate::{
    aggregate_outcomes, collapse_whitespace, find_priority, merge_and_dedupe, normalize_title, size_matches,
    PerIndexer, SearchOutcome,
};
use nobz::caps_parser::parse_caps;
use nobz::cats;
use nobz::dates::{days_from_civil, parse_rfc2822};
use nobz::newznab::{query_pairs, IndexError, NewznabClient};
use nobz::search_parser::{parse_error, parse_search_results, refusal_of, ResultCollector};
use nobz::types::{
    default_max_concurrent, default_timeout, IndexerConfig, PasswordStatus, SearchCaps,
    SearchQuery, SearchResult, SearchType,
};
use nobz::xml::{XmlEvent, XmlTag};

#[test]
fn test_normalize_title() {
    let a = normalize_title("Some.Release.S01E05.1080p");
    let b = normalize_title("some.release.s01e05.1080p");
    assert_eq!(a, b);
}

#[test]
fn titles_lose_case_and_blanks() {
    assert_eq!(normalize_title("  Some \t RELEASE\n"), "some release");
    assert_eq!(collapse_whitespace(" A  b "), "A b");
}

#[test]
fn test_size_matches() {
    assert!(size_matches(1_000_000_000, 1_009_000_000));
    assert!(size_matches(1_000_000_000, 991_000_000));
    assert!(!size_matches(1_000_000_000, 1_020_000_000));
    assert!(!size_matches(0, 1_000_000_000));
}

fn result(title: &str, indexer: &str, size: u64, post_date: u64) -> SearchResult {
    SearchResult {
        title: title.to_string(),
        guid: format!("{indexer}1"),
        nzb_url: format!("http://{indexer}/1"),
        size,
        post_date,
        category: 5000,
        category_name: "TV".to_string(),
        grabs: 0,
        files: 0,
        password: PasswordStatus::Unknown,
        indexer: indexer.to_string(),
        tv: None,
        movie: None,
    }
}

#[test]
fn test_dedupe_basic() {
    let mut per_indexer = PerIndexer::new();
    per_indexer.insert(
        "indexer_a".to_string(),
        vec![SearchResult {
            title: "Release.Name".to_string(),
            guid: "a1".to_string(),
            nzb_url: "http://a/1".to_string(),
            size: 1_000_000_000,
            post_date: 1000,
            category: 5000,
            category_name: "TV".to_string(),
            grabs: 0,
            files: 0,
            password: PasswordStatus::Unknown,
            indexer: "indexer_a".to_string(),
            tv: None,
            movie: None,
        }],
    );
    per_indexer.insert(
        "indexer_b".to_string(),
        vec![SearchResult {
            title: "release.name".to_string(),
            guid: "b1".to_string(),
            nzb_url: "http://b/1".to_string(),
            size: 1_005_000_000,
            post_date: 1000,
            category: 5000,
            category_name: "TV".to_string(),
            grabs: 0,
            files: 0,
            password: PasswordStatus::Unknown,
            indexer: "indexer_b".to_string(),
            tv: None,
            movie: None,
        }],
    );

    let merged = merge_and_dedupe(&per_indexer);
    assert_eq!(merged.len(), 1);
    assert_eq!(merged[0].sources.len(), 2);
    assert_eq!(merged[0].sources, vec!["indexer_a", "indexer_b"]);
    assert_eq!(merged[0].result.indexer, "indexer_a");
}

#[test]
fn newest_first() {
    let mut per_indexer = PerIndexer::new();
    per_indexer.insert(
        "a".to_string(),
        vec![result("Old", "a", 5, 10), result("New", "a", 5, 30), result("Mid", "a", 5, 20)],
    );
    let merged = merge_and_dedupe(&per_indexer);
    let titles: Vec<&str> = merged.iter().map(|m| m.result.title.as_str()).collect();
    assert_eq!(titles, vec!["New", "Mid", "Old"]);
}

#[test]
fn failed_indexers_are_left_out() {
    let merged = aggregate_outcomes(vec![
        ("a".to_string(), SearchOutcome::Failed),
        ("b".to_string(), SearchOutcome::Found(vec![result("T", "b", 5, 1)])),
        ("c".to_string(), SearchOutcome::TimedOut),
    ], &vec![]);
    assert_eq!(merged.len(), 1);
    assert_eq!(merged[0].sources, vec!["b"]);
}

#[test]
fn priorities_come_before_age() {
    let outcomes = vec![
        (
            "a".to_string(),
            SearchOutcome::Found(vec![result("Shared", "a", 500, 50), result("Only a", "a", 5, 90)]),
        ),
        (
            "b".to_string(),
            SearchOutcome::Found(vec![result("shared", "b", 500, 10), result("Only b", "b", 5, 20)]),
        ),
    ];
    let priorities = vec![("a".to_string(), 7), ("b".to_string(), 1)];
    let merged = aggregate_outcomes(outcomes, &priorities);
    let titles: Vec<&str> = merged.iter().map(|m| m.result.title.as_str()).collect();
    assert_eq!(titles, vec!["Only b", "shared", "Only a"]);
    assert_eq!(merged[1].sources, vec!["b", "a"]);
    assert_eq!(find_priority(&priorities, "a"), 7);
    assert_eq!(find_priority(&priorities, "z"), 0);
}

#[test]
fn test_parse_caps_basic() {
    let xml = r#"<?xml version="1.0" encoding="UTF-8"?>
<caps version="0.1" title="Example Index" email="info@example.com" url="https://example.com/" image="" type="Site">
  <server version="0.1.0" />
  <limits max="100" default="50"/>
  <retention days="1234"/>
  <searching>
    <search available="yes" supportedParams="q"/>
    <tv-search available="yes" supportedParams="q,rid,tvdbid,season,ep"/>
    <movie-search available="yes" supportedParams="q,imdbid"/>
    <audio-search available="no" supportedParams="q"/>
    <book-search available="yes" supportedParams="q"/>
  </searching>
  <categories>
    <category id="5000" name="TV">
      <subcat id="5040" name="TV/HD"/>
      <subcat id="5030" name="TV/SD"/>
    </category>
    <category id="2000" name="Movies">
      <subcat id="2040" name="Movies/HD"/>
    </category>
  </categories>
</caps>"#;

    let caps = parse_caps(xml).unwrap();

    assert_eq!(caps.protocol_version, "0.1");
    assert_eq!(caps.title, "Example Index");
    assert_eq!(caps.email, "info@example.com");
    assert_eq!(caps.url, "https://example.com/");
    assert_eq!(caps.server_version, "0.1.0");
    assert_eq!(caps.max_results, 100);
    assert_eq!(caps.default_results, 50);
    assert_eq!(caps.retention_days, Some(1234));

    let search = caps.search.unwrap();
    assert!(search.available);
    assert!(search.supported_params.contains("q"));

    let tv = caps.tv_search.unwrap();
    assert!(tv.available);
    assert!(tv.supported_params.contains("rid"));
    assert!(tv.supported_params.contains("tvdbid"));
    assert!(tv.supported_params.contains("season"));
    assert!(tv.supported_params.contains("ep"));

    let audio = caps.audio_search.unwrap();
    assert!(!audio.available);

    assert_eq!(caps.categories.len(), 2);
    assert_eq!(caps.categories[0].id, 5000);
    assert_eq!(caps.categories[0].name, "TV");
    assert_eq!(caps.categories[0].subcats.len(), 2);
    assert_eq!(caps.categories[0].subcats[0].id, 5040);
}

#[test]
fn test_parse_caps_minimal() {
    let xml = r#"<?xml version="1.0" encoding="UTF-8"?>
<caps version="0.1" title="Minimal" email="" url="https://minimal.com/">
</caps>"#;

    let caps = parse_caps(xml).unwrap();
    assert_eq!(caps.title, "Minimal");
    assert_eq!(caps.max_results, 0);
    assert!(caps.search.is_none());
    assert!(caps.categories.is_empty());
}

#[test]
fn categories_without_subcategories() {
    let caps = parse_caps(
        "<caps><categories><category id=\"5000\" name=\"TV\"/>\
         <category id=\"2000\" name=\"Movies\"><subcat id=\"2040\" name=\"HD\"/></category>\
         <category id=\"3000\" name=\"Audio\"/></categories></caps>",
    )
    .unwrap();
    let ids: Vec<u32> = caps.categories.iter().map(|c| c.id).collect();
    assert_eq!(ids, vec![5000, 2000, 3000]);
    let subcats: Vec<usize> = caps.categories.iter().map(|c| c.subcats.len()).collect();
    assert_eq!(subcats, vec![0, 1, 0]);
}

#[test]
fn categories_take_the_open_subcategory() {
    let shown = |inner: &str| {
        let xml = format!("<caps><categories>{inner}</categories></caps>");
        let caps = parse_caps(&xml).unwrap();
        caps.categories
            .iter()
            .map(|c| (c.id, c.subcats.iter().map(|s| s.id).collect::<Vec<u32>>()))
            .collect::<Vec<(u32, Vec<u32>)>>()
    };
    assert_eq!(
        shown("<category id='1'><subcat id='2'><category id='3'/></subcat></category>"),
        vec![(3, vec![2])]
    );
    assert_eq!(
        shown("<category id='1'><category id='3'/><subcat id='4'/></category>"),
        vec![(3, vec![4])]
    );
    assert_eq!(
        shown("<category id='1'/><category id='2'><subcat id='5'/></category><category id='3'/>"),
        vec![(1, vec![]), (2, vec![5]), (3, vec![])]
    );
}

#[test]
fn an_air_date_alone_tells_of_a_show() {
    let xml = "<rss><channel><item><title>t</title>\
               <newznab:attr name=\"tvairdate\" value=\"2010-06-06\"/></item></channel></rss>";
    let results = parse_search_results(xml, "i").unwrap();
    let tv = results[0].tv.as_ref().unwrap();
    assert_eq!(tv.air_date.as_deref(), Some("2010-06-06"));
    assert_eq!((tv.season, tv.episode), (None, None));
}

#[test]
fn broken_caps_are_refused() {
    assert!(parse_caps("<caps><server></caps>").is_err());
}

#[test]
fn test_parse_error_response() {
    let xml = r#"<?xml version="1.0" encoding="UTF-8"?>
<error code="100" description="Incorrect user credentials"/>"#;

    let err = parse_error(xml).unwrap();
    assert_eq!(err.code, 100);
    assert_eq!(err.description, "Incorrect user credentials");
}

#[test]
fn test_parse_error_not_present() {
    let xml = r#"<?xml version="1.0" encoding="UTF-8"?>
<rss version="2.0">
  <channel>
    <title>Example</title>
  </channel>
</rss>"#;

    assert!(parse_error(xml).is_none());
}

#[test]
fn only_xml_can_refuse() {
    assert!(parse_error("<rss><error code=\"1\"/></rss>").is_none());
    assert_eq!(parse_error("<error code=\"x\"/>").unwrap().code, 0);
}

#[test]
fn test_parse_search_results_basic() {
    let xml = r#"<?xml version="1.0" encoding="UTF-8"?>
<rss version="2.0">
  <channel>
    <title>example.com API</title>
    <link>https://example.com/</link>
    <description>API Results</description>
    <newznab:response offset="0" total="1"/>
    <item>
      <title>Some.Release.S01E05.1080p.WEB.x264</title>
      <guid>abc123def456</guid>
      <pubDate>Sun, 06 Jun 2010 17:29:23 +0100</pubDate>
      <category>TV &gt; HD</category>
      <enclosure url="https://example.com/nzb/abc123def456" length="1234567890" type="application/x-nzb"/>
      <newznab:attr name="category" value="5040"/>
      <newznab:attr name="size" value="1234567890"/>
      <newznab:attr name="files" value="45"/>
      <newznab:attr name="grabs" value="3"/>
      <newznab:attr name="password" value="0"/>
      <newznab:attr name="season" value="1"/>
      <newznab:attr name="episode" value="5"/>
    </item>
  </channel>
</rss>"#;

    let results = parse_search_results(xml, "test_indexer").unwrap();
    assert_eq!(results.len(), 1);

    let r = &results[0];
    assert_eq!(r.title, "Some.Release.S01E05.1080p.WEB.x264");
    assert_eq!(r.guid, "abc123def456");
    assert_eq!(r.nzb_url, "https://example.com/nzb/abc123def456");
    assert_eq!(r.size, 1234567890);
    assert_eq!(r.category, 5000);
    assert_eq!(r.category_name, "TV > HD");
    assert_eq!(r.grabs, 3);
    assert_eq!(r.files, 45);
    assert_eq!(r.password, PasswordStatus::NoPassword);
    assert_eq!(r.indexer, "test_indexer");
    assert_eq!(r.post_date, 1275841763);

    let tv = r.tv.as_ref().unwrap();
    assert_eq!(tv.season, Some(1));
    assert_eq!(tv.episode, Some(5));
}

#[test]
fn test_parse_search_results_multiple() {
    let xml = r#"<?xml version="1.0" encoding="UTF-8"?>
<rss version="2.0">
  <channel>
    <title>example.com API</title>
    <link>https://example.com/</link>
    <description>API Results</description>
    <newznab:response offset="0" total="2"/>
    <item>
      <title>Release.One</title>
      <guid>guid1</guid>
      <pubDate>Sun, 06 Jun 2010 17:29:23 +0100</pubDate>
      <category>Movies &gt; HD</category>
      <enclosure url="https://example.com/nzb/guid1" length="1000000000" type="application/x-nzb"/>
      <newznab:attr name="category" value="2040"/>
      <newznab:attr name="size" value="1000000000"/>
      <newznab:attr name="imdb" value="tt0058935"/>
      <newznab:attr name="imdbscore" value="8.5"/>
    </item>
    <item>
      <title>Release.Two</title>
      <guid>https://example.com/details/guid2</guid>
      <pubDate>Mon, 07 Jun 2010 17:29:23 +0100</pubDate>
      <category>TV</category>
      <newznab:attr name="category" value="5000"/>
      <newznab:attr name="password" value="1"/>
    </item>
  </channel>
</rss>"#;

    let results = parse_search_results(xml, "test_indexer").unwrap();
    assert_eq!(results.len(), 2);

    let r1 = &results[0];
    assert_eq!(r1.title, "Release.One");
    assert_eq!(r1.category, 2000);
    let m = r1.movie.as_ref().unwrap();
    assert_eq!(m.imdb_id.as_deref(), Some("tt0058935"));

    let r2 = &results[1];
    assert_eq!(r2.title, "Release.Two");
    assert_eq!(r2.password, PasswordStatus::Rar);
    assert_eq!(r2.nzb_url, "https://example.com/details/guid2");
}

#[test]
fn test_parse_search_results_empty() {
    let xml = r#"<?xml version="1.0" encoding="UTF-8"?>
<rss version="2.0">
  <channel>
    <title>example.com API</title>
    <link>https://example.com/</link>
    <description>API Results</description>
    <newznab:response offset="0" total="0"/>
  </channel>
</rss>"#;

    let results = parse_search_results(xml, "test_indexer").unwrap();
    assert!(results.is_empty());
}

#[test]
fn broken_results_are_refused() {
    assert!(parse_search_results("<rss><item></rss>", "i").is_err());
}

#[test]
fn test_parse_rfc2822() {
    let ts = parse_rfc2822("Sun, 06 Jun 2010 17:29:23 +0100").unwrap();
    assert_eq!(ts, 1275841763);

    let ts2 = parse_rfc2822("Sun, 06 Jun 2010 16:29:23 GMT").unwrap_or(0);
    assert_eq!(ts2, 1275841763);

    let ts3 = parse_rfc2822("Sun, 06 Jun 2010 17:29:23 -0100").unwrap();
    assert_eq!(ts3, 1275841763 + 2 * 3600);

    assert!(parse_rfc2822("").is_none());
    assert!(parse_rfc2822("not a date").is_none());
}

#[test]
fn days_of_the_calendar() {
    assert_eq!(days_from_civil(1970, 1, 1), 0);
    assert_eq!(days_from_civil(1969, 12, 31), -1);
    assert_eq!(days_from_civil(2000, 2, 29), 11016);
    assert_eq!(days_from_civil(2000, 3, 1), 11017);
    assert_eq!(days_from_civil(2010, 6, 6), 14766);
    let utc = parse_rfc2822("Sun, 06 Jun 2010 17:29:23 +0000").unwrap();
    assert_eq!(parse_rfc2822("Sun, 06 Jun 2010 17:29:23 +0130").unwrap(), utc - 5400);
    assert_eq!(parse_rfc2822("Sun, 06 Jun 2010 17:29:23 -0800").unwrap(), utc + 28800);
    assert!(parse_rfc2822("Sun, 06 Foo 2010 17:29:23 GMT").is_none());
    assert!(parse_rfc2822("Sun, 06 Jun 2010 17:29 GMT").is_none());
    assert!(parse_rfc2822("Sun, xx Jun 2010 17:29:23 GMT").is_none());
}

fn tag(name: &str, attributes: &[(&str, &str)]) -> XmlTag {
    XmlTag {
        name: name.to_string(),
        attributes: attributes.iter().map(|(k, v)| (k.to_string(), v.to_string())).collect(),
    }
}

#[test]
fn results_from_events() {
    let mut c = ResultCollector::new("i");
    c.feed(&XmlEvent::Start(tag("item", &[])));
    c.feed(&XmlEvent::Start(tag("title", &[])));
    c.feed(&XmlEvent::Text(Some("Name".to_string())));
    c.feed(&XmlEvent::End("title".to_string()));
    c.feed(&XmlEvent::Text(Some("stray".to_string())));
    c.feed(&XmlEvent::Empty(tag("enclosure", &[("url", "u"), ("length", "12")])));
    c.feed(&XmlEvent::Empty(tag("newznab:attr", &[("name", "files"), ("value", "9")])));
    c.feed(&XmlEvent::End("item".to_string()));
    let found = c.into_results();
    assert_eq!(found.len(), 1);
    assert_eq!(
        (found[0].title.as_str(), found[0].nzb_url.as_str(), found[0].size, found[0].files),
        ("Name", "u", 12, 9)
    );
    let refused = refusal_of(&XmlEvent::Empty(tag("error", &[("code", "201")]))).unwrap();
    assert_eq!((refused.code, refused.description.as_str()), (201, ""));
    assert!(refusal_of(&XmlEvent::Eof).is_none());
}

fn config(url: &str) -> IndexerConfig {
    IndexerConfig {
        name: "idx".to_string(),
        url: url.to_string(),
        api_key: "k&y".to_string(),
        max_concurrent: default_max_concurrent(),
        timeout_s: default_timeout(),
        priority: 0,
    }
}

#[test]
fn defaults_of_an_indexer() {
    let c = config("x");
    assert_eq!((c.max_concurrent, c.timeout_s), (1, 15));
}

#[test]
fn addresses_of_requests() {
    let client = NewznabClient::new(config("https://example.com/api"));
    assert_eq!(client.name(), "idx");
    assert_eq!(client.config().url, "https://example.com/api");
    assert_eq!(
        client.build_url("caps").unwrap(),
        "https://example.com/api?apikey=k%26y&t=caps"
    );
    let url = client.build_search_url(&SearchQuery::tv("some show", 1, 5)).unwrap();
    assert!(url.starts_with("https://example.com/api?apikey=k%26y&t=tvsearch"), "{url}");
    assert!(url.contains("q=some+show"), "{url}");
    assert!(url.contains("season=1"), "{url}");
    assert!(url.contains("ep=5"), "{url}");
    assert!(NewznabClient::new(config("not a url")).build_url("caps").is_none());
}

#[test]
fn parameters_of_a_query() {
    let mut q = SearchQuery::text("x");
    q.categories = vec![5000, 2000];
    q.max_age_days = Some(7);
    let pairs = query_pairs("k", &q);
    let has = |k: &str, v: &str| pairs.contains(&(k.to_string(), v.to_string()));
    assert!(has("t", "search"));
    assert!(has("apikey", "k"));
    assert!(has("q", "x"));
    assert!(has("cat", "5000,2000"));
    assert!(has("maxage", "7"));
}

#[test]
fn answers_of_an_indexer() {
    let client = NewznabClient::new(config("https://example.com/api"));
    match client.read_search(429, Some("17"), "") {
        Err(IndexError::RateLimited { indexer, retry_after_s }) => {
            assert_eq!((indexer.as_str(), retry_after_s), ("idx", 17));
        }
        other => panic!("unexpected {other:?}"),
    }
    match client.read_search(429, Some("soon"), "") {
        Err(IndexError::RateLimited { retry_after_s, .. }) => assert_eq!(retry_after_s, 60),
        other => panic!("unexpected {other:?}"),
    }
    match client.read_search(503, None, "") {
        Err(IndexError::Api { code, description }) => {
            assert_eq!((code, description.as_str()), (503, "HTTP 503 Service Unavailable"));
        }
        other => panic!("unexpected {other:?}"),
    }
    match client.read_search(200, None, "<error code=\"100\" description=\"no\"/>") {
        Err(IndexError::Api { code, description }) => {
            assert_eq!((code, description.as_str()), (100, "no"));
        }
        other => panic!("unexpected {other:?}"),
    }
    assert!(matches!(
        client.read_search(200, None, "<rss><item></rss>"),
        Err(IndexError::SearchParse(_))
    ));
    assert!(matches!(client.read_caps(200, "<caps></x>"), Err(IndexError::CapsParse(_))));
    assert!(matches!(client.read_caps(404, ""), Err(IndexError::Api { code: 404, .. })));
    assert!(client.refused_caps(200).is_none());
    assert!(client.refused_search(200, None).is_none());
    assert_eq!(client.read_results("<rss></rss>").unwrap().len(), 0);
}

#[test]
fn kinds_of_search() {
    let words: Vec<&str> = [
        SearchType::Search,
        SearchType::TvSearch,
        SearchType::Movie,
        SearchType::Music,
        SearchType::Book,
    ]
    .iter()
    .map(|t| t.as_str())
    .collect();
    assert_eq!(words, vec!["search", "tvsearch", "movie", "music", "book"]);
    let q = SearchQuery::movie("tt1");
    assert_eq!((q.ty, q.imdb_id.as_deref()), (SearchType::Movie, Some("tt1")));
    let q = SearchQuery::text("a");
    assert_eq!((q.q.as_deref(), q.limit, q.offset), (Some("a"), 100, 0));
}

#[test]
fn categories_and_passwords() {
    assert_eq!(cats::normalize(5040), 5000);
    assert_eq!(cats::normalize(2000), 2000);
    assert!(cats::normalize(4999) <= cats::normalize(5000));
    assert!(cats::all().iter().all(|c| cats::normalize(c.id) == c.id));
    let known: Vec<PasswordStatus> = (0u32..4).map(PasswordStatus::from).collect();
    assert_eq!(
        known,
        vec![
            PasswordStatus::NoPassword,
            PasswordStatus::Rar,
            PasswordStatus::InnerArchive,
            PasswordStatus::Unknown,
        ]
    );
    let params = SearchCaps::parse_params(" q, season,,q ");
    assert!(params.contains("q") && params.contains("season"));
    assert!(!params.contains(""));
    assert_eq!(params.names().len(), 2);
}
