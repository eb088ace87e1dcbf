//! Search responses of an indexer: RSS with extra attributes per item.
use vstd::prelude::*;

use crate::cats;
use crate::dates;
use crate::dates::parse_rfc2822;
use crate::text;
use crate::text::{chars_of, ends_with, parse_unsigned, same_text, starts_with, trim_start};
use crate::types::{MovieInfo, MovieView, PasswordStatus, ResultView, SearchResult, TvInfo, TvView};
use crate::xml;
use crate::xml::{attr_to_number, next_event, open_xml, EventView, Step, TagView, XmlEvent, XmlTag};

verus! {

/// The answer of an indexer that refuses a request.
#[derive(Debug)]
pub struct NewznabError {
    pub code: u16,
    pub description: String,
}

/// What a [`NewznabError`] says.
pub struct NewznabErrorView {
    pub code: u16,
    pub description: Seq<char>,
}

impl View for NewznabError {
    type V = NewznabErrorView;

    open spec fn view(&self) -> NewznabErrorView {
        NewznabErrorView { code: self.code, description: self.description@ }
    }
}

/// The code and description that an `error` tag gives.
pub open spec fn refusal(tag: TagView) -> NewznabErrorView {
    NewznabErrorView {
        code: match xml::last_attribute(tag.attributes, "code"@) {
            Some(v) => xml::attr_number(v, u16::MAX as nat) as u16,
            None => 0,
        },
        description: match xml::last_attribute(tag.attributes, "description"@) {
            Some(v) => v,
            None => Seq::empty(),
        },
    }
}

/// The `error` tag that an event holds, if it is one.
pub open spec fn error_tag(event: EventView) -> Option<TagView> {
    match event {
        EventView::Start(t) if t.name == "error"@ => Some(t),
        EventView::Empty(t) if t.name == "error"@ => Some(t),
        _ => None,
    }
}

/// What the first `error` tag among `steps` says, if one comes before the end or an XML
/// error.
pub open spec fn first_refusal(steps: Seq<Step>) -> Option<NewznabErrorView>
    decreases steps.len(),
{
    if steps.len() == 0 {
        None
    } else {
        match steps[0] {
            Err(_) => None,
            Ok(EventView::Eof) => None,
            Ok(e) => match error_tag(e) {
                Some(t) => Some(refusal(t)),
                None => first_refusal(steps.skip(1)),
            },
        }
    }
}

/// Whether a response can hold an `error` element: it starts, behind white space, with
/// `<?xml` or `<error`.
pub open spec fn may_refuse(document: Seq<char>) -> bool {
    let s = text::trimmed_start(document);
    text::has_prefix(s, "<?xml"@) || text::has_prefix(s, "<error"@)
}

/// What an event says if it is an `error` tag.
pub fn refusal_of(event: &XmlEvent) -> (r: Option<NewznabError>)
    ensures
        match r {
            Some(e) => error_tag(event@) is Some && e@ == refusal(error_tag(event@)->0),
            None => error_tag(event@) is None,
        },
{
    let tag = match event {
        XmlEvent::Start(t) => t,
        XmlEvent::Empty(t) => t,
        _ => return None,
    };
    if !tag.is("error") {
        return None;
    }
    let code: u16 = match tag.attribute("code") {
        Some(v) => attr_to_number(v, u16::MAX as u64) as u16,
        None => 0,
    };
    let description = match tag.attribute("description") {
        Some(v) => v.clone(),
        None => String::new(),
    };
    Some(NewznabError { code, description })
}

/// The refusal that a response holds instead of results.
pub fn parse_error(document: &str) -> (r: Option<NewznabError>)
    ensures
        match r {
            Some(e) => may_refuse(document@) && first_refusal(xml::xml_steps(document@)) == Some(
                e@,
            ),
            None => !may_refuse(document@) || first_refusal(xml::xml_steps(document@)) is None,
        },
{
    let cs = chars_of(document);
    let trimmed = trim_start(&cs);
    if !starts_with(trimmed, "<?xml") && !starts_with(trimmed, "<error") {
        return None;
    }
    let mut reader = open_xml(document);
    loop
        invariant
            xml::is_run(xml::steps_left(reader)),
            may_refuse(document@),
            first_refusal(xml::xml_steps(document@)) == first_refusal(xml::steps_left(reader)),
        decreases xml::steps_left(reader).len(),
    {
        let ghost left = xml::steps_left(reader);
        match next_event(&mut reader) {
            Err(_) => return None,
            Ok(event) => {
                if let XmlEvent::Eof = event {
                    return None;
                }
                assert(!xml::is_final(left[0]));
                if let Some(e) = refusal_of(&event) {
                    return Some(e);
                }
                assert(left.skip(1).last() == left.last());
            },
        }
    }
}

/// What has been read of one item.
#[derive(Debug)]
pub struct ItemBuilder {
    pub title: String,
    pub guid: String,
    pub nzb_url: String,
    pub size: u64,
    pub post_date_str: String,
    pub category_name: String,
    pub indexer: String,
    /// The extra attributes by name, in the order of the document; the last of a name counts.
    pub attrs: Vec<(String, String)>,
}

/// What an [`ItemBuilder`] holds.
#[verifier::ext_equal]
pub struct ItemView {
    pub title: Seq<char>,
    pub guid: Seq<char>,
    pub nzb_url: Seq<char>,
    pub size: u64,
    pub post_date_str: Seq<char>,
    pub category_name: Seq<char>,
    pub indexer: Seq<char>,
    pub attrs: Seq<(Seq<char>, Seq<char>)>,
}

impl View for ItemBuilder {
    type V = ItemView;

    open spec fn view(&self) -> ItemView {
        ItemView {
            title: self.title@,
            guid: self.guid@,
            nzb_url: self.nzb_url@,
            size: self.size,
            post_date_str: self.post_date_str@,
            category_name: self.category_name@,
            indexer: self.indexer@,
            attrs: self.attrs@.map_values(|a: (String, String)| (a.0@, a.1@)),
        }
    }
}

/// An item of `indexer` of which nothing has been read.
pub open spec fn blank_item(indexer: Seq<char>) -> ItemView {
    ItemView {
        title: Seq::empty(),
        guid: Seq::empty(),
        nzb_url: Seq::empty(),
        size: 0,
        post_date_str: Seq::empty(),
        category_name: Seq::empty(),
        indexer,
        attrs: Seq::empty(),
    }
}

/// The value of the last attribute named `key`.
pub open spec fn given(attrs: Seq<(Seq<char>, Seq<char>)>, key: Seq<char>) -> Option<Seq<char>>
    decreases attrs.len(),
{
    if attrs.len() == 0 {
        None
    } else if attrs.last().0 == key {
        Some(attrs.last().1)
    } else {
        given(attrs.drop_last(), key)
    }
}

/// The value of the last attribute named `key`, where it is a 32-bit number.
pub open spec fn given_number(attrs: Seq<(Seq<char>, Seq<char>)>, key: Seq<char>) -> Option<u32> {
    match given(attrs, key) {
        Some(v) => match text::unsigned(v, u32::MAX as nat) {
            Some(n) => Some(n as u32),
            None => None,
        },
        None => None,
    }
}

/// The number of an attribute, 0 where there is none.
pub open spec fn given_or_zero(attrs: Seq<(Seq<char>, Seq<char>)>, key: Seq<char>) -> u32 {
    match given_number(attrs, key) {
        Some(n) => n,
        None => 0,
    }
}

/// The TV information of an item: present where any of it is.
pub open spec fn tv_of(attrs: Seq<(Seq<char>, Seq<char>)>) -> Option<TvView> {
    let t = TvView {
        season: given_number(attrs, "season"@),
        episode: given_number(attrs, "episode"@),
        rage_id: given_number(attrs, "rageid"@),
        tvdb_id: given_number(attrs, "tvdbid"@),
        tvmaze_id: given_number(attrs, "tvmazeid"@),
        title: given(attrs, "tvtitle"@),
        air_date: given(attrs, "tvairdate"@),
    };
    if t.season is Some || t.episode is Some || t.rage_id is Some || t.tvdb_id is Some
        || t.tvmaze_id is Some || t.title is Some || t.air_date is Some {
        Some(t)
    } else {
        None
    }
}

/// The movie information of an item: present where any of it is.
pub open spec fn movie_of(attrs: Seq<(Seq<char>, Seq<char>)>) -> Option<MovieView> {
    let m = MovieView {
        imdb_id: given(attrs, "imdb"@),
        imdb_score: given(attrs, "imdbscore"@),
        imdb_year: given_number(attrs, "imdbyear"@),
        genre: given(attrs, "genre"@),
    };
    if m.imdb_id is Some || m.imdb_score is Some || m.imdb_year is Some || m.genre is Some {
        Some(m)
    } else {
        None
    }
}

/// The search result that an item makes.
pub open spec fn result_of(item: ItemView) -> ResultView {
    ResultView {
        title: item.title,
        guid: item.guid,
        nzb_url: if item.nzb_url.len() == 0 && text::has_prefix(item.guid, "http"@) {
            item.guid
        } else {
            item.nzb_url
        },
        size: item.size,
        post_date: match dates::rfc2822(item.post_date_str) {
            Some(t) => t,
            None => 0,
        },
        category: cats::parent(given_or_zero(item.attrs, "category"@) as int) as u32,
        category_name: item.category_name,
        grabs: given_or_zero(item.attrs, "grabs"@),
        files: given_or_zero(item.attrs, "files"@),
        password: match given_number(item.attrs, "password"@) {
            Some(n) => PasswordStatus::numbered(n),
            None => PasswordStatus::Unknown,
        },
        indexer: item.indexer,
        tv: tv_of(item.attrs),
        movie: movie_of(item.attrs),
    }
}

impl ItemBuilder {
    /// An item of `indexer` of which nothing has been read.
    pub fn new(indexer: &str) -> (r: Self)
        ensures
            r@ == blank_item(indexer@),
    {
        let r = ItemBuilder {
            title: String::new(),
            guid: String::new(),
            nzb_url: String::new(),
            size: 0,
            post_date_str: String::new(),
            category_name: String::new(),
            indexer: indexer.to_owned(),
            attrs: Vec::new(),
        };
        assert(r@ =~= blank_item(indexer@));
        r
    }

    /// The value of the last attribute named `key`.
    pub fn text_attr(&self, key: &str) -> (r: Option<String>)
        ensures
            crate::types::text_of(r) == given(self@.attrs, key@),
    {
        let ghost all = self@.attrs;
        let mut i: usize = self.attrs.len();
        assert(all.take(i as int) == all);
        while i > 0
            invariant
                i <= self.attrs.len(),
                all == self@.attrs,
                given(all, key@) == given(all.take(i as int), key@),
            decreases i,
        {
            i -= 1;
            assert(all.take(i + 1).drop_last() == all.take(i as int));
            if same_text(&self.attrs[i].0, key) {
                return Some(self.attrs[i].1.clone());
            }
        }
        None
    }

    /// The value of the last attribute named `key`, where it is a 32-bit number.
    pub fn number_attr(&self, key: &str) -> (r: Option<u32>)
        ensures
            r == given_number(self@.attrs, key@),
    {
        match self.text_attr(key) {
            Some(v) => {
                let cs = chars_of(&v);
                match parse_unsigned(&cs, u32::MAX as u64) {
                    Some(n) => Some(n as u32),
                    None => None,
                }
            },
            None => None,
        }
    }

    /// The search result that the item makes.
    pub fn build(self) -> (r: SearchResult)
        ensures
            r@ == result_of(self@),
    {
        let category: u32 = match self.number_attr("category") {
            Some(n) => cats::normalize(n),
            None => 0,
        };
        let files: u32 = self.number_attr("files").unwrap_or(0);
        let grabs: u32 = self.number_attr("grabs").unwrap_or(0);
        let password = match self.number_attr("password") {
            Some(n) => PasswordStatus::from(n),
            None => PasswordStatus::Unknown,
        };
        let season = self.number_attr("season");
        let episode = self.number_attr("episode");
        let rage_id = self.number_attr("rageid");
        let tvdb_id = self.number_attr("tvdbid");
        let tvmaze_id = self.number_attr("tvmazeid");
        let title = self.text_attr("tvtitle");
        let air_date = self.text_attr("tvairdate");
        let tv = if season.is_some() || episode.is_some() || rage_id.is_some() || tvdb_id.is_some()
            || tvmaze_id.is_some() || title.is_some() || air_date.is_some() {
            Some(TvInfo { season, episode, rage_id, tvdb_id, tvmaze_id, title, air_date })
        } else {
            None
        };
        let imdb_id = self.text_attr("imdb");
        let imdb_score = self.text_attr("imdbscore");
        let imdb_year = self.number_attr("imdbyear");
        let genre = self.text_attr("genre");
        let movie = if imdb_id.is_some() || imdb_score.is_some() || imdb_year.is_some()
            || genre.is_some() {
            Some(MovieInfo { imdb_id, imdb_score, imdb_year, genre })
        } else {
            None
        };
        let post_date: u64 = parse_rfc2822(&self.post_date_str).unwrap_or(0);
        let guid_chars = chars_of(&self.guid);
        let nzb_url = if chars_of(&self.nzb_url).len() == 0 && starts_with(&guid_chars, "http") {
            self.guid.clone()
        } else {
            self.nzb_url.clone()
        };
        SearchResult {
            title: self.title,
            guid: self.guid,
            nzb_url,
            size: self.size,
            post_date,
            category,
            category_name: self.category_name,
            grabs,
            files,
            password,
            indexer: self.indexer,
            tv,
            movie,
        }
    }
}

/// The items that have been read of a response.
#[derive(Debug)]
pub struct ResultCollector {
    indexer: String,
    in_item: bool,
    current_tag: String,
    item: ItemBuilder,
    results: Vec<SearchResult>,
}

/// What a [`ResultCollector`] holds.
#[verifier::ext_equal]
pub struct CollectorView {
    /// The indexer that the results are from.
    pub indexer: Seq<char>,
    /// Whether an `item` element is open.
    pub in_item: bool,
    /// The element within the item that was opened last and is not closed.
    pub current_tag: Seq<char>,
    /// What has been read of the open item.
    pub item: ItemView,
    /// The results of the closed items.
    pub results: Seq<ResultView>,
}

/// The item with the address and size that an `enclosure` tag gives.
pub open spec fn with_enclosure(item: ItemView, tag: TagView) -> ItemView {
    ItemView {
        nzb_url: match xml::last_attribute(tag.attributes, "url"@) {
            Some(v) => v,
            None => item.nzb_url,
        },
        size: match xml::last_attribute(tag.attributes, "length"@) {
            Some(v) => xml::attr_number(v, u64::MAX as nat) as u64,
            None => item.size,
        },
        ..item
    }
}

/// The item with one more extra attribute, as a tag such as `newznab:attr` gives it.
pub open spec fn with_attr(item: ItemView, tag: TagView) -> ItemView {
    let name = match xml::last_attribute(tag.attributes, "name"@) {
        Some(v) => v,
        None => Seq::empty(),
    };
    let value = match xml::last_attribute(tag.attributes, "value"@) {
        Some(v) => v,
        None => Seq::empty(),
    };
    ItemView { attrs: item.attrs.push((name, value)), ..item }
}

/// The item with `t` added to the element `tag`.
pub open spec fn with_text(item: ItemView, tag: Seq<char>, t: Seq<char>) -> ItemView {
    if tag == "title"@ {
        ItemView { title: item.title + t, ..item }
    } else if tag == "guid"@ {
        ItemView { guid: item.guid + t, ..item }
    } else if tag == "pubDate"@ {
        ItemView { post_date_str: item.post_date_str + t, ..item }
    } else if tag == "category"@ {
        ItemView { category_name: item.category_name + t, ..item }
    } else {
        item
    }
}

impl CollectorView {
    /// Nothing read yet.
    pub open spec fn start(indexer: Seq<char>) -> CollectorView {
        CollectorView {
            indexer,
            in_item: false,
            current_tag: Seq::empty(),
            item: blank_item(indexer),
            results: Seq::empty(),
        }
    }

    /// What is held after one more event.
    pub open spec fn after(self, event: EventView) -> CollectorView {
        match event {
            EventView::Start(t) => if t.name == "item"@ {
                CollectorView { in_item: true, item: blank_item(self.indexer), ..self }
            } else if self.in_item {
                CollectorView {
                    current_tag: t.name,
                    item: if t.name == "enclosure"@ {
                        with_enclosure(self.item, t)
                    } else {
                        self.item
                    },
                    ..self
                }
            } else {
                self
            },
            EventView::Empty(t) => if self.in_item && t.name == "enclosure"@ {
                CollectorView { item: with_enclosure(self.item, t), ..self }
            } else if self.in_item && text::has_suffix(t.name, "attr"@) {
                CollectorView { item: with_attr(self.item, t), ..self }
            } else {
                self
            },
            EventView::Text(t) => if self.in_item && self.current_tag.len() > 0 {
                CollectorView {
                    item: with_text(
                        self.item,
                        self.current_tag,
                        match t {
                            Some(s) => s,
                            None => Seq::empty(),
                        },
                    ),
                    ..self
                }
            } else {
                self
            },
            EventView::End(n) => if n == "item"@ {
                if self.in_item {
                    CollectorView {
                        in_item: false,
                        item: blank_item(self.indexer),
                        results: self.results.push(result_of(self.item)),
                        ..self
                    }
                } else {
                    self
                }
            } else if self.in_item {
                CollectorView { current_tag: Seq::empty(), ..self }
            } else {
                self
            },
            EventView::Other => self,
            EventView::Eof => self,
        }
    }

    /// The results once all of `steps` is read: those of the closed items, or the message of
    /// an XML error.
    pub open spec fn finished(self, steps: Seq<Step>) -> Result<Seq<ResultView>, Seq<char>>
        decreases steps.len(),
    {
        if steps.len() == 0 {
            Ok(self.results)
        } else {
            match steps[0] {
                Err(m) => Err(m),
                Ok(EventView::Eof) => Ok(self.results),
                Ok(e) => self.after(e).finished(steps.skip(1)),
            }
        }
    }
}

impl View for ResultCollector {
    type V = CollectorView;

    closed spec fn view(&self) -> CollectorView {
        CollectorView {
            indexer: self.indexer@,
            in_item: self.in_item,
            current_tag: self.current_tag@,
            item: self.item@,
            results: crate::order::views(self.results@),
        }
    }
}

impl ResultCollector {
    /// A collector of results from `indexer` that has read nothing.
    pub fn new(indexer: &str) -> (r: Self)
        ensures
            r@ == CollectorView::start(indexer@),
    {
        let r = ResultCollector {
            indexer: indexer.to_owned(),
            in_item: false,
            current_tag: String::new(),
            item: ItemBuilder::new(indexer),
            results: Vec::new(),
        };
        assert(r@ =~= CollectorView::start(indexer@));
        r
    }

    /// Takes the address and size of the release from an `enclosure` tag.
    fn take_enclosure(&mut self, tag: &XmlTag)
        ensures
            final(self)@ == (CollectorView {
                item: with_enclosure(old(self)@.item, tag@),
                ..old(self)@
            }),
    {
        if let Some(v) = tag.attribute("url") {
            self.item.nzb_url = v.clone();
        }
        if let Some(v) = tag.attribute("length") {
            self.item.size = attr_to_number(v, u64::MAX);
        }
    }

    /// Takes an extra attribute.
    fn take_attr(&mut self, tag: &XmlTag)
        ensures
            final(self)@ == (CollectorView { item: with_attr(old(self)@.item, tag@), ..old(self)@ }),
    {
        let name = match tag.attribute("name") {
            Some(v) => v.clone(),
            None => String::new(),
        };
        let value = match tag.attribute("value") {
            Some(v) => v.clone(),
            None => String::new(),
        };
        self.item.attrs.push((name, value));
        assert(self@.item.attrs =~= with_attr(old(self)@.item, tag@).attrs);
    }

    /// Adds `t` to the open element.
    fn take_text(&mut self, t: &str)
        ensures
            final(self)@ == (CollectorView {
                item: with_text(old(self)@.item, old(self)@.current_tag, t@),
                ..old(self)@
            }),
    {
        if same_text(&self.current_tag, "title") {
            self.item.title.append(t);
        } else if same_text(&self.current_tag, "guid") {
            self.item.guid.append(t);
        } else if same_text(&self.current_tag, "pubDate") {
            self.item.post_date_str.append(t);
        } else if same_text(&self.current_tag, "category") {
            self.item.category_name.append(t);
        }
    }

    /// Reads one more event.
    pub fn feed(&mut self, event: &XmlEvent)
        ensures
            final(self)@ == old(self)@.after(event@),
    {
        match event {
            XmlEvent::Start(tag) => {
                if tag.is("item") {
                    self.in_item = true;
                    self.item = ItemBuilder::new(&self.indexer);
                } else if self.in_item {
                    self.current_tag = tag.name.clone();
                    if tag.is("enclosure") {
                        self.take_enclosure(tag);
                    }
                }
            },
            XmlEvent::Empty(tag) => {
                if self.in_item {
                    if tag.is("enclosure") {
                        self.take_enclosure(tag);
                    } else {
                        let name = chars_of(&tag.name);
                        if ends_with(&name, "attr") {
                            self.take_attr(tag);
                        }
                    }
                }
            },
            XmlEvent::Text(t) => {
                if self.in_item && chars_of(&self.current_tag).len() > 0 {
                    match t {
                        Some(s) => self.take_text(s),
                        None => self.take_text(""),
                    }
                    proof {
                        reveal_strlit("");
                        assert(""@ == Seq::<char>::empty());
                    }
                }
            },
            XmlEvent::End(name) => {
                if same_text(name, "item") {
                    if self.in_item {
                        let mut item = ItemBuilder::new(&self.indexer);
                        std::mem::swap(&mut item, &mut self.item);
                        let built = item.build();
                        self.results.push(built);
                        self.in_item = false;
                        assert(self@.results =~= old(self)@.results.push(
                            result_of(old(self)@.item),
                        ));
                    }
                } else if self.in_item {
                    self.current_tag = String::new();
                    assert(self@.current_tag =~= Seq::empty());
                }
            },
            XmlEvent::Other => {},
            XmlEvent::Eof => {},
        }
    }

    /// The results of the items that have been closed.
    pub fn into_results(self) -> (r: Vec<SearchResult>)
        ensures
            crate::order::views(r@) == self@.results,
    {
        self.results
    }
}

/// The results of a search response, or the message of its first XML error.
pub fn parse_search_results(document: &str, indexer: &str) -> (r: Result<Vec<SearchResult>, String>)
    ensures
        match r {
            Ok(v) => CollectorView::start(indexer@).finished(xml::xml_steps(document@)) == Ok::<
                Seq<ResultView>,
                Seq<char>,
            >(crate::order::views(v@)),
            Err(m) => CollectorView::start(indexer@).finished(xml::xml_steps(document@)) == Err::<
                Seq<ResultView>,
                Seq<char>,
            >(m@),
        },
{
    let mut reader = open_xml(document);
    let mut collector = ResultCollector::new(indexer);
    loop
        invariant
            xml::is_run(xml::steps_left(reader)),
            CollectorView::start(indexer@).finished(xml::xml_steps(document@)) == collector@.finished(
                xml::steps_left(reader),
            ),
        decreases xml::steps_left(reader).len(),
    {
        let ghost left = xml::steps_left(reader);
        match next_event(&mut reader) {
            Err(m) => return Err(m),
            Ok(event) => {
                if let XmlEvent::Eof = event {
                    return Ok(collector.into_results());
                }
                assert(!xml::is_final(left[0]));
                collector.feed(&event);
                assert(left.skip(1).last() == left.last());
            },
        }
    }
}

/// The `enclosure` of an item gives the size of the result, as great as it may be, and the address
/// of its NZB file.
pub proof fn enclosures_give_size_and_address(
    c: CollectorView,
    tag: TagView,
    event: EventView,
    n: nat,
    url: Seq<char>,
)
    requires
        c.in_item,
        tag.name == "enclosure"@,
        event == EventView::Empty(tag) || event == EventView::Start(tag),
        n <= u64::MAX,
        xml::tells(tag, "length"@, text::decimal(n)),
        xml::tells(tag, "url"@, url),
        url.len() > 0,
    ensures
        ({
            let r = c.after(event).after(EventView::End("item"@));
            &&& r.results.len() == c.results.len() + 1
            &&& r.results.drop_last() == c.results
            &&& r.results.last().size == n
            &&& r.results.last().nzb_url == url
            &&& r.results.last().title == c.item.title
            &&& r.results.last().guid == c.item.guid
            &&& r.results.last().indexer == c.item.indexer
            &&& !r.in_item
        }),
{
    reveal_strlit("enclosure");
    reveal_strlit("item");
    assert("enclosure"@.len() == 9 && "item"@.len() == 4);
    xml::told_values_count(tag, "length"@, text::decimal(n));
    xml::told_values_count(tag, "url"@, url);
    xml::attribute_numbers_are_read(n, u64::MAX as nat, Seq::empty());
    let r = c.after(event).after(EventView::End("item"@));
    assert(r.results.drop_last() =~= c.results);
}

/// Nothing but an `enclosure` changes the size and the address of an item; an item without one has
/// none, and its guid stands for the address where it looks like one.
pub proof fn only_enclosures_give_size(c: CollectorView, event: EventView)
    requires
        c.in_item,
        event matches EventView::Start(t) ==> t.name != "enclosure"@ && t.name != "item"@,
        event matches EventView::Empty(t) ==> t.name != "enclosure"@,
        event matches EventView::End(n) ==> n != "item"@,
    ensures
        c.after(event).in_item,
        c.after(event).item.size == c.item.size,
        c.after(event).item.nzb_url == c.item.nzb_url,
        c.after(event).item.indexer == c.item.indexer,
        c.after(event).indexer == c.indexer,
        c.after(event).results == c.results,
        forall|t: TagView|
            t.name == "item"@ ==> {
                let r = #[trigger] c.after(EventView::Start(t));
                &&& r.in_item
                &&& r.item.size == 0 && r.item.nzb_url.len() == 0 && r.item.title.len() == 0
                &&& r.item.guid.len() == 0 && r.item.post_date_str.len() == 0
                &&& r.item.category_name.len() == 0 && r.item.attrs.len() == 0
                &&& r.item.indexer == c.indexer
                &&& r.results == c.results
            },
        c.item.nzb_url.len() == 0 ==> c.after(EventView::End("item"@)).results.last().nzb_url
            == if text::has_prefix(c.item.guid, "http"@) {
            c.item.guid
        } else {
            c.item.nzb_url
        },
        c.item.nzb_url.len() > 0 ==> c.after(EventView::End("item"@)).results.last().nzb_url
            == c.item.nzb_url,
{
}

/// Nothing outside an item counts, but the start of one.
pub proof fn nothing_counts_outside_items(c: CollectorView, event: EventView)
    requires
        !c.in_item,
        event matches EventView::Start(t) ==> t.name != "item"@,
    ensures
        c.after(event) == c,
{
}

/// The text of an element becomes the title, the guid, the date of the post or the category of the
/// result, by the name of the element; the text of any other is passed over.
pub proof fn texts_go_to_their_fields(c: CollectorView, tag: TagView, t: Seq<char>)
    requires
        c.in_item,
        tag.name != "item"@,
        tag.name != "enclosure"@,
        tag.name.len() > 0,
    ensures
        ({
            let r = c.after(EventView::Start(tag)).after(EventView::Text(Some(t)));
            &&& r.item.title == if tag.name == "title"@ {
                c.item.title + t
            } else {
                c.item.title
            }
            &&& r.item.guid == if tag.name == "guid"@ {
                c.item.guid + t
            } else {
                c.item.guid
            }
            &&& r.item.post_date_str == if tag.name == "pubDate"@ {
                c.item.post_date_str + t
            } else {
                c.item.post_date_str
            }
            &&& r.item.category_name == if tag.name == "category"@ {
                c.item.category_name + t
            } else {
                c.item.category_name
            }
            &&& r.item.attrs == c.item.attrs
            &&& r.in_item
            // Behind the element text counts no more.
            &&& forall|n: Seq<char>, s: Option<Seq<char>>|
                n != "item"@ ==> (#[trigger] r.after(EventView::End(n)).after(
                    EventView::Text(s),
                )).item == r.item
        }),
{
    reveal_strlit("title");
    reveal_strlit("guid");
    reveal_strlit("pubDate");
    reveal_strlit("category");
    assert("title"@[0] == 't' && "guid"@[0] == 'g' && "pubDate"@[0] == 'p' && "category"@[0]
        == 'c');
}

/// A closed item becomes one result, behind those before it, with the texts that were read and the
/// time of its date.
pub proof fn closed_items_become_results(c: CollectorView)
    requires
        c.in_item,
    ensures
        ({
            let r = c.after(EventView::End("item"@));
            let x = r.results.last();
            &&& !r.in_item
            &&& r.results == c.results.push(x)
            &&& x.title == c.item.title
            &&& x.guid == c.item.guid
            &&& x.size == c.item.size
            &&& x.category_name == c.item.category_name
            &&& x.indexer == c.item.indexer
            &&& dates::rfc2822(c.item.post_date_str) is Some ==> x.post_date == dates::rfc2822(
                c.item.post_date_str,
            )->0
            &&& dates::rfc2822(c.item.post_date_str) is None ==> x.post_date == 0
        }),
{
    let r = c.after(EventView::End("item"@));
    assert(r.results =~= c.results.push(r.results.last()));
}

/// The last of the extra attributes with a name counts, and only those with that name.
pub proof fn last_extra_attribute_counts(
    attrs: Seq<(Seq<char>, Seq<char>)>,
    k: Seq<char>,
    v: Seq<char>,
    key: Seq<char>,
)
    ensures
        given(attrs.push((key, v)), key) == Some(v),
        k != key ==> given(attrs.push((k, v)), key) == given(attrs, key),
        given(Seq::empty(), key) is None,
        (forall|i: int| 0 <= i < attrs.len() ==> (#[trigger] attrs[i]).0 != key) ==> given(
            attrs,
            key,
        ) is None,
    decreases attrs.len(),
{
    assert(attrs.push((key, v)).drop_last() =~= attrs);
    assert(attrs.push((k, v)).drop_last() =~= attrs);
    if attrs.len() > 0 {
        last_extra_attribute_counts(attrs.drop_last(), k, v, key);
        let n = attrs.len() - 1;
        assert(attrs[n] == attrs.last());
    }
}

/// The result once an extra attribute of an open item was read and the item closed.
pub open spec fn with_extra(c: CollectorView, tag: TagView) -> ResultView {
    c.after(EventView::Empty(tag)).after(EventView::End("item"@)).results.last()
}

/// A number in an extra attribute becomes the field of the result that it is named after.
pub proof fn numbers_of_extra_attributes_are_kept(
    c: CollectorView,
    tag: TagView,
    key: Seq<char>,
    n: u32,
)
    requires
        c.in_item,
        text::has_suffix(tag.name, "attr"@),
        xml::tells(tag, "name"@, key),
        xml::tells(tag, "value"@, text::decimal(n as nat)),
    ensures
        ({
            let r = with_extra(c, tag);
            &&& key == "category"@ ==> r.category == n - n % 1000
            &&& key == "grabs"@ ==> r.grabs == n
            &&& key == "files"@ ==> r.files == n
            &&& key == "password"@ ==> r.password == if n == 0 {
                PasswordStatus::NoPassword
            } else if n == 1 {
                PasswordStatus::Rar
            } else if n == 2 {
                PasswordStatus::InnerArchive
            } else {
                PasswordStatus::Unknown
            }
            &&& key == "season"@ ==> r.tv is Some && r.tv->0.season == Some(n)
            &&& key == "episode"@ ==> r.tv is Some && r.tv->0.episode == Some(n)
            &&& key == "rageid"@ ==> r.tv is Some && r.tv->0.rage_id == Some(n)
            &&& key == "tvdbid"@ ==> r.tv is Some && r.tv->0.tvdb_id == Some(n)
            &&& key == "tvmazeid"@ ==> r.tv is Some && r.tv->0.tvmaze_id == Some(n)
            &&& key == "imdbyear"@ ==> r.movie is Some && r.movie->0.imdb_year == Some(n)
        }),
{
    lemma_extra(c, tag, key, text::decimal(n as nat));
    text::decimal_is_read_back(n as nat, u32::MAX as nat);
}

/// A text in an extra attribute becomes the field of the result that it is named after.
pub proof fn texts_of_extra_attributes_are_kept(
    c: CollectorView,
    tag: TagView,
    key: Seq<char>,
    v: Seq<char>,
)
    requires
        c.in_item,
        text::has_suffix(tag.name, "attr"@),
        xml::tells(tag, "name"@, key),
        xml::tells(tag, "value"@, v),
    ensures
        ({
            let r = with_extra(c, tag);
            &&& key == "tvtitle"@ ==> r.tv is Some && r.tv->0.title == Some(v)
            &&& key == "tvairdate"@ ==> r.tv is Some && r.tv->0.air_date == Some(v)
            &&& key == "imdb"@ ==> r.movie is Some && r.movie->0.imdb_id == Some(v)
            &&& key == "imdbscore"@ ==> r.movie is Some && r.movie->0.imdb_score == Some(v)
            &&& key == "genre"@ ==> r.movie is Some && r.movie->0.genre == Some(v)
        }),
{
    lemma_extra(c, tag, key, v);
}

proof fn lemma_extra(c: CollectorView, tag: TagView, key: Seq<char>, v: Seq<char>)
    requires
        c.in_item,
        text::has_suffix(tag.name, "attr"@),
        xml::tells(tag, "name"@, key),
        xml::tells(tag, "value"@, v),
    ensures
        with_extra(c, tag) == result_of(
            ItemView { attrs: c.item.attrs.push((key, v)), ..c.item },
        ),
        given(c.item.attrs.push((key, v)), key) == Some(v),
        forall|k: Seq<char>|
            k != key ==> #[trigger] given(c.item.attrs.push((key, v)), k) == given(c.item.attrs, k),
{
    reveal_strlit("attr");
    reveal_strlit("enclosure");
    xml::told_values_count(tag, "name"@, key);
    xml::told_values_count(tag, "value"@, v);
    if tag.name == "enclosure"@ {
        assert(tag.name.subrange(5, 9)[0] == "attr"@[0]);
    }
    last_extra_attribute_counts(c.item.attrs, key, v, key);
    assert forall|k: Seq<char>| k != key implies #[trigger] given(
        c.item.attrs.push((key, v)),
        k,
    ) == given(c.item.attrs, k) by {
        last_extra_attribute_counts(c.item.attrs, key, v, k);
    }
}

/// An extra attribute changes no field but the one that it is named after.
pub proof fn extra_attributes_stay_apart(
    c: CollectorView,
    tag: TagView,
    key: Seq<char>,
    v: Seq<char>,
)
    requires
        c.in_item,
        text::has_suffix(tag.name, "attr"@),
        xml::tells(tag, "name"@, key),
        xml::tells(tag, "value"@, v),
    ensures
        ({
            let a = c.after(EventView::End("item"@)).results.last();
            let r = with_extra(c, tag);
            &&& r.title == a.title && r.guid == a.guid && r.nzb_url == a.nzb_url
            &&& r.size == a.size && r.post_date == a.post_date
            &&& r.category_name == a.category_name && r.indexer == a.indexer
            &&& key != "category"@ ==> r.category == a.category
            &&& key != "grabs"@ ==> r.grabs == a.grabs
            &&& key != "files"@ ==> r.files == a.files
            &&& key != "password"@ ==> r.password == a.password
            &&& key != "season"@ && key != "episode"@ && key != "rageid"@ && key != "tvdbid"@
                && key != "tvmazeid"@ && key != "tvtitle"@ && key != "tvairdate"@ ==> r.tv == a.tv
            &&& key != "imdb"@ && key != "imdbscore"@ && key != "imdbyear"@ && key != "genre"@
                ==> r.movie == a.movie
            &&& key != "season"@ && r.tv is Some && a.tv is Some ==> r.tv->0.season
                == a.tv->0.season
            &&& key != "episode"@ && r.tv is Some && a.tv is Some ==> r.tv->0.episode
                == a.tv->0.episode
            &&& key != "tvdbid"@ && r.tv is Some && a.tv is Some ==> r.tv->0.tvdb_id
                == a.tv->0.tvdb_id
            &&& key != "rageid"@ && r.tv is Some && a.tv is Some ==> r.tv->0.rage_id
                == a.tv->0.rage_id
            &&& key != "tvmazeid"@ && r.tv is Some && a.tv is Some ==> r.tv->0.tvmaze_id
                == a.tv->0.tvmaze_id
            &&& key != "tvtitle"@ && r.tv is Some && a.tv is Some ==> r.tv->0.title
                == a.tv->0.title
            &&& key != "tvairdate"@ && r.tv is Some && a.tv is Some ==> r.tv->0.air_date
                == a.tv->0.air_date
            &&& key != "imdb"@ && r.movie is Some && a.movie is Some ==> r.movie->0.imdb_id
                == a.movie->0.imdb_id
            &&& key != "imdbscore"@ && r.movie is Some && a.movie is Some ==> r.movie->0.imdb_score
                == a.movie->0.imdb_score
            &&& key != "imdbyear"@ && r.movie is Some && a.movie is Some ==> r.movie->0.imdb_year
                == a.movie->0.imdb_year
            &&& key != "genre"@ && r.movie is Some && a.movie is Some ==> r.movie->0.genre
                == a.movie->0.genre
        }),
{
    lemma_extra(c, tag, key, v);
}

/// An item without extra attributes makes a result without a category, without numbers, of which
/// it is not known whether it has a password, and of no show or movie.
pub proof fn items_without_extra_attributes_are_bare(c: CollectorView)
    requires
        c.in_item,
        c.item.attrs.len() == 0,
    ensures
        ({
            let r = c.after(EventView::End("item"@)).results.last();
            &&& r.category == 0 && r.grabs == 0 && r.files == 0
            &&& r.password == PasswordStatus::Unknown
            &&& r.tv is None && r.movie is None
        }),
{
}

/// A response is read event by event up to its end; an XML error on the way is its outcome.
pub proof fn responses_are_read_in_turn(
    c: CollectorView,
    event: EventView,
    m: Seq<char>,
    rest: Seq<Step>,
)
    ensures
        !(event is Eof) ==> c.finished(seq![Step::Ok(event)] + rest) == c.after(event).finished(
            rest,
        ),
        c.finished(seq![Step::Ok(EventView::Eof)] + rest) == Ok::<Seq<ResultView>, Seq<char>>(
            c.results,
        ),
        c.finished(seq![Step::Err(m)] + rest) == Err::<Seq<ResultView>, Seq<char>>(m),
{
    let a = seq![Step::Ok(event)] + rest;
    assert(a.skip(1) =~= rest);
    assert(a[0] == Step::Ok(event));
    assert((seq![Step::Ok(EventView::Eof)] + rest)[0] == Step::Ok(EventView::Eof));
    assert((seq![Step::Err(m)] + rest)[0] == Step::Err(m));
}

/// A response is refused by its first `error` element, with the code and the words that it gives;
/// one without such an element, or with an XML error before it, is not.
pub proof fn first_error_element_refuses(
    event: EventView,
    tag: TagView,
    code: u16,
    words: Seq<char>,
    m: Seq<char>,
    rest: Seq<Step>,
)
    requires
        tag.name == "error"@,
        xml::tells(tag, "code"@, text::decimal(code as nat)),
        xml::tells(tag, "description"@, words),
    ensures
        first_refusal(seq![Step::Ok(EventView::Empty(tag))] + rest) == Some(
            NewznabErrorView { code, description: words },
        ),
        first_refusal(seq![Step::Ok(EventView::Start(tag))] + rest) == Some(
            NewznabErrorView { code, description: words },
        ),
        !(event is Eof) && !(event matches EventView::Start(t) && t.name == "error"@) && !(
        event matches EventView::Empty(t) && t.name == "error"@) ==> first_refusal(
            seq![Step::Ok(event)] + rest,
        ) == first_refusal(rest),
        first_refusal(seq![Step::Ok(EventView::Eof)] + rest) is None,
        first_refusal(seq![Step::Err(m)] + rest) is None,
{
    xml::told_values_count(tag, "code"@, text::decimal(code as nat));
    xml::told_values_count(tag, "description"@, words);
    xml::attribute_numbers_are_read(code as nat, u16::MAX as nat, Seq::empty());
    assert((seq![Step::Ok(EventView::Empty(tag))] + rest)[0] == Step::Ok(EventView::Empty(tag)));
    assert((seq![Step::Ok(EventView::Start(tag))] + rest)[0] == Step::Ok(EventView::Start(tag)));
    let a = seq![Step::Ok(event)] + rest;
    assert(a[0] == Step::Ok(event));
    assert(a.skip(1) =~= rest);
    assert((seq![Step::Ok(EventView::Eof)] + rest)[0] == Step::Ok(EventView::Eof));
    assert((seq![Step::Err(m)] + rest)[0] == Step::Err(m));
}

/// A response can be a refusal if it starts, behind white space, with an XML declaration or an
/// `error` element; one that starts with another element or with no element cannot.
pub proof fn refusals_start_with_markup(white: char, t: Seq<char>)
    ensures
        text::is_white(white) ==> may_refuse(seq![white] + t) == may_refuse(t),
        may_refuse("<?xml"@ + t),
        may_refuse("<error"@ + t),
        t.len() > 0 && !text::is_white(t[0]) && t[0] != '<' ==> !may_refuse(t),
        t.len() > 1 && t[0] == '<' && t[1] != '?' && t[1] != 'e' ==> !may_refuse(t),
        t.len() < 5 ==> !may_refuse(t),
{
    reveal_strlit("<?xml");
    reveal_strlit("<error");
    let a = seq![white] + t;
    assert(a[0] == white);
    assert(a.skip(1) =~= t);
    assert(("<?xml"@ + t)[0] == '<');
    assert(("<error"@ + t)[0] == '<');
    text::affixes_are_pieces("<?xml"@ + t, "<?xml"@, t);
    text::affixes_are_pieces("<error"@ + t, "<error"@, t);
    let n = text::trimming_start_drops_white(t);
    let r = text::trimmed_start(t);
    text::affixes_are_pieces(r, "<?xml"@, t);
    text::affixes_are_pieces(r, "<error"@, t);
    assert("<?xml"@.len() == 5 && "<?xml"@[0] == '<' && "<?xml"@[1] == '?');
    assert("<error"@.len() == 6 && "<error"@[0] == '<' && "<error"@[1] == 'e');
    if text::has_prefix(r, "<?xml"@) {
        assert(r[0] == '<' && r[1] == '?');
    }
    if text::has_prefix(r, "<error"@) {
        assert(r[0] == '<' && r[1] == 'e');
    }
}

} // verus!
