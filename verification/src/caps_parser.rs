//! Capability responses of an indexer.
use vstd::prelude::*;

use crate::text;
use crate::text::same_text;
use crate::types;
use crate::types::{CapsCategory, CapsView, CategoryView, IndexerCaps, ParamSet, SearchCaps, SearchCapsView};
use crate::xml;
use crate::xml::{attr_to_number, next_event, open_xml, EventView, Step, TagView, XmlEvent, XmlTag};

verus! {

/// The value of an attribute, `old` where the tag has none of that name.
pub open spec fn text_or(tag: TagView, key: Seq<char>, old_value: Seq<char>) -> Seq<char> {
    match xml::last_attribute(tag.attributes, key) {
        Some(v) => v,
        None => old_value,
    }
}

/// The number of an attribute, `old` where the tag has none of that name, and 0 where it is
/// not a 32-bit number.
pub open spec fn number_or(tag: TagView, key: Seq<char>, old_value: u32) -> u32 {
    match xml::last_attribute(tag.attributes, key) {
        Some(v) => xml::attr_number(v, u32::MAX as nat) as u32,
        None => old_value,
    }
}

fn take_text(tag: &XmlTag, key: &str, target: &mut String)
    ensures
        final(target)@ == text_or(tag@, key@, old(target)@),
{
    if let Some(v) = tag.attribute(key) {
        *target = v.clone();
    }
}

fn number_of(tag: &XmlTag, key: &str, old_value: u32) -> (r: u32)
    ensures
        r == number_or(tag@, key@, old_value),
{
    match tag.attribute(key) {
        Some(v) => attr_to_number(v, u32::MAX as u64) as u32,
        None => old_value,
    }
}

/// What a tag such as `<search available="yes" supportedParams="q"/>` says.
pub open spec fn search_caps_in(tag: TagView) -> SearchCapsView {
    SearchCapsView {
        available: xml::last_attribute(tag.attributes, "available"@) == Some("yes"@),
        supported_params: match xml::last_attribute(tag.attributes, "supportedParams"@) {
            Some(v) => types::listed_params(v),
            None => Set::empty(),
        },
    }
}

/// Reads a tag such as `<search available="yes" supportedParams="q"/>`.
pub fn parse_search_caps(tag: &XmlTag) -> (r: SearchCaps)
    ensures
        r@ == search_caps_in(tag@),
{
    let available = match tag.attribute("available") {
        Some(v) => same_text(v, "yes"),
        None => false,
    };
    let supported_params = match tag.attribute("supportedParams") {
        Some(v) => SearchCaps::parse_params(v),
        None => ParamSet::new(),
    };
    SearchCaps { available, supported_params }
}

/// The category that a `category` or `subcat` tag opens.
pub open spec fn category_in(tag: TagView) -> CategoryView {
    CategoryView {
        id: number_or(tag, "id"@, 0),
        name: text_or(tag, "name"@, Seq::empty()),
        subcats: Seq::empty(),
    }
}

fn parse_category(tag: &XmlTag) -> (r: CapsCategory)
    ensures
        r@ == category_in(tag@),
{
    let id: u32 = number_of(tag, "id", 0);
    let mut name = String::new();
    assert(name@ == Seq::<char>::empty());
    take_text(tag, "name", &mut name);
    let r = CapsCategory { id, name, subcats: Vec::new() };
    assert(r@.subcats =~= Seq::empty());
    r
}

/// The capabilities that have been read of a response.
#[derive(Debug)]
pub struct CapsReader {
    caps: IndexerCaps,
    in_searching: bool,
    in_categories: bool,
    current_category: Option<CapsCategory>,
    is_whole: bool,
    current_subcat: Option<CapsCategory>,
    in_subcats: bool,
}

/// What a [`CapsReader`] holds.
#[verifier::ext_equal]
pub struct CapsReaderView {
    pub caps: CapsView,
    /// Whether a `searching` element is open.
    pub in_searching: bool,
    /// Whether a `categories` element is open.
    pub in_categories: bool,
    /// The category that was opened last and is not listed.
    pub current_category: Option<CategoryView>,
    /// Whether that category was self-closing: it is listed though no closing tag follows.
    pub is_whole: bool,
    /// The subcategory that was opened last and does not yet belong to a category.
    pub current_subcat: Option<CategoryView>,
    /// Whether a subcategory is open.
    pub in_subcats: bool,
}

/// What an optional category says.
pub open spec fn category_of(o: Option<CapsCategory>) -> Option<CategoryView> {
    match o {
        Some(c) => Some(c@),
        None => None,
    }
}

impl View for CapsReader {
    type V = CapsReaderView;

    closed spec fn view(&self) -> CapsReaderView {
        CapsReaderView {
            caps: self.caps@,
            in_searching: self.in_searching,
            in_categories: self.in_categories,
            current_category: category_of(self.current_category),
            is_whole: self.is_whole,
            current_subcat: category_of(self.current_subcat),
            in_subcats: self.in_subcats,
        }
    }
}

impl CapsReaderView {
    /// Nothing read yet.
    pub open spec fn start() -> CapsReaderView {
        CapsReaderView {
            caps: types::no_caps(),
            in_searching: false,
            in_categories: false,
            current_category: None,
            is_whole: false,
            current_subcat: None,
            in_subcats: false,
        }
    }

    /// The capabilities with what `tag` says of them.
    pub open spec fn caps_with(self, tag: TagView) -> CapsView {
        let caps = self.caps;
        if tag.name == "caps"@ {
            CapsView {
                protocol_version: text_or(tag, "version"@, caps.protocol_version),
                title: text_or(tag, "title"@, caps.title),
                email: text_or(tag, "email"@, caps.email),
                url: text_or(tag, "url"@, caps.url),
                ..caps
            }
        } else if tag.name == "server"@ {
            CapsView { server_version: text_or(tag, "version"@, caps.server_version), ..caps }
        } else if tag.name == "limits"@ {
            CapsView {
                max_results: number_or(tag, "max"@, caps.max_results),
                default_results: number_or(tag, "default"@, caps.default_results),
                ..caps
            }
        } else if tag.name == "retention"@ {
            CapsView {
                retention_days: match xml::last_attribute(tag.attributes, "days"@) {
                    Some(v) => Some(xml::attr_number(v, u32::MAX as nat) as u32),
                    None => caps.retention_days,
                },
                ..caps
            }
        } else if !self.in_searching {
            caps
        } else if tag.name == "search"@ {
            CapsView { search: Some(search_caps_in(tag)), ..caps }
        } else if tag.name == "tv-search"@ {
            CapsView { tv_search: Some(search_caps_in(tag)), ..caps }
        } else if tag.name == "movie-search"@ {
            CapsView { movie_search: Some(search_caps_in(tag)), ..caps }
        } else if tag.name == "audio-search"@ {
            CapsView { audio_search: Some(search_caps_in(tag)), ..caps }
        } else if tag.name == "book-search"@ {
            CapsView { book_search: Some(search_caps_in(tag)), ..caps }
        } else {
            caps
        }
    }

    /// What is held once the open category, if any, is listed.
    pub open spec fn listed(self) -> CapsReaderView {
        match self.current_category {
            Some(c) => CapsReaderView {
                caps: CapsView { categories: self.caps.categories.push(c), ..self.caps },
                current_category: None,
                is_whole: false,
                ..self
            },
            None => self,
        }
    }

    /// What is held once the open category is listed, if it was self-closing.
    pub open spec fn settled(self) -> CapsReaderView {
        if self.is_whole {
            self.listed()
        } else {
            self
        }
    }

    /// What is held once `tag` is opened.
    pub open spec fn opened(self, tag: TagView) -> CapsReaderView {
        let caps = self.caps_with(tag);
        if tag.name == "searching"@ {
            CapsReaderView { in_searching: true, ..self }
        } else if tag.name == "categories"@ {
            CapsReaderView { in_categories: true, ..self }
        } else if tag.name == "category"@ && self.in_categories {
            CapsReaderView {
                current_category: Some(category_in(tag)),
                is_whole: false,
                ..self.settled()
            }
        } else if tag.name == "subcat"@ && self.current_category is Some {
            CapsReaderView { current_subcat: Some(category_in(tag)), in_subcats: true, ..self }
        } else {
            CapsReaderView { caps, ..self }
        }
    }

    /// What is held once the open subcategory, if any, is put into the open category, if any.
    pub open spec fn attached(self) -> CapsReaderView {
        CapsReaderView {
            current_category: match (self.current_subcat, self.current_category) {
                (Some(sc), Some(c)) => Some(CategoryView { subcats: c.subcats.push(sc), ..c }),
                _ => self.current_category,
            },
            current_subcat: None,
            in_subcats: false,
            ..self
        }
    }

    /// What is held once the element `name` is closed.
    pub open spec fn closed(self, name: Seq<char>) -> CapsReaderView {
        if name == "searching"@ {
            CapsReaderView { in_searching: false, ..self }
        } else if name == "categories"@ {
            CapsReaderView { in_categories: false, ..self }
        } else if name == "category"@ {
            self.listed()
        } else if name == "subcat"@ && self.in_subcats {
            self.attached()
        } else {
            self
        }
    }

    /// What is held after one more event. A self-closing tag is opened, and closes the
    /// subcategory that is open then.
    pub open spec fn after(self, event: EventView) -> CapsReaderView {
        match event {
            EventView::Start(t) => self.opened(t),
            EventView::Empty(t) => {
                let s = self.opened(t);
                let r = if s.in_subcats || t.name == "subcat"@ {
                    s.attached()
                } else {
                    s
                };
                if t.name == "category"@ && self.in_categories {
                    CapsReaderView { is_whole: true, ..r }
                } else {
                    r
                }
            },
            EventView::End(n) => self.closed(n),
            _ => self,
        }
    }

    /// The capabilities once all of `steps` is read, or the message of an XML error.
    pub open spec fn finished(self, steps: Seq<Step>) -> Result<CapsView, Seq<char>>
        decreases steps.len(),
    {
        if steps.len() == 0 {
            Ok(self.settled().caps)
        } else {
            match steps[0] {
                Err(m) => Err(m),
                Ok(EventView::Eof) => Ok(self.settled().caps),
                Ok(e) => self.after(e).finished(steps.skip(1)),
            }
        }
    }
}

impl CapsReader {
    /// A reader that has read nothing.
    pub fn new() -> (r: Self)
        ensures
            r@ == CapsReaderView::start(),
    {
        CapsReader {
            caps: IndexerCaps::default(),
            in_searching: false,
            in_categories: false,
            current_category: None,
            is_whole: false,
            current_subcat: None,
            in_subcats: false,
        }
    }

    fn take_search_caps(&mut self, tag: &XmlTag)
        requires
            old(self)@.in_searching,
            tag@.name != "caps"@,
            tag@.name != "server"@,
            tag@.name != "limits"@,
            tag@.name != "retention"@,
        ensures
            final(self)@ == (CapsReaderView { caps: old(self)@.caps_with(tag@), ..old(self)@ }),
    {
        if tag.is("search") {
            self.caps.search = Some(parse_search_caps(tag));
        } else if tag.is("tv-search") {
            self.caps.tv_search = Some(parse_search_caps(tag));
        } else if tag.is("movie-search") {
            self.caps.movie_search = Some(parse_search_caps(tag));
        } else if tag.is("audio-search") {
            self.caps.audio_search = Some(parse_search_caps(tag));
        } else if tag.is("book-search") {
            self.caps.book_search = Some(parse_search_caps(tag));
        }
    }

    fn take_server_caps(&mut self, tag: &XmlTag)
        requires
            tag@.name == "caps"@ || tag@.name == "server"@ || tag@.name == "limits"@ || tag@.name
                == "retention"@,
        ensures
            final(self)@ == (CapsReaderView { caps: old(self)@.caps_with(tag@), ..old(self)@ }),
    {
        if tag.is("caps") {
            take_text(tag, "version", &mut self.caps.protocol_version);
            take_text(tag, "title", &mut self.caps.title);
            take_text(tag, "email", &mut self.caps.email);
            take_text(tag, "url", &mut self.caps.url);
        } else if tag.is("server") {
            take_text(tag, "version", &mut self.caps.server_version);
        } else if tag.is("limits") {
            self.caps.max_results = number_of(tag, "max", self.caps.max_results);
            self.caps.default_results = number_of(tag, "default", self.caps.default_results);
        } else if let Some(v) = tag.attribute("days") {
            self.caps.retention_days = Some(attr_to_number(v, u32::MAX as u64) as u32);
        }
    }

    fn open_tag(&mut self, tag: &XmlTag)
        ensures
            final(self)@ == old(self)@.opened(tag@),
    {
        proof {
            reveal_strlit("caps");
            reveal_strlit("server");
            reveal_strlit("limits");
            reveal_strlit("retention");
            reveal_strlit("searching");
            reveal_strlit("categories");
            reveal_strlit("category");
            reveal_strlit("subcat");
            assert("searching"@[2] != "retention"@[2]);
            assert("categories"@.len() == 10 && "category"@.len() == 8 && "subcat"@[1] == 'u');
        }
        if tag.is("caps") || tag.is("server") || tag.is("limits") || tag.is("retention") {
            self.take_server_caps(tag);
        } else if tag.is("searching") {
            self.in_searching = true;
        } else if tag.is("categories") {
            self.in_categories = true;
        } else if tag.is("category") && self.in_categories {
            self.settle();
            self.current_category = Some(parse_category(tag));
            self.is_whole = false;
        } else if tag.is("subcat") && self.current_category.is_some() {
            self.current_subcat = Some(parse_category(tag));
            self.in_subcats = true;
        } else if self.in_searching {
            self.take_search_caps(tag);
        }
    }

    fn list(&mut self)
        ensures
            final(self)@ == old(self)@.listed(),
    {
        let category = self.current_category.take();
        if let Some(c) = category {
            let ghost new = c@;
            self.caps.categories.push(c);
            self.is_whole = false;
            assert(self@.caps.categories =~= old(self)@.caps.categories.push(new));
        }
    }

    fn settle(&mut self)
        ensures
            final(self)@ == old(self)@.settled(),
    {
        if self.is_whole {
            self.list();
        }
    }

    fn attach(&mut self)
        ensures
            final(self)@ == old(self)@.attached(),
    {
        let subcat = self.current_subcat.take();
        if let Some(sc) = subcat {
            let category = self.current_category.take();
            if let Some(mut c) = category {
                let ghost was = c@;
                let ghost new = sc@;
                let ghost before = c.subcats@;
                c.subcats.push(sc);
                assert forall|i: int| 0 <= i < c.subcats@.len() implies #[trigger] c@.subcats[i]
                    == was.subcats.push(new)[i] by {
                    assert(c@.subcats[i] == c.subcats@[i]@);
                    if i < before.len() {
                        assert(was.subcats[i] == before[i]@);
                    }
                }
                assert(c@.subcats =~= was.subcats.push(new));
                self.current_category = Some(c);
            }
        }
        self.in_subcats = false;
    }

    fn close_tag(&mut self, name: &str)
        ensures
            final(self)@ == old(self)@.closed(name@),
    {
        if same_text(name, "searching") {
            self.in_searching = false;
        } else if same_text(name, "categories") {
            self.in_categories = false;
        } else if same_text(name, "category") {
            self.list();
        } else if same_text(name, "subcat") && self.in_subcats {
            self.attach();
        }
    }

    /// Reads one more event.
    pub fn feed(&mut self, event: &XmlEvent)
        ensures
            final(self)@ == old(self)@.after(event@),
    {
        match event {
            XmlEvent::Start(tag) => self.open_tag(tag),
            XmlEvent::Empty(tag) => {
                let whole = tag.is("category") && self.in_categories;
                self.open_tag(tag);
                if self.in_subcats || tag.is("subcat") {
                    self.attach();
                }
                if whole {
                    self.is_whole = true;
                }
            },
            XmlEvent::End(name) => self.close_tag(name),
            _ => {},
        }
    }

    /// The capabilities that have been read.
    pub fn into_caps(self) -> (r: IndexerCaps)
        ensures
            r@ == self@.settled().caps,
    {
        let mut reader = self;
        reader.settle();
        reader.caps
    }
}

/// The capabilities in a response, or the message of its first XML error.
pub fn parse_caps(document: &str) -> (r: Result<IndexerCaps, String>)
    ensures
        match r {
            Ok(c) => CapsReaderView::start().finished(xml::xml_steps(document@)) == Ok::<
                CapsView,
                Seq<char>,
            >(c@),
            Err(m) => CapsReaderView::start().finished(xml::xml_steps(document@)) == Err::<
                CapsView,
                Seq<char>,
            >(m@),
        },
{
    let mut reader = open_xml(document);
    let mut state = CapsReader::new();
    loop
        invariant
            xml::is_run(xml::steps_left(reader)),
            CapsReaderView::start().finished(xml::xml_steps(document@)) == state@.finished(
                xml::steps_left(reader),
            ),
        decreases xml::steps_left(reader).len(),
    {
        let ghost left = xml::steps_left(reader);
        match next_event(&mut reader) {
            Err(m) => return Err(m),
            Ok(event) => {
                if let XmlEvent::Eof = event {
                    return Ok(state.into_caps());
                }
                assert(!xml::is_final(left[0]));
                state.feed(&event);
                assert(left.skip(1).last() == left.last());
            },
        }
    }
}

/// The `caps` tag tells the version of the protocol and the title, address and contact of the
/// indexer; other tags tell its version, its limits and how long it keeps posts. What a tag does
/// not tell stays as it was.
pub proof fn tags_describe_the_indexer(
    c: CapsReaderView,
    tag: TagView,
    v: Seq<char>,
    n: u32,
)
    ensures
        ({
            let r = c.after(EventView::Start(tag)).caps;
            &&& tag.name == "caps"@ && xml::tells(tag, "title"@, v) ==> r.title == v
            &&& tag.name == "caps"@ && xml::tells(tag, "email"@, v) ==> r.email == v
            &&& tag.name == "caps"@ && xml::tells(tag, "url"@, v) ==> r.url == v
            &&& tag.name == "caps"@ && xml::tells(tag, "version"@, v) ==> r.protocol_version == v
            &&& tag.name == "server"@ && xml::tells(tag, "version"@, v) ==> r.server_version == v
            &&& tag.name == "limits"@ && xml::tells(tag, "max"@, text::decimal(n as nat))
                ==> r.max_results == n
            &&& tag.name == "limits"@ && xml::tells(tag, "default"@, text::decimal(n as nat))
                ==> r.default_results == n
            &&& tag.name == "retention"@ && xml::tells(tag, "days"@, text::decimal(n as nat))
                ==> r.retention_days == Some(n)
            &&& tag.name != "caps"@ ==> r.title == c.caps.title && r.email == c.caps.email && r.url
                == c.caps.url && r.protocol_version == c.caps.protocol_version
            &&& tag.name != "server"@ ==> r.server_version == c.caps.server_version
            &&& tag.name != "limits"@ ==> r.max_results == c.caps.max_results && r.default_results
                == c.caps.default_results
            &&& tag.name != "retention"@ ==> r.retention_days == c.caps.retention_days
        }),
{
    lemma_top_names();
    if xml::tells(tag, "title"@, v) {
        xml::told_values_count(tag, "title"@, v);
    }
    if xml::tells(tag, "email"@, v) {
        xml::told_values_count(tag, "email"@, v);
    }
    if xml::tells(tag, "url"@, v) {
        xml::told_values_count(tag, "url"@, v);
    }
    if xml::tells(tag, "version"@, v) {
        xml::told_values_count(tag, "version"@, v);
    }
    let d = text::decimal(n as nat);
    if xml::tells(tag, "max"@, d) {
        xml::told_values_count(tag, "max"@, d);
    }
    if xml::tells(tag, "default"@, d) {
        xml::told_values_count(tag, "default"@, d);
    }
    if xml::tells(tag, "days"@, d) {
        xml::told_values_count(tag, "days"@, d);
    }
    xml::attribute_numbers_are_read(n as nat, u32::MAX as nat, v);
}

proof fn lemma_top_names()
    ensures
        "caps"@.len() == 4 && "caps"@[0] == 'c',
        "server"@.len() == 6 && "server"@[0] == 's' && "server"@[1] == 'e' && "server"@[2] == 'r',
        "limits"@.len() == 6 && "limits"@[0] == 'l',
        "retention"@.len() == 9 && "retention"@[0] == 'r',
        "searching"@.len() == 9 && "searching"@[0] == 's',
        "categories"@.len() == 10,
        "category"@.len() == 8,
        "subcat"@.len() == 6 && "subcat"@[0] == 's' && "subcat"@[1] == 'u',
        "search"@.len() == 6 && "search"@[0] == 's' && "search"@[1] == 'e' && "search"@[2] == 'a',
        "tv-search"@.len() == 9 && "tv-search"@[0] == 't',
        "movie-search"@.len() == 12,
        "audio-search"@.len() == 12 && "audio-search"@[0] == 'a' && "movie-search"@[0] == 'm',
        "book-search"@.len() == 11,
{
    reveal_strlit("caps");
    reveal_strlit("server");
    reveal_strlit("limits");
    reveal_strlit("retention");
    reveal_strlit("searching");
    reveal_strlit("categories");
    reveal_strlit("category");
    reveal_strlit("subcat");
    reveal_strlit("search");
    reveal_strlit("tv-search");
    reveal_strlit("movie-search");
    reveal_strlit("audio-search");
    reveal_strlit("book-search");
}

/// Within `searching`, each search function is described by the tag with its name: it is available
/// if the tag says `yes`, and takes the parameters that the tag lists. A function without a tag
/// stays undescribed.
pub proof fn tags_describe_search_functions(c: CapsReaderView, tag: TagView, v: Seq<char>)
    requires
        c.in_searching,
        xml::tells(tag, "supportedParams"@, v),
    ensures
        ({
            let r = c.after(EventView::Start(tag)).caps;
            let yes = xml::last_attribute(tag.attributes, "available"@) == Some("yes"@);
            &&& tag.name == "search"@ ==> r.search is Some && r.search->0.available == yes
                && r.search->0.supported_params == types::listed_params(v)
            &&& tag.name == "tv-search"@ ==> r.tv_search is Some && r.tv_search->0.available == yes
                && r.tv_search->0.supported_params == types::listed_params(v)
            &&& tag.name == "movie-search"@ ==> r.movie_search is Some
                && r.movie_search->0.available == yes && r.movie_search->0.supported_params
                == types::listed_params(v)
            &&& tag.name == "audio-search"@ ==> r.audio_search is Some
                && r.audio_search->0.available == yes && r.audio_search->0.supported_params
                == types::listed_params(v)
            &&& tag.name == "book-search"@ ==> r.book_search is Some && r.book_search->0.available
                == yes && r.book_search->0.supported_params == types::listed_params(v)
            &&& tag.name != "search"@ ==> r.search == c.caps.search
            &&& tag.name != "tv-search"@ ==> r.tv_search == c.caps.tv_search
            &&& tag.name != "movie-search"@ ==> r.movie_search == c.caps.movie_search
            &&& tag.name != "audio-search"@ ==> r.audio_search == c.caps.audio_search
            &&& tag.name != "book-search"@ ==> r.book_search == c.caps.book_search
        }),
{
    lemma_top_names();
    xml::told_values_count(tag, "supportedParams"@, v);
}

/// A self-closing tag tells the same of the indexer as an open one.
pub proof fn self_closing_tags_tell_the_same(c: CapsReaderView, tag: TagView)
    requires
        tag.name != "category"@,
        tag.name != "subcat"@,
    ensures
        c.after(EventView::Empty(tag)).caps == c.after(EventView::Start(tag)).caps,
{
}

/// The functions and the categories of an indexer are read only within their elements.
pub proof fn elements_are_opened_and_closed(c: CapsReaderView, tag: TagView, n: Seq<char>)
    ensures
        c.after(EventView::Start(tag)).in_searching == (c.in_searching || tag.name == "searching"@),
        c.after(EventView::Start(tag)).in_categories == (c.in_categories || tag.name
            == "categories"@),
        c.after(EventView::End(n)).in_searching == (c.in_searching && n != "searching"@),
        c.after(EventView::End(n)).in_categories == (c.in_categories && n != "categories"@),
{
    lemma_top_names();
    reveal_strlit("searching");
    reveal_strlit("categories");
}

/// A category is listed when it is closed, behind those before it, with its number, its name and
/// its subcategories in the order of the document.
pub proof fn categories_are_listed(
    c: CapsReaderView,
    tag: TagView,
    sub: TagView,
    id: u32,
    name: Seq<char>,
    sub_id: u32,
    sub_name: Seq<char>,
)
    requires
        c.in_categories,
        !c.is_whole,
        !c.in_subcats,
        tag.name == "category"@,
        sub.name == "subcat"@,
        xml::tells(tag, "id"@, text::decimal(id as nat)),
        xml::tells(tag, "name"@, name),
        xml::tells(sub, "id"@, text::decimal(sub_id as nat)),
        xml::tells(sub, "name"@, sub_name),
    ensures
        ({
            let open = c.after(EventView::Start(tag));
            let bare = open.after(EventView::End("category"@));
            let one = open.after(EventView::Empty(sub)).after(EventView::End("category"@));
            let whole = open.after(EventView::Start(sub)).after(EventView::End("subcat"@)).after(
                EventView::End("category"@),
            );
            let s = CategoryView { id: sub_id, name: sub_name, subcats: Seq::empty() };
            &&& bare.caps.categories == c.caps.categories.push(
                CategoryView { id, name, subcats: Seq::empty() },
            )
            &&& one.caps.categories == c.caps.categories.push(
                CategoryView { id, name, subcats: seq![s] },
            )
            &&& whole.caps.categories == one.caps.categories
            &&& bare.current_category is None && one.current_category is None
        }),
{
    lemma_top_names();
    xml::told_values_count(tag, "id"@, text::decimal(id as nat));
    xml::told_values_count(tag, "name"@, name);
    xml::told_values_count(sub, "id"@, text::decimal(sub_id as nat));
    xml::told_values_count(sub, "name"@, sub_name);
    xml::attribute_numbers_are_read(id as nat, u32::MAX as nat, name);
    xml::attribute_numbers_are_read(sub_id as nat, u32::MAX as nat, name);
    let s = CategoryView { id: sub_id, name: sub_name, subcats: Seq::empty() };
    assert(Seq::<CategoryView>::empty().push(s) =~= seq![s]);
}

/// Every subcategory goes behind those that the open category has.
pub proof fn subcategories_go_behind_each_other(
    c: CapsReaderView,
    sub: TagView,
    id: u32,
    name: Seq<char>,
)
    requires
        c.current_category is Some,
        sub.name == "subcat"@,
        xml::tells(sub, "id"@, text::decimal(id as nat)),
        xml::tells(sub, "name"@, name),
    ensures
        ({
            let r = c.after(EventView::Empty(sub));
            &&& r.current_category is Some
            &&& r.current_category->0.id == c.current_category->0.id
            &&& r.current_category->0.name == c.current_category->0.name
            &&& r.current_category->0.subcats == c.current_category->0.subcats.push(
                CategoryView { id, name, subcats: Seq::empty() },
            )
            &&& r.caps.categories == c.caps.categories
        }),
{
    lemma_top_names();
    xml::told_values_count(sub, "id"@, text::decimal(id as nat));
    xml::told_values_count(sub, "name"@, name);
    xml::attribute_numbers_are_read(id as nat, u32::MAX as nat, name);
}

/// A self-closing category is listed too, whether another category follows or the document ends.
pub proof fn self_closing_categories_are_listed(
    c: CapsReaderView,
    tag: TagView,
    next: TagView,
    id: u32,
    name: Seq<char>,
    rest: Seq<Step>,
)
    requires
        c.in_categories,
        !c.is_whole,
        !c.in_subcats,
        tag.name == "category"@,
        next.name == "category"@,
        xml::tells(tag, "id"@, text::decimal(id as nat)),
        xml::tells(tag, "name"@, name),
    ensures
        c.after(EventView::Empty(tag)).after(EventView::Start(next)).caps.categories
            == c.caps.categories.push(CategoryView { id, name, subcats: Seq::empty() }),
        c.after(EventView::Empty(tag)).finished(seq![Step::Ok(EventView::Eof)] + rest) matches Ok(r)
            && r.categories == c.caps.categories.push(
            CategoryView { id, name, subcats: Seq::empty() },
        ),
{
    lemma_top_names();
    xml::told_values_count(tag, "id"@, text::decimal(id as nat));
    xml::told_values_count(tag, "name"@, name);
    xml::attribute_numbers_are_read(id as nat, u32::MAX as nat, name);
    assert((seq![Step::Ok(EventView::Eof)] + rest)[0] == Step::Ok(EventView::Eof));
}

/// A response is read event by event up to its end; an XML error on the way is its outcome.
pub proof fn responses_are_read_in_turn(
    c: CapsReaderView,
    event: EventView,
    m: Seq<char>,
    rest: Seq<Step>,
)
    ensures
        !(event is Eof) ==> c.finished(seq![Step::Ok(event)] + rest) == c.after(event).finished(
            rest,
        ),
        !c.is_whole ==> c.finished(seq![Step::Ok(EventView::Eof)] + rest) == Ok::<
            CapsView,
            Seq<char>,
        >(c.caps),
        c.finished(seq![Step::Err(m)] + rest) == Err::<CapsView, Seq<char>>(m),
{
    let a = seq![Step::Ok(event)] + rest;
    assert(a.skip(1) =~= rest);
    assert(a[0] == Step::Ok(event));
    assert((seq![Step::Ok(EventView::Eof)] + rest)[0] == Step::Ok(EventView::Eof));
    assert((seq![Step::Err(m)] + rest)[0] == Step::Err(m));
}

/// Before anything is read nothing is known of an indexer.
pub proof fn readers_start_empty()
    ensures
        ({
            let c = CapsReaderView::start();
            &&& !c.in_searching && !c.in_categories && !c.is_whole && !c.in_subcats
            &&& c.current_category is None && c.current_subcat is None
            &&& c.caps.categories.len() == 0 && c.caps.title.len() == 0
            &&& c.caps.max_results == 0 && c.caps.default_results == 0
            &&& c.caps.retention_days is None && c.caps.search is None && c.caps.tv_search is None
            &&& c.caps.movie_search is None && c.caps.audio_search is None
            &&& c.caps.book_search is None
        }),
{
}

/// A category that tells no number or no name has the number zero or an empty name, and none has
/// subcategories when it begins.
pub proof fn silent_categories_are_blank(tag: TagView)
    ensures
        (forall|j: int| 0 <= j < tag.attributes.len() ==> (#[trigger] tag.attributes[j]).0 != "id"@)
            ==> category_in(tag).id == 0,
        (forall|j: int|
            0 <= j < tag.attributes.len() ==> (#[trigger] tag.attributes[j]).0 != "name"@)
            ==> category_in(tag).name.len() == 0,
        category_in(tag).subcats.len() == 0,
{
    xml::last_of_a_name_counts(tag.attributes, "id"@, 0);
    xml::last_of_a_name_counts(tag.attributes, "name"@, 0);
}

/// A self-closing element inside a subcategory ends the subcategory, which goes behind the others
/// of its category.
pub proof fn self_closing_tags_end_subcategories(
    c: CapsReaderView,
    tag: TagView,
    category: CategoryView,
    sub: CategoryView,
)
    requires
        c.in_subcats,
        c.current_category == Some(category),
        c.current_subcat == Some(sub),
        tag.name != "category"@,
        tag.name != "subcat"@,
    ensures
        c.after(EventView::Empty(tag)).current_category == Some(
            CategoryView { subcats: category.subcats.push(sub), ..category },
        ),
        !c.after(EventView::Empty(tag)).in_subcats,
        c.after(EventView::Empty(tag)).current_subcat is None,
{
}

/// Only a self-closing category, and only inside the list of categories, is whole at once.
pub proof fn only_self_closing_categories_are_whole(c: CapsReaderView, tag: TagView)
    ensures
        tag.name == "category"@ && c.in_categories ==> c.after(EventView::Empty(tag)).is_whole,
        tag.name != "category"@ || !c.in_categories ==> c.after(EventView::Empty(tag)).is_whole
            == c.is_whole,
        !c.in_categories ==> c.after(EventView::Empty(tag)).caps.categories == c.caps.categories,
{
}

} // verus!
