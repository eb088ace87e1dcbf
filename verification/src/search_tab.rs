//! State of the search tab.
use std::collections::HashSet;
use vstd::prelude::*;

use crate::aggregate::{AggregatedResult, AggregatedView};
use crate::backend::{BackendEvent, BackendEventView};
use crate::cats;
use crate::order;
use crate::order::{sort, Precedence};
use crate::text;
use crate::text::{chars_of, is_text_before, same_text, string_of, trim};
use crate::types;
use crate::types::{QueryView, SearchQuery};

verus! {

broadcast use vstd::std_specs::hash::group_hash_axioms;

/// The columns that results can be sorted by.
#[derive(Debug, Clone, Copy, PartialEq, Eq, Structural)]
pub enum SortColumn {
    Title,
    Sources,
    Size,
    Age,
    Category,
}

/// How the results are sorted.
#[derive(Debug, Clone, Copy, PartialEq, Eq, Structural)]
pub struct SortState {
    pub col: SortColumn,
    pub asc: bool,
}

impl Default for SortState {
    fn default() -> (r: Self)
        ensures
            r == (SortState { col: SortColumn::Age, asc: false }),
    {
        SortState { col: SortColumn::Age, asc: false }
    }
}

impl SortState {
    /// The order after a click on the header of a column: a click on the current column
    /// turns it round, a click on another sorts by that one, downwards.
    pub fn toggle(&mut self, col: SortColumn)
        ensures
            *final(self) == if old(self).col == col {
                SortState { col, asc: !old(self).asc }
            } else {
                SortState { col, asc: false }
            },
    {
        if self.col == col {
            self.asc = !self.asc;
        } else {
            self.col = col;
            self.asc = false;
        }
    }
}

/// What the search is doing.
#[derive(Debug)]
pub enum SearchStatus {
    Idle,
    Searching,
    Results(usize),
    Error(String),
}

/// What a [`SearchStatus`] says.
pub enum SearchStatusView {
    Idle,
    Searching,
    Results(int),
    Error(Seq<char>),
}

impl View for SearchStatus {
    type V = SearchStatusView;

    open spec fn view(&self) -> SearchStatusView {
        match self {
            SearchStatus::Idle => SearchStatusView::Idle,
            SearchStatus::Searching => SearchStatusView::Searching,
            SearchStatus::Results(n) => SearchStatusView::Results(*n as int),
            SearchStatus::Error(e) => SearchStatusView::Error(e@),
        }
    }
}

/// State of the search tab.
#[derive(Debug)]
pub struct SearchState {
    pub query: String,
    pub category: String,
    pub results: Vec<AggregatedResult>,
    pub status: SearchStatus,
    pub sort: SortState,
    /// The positions of the results that were sent to the queue.
    pub downloaded: HashSet<usize>,
}

/// What a [`SearchState`] holds.
#[verifier::ext_equal]
pub struct SearchStateView {
    pub query: Seq<char>,
    pub category: Seq<char>,
    pub results: Seq<AggregatedView>,
    pub status: SearchStatusView,
    pub sort: SortState,
    pub downloaded: Set<usize>,
}

impl View for SearchState {
    type V = SearchStateView;

    open spec fn view(&self) -> SearchStateView {
        SearchStateView {
            query: self.query@,
            category: self.category@,
            results: order::views(self.results@),
            status: self.status@,
            sort: self.sort,
            downloaded: self.downloaded@,
        }
    }
}

/// Whether `a` ranks below `b` in a column.
pub open spec fn below(col: SortColumn, a: AggregatedView, b: AggregatedView) -> bool {
    match col {
        SortColumn::Title => text::text_before(a.result.title, b.result.title),
        SortColumn::Sources => a.sources.len() < b.sources.len(),
        SortColumn::Size => a.result.size < b.result.size,
        SortColumn::Age => a.result.post_date < b.result.post_date,
        SortColumn::Category => a.result.category < b.result.category,
    }
}

/// Whether `a` comes before `b`.
pub open spec fn sorts_before(s: SortState) -> spec_fn(AggregatedView, AggregatedView) -> bool {
    |a: AggregatedView, b: AggregatedView|
        if s.asc {
            below(s.col, a, b)
        } else {
            below(s.col, b, a)
        }
}

fn is_below(col: SortColumn, a: &AggregatedResult, b: &AggregatedResult) -> (r: bool)
    ensures
        r == below(col, a@, b@),
{
    match col {
        SortColumn::Title => is_text_before(&a.result.title, &b.result.title),
        SortColumn::Sources => a.sources.len() < b.sources.len(),
        SortColumn::Size => a.result.size < b.result.size,
        SortColumn::Age => a.result.post_date < b.result.post_date,
        SortColumn::Category => a.result.category < b.result.category,
    }
}

impl Precedence<AggregatedResult> for SortState {
    open spec fn before(&self, a: AggregatedView, b: AggregatedView) -> bool {
        sorts_before(*self)(a, b)
    }

    fn is_before(&self, a: &AggregatedResult, b: &AggregatedResult) -> (r: bool) {
        if self.asc {
            is_below(self.col, a, b)
        } else {
            is_below(self.col, b, a)
        }
    }
}

/// Every order of the results ranks them, so that sorting is stable and puts them in order.
pub proof fn result_orders_rank(s: SortState)
    ensures
        order::ranks(sorts_before(s)),
{
    let f = sorts_before(s);
    assert forall|a: AggregatedView, b: AggregatedView| #[trigger] f(a, b) implies !f(b, a) by {
        text::text_before_is_total(a.result.title, b.result.title, a.result.title);
    }
    assert forall|a: AggregatedView, b: AggregatedView, c: AggregatedView|
        !#[trigger] f(a, b) && !#[trigger] f(b, c) implies !f(a, c) by {
        let x = a.result.title;
        let y = b.result.title;
        let z = c.result.title;
        text::text_before_is_total(x, y, x);
        text::text_before_is_total(y, z, y);
        text::text_before_is_total(x, z, x);
        text::text_before_is_total(z, y, x);
        text::text_before_is_total(x, y, z);
    }
}

/// The ids of the category with a name; none for all categories and for a name that is not
/// known.
pub open spec fn category_ids(name: Seq<char>) -> Seq<u32> {
    if name == "Movies"@ {
        seq![2000u32]
    } else if name == "TV"@ {
        seq![5000u32]
    } else if name == "Audio"@ {
        seq![3000u32]
    } else if name == "PC"@ {
        seq![4000u32]
    } else if name == "Books"@ {
        seq![7000u32]
    } else if name == "Console"@ {
        seq![1000u32]
    } else if name == "XXX"@ {
        seq![6000u32]
    } else {
        Seq::empty()
    }
}

/// The ids of the category with a name.
pub fn ids_of_category(name: &str) -> (r: Vec<u32>)
    ensures
        r@ == category_ids(name@),
{
    let mut r: Vec<u32> = Vec::new();
    if same_text(name, "Movies") {
        r.push(2000);
    } else if same_text(name, "TV") {
        r.push(5000);
    } else if same_text(name, "Audio") {
        r.push(3000);
    } else if same_text(name, "PC") {
        r.push(4000);
    } else if same_text(name, "Books") {
        r.push(7000);
    } else if same_text(name, "Console") {
        r.push(1000);
    } else if same_text(name, "XXX") {
        r.push(6000);
    }
    assert(r@ =~= category_ids(name@));
    r
}

impl SearchStateView {
    /// The search that the tab asks for.
    pub open spec fn asks(self) -> QueryView {
        QueryView {
            q: Some(text::trimmed(self.query)),
            limit: 200,
            categories: category_ids(self.category),
            ..types::plain_query()
        }
    }

    /// What is held after an event.
    pub open spec fn after(self, event: BackendEventView) -> SearchStateView {
        match event {
            BackendEventView::SearchResults(results) => SearchStateView {
                results: order::sorted(results, sorts_before(self.sort)),
                downloaded: Set::empty(),
                status: SearchStatusView::Results(results.len() as int),
                ..self
            },
            BackendEventView::SearchFailed(e) => SearchStateView {
                status: SearchStatusView::Error(e),
                ..self
            },
            _ => self,
        }
    }

    /// What is held after a list of events.
    pub open spec fn after_all(self, events: Seq<BackendEventView>) -> SearchStateView
        decreases events.len(),
    {
        if events.len() == 0 {
            self
        } else {
            self.after_all(events.drop_last()).after(events.last())
        }
    }
}

impl Default for SearchState {
    fn default() -> (r: Self)
        ensures
            r@ == (SearchStateView {
                query: Seq::empty(),
                category: "All"@,
                results: Seq::empty(),
                status: SearchStatusView::Idle,
                sort: (SortState { col: SortColumn::Age, asc: false }),
                downloaded: Set::empty(),
            }),
    {
        let r = SearchState {
            query: String::new(),
            category: "All".to_owned(),
            results: Vec::new(),
            status: SearchStatus::Idle,
            sort: SortState::default(),
            downloaded: HashSet::new(),
        };
        assert(r@ =~= (SearchStateView {
            query: Seq::empty(),
            category: "All"@,
            results: Seq::empty(),
            status: SearchStatusView::Idle,
            sort: (SortState { col: SortColumn::Age, asc: false }),
            downloaded: Set::empty(),
        }));
        r
    }
}

impl SearchState {
    /// Takes up the events that concern the search.
    pub fn handle_events(&mut self, events: &Vec<BackendEvent>)
        ensures
            final(self)@ == old(self)@.after_all(order::views(events@)),
    {
        let ghost all = order::views(events@);
        let ghost start = self@;
        let n: usize = events.len();
        let mut i: usize = 0;
        assert(all.take(0) == Seq::<BackendEventView>::empty());
        while i < n
            invariant
                n == events.len(),
                i <= n,
                all == order::views(events@),
                self@ == start.after_all(all.take(i as int)),
            decreases n - i,
        {
            proof {
                assert(all.take(i + 1).drop_last() == all.take(i as int));
                assert(all.take(i + 1).last() == events@[i as int]@);
            }
            self.handle_event(&events[i]);
            i += 1;
        }
        assert(all.take(n as int) == all);
    }

    fn handle_event(&mut self, event: &BackendEvent)
        ensures
            final(self)@ == old(self)@.after(event@),
    {
        match event {
            BackendEvent::SearchResults(results) => {
                let ghost was = self@;
                self.results = crate::aggregate::copy_results(results);
                self.downloaded = HashSet::new();
                self.status = SearchStatus::Results(results.len());
                self.sort_results();
                assert(self@ =~= was.after(event@));
            },
            BackendEvent::SearchFailed(e) => {
                self.status = SearchStatus::Error(e.clone());
            },
            _ => {},
        }
    }

    /// The search that the tab asks for.
    pub fn build_query(&self) -> (r: SearchQuery)
        ensures
            r@ == self@.asks(),
    {
        let cs = chars_of(&self.query);
        let mut q = SearchQuery::text(&string_of(trim(&cs)));
        q.limit = 200;
        q.categories = ids_of_category(&self.category);
        q
    }

    /// Sorts the results.
    pub fn sort_results(&mut self)
        ensures
            final(self)@ == (SearchStateView {
                results: order::sorted(old(self)@.results, sorts_before(old(self)@.sort)),
                ..old(self)@
            }),
    {
        let order_by = self.sort;
        sort(&mut self.results, &order_by);
        assert(order::rule::<AggregatedResult, SortState>(order_by) =~= sorts_before(order_by));
    }

    /// Starts the search, if there is something to search for, and gives it back.
    pub fn submit(&mut self) -> (r: Option<SearchQuery>)
        ensures
            match r {
                Some(q) => text::trimmed(old(self)@.query).len() > 0 && q@ == old(self)@.asks()
                    && final(self)@ == (SearchStateView {
                    status: SearchStatusView::Searching,
                    ..old(self)@
                }),
                None => text::trimmed(old(self)@.query).len() == 0 && final(self)@ == (
                SearchStateView {
                    status: SearchStatusView::Error("Enter a search query"@),
                    ..old(self)@
                }),
            },
    {
        let cs = chars_of(&self.query);
        if trim(&cs).len() == 0 {
            self.status = SearchStatus::Error("Enter a search query".to_owned());
            return None;
        }
        let q = self.build_query();
        self.status = SearchStatus::Searching;
        Some(q)
    }

    /// The category that a download is filed under.
    pub fn download_category(&self) -> (r: Option<String>)
        ensures
            types::text_of(r) == if self@.category == "All"@ {
                None::<Seq<char>>
            } else {
                Some(self@.category)
            },
    {
        if same_text(&self.category, "All") {
            None
        } else {
            Some(self.category.clone())
        }
    }

    /// Notes that the result at a position was sent to the queue.
    pub fn mark_downloaded(&mut self, i: usize)
        ensures
            final(self)@ == (SearchStateView {
                downloaded: old(self)@.downloaded.insert(i),
                ..old(self)@
            }),
    {
        self.downloaded.insert(i);
    }
}

/// Found results are shown in the chosen order: by rising or falling sizes, dates, categories or
/// numbers of sources, or by titles; none is lost and none is added. They are counted, and none of
/// them counts as downloaded.
pub proof fn results_are_shown_in_order(
    s: SearchStateView,
    results: Seq<AggregatedView>,
    i: int,
    k: int,
    x: AggregatedView,
)
    ensures
        ({
            let r = s.after(BackendEventView::SearchResults(results));
            let a = r.results[i].result;
            let b = r.results[k].result;
            &&& r.results.len() == results.len()
            &&& r.results.contains(x) <==> results.contains(x)
            &&& r.status == SearchStatusView::Results(results.len() as int)
            &&& r.downloaded == Set::<usize>::empty()
            &&& r.query == s.query && r.category == s.category && r.sort == s.sort
            &&& 0 <= i < k < results.len() && s.sort.asc ==> {
                &&& s.sort.col == SortColumn::Size ==> a.size <= b.size
                &&& s.sort.col == SortColumn::Age ==> a.post_date <= b.post_date
                &&& s.sort.col == SortColumn::Category ==> a.category <= b.category
                &&& s.sort.col == SortColumn::Sources ==> r.results[i].sources.len()
                    <= r.results[k].sources.len()
                &&& s.sort.col == SortColumn::Title ==> a.title == b.title || text::text_before(
                    a.title,
                    b.title,
                )
            }
            &&& 0 <= i < k < results.len() && !s.sort.asc ==> {
                &&& s.sort.col == SortColumn::Size ==> a.size >= b.size
                &&& s.sort.col == SortColumn::Age ==> a.post_date >= b.post_date
                &&& s.sort.col == SortColumn::Category ==> a.category >= b.category
                &&& s.sort.col == SortColumn::Sources ==> r.results[i].sources.len()
                    >= r.results[k].sources.len()
                &&& s.sort.col == SortColumn::Title ==> a.title == b.title || text::text_before(
                    b.title,
                    a.title,
                )
            }
        }),
{
    let f = sorts_before(s.sort);
    let r = order::sorted(results, f);
    result_orders_rank(s.sort);
    order::sorting_keeps_members(results, f);
    order::sorting_puts_in_order(results, f);
    if 0 <= i < k < results.len() {
        assert(!f(r[k], r[i]));
        text::text_before_is_total(r[i].result.title, r[k].result.title, r[i].result.title);
    }
}

/// A search that failed is told, and what was found before stays.
pub proof fn failures_keep_results(s: SearchStateView, e: Seq<char>)
    ensures
        s.after(BackendEventView::SearchFailed(e)) == (SearchStateView {
            status: SearchStatusView::Error(e),
            ..s
        }),
{
}

/// Events are taken in their order.
pub proof fn events_are_taken_in_turn(
    s: SearchStateView,
    events: Seq<BackendEventView>,
    e: BackendEventView,
)
    ensures
        s.after_all(Seq::empty()) == s,
        s.after_all(events.push(e)) == s.after_all(events).after(e),
{
    assert(events.push(e).drop_last() =~= events);
}

/// A category that can be chosen asks for the category of its name at the top level; any other
/// name, such as `All`, asks for all.
pub proof fn names_ask_for_their_categories(i: int, name: Seq<char>)
    ensures
        0 <= i < 7 ==> category_ids(cats::top_level()[i].1) == seq![cats::top_level()[i].0],
        (forall|k: int| 0 <= k < 7 ==> name != (#[trigger] cats::top_level()[k]).1)
            ==> category_ids(name) == Seq::<u32>::empty(),
        category_ids("All"@) == Seq::<u32>::empty(),
{
    reveal_strlit("All");
    reveal_strlit("Movies");
    reveal_strlit("TV");
    reveal_strlit("Audio");
    reveal_strlit("PC");
    reveal_strlit("Books");
    reveal_strlit("Console");
    reveal_strlit("XXX");
    assert("All"@.len() == 3 && "All"@[0] == 'A');
    assert("Movies"@.len() == 6);
    assert("TV"@.len() == 2 && "TV"@[0] == 'T');
    assert("Audio"@.len() == 5 && "Audio"@[0] == 'A');
    assert("PC"@.len() == 2 && "PC"@[0] == 'P');
    assert("Books"@.len() == 5 && "Books"@[0] == 'B');
    assert("Console"@.len() == 7);
    assert("XXX"@.len() == 3 && "XXX"@[0] == 'X');
    let t = cats::top_level();
    assert(t[0].1 == "Console"@ && t[1].1 == "Movies"@ && t[2].1 == "Audio"@ && t[3].1 == "PC"@
        && t[4].1 == "TV"@ && t[5].1 == "XXX"@ && t[6].1 == "Books"@);
}

/// The search asks for the query without the white space around it, for the chosen category, and
/// for at most two hundred results.
pub proof fn searches_ask_for_what_is_typed(s: SearchStateView)
    ensures
        s.asks().q == Some(text::trimmed(s.query)),
        s.asks().limit == 200,
        s.asks().categories == category_ids(s.category),
        s.asks() == (QueryView {
            q: s.asks().q,
            limit: s.asks().limit,
            categories: s.asks().categories,
            ..types::plain_query()
        }),
{
}

} // verus!
