//! Merging the results of several indexers.
//!
//! The same release found on more than one indexer becomes one result that lists all its
//! sources.
use vstd::multiset::Multiset;
use vstd::prelude::*;

use crate::order;
use crate::order::{sort, Precedence};
use crate::text;
use crate::text::{chars_of, is_text_before, join, same_text, split_whitespace, string_of, to_lowercase};
use crate::types::{copy_texts, ResultView, SearchResult};

verus! {

/// A result merged over the indexers that returned it.
#[derive(Debug)]
pub struct AggregatedResult {
    /// The result of the first of the sources.
    pub result: SearchResult,
    /// The indexers that returned it.
    pub sources: Vec<String>,
}

/// What an [`AggregatedResult`] says.
pub struct AggregatedView {
    pub result: ResultView,
    pub sources: Seq<Seq<char>>,
}

impl View for AggregatedResult {
    type V = AggregatedView;

    open spec fn view(&self) -> AggregatedView {
        AggregatedView { result: self.result@, sources: text::strings(self.sources@) }
    }
}

impl Clone for AggregatedResult {
    fn clone(&self) -> (r: Self)
        ensures
            r@ == self@,
    {
        AggregatedResult { result: self.result.clone(), sources: copy_texts(&self.sources) }
    }
}

/// A second copy of a list of merged results.
pub fn copy_results(v: &Vec<AggregatedResult>) -> (r: Vec<AggregatedResult>)
    ensures
        order::views(r@) == order::views(v@),
{
    let mut r: Vec<AggregatedResult> = Vec::new();
    for i in 0..v.len()
        invariant
            r.len() == i,
            forall|j: int| 0 <= j < i ==> (#[trigger] r@[j])@ == v@[j]@,
    {
        r.push(v[i].clone());
    }
    assert(order::views(r@) =~= order::views(v@));
    r
}

/// A text with each run of white space made one blank, and none at its ends.
pub open spec fn collapsed(s: Seq<char>) -> Seq<char> {
    text::joined(text::words(s), " "@)
}

/// A title as titles are compared: in lower case, with white space collapsed.
pub open spec fn normal_title(s: Seq<char>) -> Seq<char> {
    collapsed(text::lowered(s))
}

/// A text with each run of white space made one blank, and none at its ends.
pub fn collapse_whitespace(s: &str) -> (r: String)
    ensures
        r@ == collapsed(s@),
{
    let cs = chars_of(s);
    let parts = split_whitespace(&cs);
    let mut words: Vec<String> = Vec::new();
    for i in 0..parts.len()
        invariant
            words.len() == i,
            forall|j: int| 0 <= j < i ==> (#[trigger] words@[j])@ == parts@[j]@,
    {
        words.push(string_of(&parts[i]));
    }
    assert(text::strings(words@) =~= text::texts(parts@));
    join(&words, " ")
}

/// A title as titles are compared.
pub fn normalize_title(title: &str) -> (r: String)
    ensures
        r@ == normal_title(title@),
{
    collapse_whitespace(&to_lowercase(title))
}

/// Whether `b` is known and within one per cent of the known size `a`.
pub open spec fn close_sizes(a: int, b: int) -> bool {
    a > 0 && b > 0 && a - a / 100 <= b <= a + a / 100
}

/// Whether `b` is known and within one per cent of the known size `a`.
pub fn size_matches(a: u64, b: u64) -> (r: bool)
    ensures
        r == close_sizes(a as int, b as int),
{
    if a == 0 || b == 0 {
        return false;
    }
    let lo: u64 = a - a / 100;
    let hi: u64 = a.saturating_add(a / 100);
    b >= lo && b <= hi
}

/// Whether `b` counts as the release `a`: the same title, and close sizes unless one is
/// unknown.
pub open spec fn same_release(a: ResultView, b: ResultView) -> bool {
    normal_title(a.title) == normal_title(b.title) && (close_sizes(a.size as int, b.size as int)
        || a.size == 0 || b.size == 0)
}

/// Whether `x` is the release of some member of `group`.
pub open spec fn joins(group: Seq<ResultView>, x: ResultView) -> bool {
    exists|i: int| 0 <= i < group.len() && same_release(#[trigger] group[i], x)
}

/// The index of the first group that `x` joins; their number where it joins none.
pub open spec fn first_joined(groups: Seq<Seq<ResultView>>, x: ResultView) -> nat
    decreases groups.len(),
{
    if groups.len() == 0 {
        0
    } else if joins(groups[0], x) {
        0
    } else {
        1 + first_joined(groups.skip(1), x)
    }
}

/// The groups with `x` in the first that it joins, or in a new one behind them.
pub open spec fn placed(groups: Seq<Seq<ResultView>>, x: ResultView) -> Seq<Seq<ResultView>> {
    let i = first_joined(groups, x);
    if i < groups.len() {
        groups.update(i as int, groups[i as int].push(x))
    } else {
        groups.push(seq![x])
    }
}

/// The groups that a list of results makes, one result after the other.
pub open spec fn grouped(results: Seq<ResultView>) -> Seq<Seq<ResultView>>
    decreases results.len(),
{
    if results.len() == 0 {
        Seq::empty()
    } else {
        placed(grouped(results.drop_last()), results.last())
    }
}

/// The priorities of indexers, by name.
pub type Priorities = Seq<(Seq<char>, u32)>;

/// What a list of priorities holds.
pub open spec fn priority_views(v: Seq<(String, u32)>) -> Priorities {
    v.map_values(|p: (String, u32)| (p.0@, p.1))
}

/// The priority of an indexer: that of the first entry with its name, or 0. The lower is the
/// higher.
pub open spec fn priority_of(priorities: Priorities, name: Seq<char>) -> u32
    decreases priorities.len(),
{
    if priorities.len() == 0 {
        0
    } else if priorities[0].0 == name {
        priorities[0].1
    } else {
        priority_of(priorities.skip(1), name)
    }
}

/// The priority of an indexer.
pub fn find_priority(priorities: &Vec<(String, u32)>, name: &str) -> (r: u32)
    ensures
        r == priority_of(priority_views(priorities@), name@),
{
    let ghost all = priority_views(priorities@);
    let mut i: usize = 0;
    assert(all.skip(0) == all);
    while i < priorities.len()
        invariant
            i <= priorities.len(),
            all == priority_views(priorities@),
            priority_of(all, name@) == priority_of(all.skip(i as int), name@),
        decreases priorities.len() - i,
    {
        assert(all.skip(i as int)[0] == (priorities@[i as int].0@, priorities@[i as int].1));
        if same_text(&priorities[i].0, name) {
            return priorities[i].1;
        }
        assert(all.skip(i as int).skip(1) == all.skip(i + 1));
        i += 1;
    }
    0
}

/// By the priority of the indexer, and among equals by its name.
pub open spec fn by_indexer(p: Priorities) -> spec_fn(ResultView, ResultView) -> bool {
    |a: ResultView, b: ResultView|
        {
            let x = priority_of(p, a.indexer);
            let y = priority_of(p, b.indexer);
            x < y || x == y && text::text_before(a.indexer, b.indexer)
        }
}

/// By the priority of the indexer, and among equals by the date of the post, the newest
/// first.
pub open spec fn newest_first(p: Priorities) -> spec_fn(AggregatedView, AggregatedView) -> bool {
    |a: AggregatedView, b: AggregatedView|
        {
            let x = priority_of(p, a.result.indexer);
            let y = priority_of(p, b.result.indexer);
            x < y || x == y && a.result.post_date > b.result.post_date
        }
}

/// The names of the indexers of a list of results.
pub open spec fn indexers_of(results: Seq<ResultView>) -> Seq<Seq<char>> {
    results.map_values(|r: ResultView| r.indexer)
}

/// The merged result that a group makes.
pub open spec fn aggregated(group: Seq<ResultView>, p: Priorities) -> AggregatedView {
    let s = order::sorted(group, by_indexer(p));
    AggregatedView { result: s[0], sources: indexers_of(s) }
}

/// The merged results of a list of results.
pub open spec fn merged(results: Seq<ResultView>, p: Priorities) -> Seq<AggregatedView> {
    order::sorted(
        grouped(results).map_values(|g: Seq<ResultView>| aggregated(g, p)),
        newest_first(p),
    )
}

/// Orders results by the priority and the name of the indexer.
pub struct ByIndexer<'a> {
    pub priorities: &'a Vec<(String, u32)>,
}

impl<'a> Precedence<SearchResult> for ByIndexer<'a> {
    open spec fn before(&self, a: ResultView, b: ResultView) -> bool {
        by_indexer(priority_views(self.priorities@))(a, b)
    }

    fn is_before(&self, a: &SearchResult, b: &SearchResult) -> (r: bool) {
        let x: u32 = find_priority(self.priorities, &a.indexer);
        let y: u32 = find_priority(self.priorities, &b.indexer);
        x < y || x == y && is_text_before(&a.indexer, &b.indexer)
    }
}

/// Orders merged results by the priority of the indexer and the date of the post, the newest
/// first.
pub struct NewestFirst<'a> {
    pub priorities: &'a Vec<(String, u32)>,
}

impl<'a> Precedence<AggregatedResult> for NewestFirst<'a> {
    open spec fn before(&self, a: AggregatedView, b: AggregatedView) -> bool {
        newest_first(priority_views(self.priorities@))(a, b)
    }

    fn is_before(&self, a: &AggregatedResult, b: &AggregatedResult) -> (r: bool) {
        let x: u32 = find_priority(self.priorities, &a.result.indexer);
        let y: u32 = find_priority(self.priorities, &b.result.indexer);
        x < y || x == y && a.result.post_date > b.result.post_date
    }
}

/// Whether `x` counts as the release `a`.
pub fn is_same_release(a: &SearchResult, x: &SearchResult) -> (r: bool)
    ensures
        r == same_release(a@, x@),
{
    same_text(&normalize_title(&a.title), &normalize_title(&x.title)) && (size_matches(
        a.size,
        x.size,
    ) || a.size == 0 || x.size == 0)
}

fn does_join(group: &Vec<SearchResult>, x: &SearchResult) -> (r: bool)
    ensures
        r == joins(order::views(group@), x@),
{
    let ghost g = order::views(group@);
    let mut i: usize = 0;
    while i < group.len()
        invariant
            i <= group.len(),
            g == order::views(group@),
            forall|j: int| 0 <= j < i ==> !same_release(#[trigger] g[j], x@),
        decreases group.len() - i,
    {
        assert(g[i as int] == group@[i as int]@);
        if is_same_release(&group[i], x) {
            return true;
        }
        i += 1;
    }
    false
}

/// What a list of groups holds.
pub open spec fn group_views(groups: Seq<Vec<SearchResult>>) -> Seq<Seq<ResultView>> {
    groups.map_values(|g: Vec<SearchResult>| order::views(g@))
}

/// Puts `x` into the first group that it joins, or into a new one.
pub fn place(groups: &mut Vec<Vec<SearchResult>>, x: SearchResult)
    ensures
        group_views(final(groups)@) == placed(group_views(old(groups)@), x@),
{
    let ghost all = group_views(groups@);
    let ghost v = x@;
    let mut i: usize = 0;
    assert(all.skip(0) == all);
    while i < groups.len() && !does_join(&groups[i], &x)
        invariant
            i <= groups.len(),
            all == group_views(groups@),
            v == x@,
            first_joined(all, v) == i + first_joined(all.skip(i as int), v),
        decreases groups.len() - i,
    {
        assert(all.skip(i as int)[0] == order::views(groups@[i as int]@));
        assert(all.skip(i as int).skip(1) == all.skip(i + 1));
        i += 1;
    }
    if i < groups.len() {
        assert(all.skip(i as int)[0] == order::views(groups@[i as int]@));
        let mut group: Vec<SearchResult> = Vec::new();
        std::mem::swap(&mut group, &mut groups[i]);
        group.push(x);
        assert(order::views(group@) =~= all[i as int].push(v));
        groups[i] = group;
        assert(group_views(groups@) =~= all.update(i as int, all[i as int].push(v)));
    } else {
        let mut group: Vec<SearchResult> = Vec::new();
        group.push(x);
        assert(order::views(group@) =~= seq![v]);
        groups.push(group);
        assert(group_views(groups@) =~= all.push(seq![v]));
    }
}

fn build_aggregate(group: Vec<SearchResult>, priorities: &Vec<(String, u32)>) -> (r:
    AggregatedResult)
    requires
        group.len() > 0,
    ensures
        r@ == aggregated(order::views(group@), priority_views(priorities@)),
{
    let mut group = group;
    let ghost g = order::views(group@);
    let ghost p = priority_views(priorities@);
    let by = ByIndexer { priorities };
    sort(&mut group, &by);
    proof {
        assert(order::rule::<SearchResult, ByIndexer>(by) =~= by_indexer(p));
        order::sorting_keeps_length(g, by_indexer(p));
    }
    let mut sources: Vec<String> = Vec::new();
    for i in 0..group.len()
        invariant
            sources.len() == i,
            forall|j: int| 0 <= j < i ==> (#[trigger] sources@[j])@ == group@[j].indexer@,
    {
        sources.push(group[i].indexer.clone());
    }
    let result = group[0].clone();
    let r = AggregatedResult { result, sources };
    assert(r@.sources =~= indexers_of(order::views(group@)));
    assert(order::views(group@)[0] == group@[0]@);
    r
}

/// The results of each indexer, in dictionary order of the names, one entry per name.
#[derive(Debug)]
pub struct PerIndexer {
    entries: Vec<(String, Vec<SearchResult>)>,
}

/// What one entry holds.
pub open spec fn entry_view(e: (String, Vec<SearchResult>)) -> (Seq<char>, Seq<ResultView>) {
    (e.0@, order::views(e.1@))
}

impl View for PerIndexer {
    type V = Seq<(Seq<char>, Seq<ResultView>)>;

    closed spec fn view(&self) -> Seq<(Seq<char>, Seq<ResultView>)> {
        self.entries@.map_values(|e: (String, Vec<SearchResult>)| entry_view(e))
    }
}

/// Whether the names of the entries ascend.
pub open spec fn names_ascend(entries: Seq<(Seq<char>, Seq<ResultView>)>) -> bool {
    forall|i: int, j: int|
        0 <= i < j < entries.len() ==> text::text_before(
            (#[trigger] entries[i]).0,
            (#[trigger] entries[j]).0,
        )
}

/// The number of entries whose name comes before `name`, counted from the first.
pub open spec fn rank_of(entries: Seq<(Seq<char>, Seq<ResultView>)>, name: Seq<char>) -> nat
    decreases entries.len(),
{
    if entries.len() > 0 && text::text_before(entries[0].0, name) {
        1 + rank_of(entries.skip(1), name)
    } else {
        0
    }
}

/// The entries with `results` under `name`, in place of what was there.
pub open spec fn with_entry(
    entries: Seq<(Seq<char>, Seq<ResultView>)>,
    name: Seq<char>,
    results: Seq<ResultView>,
) -> Seq<(Seq<char>, Seq<ResultView>)> {
    let k = rank_of(entries, name) as int;
    if k < entries.len() && entries[k].0 == name {
        entries.update(k, (name, results))
    } else {
        entries.insert(k, (name, results))
    }
}

proof fn lemma_rank_of(entries: Seq<(Seq<char>, Seq<ResultView>)>, name: Seq<char>)
    ensures
        rank_of(entries, name) <= entries.len(),
        forall|i: int|
            0 <= i < rank_of(entries, name) ==> text::text_before(
                (#[trigger] entries[i]).0,
                name,
            ),
        rank_of(entries, name) < entries.len() ==> !text::text_before(
            entries[rank_of(entries, name) as int].0,
            name,
        ),
    decreases entries.len(),
{
    if entries.len() > 0 && text::text_before(entries[0].0, name) {
        lemma_rank_of(entries.skip(1), name);
        assert forall|i: int| 0 <= i < rank_of(entries, name) implies text::text_before(
            (#[trigger] entries[i]).0,
            name,
        ) by {
            if i > 0 {
                assert(entries.skip(1)[i - 1] == entries[i]);
            }
        }
    }
}

/// An entry keeps the names in order.
pub proof fn entries_keep_ascending(
    entries: Seq<(Seq<char>, Seq<ResultView>)>,
    name: Seq<char>,
    results: Seq<ResultView>,
)
    requires
        names_ascend(entries),
    ensures
        names_ascend(with_entry(entries, name, results)),
{
    lemma_rank_of(entries, name);
    let k = rank_of(entries, name) as int;
    let now = with_entry(entries, name, results);
    if !(k < entries.len() && entries[k].0 == name) {
        assert forall|i: int, j: int| 0 <= i < j < now.len() implies text::text_before(
            (#[trigger] now[i]).0,
            (#[trigger] now[j]).0,
        ) by {
            if k < entries.len() {
                text::text_before_is_total(entries[k].0, name, name);
                if i == k {
                    text::text_before_is_total(name, entries[k].0, entries[j - 1].0);
                }
            }
        }
    }
}

impl PerIndexer {
    #[verifier::type_invariant]
    spec fn wf(self) -> bool {
        names_ascend(self@)
    }

    /// No results.
    pub fn new() -> (r: Self)
        ensures
            r@ == Seq::<(Seq<char>, Seq<ResultView>)>::empty(),
    {
        let r = PerIndexer { entries: Vec::new() };
        assert(r@ =~= Seq::empty());
        r
    }

    /// Sets the results of the indexer `name`.
    pub fn insert(&mut self, name: String, results: Vec<SearchResult>)
        ensures
            final(self)@ == with_entry(old(self)@, name@, order::views(results@)),
    {
        proof {
            use_type_invariant(&*self);
            lemma_rank_of(self@, name@);
            entries_keep_ascending(self@, name@, order::views(results@));
        }
        let ghost was = self@;
        let ghost n = name@;
        let ghost v = order::views(results@);
        let mut entries: Vec<(String, Vec<SearchResult>)> = Vec::new();
        std::mem::swap(&mut entries, &mut self.entries);
        let mut k: usize = 0;
        assert(was.skip(0) == was);
        while k < entries.len() && is_text_before(&entries[k].0, &name)
            invariant
                k <= entries.len(),
                n == name@,
                was == entries@.map_values(|e: (String, Vec<SearchResult>)| entry_view(e)),
                rank_of(was, n) == k + rank_of(was.skip(k as int), n),
            decreases entries.len() - k,
        {
            assert(was.skip(k as int)[0] == entry_view(entries@[k as int]));
            assert(was.skip(k as int).skip(1) == was.skip(k + 1));
            k += 1;
        }
        assert(k < entries.len() ==> was.skip(k as int)[0] == entry_view(entries@[k as int]));
        if k < entries.len() && same_text(&entries[k].0, &name) {
            entries[k] = (name, results);
            assert(entries@.map_values(|e: (String, Vec<SearchResult>)| entry_view(e))
                =~= was.update(k as int, (n, v)));
        } else {
            entries.insert(k, (name, results));
            assert(entries@.map_values(|e: (String, Vec<SearchResult>)| entry_view(e))
                =~= was.insert(k as int, (n, v)));
        }
        self.entries = entries;
    }
}

/// All results, indexer by indexer.
pub open spec fn all_results(entries: Seq<(Seq<char>, Seq<ResultView>)>) -> Seq<ResultView>
    decreases entries.len(),
{
    if entries.len() == 0 {
        Seq::empty()
    } else {
        all_results(entries.drop_last()) + entries.last().1
    }
}

/// Merges the results of indexers of equal priority: groups them by release, names every
/// source of a release, and puts the newest first.
pub fn merge_and_dedupe(per_indexer: &PerIndexer) -> (r: Vec<AggregatedResult>)
    ensures
        order::views(r@) == merged(all_results(per_indexer@), Seq::empty()),
{
    let none: Vec<(String, u32)> = Vec::new();
    assert(priority_views(none@) =~= Seq::empty());
    merge_by_priority(per_indexer, &none)
}

/// Merges the results of all indexers: groups them by release, names every source of a
/// release, and puts those of the highest priority first, and among equals the newest.
pub fn merge_by_priority(per_indexer: &PerIndexer, priorities: &Vec<(String, u32)>) -> (r: Vec<
    AggregatedResult,
>)
    ensures
        order::views(r@) == merged(all_results(per_indexer@), priority_views(priorities@)),
{
    let ghost p = priority_views(priorities@);
    let ghost entries = per_indexer@;
    let mut groups: Vec<Vec<SearchResult>> = Vec::new();
    let n: usize = per_indexer.entries.len();
    let mut i: usize = 0;
    assert(entries.take(0) == Seq::<(Seq<char>, Seq<ResultView>)>::empty());
    assert(group_views(groups@) =~= grouped(Seq::empty()));
    while i < n
        invariant
            n == per_indexer.entries.len(),
            i <= n,
            entries == per_indexer@,
            group_views(groups@) == grouped(all_results(entries.take(i as int))),
        decreases n - i,
    {
        let results = &per_indexer.entries[i].1;
        let ghost before = all_results(entries.take(i as int));
        let ghost rs = order::views(results@);
        let mut j: usize = 0;
        assert(before + rs.take(0) == before);
        while j < results.len()
            invariant
                j <= results.len(),
                rs == order::views(results@),
                group_views(groups@) == grouped(before + rs.take(j as int)),
            decreases results.len() - j,
        {
            place(&mut groups, results[j].clone());
            assert((before + rs.take(j + 1)).drop_last() == before + rs.take(j as int));
            assert((before + rs.take(j + 1)).last() == results@[j as int]@);
            j += 1;
        }
        assert(rs.take(j as int) == rs);
        assert(entries.take(i + 1).drop_last() == entries.take(i as int));
        assert(entries.take(i + 1).last() == entry_view(per_indexer.entries@[i as int]));
        i += 1;
    }
    assert(entries.take(n as int) == entries);
    let ghost results = all_results(entries);
    let ghost all = group_views(groups@);
    proof {
        lemma_groups_not_empty(results);
    }
    let mut found: Vec<AggregatedResult> = Vec::new();
    let mut left: Vec<Vec<SearchResult>> = groups;
    let ghost f = |g: Seq<ResultView>| aggregated(g, p);
    assert(order::views(found@) =~= all.take(0).map_values(f));
    while left.len() > 0
        invariant
            p == priority_views(priorities@),
            f == (|g: Seq<ResultView>| aggregated(g, p)),
            found.len() + left.len() == all.len(),
            group_views(left@) == all.skip(found.len() as int),
            order::views(found@) == all.take(found.len() as int).map_values(f),
            forall|k: int| 0 <= k < all.len() ==> (#[trigger] all[k]).len() > 0,
        decreases left.len(),
    {
        assert(group_views(left@)[0] == order::views(left@[0]@));
        let ghost was = left@;
        let k = Ghost(found.len() as int);
        let group = left.remove(0);
        assert(all.skip(k@)[0] == all[k@]);
        let ghost had = order::views(found@);
        found.push(build_aggregate(group, priorities));
        assert(order::views(found@) =~= had.push(f(all[k@])));
        assert(all.take(k@ + 1) == all.take(k@).push(all[k@]));
        assert(group_views(left@) =~= group_views(was).skip(1));
        assert(all.skip(k@).skip(1) == all.skip(k@ + 1));
        assert(order::views(found@) =~= all.take(k@ + 1).map_values(f));
    }
    assert(all.take(all.len() as int) == all);
    let by = NewestFirst { priorities };
    sort(&mut found, &by);
    assert(order::rule::<AggregatedResult, NewestFirst>(by) =~= newest_first(p));
    found
}

proof fn lemma_groups_not_empty(results: Seq<ResultView>)
    ensures
        forall|k: int| 0 <= k < grouped(results).len() ==> (#[trigger] grouped(results)[k]).len() > 0,
    decreases results.len(),
{
    if results.len() > 0 {
        let before = grouped(results.drop_last());
        lemma_groups_not_empty(results.drop_last());
        assert forall|k: int| 0 <= k < grouped(results).len() implies (#[trigger] grouped(
            results,
        )[k]).len() > 0 by {
            if k < before.len() {
                assert(before[k].len() > 0);
            }
        }
    }
}

/// How the search of one indexer ended.
#[derive(Debug)]
pub enum SearchOutcome {
    /// It gave these results.
    Found(Vec<SearchResult>),
    /// It gave an error.
    Failed,
    /// It did not end in time.
    TimedOut,
}

/// What the outcomes of the searches, in turn, leave under the names of the indexers.
pub open spec fn collected(outcomes: Seq<(String, SearchOutcome)>) -> Seq<
    (Seq<char>, Seq<ResultView>),
>
    decreases outcomes.len(),
{
    if outcomes.len() == 0 {
        Seq::empty()
    } else {
        let before = collected(outcomes.drop_last());
        match outcomes.last().1 {
            SearchOutcome::Found(v) => with_entry(
                before,
                outcomes.last().0@,
                order::views(v@),
            ),
            _ => before,
        }
    }
}

/// Merges what the searches of all indexers gave. An indexer that failed or was too slow
/// gives nothing.
pub fn aggregate_outcomes(
    outcomes: Vec<(String, SearchOutcome)>,
    priorities: &Vec<(String, u32)>,
) -> (r: Vec<AggregatedResult>)
    ensures
        order::views(r@) == merged(
            all_results(collected(outcomes@)),
            priority_views(priorities@),
        ),
{
    let ghost all = outcomes@;
    let mut per_indexer = PerIndexer::new();
    let mut left = outcomes;
    let n: usize = left.len();
    let mut k: usize = 0;
    assert(all.take(0) == Seq::<(String, SearchOutcome)>::empty());
    while k < n
        invariant
            k <= n,
            n == all.len(),
            left@ == all.skip(k as int),
            per_indexer@ == collected(all.take(k as int)),
        decreases n - k,
    {
        let (name, outcome) = left.remove(0);
        assert(all.skip(k as int)[0] == all[k as int]);
        assert(all.take(k + 1).drop_last() == all.take(k as int));
        assert(all.skip(k as int).remove(0) == all.skip(k + 1));
        if let SearchOutcome::Found(results) = outcome {
            per_indexer.insert(name, results);
        }
        k += 1;
    }
    assert(all.take(n as int) == all);
    merge_by_priority(&per_indexer, priorities)
}

/// How often each indexer is named as a source.
pub open spec fn all_sources(s: Seq<AggregatedView>) -> Multiset<Seq<char>>
    decreases s.len(),
{
    if s.len() == 0 {
        Multiset::empty()
    } else {
        all_sources(s.drop_last()).add(s.last().sources.to_multiset())
    }
}

spec fn all_members(groups: Seq<Seq<ResultView>>) -> Multiset<Seq<char>>
    decreases groups.len(),
{
    if groups.len() == 0 {
        Multiset::empty()
    } else {
        all_members(groups.drop_last()).add(indexers_of(groups.last()).to_multiset())
    }
}

proof fn lemma_sources_of_inserted(
    s: Seq<AggregatedView>,
    x: AggregatedView,
    before: spec_fn(AggregatedView, AggregatedView) -> bool,
)
    ensures
        all_sources(order::inserted(s, x, before)) == all_sources(s).add(x.sources.to_multiset()),
    decreases s.len(),
{
    if s.len() > 0 && before(x, s.last()) {
        let t = order::inserted(s.drop_last(), x, before);
        lemma_sources_of_inserted(s.drop_last(), x, before);
        assert(t.push(s.last()).drop_last() == t);
        assert(all_sources(t.push(s.last())) =~= all_sources(s).add(x.sources.to_multiset()));
    } else {
        assert(s.push(x).drop_last() == s);
    }
}

proof fn lemma_sources_of_sorted(
    s: Seq<AggregatedView>,
    before: spec_fn(AggregatedView, AggregatedView) -> bool,
)
    ensures
        all_sources(order::sorted(s, before)) == all_sources(s),
    decreases s.len(),
{
    if s.len() > 0 {
        lemma_sources_of_sorted(s.drop_last(), before);
        lemma_sources_of_inserted(order::sorted(s.drop_last(), before), s.last(), before);
    }
}

proof fn lemma_indexers_push(s: Seq<ResultView>, x: ResultView)
    ensures
        indexers_of(s.push(x)).to_multiset() == indexers_of(s).to_multiset().insert(x.indexer),
{
    broadcast use vstd::seq_lib::group_to_multiset_ensures;

    assert(indexers_of(s.push(x)) == indexers_of(s).push(x.indexer));
}

proof fn lemma_indexers_of_inserted(
    s: Seq<ResultView>,
    x: ResultView,
    before: spec_fn(ResultView, ResultView) -> bool,
)
    ensures
        indexers_of(order::inserted(s, x, before)).to_multiset() == indexers_of(
            s,
        ).to_multiset().insert(x.indexer),
    decreases s.len(),
{
    lemma_indexers_push(s, x);
    if s.len() > 0 && before(x, s.last()) {
        let t = order::inserted(s.drop_last(), x, before);
        lemma_indexers_of_inserted(s.drop_last(), x, before);
        lemma_indexers_push(t, s.last());
        lemma_indexers_push(s.drop_last(), s.last());
        assert(s.drop_last().push(s.last()) == s);
        assert(indexers_of(t.push(s.last())).to_multiset() =~= indexers_of(
            s,
        ).to_multiset().insert(x.indexer));
    }
}

proof fn lemma_indexers_of_sorted(
    s: Seq<ResultView>,
    before: spec_fn(ResultView, ResultView) -> bool,
)
    ensures
        indexers_of(order::sorted(s, before)).to_multiset() == indexers_of(s).to_multiset(),
    decreases s.len(),
{
    if s.len() > 0 {
        lemma_indexers_of_sorted(s.drop_last(), before);
        lemma_indexers_of_inserted(order::sorted(s.drop_last(), before), s.last(), before);
        lemma_indexers_push(s.drop_last(), s.last());
        assert(s.drop_last().push(s.last()) == s);
    }
}

proof fn lemma_members_update(groups: Seq<Seq<ResultView>>, i: int, x: ResultView)
    requires
        0 <= i < groups.len(),
    ensures
        all_members(groups.update(i, groups[i].push(x))) == all_members(groups).insert(x.indexer),
    decreases groups.len(),
{
    let now = groups.update(i, groups[i].push(x));
    if i == groups.len() - 1 {
        lemma_indexers_push(groups[i], x);
        assert(now.drop_last() == groups.drop_last());
    } else {
        lemma_members_update(groups.drop_last(), i, x);
        assert(now.drop_last() == groups.drop_last().update(i, groups.drop_last()[i].push(x)));
    }
    assert(all_members(now) =~= all_members(groups).insert(x.indexer));
}

proof fn lemma_members_of_grouped(results: Seq<ResultView>)
    ensures
        all_members(grouped(results)) == indexers_of(results).to_multiset(),
    decreases results.len(),
{
    broadcast use vstd::seq_lib::group_to_multiset_ensures;

    if results.len() == 0 {
        assert(indexers_of(results) == Seq::<Seq<char>>::empty());
        assert(indexers_of(results).to_multiset() =~= Multiset::empty());
    } else {
        let groups = grouped(results.drop_last());
        let x = results.last();
        lemma_members_of_grouped(results.drop_last());
        lemma_indexers_push(results.drop_last(), x);
        assert(results.drop_last().push(x) == results);
        let i = first_joined(groups, x);
        if i < groups.len() {
            lemma_members_update(groups, i as int, x);
        } else {
            let none = Seq::<ResultView>::empty();
            assert(groups.push(seq![x]).drop_last() == groups);
            lemma_indexers_push(none, x);
            assert(none.push(x) == seq![x]);
            assert(indexers_of(none) == Seq::<Seq<char>>::empty());
            assert(all_members(groups.push(seq![x])) =~= all_members(groups).insert(x.indexer));
        }
    }
}

proof fn lemma_sources_of_groups(groups: Seq<Seq<ResultView>>, p: Priorities)
    ensures
        all_sources(groups.map_values(|g: Seq<ResultView>| aggregated(g, p))) == all_members(
            groups,
        ),
    decreases groups.len(),
{
    let f = |g: Seq<ResultView>| aggregated(g, p);
    if groups.len() > 0 {
        lemma_sources_of_groups(groups.drop_last(), p);
        assert(groups.map_values(f).drop_last() == groups.drop_last().map_values(f));
        lemma_indexers_of_sorted(groups.last(), by_indexer(p));
    }
}

/// Merging loses no source and adds none: each indexer is named as often as it returned a
/// result.
pub proof fn merging_keeps_every_source(results: Seq<ResultView>, p: Priorities)
    ensures
        all_sources(merged(results, p)) == indexers_of(results).to_multiset(),
{
    let s = grouped(results).map_values(|g: Seq<ResultView>| aggregated(g, p));
    lemma_sources_of_sorted(s, newest_first(p));
    lemma_sources_of_groups(grouped(results), p);
    lemma_members_of_grouped(results);
}

/// Merged results come by the priority of their indexers, and among equals newest first.
pub proof fn merging_goes_by_priority_then_age(
    results: Seq<ResultView>,
    p: Priorities,
    i: int,
    j: int,
)
    requires
        0 <= i < j < merged(results, p).len(),
    ensures
        ({
            let a = merged(results, p)[i].result;
            let b = merged(results, p)[j].result;
            let x = priority_of(p, a.indexer);
            let y = priority_of(p, b.indexer);
            x < y || x == y && a.post_date >= b.post_date
        }),
{
    order::sorting_puts_in_order(
        grouped(results).map_values(|g: Seq<ResultView>| aggregated(g, p)),
        newest_first(p),
    );
    assert(!newest_first(p)(merged(results, p)[j], merged(results, p)[i]));
}

/// Where no priorities are set, merged results come newest first.
pub proof fn merging_puts_newest_first(results: Seq<ResultView>, i: int, j: int)
    requires
        0 <= i < j < merged(results, Seq::empty()).len(),
    ensures
        merged(results, Seq::empty())[i].result.post_date >= merged(
            results,
            Seq::empty(),
        )[j].result.post_date,
{
    merging_goes_by_priority_then_age(results, Seq::empty(), i, j);
}

proof fn lemma_by_indexer_ranks(p: Priorities)
    ensures
        order::ranks(by_indexer(p)),
{
    let f = by_indexer(p);
    assert forall|a: ResultView, b: ResultView| #[trigger] f(a, b) implies !f(b, a) by {
        text::text_before_is_total(a.indexer, b.indexer, a.indexer);
    }
    assert forall|a: ResultView, b: ResultView, c: ResultView|
        !#[trigger] f(a, b) && !#[trigger] f(b, c) implies !f(a, c) by {
        text::text_before_is_total(a.indexer, b.indexer, a.indexer);
        text::text_before_is_total(b.indexer, c.indexer, b.indexer);
        text::text_before_is_total(c.indexer, b.indexer, a.indexer);
        text::text_before_is_total(a.indexer, c.indexer, a.indexer);
    }
}

/// The sources of a release are named by priority, and among equals in dictionary order, and
/// its result is that of the first.
pub proof fn sources_come_in_order(group: Seq<ResultView>, p: Priorities, i: int, j: int)
    requires
        0 <= i < j < group.len(),
    ensures
        aggregated(group, p).sources.len() == group.len(),
        aggregated(group, p).sources[0] == aggregated(group, p).result.indexer,
        ({
            let a = aggregated(group, p).sources[i];
            let b = aggregated(group, p).sources[j];
            let x = priority_of(p, a);
            let y = priority_of(p, b);
            x < y || x == y && !text::text_before(b, a)
        }),
{
    lemma_by_indexer_ranks(p);
    order::sorting_puts_in_order(group, by_indexer(p));
    let s = order::sorted(group, by_indexer(p));
    assert(!by_indexer(p)(s[j], s[i]));
}

proof fn lemma_grouped(results: Seq<ResultView>, k: int, a: int)
    requires
        0 <= k < grouped(results).len(),
        0 <= a < grouped(results)[k].len(),
    ensures
        results.contains(grouped(results)[k][a]),
        normal_title(grouped(results)[k][a].title) == normal_title(grouped(results)[k][0].title),
    decreases results.len(),
{
    let before = grouped(results.drop_last());
    let x = results.last();
    let i = first_joined(before, x);
    let g = grouped(results)[k];
    if k < before.len() && a < before[k].len() {
        assert(g[a] == before[k][a] && g[0] == before[k][0]);
        lemma_grouped(results.drop_last(), k, a);
        let m = choose|m: int|
            0 <= m < results.drop_last().len() && results.drop_last()[m] == g[a];
        assert(results[m] == g[a]);
    } else {
        assert(g[a] == x);
        assert(results[results.len() - 1] == x);
        if k < before.len() {
            lemma_first_joined(before, x);
            let m = choose|m: int| 0 <= m < before[k].len() && same_release(
                #[trigger] before[k][m],
                x,
            );
            lemma_grouped(results.drop_last(), k, m);
            assert(g[0] == before[k][0]);
        }
    }
}

proof fn lemma_first_joined(groups: Seq<Seq<ResultView>>, x: ResultView)
    ensures
        first_joined(groups, x) < groups.len() ==> joins(
            groups[first_joined(groups, x) as int],
            x,
        ),
    decreases groups.len(),
{
    if groups.len() > 0 && !joins(groups[0], x) {
        lemma_first_joined(groups.skip(1), x);
        let n = first_joined(groups.skip(1), x) as int;
        if n < groups.len() - 1 {
            assert(groups.skip(1)[n] == groups[n + 1]);
        }
    }
}

/// Results with different titles stay in different groups: those of one group have the same
/// title, as titles are compared.
pub proof fn titles_stay_apart(results: Seq<ResultView>, k: int, a: int, b: int)
    requires
        0 <= k < grouped(results).len(),
        0 <= a < grouped(results)[k].len(),
        0 <= b < grouped(results)[k].len(),
    ensures
        normal_title(grouped(results)[k][a].title) == normal_title(grouped(results)[k][b].title),
{
    lemma_grouped(results, k, a);
    lemma_grouped(results, k, b);
}

/// A merged result is one of the results that went in.
pub proof fn merged_results_were_found(results: Seq<ResultView>, p: Priorities, i: int)
    requires
        0 <= i < merged(results, p).len(),
    ensures
        results.contains(merged(results, p)[i].result),
{
    let groups = grouped(results);
    let all = groups.map_values(|g: Seq<ResultView>| aggregated(g, p));
    let m = merged(results, p)[i];
    order::sorting_keeps_members(all, newest_first(p));
    assert(merged(results, p).contains(m));
    let k = choose|k: int| 0 <= k < all.len() && all[k] == m;
    let g = groups[k];
    lemma_groups_not_empty(results);
    order::sorting_keeps_length(g, by_indexer(p));
    order::sorting_keeps_members(g, by_indexer(p));
    assert(order::sorted(g, by_indexer(p)).contains(m.result));
    let a = choose|a: int| 0 <= a < g.len() && g[a] == m.result;
    lemma_grouped(results, k, a);
}

proof fn lemma_members_are_grouped(results: Seq<ResultView>, m: int) -> (r: (int, int))
    requires
        0 <= m < results.len(),
    ensures
        0 <= r.0 < grouped(results).len(),
        0 <= r.1 < grouped(results)[r.0].len(),
        grouped(results)[r.0][r.1] == results[m],
    decreases results.len(),
{
    let before = grouped(results.drop_last());
    let x = results.last();
    let i = first_joined(before, x) as int;
    if m < results.len() - 1 {
        let (k, a) = lemma_members_are_grouped(results.drop_last(), m);
        assert(results.drop_last()[m] == results[m]);
        assert(grouped(results)[k][a] == before[k][a]);
        (k, a)
    } else if i < before.len() {
        assert(grouped(results)[i][before[i].len() as int] == x);
        (i, before[i].len() as int)
    } else {
        assert(grouped(results)[before.len() as int] =~= seq![x]);
        (before.len() as int, 0)
    }
}

proof fn lemma_first_joined_is_first(groups: Seq<Seq<ResultView>>, x: ResultView, k: int)
    requires
        0 <= k < groups.len(),
        k < first_joined(groups, x),
    ensures
        !joins(groups[k], x),
    decreases groups.len(),
{
    if k > 0 {
        lemma_first_joined_is_first(groups.skip(1), x, k - 1);
        assert(groups.skip(1)[k - 1] == groups[k]);
    }
}

/// A result is merged with one before it if their titles are the same, as titles are compared,
/// and their sizes are within one per cent of each other or one of them is unknown. A result that
/// agrees so with none before it makes a group of its own; any other goes into the first group
/// with a member that it agrees with, and every other group stays as it is.
pub proof fn results_join_what_they_agree_with(results: Seq<ResultView>, x: ResultView)
    ensures
        ({
            let g = grouped(results);
            let h = grouped(results.push(x));
            if exists|m: int|
                0 <= m < results.len() && normal_title((#[trigger] results[m]).title)
                    == normal_title(x.title) && (results[m].size == 0 || x.size == 0 || (
                results[m].size - results[m].size / 100 <= x.size <= results[m].size
                    + results[m].size / 100)) {
                exists|k: int|
                    #![trigger g[k]]
                    {
                        &&& 0 <= k < g.len()
                        &&& h == g.update(k, g[k].push(x))
                        &&& exists|a: int|
                            0 <= a < g[k].len() && normal_title((#[trigger] g[k][a]).title)
                                == normal_title(x.title) && (g[k][a].size == 0 || x.size == 0 || (
                            g[k][a].size - g[k][a].size / 100 <= x.size <= g[k][a].size
                                + g[k][a].size / 100))
                        &&& forall|j: int, a: int|
                            0 <= j < k && 0 <= a < g[j].len() ==> !(normal_title(
                                (#[trigger] g[j][a]).title,
                            ) == normal_title(x.title) && (g[j][a].size == 0 || x.size == 0 || (
                            g[j][a].size - g[j][a].size / 100 <= x.size <= g[j][a].size
                                + g[j][a].size / 100)))
                    }
            } else {
                h == g.push(seq![x])
            }
        }),
{
    let g = grouped(results);
    let h = grouped(results.push(x));
    assert(results.push(x).drop_last() =~= results);
    let k = first_joined(g, x) as int;
    lemma_first_joined(g, x);
    if exists|m: int|
        0 <= m < results.len() && normal_title((#[trigger] results[m]).title) == normal_title(
            x.title,
        ) && (results[m].size == 0 || x.size == 0 || (results[m].size - results[m].size / 100
            <= x.size <= results[m].size + results[m].size / 100)) {
        let m = choose|m: int|
            0 <= m < results.len() && normal_title((#[trigger] results[m]).title) == normal_title(
                x.title,
            ) && (results[m].size == 0 || x.size == 0 || (results[m].size - results[m].size / 100
                <= x.size <= results[m].size + results[m].size / 100));
        let (j, a) = lemma_members_are_grouped(results, m);
        assert(same_release(g[j][a], x));
        assert(joins(g[j], x));
        if j < k {
            lemma_first_joined_is_first(g, x, j);
        }
        assert(k < g.len());
        let b = choose|b: int| 0 <= b < g[k].len() && same_release(#[trigger] g[k][b], x);
        assert(same_release(g[k][b], x));
        assert forall|j: int, a: int| 0 <= j < k && 0 <= a < g[j].len() implies !same_release(
            #[trigger] g[j][a],
            x,
        ) by {
            lemma_first_joined_is_first(g, x, j);
        }
        assert(h == g.update(k, g[k].push(x)));
    } else {
        if k < g.len() {
            let b = choose|b: int| 0 <= b < g[k].len() && same_release(#[trigger] g[k][b], x);
            lemma_grouped(results, k, b);
            let m = choose|m: int| 0 <= m < results.len() && results[m] == g[k][b];
            assert(same_release(results[m], x));
            assert(false);
        }
    }
}

/// Every member of a group but its first agrees with one before it in the group: in the title, and
/// in the size up to one per cent unless one of the two is unknown. So two results whose sizes are
/// known and differ by more than that are not one release on their own.
pub proof fn members_agree_with_one_before(results: Seq<ResultView>, k: int, b: int)
    requires
        0 <= k < grouped(results).len(),
        0 < b < grouped(results)[k].len(),
    ensures
        ({
            let g = grouped(results)[k];
            exists|a: int|
                0 <= a < b && normal_title((#[trigger] g[a]).title) == normal_title(g[b].title) && (
                g[a].size == 0 || g[b].size == 0 || (g[a].size - g[a].size / 100 <= g[b].size
                    <= g[a].size + g[a].size / 100))
        }),
    decreases results.len(),
{
    let before = grouped(results.drop_last());
    let x = results.last();
    let g = grouped(results)[k];
    let i = first_joined(before, x) as int;
    if k < before.len() && b < before[k].len() {
        members_agree_with_one_before(results.drop_last(), k, b);
        let p = before[k];
        let a = choose|a: int|
            0 <= a < b && normal_title((#[trigger] p[a]).title) == normal_title(p[b].title) && (
            p[a].size == 0 || p[b].size == 0 || (p[a].size - p[a].size / 100 <= p[b].size
                <= p[a].size + p[a].size / 100));
        assert(g[a] == p[a] && g[b] == p[b]);
    } else {
        assert(k < before.len() && k == i);
        lemma_first_joined(before, x);
        let a = choose|a: int| 0 <= a < before[k].len() && same_release(
            #[trigger] before[k][a],
            x,
        );
        assert(g[a] == before[k][a] && g[b] == x);
    }
}

/// There is one merged result for each group. Its result and its sources are those of the group,
/// by the priority of the indexers.
pub proof fn groups_become_merged_results(results: Seq<ResultView>, p: Priorities, k: int)
    requires
        0 <= k < grouped(results).len(),
    ensures
        merged(results, p).len() == grouped(results).len(),
        ({
            let g = grouped(results)[k];
            exists|i: int| {
                &&& 0 <= i < merged(results, p).len()
                &&& g.contains((#[trigger] merged(results, p)[i]).result)
                &&& merged(results, p)[i].sources.len() == g.len()
                &&& merged(results, p)[i].sources.to_multiset() == g.map_values(
                    |r: ResultView| r.indexer,
                ).to_multiset()
                &&& merged(results, p)[i].sources[0] == merged(results, p)[i].result.indexer
            }
        }),
{
    let groups = grouped(results);
    let all = groups.map_values(|g: Seq<ResultView>| aggregated(g, p));
    let g = groups[k];
    let m = all[k];
    assert(all[k] == aggregated(g, p));
    order::sorting_keeps_length(all, newest_first(p));
    order::sorting_keeps_members(all, newest_first(p));
    assert(all.contains(m));
    assert(merged(results, p).contains(m));
    let i = choose|i: int| 0 <= i < merged(results, p).len() && merged(results, p)[i] == m;
    lemma_groups_not_empty(results);
    order::sorting_keeps_length(g, by_indexer(p));
    order::sorting_keeps_members(g, by_indexer(p));
    lemma_indexers_of_sorted(g, by_indexer(p));
    assert(order::sorted(g, by_indexer(p)).contains(m.result));
    assert(indexers_of(g) == g.map_values(|r: ResultView| r.indexer));
    assert(merged(results, p)[i] == m);
}

/// The priority of an indexer is that of the first entry with its name; an indexer without one
/// comes with the first.
pub proof fn first_entry_gives_priority(p: Priorities, name: Seq<char>, n: u32)
    ensures
        priority_of(seq![(name, n)] + p, name) == n,
        forall|other: Seq<char>|
            other != name ==> #[trigger] priority_of(seq![(name, n)] + p, other) == priority_of(
                p,
                other,
            ),
        priority_of(Seq::empty(), name) == 0,
{
    let s = seq![(name, n)] + p;
    assert(s[0] == (name, n));
    assert(s.skip(1) =~= p);
}

/// Titles are compared without regard to the case of letters and to how much white space stands
/// between their words or around them.
pub proof fn titles_are_compared_by_words(a: Seq<char>, b: Seq<char>)
    requires
        text::is_ascii_text(a),
        text::is_ascii_text(b),
    ensures
        text::same_but_case(a, b) ==> normal_title(a) == normal_title(b),
        text::words(text::lowered(a)) == text::words(text::lowered(b)) ==> normal_title(a)
            == normal_title(b),
        text::words(collapsed(a)) == text::words(a),
        text::words(text::lowered(a)) != text::words(text::lowered(b)) ==> normal_title(a)
            != normal_title(b),
{
    lemma_words_of_collapsed(a);
    lemma_words_of_collapsed(text::lowered(a));
    lemma_words_of_collapsed(text::lowered(b));
}

proof fn lemma_words_of_collapsed(s: Seq<char>)
    ensures
        text::words(collapsed(s)) == text::words(s),
{
    lemma_words_are_visible(s);
    lemma_joined_words(text::words(s));
}

proof fn lemma_words_are_visible(s: Seq<char>)
    ensures
        forall|i: int, j: int|
            0 <= i < text::words(s).len() && 0 <= j < text::words(s)[i].len() ==> !text::is_white(
                #[trigger] text::words(s)[i][j],
            ),
        forall|i: int| 0 <= i < text::words(s).len() ==> (#[trigger] text::words(s)[i]).len() > 0,
        s.len() > 0 && !text::is_white(s.last()) ==> text::words(s).len() > 0,
    decreases s.len(),
{
    if s.len() > 0 {
        let t = s.drop_last();
        lemma_words_are_visible(t);
        let w = text::words(t);
        let r = text::words(s);
        assert forall|i: int, j: int|
            0 <= i < r.len() && 0 <= j < r[i].len() implies !text::is_white(#[trigger] r[i][j]) by {
            if i < w.len() && j < w[i].len() {
                assert(!text::is_white(w[i][j]));
            }
        }
        assert forall|i: int| 0 <= i < r.len() implies (#[trigger] r[i]).len() > 0 by {
            if i < w.len() {
                assert(w[i].len() > 0);
            }
        }
    }
}

proof fn lemma_joined_words(w: Seq<Seq<char>>)
    requires
        forall|i: int, j: int|
            0 <= i < w.len() && 0 <= j < w[i].len() ==> !text::is_white(#[trigger] w[i][j]),
        forall|i: int| 0 <= i < w.len() ==> (#[trigger] w[i]).len() > 0,
    ensures
        text::words(text::joined(w, " "@)) == w,
    decreases w.len(),
{
    reveal_strlit(" ");
    if w.len() == 0 {
        assert(text::words(Seq::empty()) =~= w);
    } else {
        let x = w.last();
        assert(x == w[w.len() - 1]);
        assert forall|j: int| 0 <= j < x.len() implies !text::is_white(#[trigger] x[j]) by {
            assert(x[j] == w[w.len() - 1][j]);
        }
        text::visible_text_is_a_word(x);
        if w.len() == 1 {
            assert(seq![x] =~= w);
        } else {
            let t = w.drop_last();
            assert forall|i: int, j: int|
                0 <= i < t.len() && 0 <= j < t[i].len() implies !text::is_white(
                #[trigger] t[i][j],
            ) by {
                assert(t[i][j] == w[i][j]);
            }
            assert forall|i: int| 0 <= i < t.len() implies (#[trigger] t[i]).len() > 0 by {
                assert(t[i] == w[i]);
            }
            lemma_joined_words(t);
            assert(" "@ =~= seq![' ']);
            text::words_of_two(text::joined(t, " "@), ' ', x);
            assert(t + seq![x] =~= w);
        }
    }
}

/// The results of an indexer are kept under its name, in place of those that were there; those of
/// all other indexers stay.
pub proof fn results_are_kept_by_indexer(
    entries: Seq<(Seq<char>, Seq<ResultView>)>,
    name: Seq<char>,
    results: Seq<ResultView>,
    other: Seq<char>,
    v: Seq<ResultView>,
)
    requires
        names_ascend(entries),
    ensures
        with_entry(entries, name, results).contains((name, v)) <==> v == results,
        other != name ==> (with_entry(entries, name, results).contains((other, v))
            <==> entries.contains((other, v))),
{
    lemma_rank_of(entries, name);
    entries_keep_ascending(entries, name, results);
    let k = rank_of(entries, name) as int;
    let now = with_entry(entries, name, results);
    assert(now[k] == (name, results));
    if now.contains((name, v)) {
        let i = choose|i: int| 0 <= i < now.len() && now[i] == (name, v);
        text::text_before_is_total(name, name, name);
        if i < k {
            assert(text::text_before(now[i].0, now[k].0));
        } else if k < i {
            assert(text::text_before(now[k].0, now[i].0));
        }
    }
    if other != name {
        let fresh = !(k < entries.len() && entries[k].0 == name);
        if now.contains((other, v)) {
            let i = choose|i: int| 0 <= i < now.len() && now[i] == (other, v);
            if fresh && i > k {
                assert(entries[i - 1] == now[i]);
            } else {
                assert(entries[i] == now[i]);
            }
        }
        if entries.contains((other, v)) {
            let i = choose|i: int| 0 <= i < entries.len() && entries[i] == (other, v);
            if fresh && i >= k {
                assert(now[i + 1] == entries[i]);
            } else {
                assert(now[i] == entries[i]);
            }
        }
    }
}

/// A search that gave results puts them under the name of its indexer; one that failed or did not
/// end in time changes nothing.
pub proof fn failed_searches_add_nothing(
    outcomes: Seq<(String, SearchOutcome)>,
    o: (String, SearchOutcome),
)
    ensures
        collected(Seq::empty()) == Seq::<(Seq<char>, Seq<ResultView>)>::empty(),
        o.1 is Failed || o.1 is TimedOut ==> collected(outcomes.push(o)) == collected(outcomes),
        o.1 is Found ==> collected(outcomes.push(o)) == with_entry(
            collected(outcomes),
            o.0@,
            order::views(o.1->Found_0@),
        ),
{
    assert(outcomes.push(o).drop_last() =~= outcomes);
}

/// The results of all indexers are those of each, one indexer after the other.
pub proof fn results_of_all_follow_each_other(
    entries: Seq<(Seq<char>, Seq<ResultView>)>,
    name: Seq<char>,
    results: Seq<ResultView>,
)
    ensures
        all_results(Seq::empty()) == Seq::<ResultView>::empty(),
        all_results(entries.push((name, results))) == all_results(entries) + results,
{
    assert(entries.push((name, results)).drop_last() =~= entries);
}

} // verus!
