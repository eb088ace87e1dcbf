//! What the user has set.
use vstd::prelude::*;
use vstd::slice::slice_subrange;

use crate::nntp::{ServerConfig, ServerView};
use crate::order;
use crate::text;
use crate::text::{chars_of, find_first, find_last, same_text, string_of};
use crate::types;
use crate::types::{copy_text, IndexerConfig, IndexerConfigView};

verus! {

/// A server as it is entered.
#[derive(Debug)]
pub struct ServerEntry {
    pub host: String,
    pub port: u16,
    pub tls: bool,
    pub user: Option<String>,
    pub password: Option<String>,
    pub max_connections: u32,
    pub priority: u32,
}

impl View for ServerEntry {
    type V = ServerView;

    open spec fn view(&self) -> ServerView {
        ServerView {
            host: self.host@,
            port: self.port,
            tls: self.tls,
            user: types::text_of(self.user),
            password: types::text_of(self.password),
            max_connections: self.max_connections,
            priority: self.priority,
        }
    }
}

impl ServerEntry {
    /// A form for a new server.
    pub fn blank(priority: u32) -> (r: Self)
        ensures
            r@ == (ServerView {
                host: Seq::empty(),
                port: 563,
                tls: true,
                user: None,
                password: None,
                max_connections: 8,
                priority,
            }),
    {
        let host = String::new();
        assert(host@ =~= Seq::empty());
        ServerEntry {
            host,
            port: 563,
            tls: true,
            user: None,
            password: None,
            max_connections: 8,
            priority,
        }
    }

    /// How to reach the server.
    pub fn to_config(&self) -> (r: ServerConfig)
        ensures
            r@ == self@,
    {
        ServerConfig {
            host: self.host.clone(),
            port: self.port,
            tls: self.tls,
            user: copy_text(&self.user),
            password: copy_text(&self.password),
            max_connections: self.max_connections,
            priority: self.priority,
        }
    }
}

/// A name or password as it is entered: an empty one is none.
pub fn entered(s: String) -> (r: Option<String>)
    ensures
        types::text_of(r) == if s@.len() == 0 {
            None::<Seq<char>>
        } else {
            Some(s@)
        },
{
    if chars_of(&s).len() == 0 {
        None
    } else {
        Some(s)
    }
}

/// The indexer that a text such as `Name=https://host/api:key` names: what stands before the
/// first equals sign is its name, what stands behind the last colon its key.
pub open spec fn named_indexer(s: Seq<char>) -> Option<IndexerConfigView> {
    match text::first_index(s, '=') {
        Some(e) => {
            let rest = s.skip(e + 1);
            match text::last_index(rest, ':') {
                Some(c) => Some(
                    IndexerConfigView {
                        name: s.take(e),
                        url: rest.take(c),
                        api_key: rest.skip(c + 1),
                        max_concurrent: 1,
                        timeout_s: 15,
                        priority: 0,
                    },
                ),
                None => None,
            }
        },
        None => None,
    }
}

/// The indexer that a text such as `Name=https://host/api:key` names.
pub fn parse_indexer(s: &str) -> (r: Result<IndexerConfig, String>)
    ensures
        match r {
            Ok(c) => named_indexer(s@) == Some(c@),
            Err(m) => named_indexer(s@) is None && m@
                == "indexer spec must be Name=url:apikey"@,
        },
{
    let cs = chars_of(s);
    if let Some(e) = find_first(&cs, '=') {
        let name = slice_subrange(cs.as_slice(), 0, e);
        let rest = slice_subrange(cs.as_slice(), e + 1, cs.len());
        assert(name@ == s@.take(e as int) && rest@ == s@.skip(e + 1));
        if let Some(c) = find_last(rest, ':') {
            let url = slice_subrange(rest, 0, c);
            let api_key = slice_subrange(rest, c + 1, rest.len());
            assert(url@ == rest@.take(c as int) && api_key@ == rest@.skip(c + 1));
            return Ok(
                IndexerConfig {
                    name: string_of(name),
                    url: string_of(url),
                    api_key: string_of(api_key),
                    max_concurrent: 1,
                    timeout_s: 15,
                    priority: 0,
                },
            );
        }
    }
    Err("indexer spec must be Name=url:apikey".to_owned())
}

/// The text for an indexer is read back as its name, address and key, where the name has no
/// equals sign and the key no colon.
pub proof fn indexer_text_is_read_back(name: Seq<char>, url: Seq<char>, key: Seq<char>)
    requires
        !name.contains('='),
        !key.contains(':'),
    ensures
        ({
            let r = named_indexer(name + seq!['='] + url + seq![':'] + key);
            r is Some && r->0.name == name && r->0.url == url && r->0.api_key == key
        }),
{
    let rest = url + seq![':'] + key;
    let s = name + seq!['='] + url + seq![':'] + key;
    assert(s =~= name + seq!['='] + rest);
    text::first_index_behind(name, '=', rest);
    text::last_index_before(url, ':', key);
    let e = name.len() as int;
    assert(s.take(e) =~= name && s.skip(e + 1) =~= rest);
    assert(rest.take(url.len() as int) =~= url && rest.skip(url.len() as int + 1) =~= key);
}

/// Which subfolder the downloads of a category go to.
#[derive(Debug)]
pub struct CategoryMapping {
    pub name: String,
    pub subfolder: String,
}

impl View for CategoryMapping {
    type V = (Seq<char>, Seq<char>);

    open spec fn view(&self) -> (Seq<char>, Seq<char>) {
        (self.name@, self.subfolder@)
    }
}

/// The subfolder of a category: that of the first mapping with its name, or else the category
/// itself.
pub open spec fn mapped_folder(mappings: Seq<(Seq<char>, Seq<char>)>, category: Seq<char>) -> Seq<
    char,
>
    decreases mappings.len(),
{
    if mappings.len() == 0 {
        category
    } else if mappings[0].0 == category {
        mappings[0].1
    } else {
        mapped_folder(mappings.skip(1), category)
    }
}

/// What happens to a download once it is complete.
#[derive(Debug, Clone, Copy, PartialEq, Eq, Structural)]
pub struct PostProcessDefaults {
    pub auto_post_process: bool,
    pub cleanup_archives: bool,
    pub skip_verify: bool,
}

/// Everything that the user has set.
#[derive(Debug)]
pub struct AppConfig {
    pub servers: Vec<ServerEntry>,
    pub indexers: Vec<IndexerConfig>,
    pub download_dir: String,
    pub completed_dir: String,
    pub db_path: String,
    pub max_connections: usize,
    pub categories: Vec<CategoryMapping>,
    pub post_process: PostProcessDefaults,
}

/// The number of connections that servers allow, all together.
pub open spec fn server_total(servers: Seq<ServerView>) -> nat
    decreases servers.len(),
{
    if servers.len() == 0 {
        0
    } else {
        server_total(servers.drop_last()) + servers.last().max_connections as nat
    }
}

impl AppConfig {
    /// The number of connections that a download uses: the one that is set, or where that is 0
    /// what the servers allow all together. A sum beyond the largest number counts as that.
    pub fn connections(&self) -> (r: usize)
        ensures
            self.max_connections != 0 ==> r == self.max_connections,
            self.max_connections == 0 ==> r == if server_total(order::views(self.servers@))
                <= usize::MAX {
                server_total(order::views(self.servers@))
            } else {
                usize::MAX as nat
            },
    {
        if self.max_connections != 0 {
            return self.max_connections;
        }
        let ghost all = order::views(self.servers@);
        let mut sum: usize = 0;
        assert(all.take(0) == Seq::<ServerView>::empty());
        for i in 0..self.servers.len()
            invariant
                all == order::views(self.servers@),
                sum == if server_total(all.take(i as int)) <= usize::MAX {
                    server_total(all.take(i as int))
                } else {
                    usize::MAX as nat
                },
        {
            assert(all.take(i + 1).drop_last() == all.take(i as int));
            assert(all[i as int] == self.servers@[i as int]@);
            sum = sum.saturating_add(self.servers[i].max_connections as usize);
        }
        assert(all.take(all.len() as int) == all);
        sum
    }

    /// The subfolder that the downloads of a category go to.
    pub fn subfolder_of(&self, category: &str) -> (r: String)
        ensures
            r@ == mapped_folder(order::views(self.categories@), category@),
    {
        let ghost all = order::views(self.categories@);
        let mut i: usize = 0;
        assert(all.skip(0) == all);
        while i < self.categories.len()
            invariant
                i <= self.categories.len(),
                all == order::views(self.categories@),
                mapped_folder(all, category@) == mapped_folder(all.skip(i as int), category@),
            decreases self.categories.len() - i,
        {
            assert(all.skip(i as int)[0] == self.categories@[i as int]@);
            if same_text(&self.categories[i].name, category) {
                return self.categories[i].subfolder.clone();
            }
            assert(all.skip(i as int).skip(1) == all.skip(i + 1));
            i += 1;
        }
        category.to_owned()
    }

    /// The servers.
    pub fn server_configs(&self) -> (r: Vec<ServerConfig>)
        ensures
            order::views(r@) == order::views(self.servers@),
    {
        let mut r: Vec<ServerConfig> = Vec::new();
        for i in 0..self.servers.len()
            invariant
                r.len() == i,
                forall|k: int| 0 <= k < i ==> (#[trigger] r@[k])@ == self.servers@[k]@,
        {
            r.push(self.servers[i].to_config());
        }
        assert(order::views(r@) =~= order::views(self.servers@));
        r
    }
}

/// The first mapping of a category tells its folder; a category without one has a folder of its
/// own name.
pub proof fn first_mapping_tells_the_folder(
    mappings: Seq<(Seq<char>, Seq<char>)>,
    name: Seq<char>,
    folder: Seq<char>,
    category: Seq<char>,
)
    ensures
        mapped_folder(seq![(name, folder)] + mappings, name) == folder,
        category != name ==> mapped_folder(seq![(name, folder)] + mappings, category)
            == mapped_folder(mappings, category),
        mapped_folder(Seq::empty(), category) == category,
{
    let all = seq![(name, folder)] + mappings;
    assert(all[0] == (name, folder));
    assert(all.skip(1) =~= mappings);
}

/// The connections of all servers add up.
pub proof fn connections_add_up(servers: Seq<ServerView>, s: ServerView)
    ensures
        server_total(Seq::empty()) == 0,
        server_total(servers.push(s)) == server_total(servers) + s.max_connections,
{
    assert(servers.push(s).drop_last() =~= servers);
}

/// A text without an equals sign, or without a colon behind it, is no indexer; one that is has the
/// usual limits.
pub proof fn indexers_need_name_and_key(s: Seq<char>, name: Seq<char>, rest: Seq<char>)
    ensures
        !s.contains('=') ==> named_indexer(s) is None,
        !name.contains('=') && !rest.contains(':') ==> named_indexer(name + seq!['='] + rest)
            is None,
        named_indexer(s) is Some ==> named_indexer(s)->0.max_concurrent == 1 && named_indexer(
            s,
        )->0.timeout_s == 15 && named_indexer(s)->0.priority == 0,
{
    if !s.contains('=') {
        lemma_nowhere(s, '=');
    }
    if !name.contains('=') && !rest.contains(':') {
        let t = name + seq!['='] + rest;
        lemma_first_place(name, '=', rest);
        assert(t.skip(name.len() as int + 1) =~= rest);
        lemma_nowhere(rest, ':');
    }
}

proof fn lemma_nowhere(s: Seq<char>, c: char)
    requires
        !s.contains(c),
    ensures
        text::first_index(s, c) is None,
        text::last_index(s, c) is None,
    decreases s.len(),
{
    if s.len() > 0 {
        assert(s[0] != c && s[s.len() - 1] != c);
        assert forall|i: int| 0 <= i < s.len() - 1 implies s.skip(1)[i] != c by {
            assert(s.skip(1)[i] == s[i + 1]);
        }
        assert forall|i: int| 0 <= i < s.len() - 1 implies s.drop_last()[i] != c by {
            assert(s.drop_last()[i] == s[i]);
        }
        lemma_nowhere(s.skip(1), c);
        lemma_nowhere(s.drop_last(), c);
    }
}

proof fn lemma_first_place(h: Seq<char>, c: char, t: Seq<char>)
    requires
        !h.contains(c),
    ensures
        text::first_index(h + seq![c] + t, c) == Some(h.len() as int),
    decreases h.len(),
{
    let s = h + seq![c] + t;
    if h.len() > 0 {
        assert(s[0] == h[0] && h[0] != c);
        assert forall|i: int| 0 <= i < h.len() - 1 implies h.skip(1)[i] != c by {
            assert(h.skip(1)[i] == h[i + 1]);
        }
        lemma_first_place(h.skip(1), c, t);
        assert(s.skip(1) =~= h.skip(1) + seq![c] + t);
    } else {
        assert(s[0] == c);
    }
}

} // verus!
