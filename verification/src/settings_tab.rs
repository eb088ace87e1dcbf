//! State of the settings tab.
use vstd::prelude::*;

use crate::backend::{BackendEvent, BackendEventView};
use crate::error::concat;
use crate::nntp::ServerView;
use crate::order;
use crate::settings::ServerEntry;
use crate::types::{IndexerConfig, IndexerConfigView};

verus! {

/// State of the settings tab.
#[derive(Debug)]
pub struct SettingsState {
    /// What a test of an indexer gave, and whether it went well.
    pub indexer_test_msg: Option<(String, bool)>,
    /// What a test of a server gave, and whether it went well.
    pub server_test_msg: Option<(String, bool)>,
    /// The server that is being entered.
    pub new_server: ServerEntry,
    /// The indexer that is being entered.
    pub new_indexer: IndexerConfig,
}

/// What a [`SettingsState`] holds.
pub struct SettingsView {
    pub indexer_test_msg: Option<(Seq<char>, bool)>,
    pub server_test_msg: Option<(Seq<char>, bool)>,
    pub new_server: ServerView,
    pub new_indexer: IndexerConfigView,
}

/// What an optional message says.
pub open spec fn message_of(o: Option<(String, bool)>) -> Option<(Seq<char>, bool)> {
    match o {
        Some(m) => Some((m.0@, m.1)),
        None => None,
    }
}

impl View for SettingsState {
    type V = SettingsView;

    open spec fn view(&self) -> SettingsView {
        SettingsView {
            indexer_test_msg: message_of(self.indexer_test_msg),
            server_test_msg: message_of(self.server_test_msg),
            new_server: self.new_server@,
            new_indexer: self.new_indexer@,
        }
    }
}

/// A form for a new indexer.
pub open spec fn blank_indexer(priority: u32) -> IndexerConfigView {
    IndexerConfigView {
        name: Seq::empty(),
        url: Seq::empty(),
        api_key: Seq::empty(),
        max_concurrent: 1,
        timeout_s: 15,
        priority,
    }
}

/// A form for a new indexer.
pub fn new_indexer_form(priority: u32) -> (r: IndexerConfig)
    ensures
        r@ == blank_indexer(priority),
{
    let name = String::new();
    let url = String::new();
    let api_key = String::new();
    assert(name@ =~= Seq::empty() && url@ =~= Seq::empty() && api_key@ =~= Seq::empty());
    IndexerConfig { name, url, api_key, max_concurrent: 1, timeout_s: 15, priority }
}

impl Default for SettingsState {
    fn default() -> (r: Self)
        ensures
            r@ == (SettingsView {
                indexer_test_msg: None,
                server_test_msg: None,
                new_server: (ServerView {
                    host: Seq::empty(),
                    port: 563,
                    tls: true,
                    user: None,
                    password: None,
                    max_connections: 8,
                    priority: 0,
                }),
                new_indexer: blank_indexer(0),
            }),
    {
        SettingsState {
            indexer_test_msg: None,
            server_test_msg: None,
            new_server: ServerEntry::blank(0),
            new_indexer: new_indexer_form(0),
        }
    }
}

impl SettingsView {
    /// What is held after an event.
    pub open spec fn after(self, event: BackendEventView) -> SettingsView {
        match event {
            BackendEventView::IndexerTestResult { name, ok, message } => SettingsView {
                indexer_test_msg: Some((name + ": "@ + message, ok)),
                ..self
            },
            BackendEventView::ServerTestResult { host, ok, message } => SettingsView {
                server_test_msg: Some((host + ": "@ + message, ok)),
                ..self
            },
            _ => self,
        }
    }

    /// What is held after a list of events.
    pub open spec fn after_all(self, events: Seq<BackendEventView>) -> SettingsView
        decreases events.len(),
    {
        if events.len() == 0 {
            self
        } else {
            self.after_all(events.drop_last()).after(events.last())
        }
    }
}

impl SettingsState {
    /// Takes up the events that concern the settings.
    pub fn handle_events(&mut self, events: &Vec<BackendEvent>)
        ensures
            final(self)@ == old(self)@.after_all(order::views(events@)),
    {
        let ghost all = order::views(events@);
        let ghost start = self@;
        let n: usize = events.len();
        let mut i: usize = 0;
        assert(all.take(0) == Seq::<BackendEventView>::empty());
        while i < n
            invariant
                n == events.len(),
                i <= n,
                all == order::views(events@),
                self@ == start.after_all(all.take(i as int)),
            decreases n - i,
        {
            proof {
                assert(all.take(i + 1).drop_last() == all.take(i as int));
                assert(all.take(i + 1).last() == events@[i as int]@);
            }
            match &events[i] {
                BackendEvent::IndexerTestResult { name, ok, message } => {
                    let mut m = concat(name, ": ");
                    m.append(message);
                    self.indexer_test_msg = Some((m, *ok));
                },
                BackendEvent::ServerTestResult { host, ok, message } => {
                    let mut m = concat(host, ": ");
                    m.append(message);
                    self.server_test_msg = Some((m, *ok));
                },
                _ => {},
            }
            i += 1;
        }
        assert(all.take(n as int) == all);
    }
}

/// The outcome of a test is shown behind the name of what was tested, each kind in its own place,
/// and changes nothing else.
pub proof fn outcomes_of_tests_are_shown(
    s: SettingsView,
    name: Seq<char>,
    ok: bool,
    message: Seq<char>,
)
    ensures
        s.after(BackendEventView::IndexerTestResult { name, ok, message }) == (SettingsView {
            indexer_test_msg: Some((name + ": "@ + message, ok)),
            ..s
        }),
        s.after(BackendEventView::ServerTestResult { host: name, ok, message }) == (SettingsView {
            server_test_msg: Some((name + ": "@ + message, ok)),
            ..s
        }),
{
}

/// Events are taken in their order.
pub proof fn events_are_taken_in_turn(
    s: SettingsView,
    events: Seq<BackendEventView>,
    e: BackendEventView,
)
    ensures
        s.after_all(Seq::empty()) == s,
        s.after_all(events.push(e)) == s.after_all(events).after(e),
{
    assert(events.push(e).drop_last() =~= events);
}

/// A form for a new indexer is empty, with one connection and a limit of fifteen seconds.
pub proof fn forms_start_empty(priority: u32)
    ensures
        blank_indexer(priority).name.len() == 0,
        blank_indexer(priority).url.len() == 0,
        blank_indexer(priority).api_key.len() == 0,
        blank_indexer(priority).max_concurrent == 1,
        blank_indexer(priority).timeout_s == 15,
        blank_indexer(priority).priority == priority,
{
}

} // verus!
