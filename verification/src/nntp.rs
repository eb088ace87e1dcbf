//! The NNTP protocol: commands, replies and article bodies.
//!
//! Nothing here touches a connection. Each function says what to send, or what a line that
//! came back means.
use vstd::prelude::*;

use crate::error::{concat, CoreError, CoreErrorView};
use crate::text;
use crate::text::{chars_of, from_utf8_lossy, parse_digits};
use crate::types;
use crate::types::copy_text;

verus! {

/// How to reach one server.
#[derive(Debug)]
pub struct ServerConfig {
    /// Host name or address.
    pub host: String,
    pub port: u16,
    /// Whether the connection is encrypted from the start.
    pub tls: bool,
    /// User name, if the server asks for one.
    pub user: Option<String>,
    pub password: Option<String>,
    /// How many connections may be open at once.
    pub max_connections: u32,
    /// Rank among the servers, lower first.
    pub priority: u32,
}

/// What a [`ServerConfig`] says.
pub struct ServerView {
    pub host: Seq<char>,
    pub port: u16,
    pub tls: bool,
    pub user: Option<Seq<char>>,
    pub password: Option<Seq<char>>,
    pub max_connections: u32,
    pub priority: u32,
}

impl View for ServerConfig {
    type V = ServerView;

    open spec fn view(&self) -> ServerView {
        ServerView {
            host: self.host@,
            port: self.port,
            tls: self.tls,
            user: types::text_of(self.user),
            password: types::text_of(self.password),
            max_connections: self.max_connections,
            priority: self.priority,
        }
    }
}

impl Clone for ServerConfig {
    fn clone(&self) -> (r: Self)
        ensures
            r@ == self@,
    {
        ServerConfig {
            host: self.host.clone(),
            port: self.port,
            tls: self.tls,
            user: copy_text(&self.user),
            password: copy_text(&self.password),
            max_connections: self.max_connections,
            priority: self.priority,
        }
    }
}

impl ServerConfig {
    /// A server on this machine, without encryption and without a user.
    pub fn localhost() -> (r: Self)
        ensures
            r@ == (ServerView {
                host: "127.0.0.1"@,
                port: 119,
                tls: false,
                user: None,
                password: None,
                max_connections: 4,
                priority: 0,
            }),
    {
        ServerConfig {
            host: "127.0.0.1".to_owned(),
            port: 119,
            tls: false,
            user: None,
            password: None,
            max_connections: 4,
            priority: 0,
        }
    }
}

/// The number that a reply starts with.
#[derive(Debug, Clone, Copy, PartialEq, Eq, Structural)]
pub struct ResponseCode(pub u16);

/// The number that the first three characters of a reply write, if they are digits.
pub open spec fn reply_code(line: Seq<char>) -> Option<u16> {
    if line.len() < 3 {
        None
    } else {
        match text::magnitude(line.take(3), u16::MAX as nat) {
            Some(n) => Some(n as u16),
            None => None,
        }
    }
}

impl ResponseCode {
    /// The number that the first three characters of a reply write, if they are digits.
    pub fn parse(line: &str) -> (r: Option<Self>)
        ensures
            match r {
                Some(c) => reply_code(line@) == Some(c.0),
                None => reply_code(line@) is None,
            },
    {
        let cs = chars_of(line);
        if cs.len() < 3 {
            return None;
        }
        let digits = vstd::slice::slice_subrange(cs.as_slice(), 0, 3);
        assert(digits@ == line@.take(3));
        match parse_digits(digits, u16::MAX as u64) {
            Some(n) => Some(ResponseCode(n as u16)),
            None => None,
        }
    }

    /// The hundreds of the number.
    pub fn class(self) -> (r: u16)
        ensures
            r == self.0 / 100,
    {
        self.0 / 100
    }
}

/// The body of an article, without dot-stuffing and without the final dot.
#[derive(Debug)]
pub struct ArticleBody {
    pub bytes: Vec<u8>,
}

/// Whether a server has an article.
#[derive(Debug, Clone, Copy, PartialEq, Eq, Structural)]
pub enum StatResult {
    /// It has.
    Present,
    /// It has not.
    Missing,
}

/// What to do after the reply to a user name.
#[derive(Debug, Clone, Copy, PartialEq, Eq, Structural)]
pub enum AuthStep {
    /// The password is asked for.
    SendPassword,
    /// No password is asked for.
    Done,
}

/// What the reply to a request for a body means.
#[derive(Debug, Clone, Copy, PartialEq, Eq, Structural)]
pub enum BodyReply {
    /// The body follows.
    Follows,
    /// The server does not have the article.
    Missing,
}

/// A fallible outcome by what its error says.
pub open spec fn outcome<T>(r: Result<T, CoreError>) -> Result<T, CoreErrorView> {
    match r {
        Ok(v) => Ok(v),
        Err(e) => Err(e@),
    }
}

/// What the greeting of a server means: a connection, if its number is in the two hundreds.
pub open spec fn greeting_outcome(line: Seq<char>) -> Result<(), CoreErrorView> {
    match reply_code(line) {
        Some(c) => if c / 100 == 2 {
            Ok(())
        } else {
            Err(CoreErrorView::NntpConnect("server greeting rejected: "@ + line))
        },
        None => Err(CoreErrorView::NntpConnect("bad greeting: "@ + line)),
    }
}

/// What the greeting of a server means.
pub fn check_greeting(line: &str) -> (r: Result<(), CoreError>)
    ensures
        outcome(r) == greeting_outcome(line@),
{
    match ResponseCode::parse(line) {
        Some(c) => if c.class() == 2 {
            Ok(())
        } else {
            Err(CoreError::NntpConnect(concat("server greeting rejected: ", line)))
        },
        None => Err(CoreError::NntpConnect(concat("bad greeting: ", line))),
    }
}

/// The name and the password that a server is told: only where there is a name, which is not
/// empty, and a password.
pub open spec fn login_of(cfg: ServerView) -> Option<(Seq<char>, Seq<char>)> {
    match (cfg.user, cfg.password) {
        (Some(u), Some(p)) => if u.len() > 0 {
            Some((u, p))
        } else {
            None
        },
        _ => None,
    }
}

/// The name and the password that a server is told.
pub fn login(cfg: &ServerConfig) -> (r: Option<(&String, &String)>)
    ensures
        match r {
            Some(l) => login_of(cfg@) == Some((l.0@, l.1@)),
            None => login_of(cfg@) is None,
        },
{
    match (&cfg.user, &cfg.password) {
        (Some(u), Some(p)) => if chars_of(u).len() > 0 {
            Some((u, p))
        } else {
            None
        },
        _ => None,
    }
}

/// What the reply to a user name means.
pub open spec fn user_outcome(line: Seq<char>) -> Result<AuthStep, CoreErrorView> {
    if reply_code(line) == Some(381u16) {
        Ok(AuthStep::SendPassword)
    } else if reply_code(line) == Some(281u16) {
        Ok(AuthStep::Done)
    } else {
        Err(CoreErrorView::NtpAuthFailed)
    }
}

/// What the reply to a user name means.
pub fn after_user(line: &str) -> (r: Result<AuthStep, CoreError>)
    ensures
        outcome(r) == user_outcome(line@),
{
    match ResponseCode::parse(line) {
        Some(c) => if c.0 == 381 {
            Ok(AuthStep::SendPassword)
        } else if c.0 == 281 {
            Ok(AuthStep::Done)
        } else {
            Err(CoreError::NtpAuthFailed)
        },
        None => Err(CoreError::NtpAuthFailed),
    }
}

/// What the reply to a password means.
pub open spec fn password_outcome(line: Seq<char>) -> Result<(), CoreErrorView> {
    if reply_code(line) == Some(281u16) {
        Ok(())
    } else {
        Err(CoreErrorView::NtpAuthFailed)
    }
}

/// What the reply to a password means.
pub fn after_password(line: &str) -> (r: Result<(), CoreError>)
    ensures
        outcome(r) == password_outcome(line@),
{
    match ResponseCode::parse(line) {
        Some(c) => if c.0 == 281 {
            Ok(())
        } else {
            Err(CoreError::NtpAuthFailed)
        },
        None => Err(CoreError::NtpAuthFailed),
    }
}

/// What the reply to `BODY` means.
pub open spec fn body_outcome(line: Seq<char>) -> Result<BodyReply, CoreErrorView> {
    match reply_code(line) {
        None => Err(CoreErrorView::Nntp("bad response: "@ + line)),
        Some(c) => if c == 222 {
            Ok(BodyReply::Follows)
        } else if c == 423 || c == 430 {
            Ok(BodyReply::Missing)
        } else {
            Err(CoreErrorView::Nntp("BODY failed: "@ + line))
        },
    }
}

/// What the reply to `BODY` means.
pub fn body_status(line: &str) -> (r: Result<BodyReply, CoreError>)
    ensures
        outcome(r) == body_outcome(line@),
{
    match ResponseCode::parse(line) {
        None => Err(CoreError::Nntp(concat("bad response: ", line))),
        Some(c) => if c.0 == 222 {
            Ok(BodyReply::Follows)
        } else if c.0 == 423 || c.0 == 430 {
            Ok(BodyReply::Missing)
        } else {
            Err(CoreError::Nntp(concat("BODY failed: ", line)))
        },
    }
}

/// What the reply to `STAT` means.
pub open spec fn stat_outcome(line: Seq<char>) -> Result<StatResult, CoreErrorView> {
    match reply_code(line) {
        None => Err(CoreErrorView::Nntp("bad response: "@ + line)),
        Some(c) => if c == 223 {
            Ok(StatResult::Present)
        } else if c == 423 || c == 430 {
            Ok(StatResult::Missing)
        } else {
            Err(CoreErrorView::Nntp("STAT failed: "@ + line))
        },
    }
}

/// What the reply to `STAT` means.
pub fn stat_status(line: &str) -> (r: Result<StatResult, CoreError>)
    ensures
        outcome(r) == stat_outcome(line@),
{
    match ResponseCode::parse(line) {
        None => Err(CoreError::Nntp(concat("bad response: ", line))),
        Some(c) => if c.0 == 223 {
            Ok(StatResult::Present)
        } else if c.0 == 423 || c.0 == 430 {
            Ok(StatResult::Missing)
        } else {
            Err(CoreError::Nntp(concat("STAT failed: ", line)))
        },
    }
}

/// The line that names the user.
pub fn user_command(user: &str) -> (r: String)
    ensures
        r@ == "AUTHINFO USER "@ + user@,
{
    concat("AUTHINFO USER ", user)
}

/// The line that gives the password.
pub fn password_command(password: &str) -> (r: String)
    ensures
        r@ == "AUTHINFO PASS "@ + password@,
{
    concat("AUTHINFO PASS ", password)
}

/// The line that asks for the body of an article.
pub fn body_command(message_id: &str) -> (r: String)
    ensures
        r@ == "BODY <"@ + message_id@ + ">"@,
{
    let mut r = concat("BODY <", message_id);
    r.append(">");
    r
}

/// The line that asks whether the server has an article.
pub fn stat_command(message_id: &str) -> (r: String)
    ensures
        r@ == "STAT <"@ + message_id@ + ">"@,
{
    let mut r = concat("STAT <", message_id);
    r.append(">");
    r
}

/// Whether a byte ends a line.
pub open spec fn is_line_end(b: u8) -> bool {
    b == 10 || b == 13
}

/// A line without the line ends at its end.
pub open spec fn without_line_end(line: Seq<u8>) -> Seq<u8>
    decreases line.len(),
{
    if line.len() > 0 && is_line_end(line.last()) {
        without_line_end(line.drop_last())
    } else {
        line
    }
}

/// A line without the line ends at its end.
pub fn strip_line_end(line: &[u8]) -> (r: &[u8])
    ensures
        r@ == without_line_end(line@),
{
    let mut n: usize = line.len();
    assert(line@.take(n as int) == line@);
    while n > 0 && (line[n - 1] == 10 || line[n - 1] == 13)
        invariant
            n <= line.len(),
            without_line_end(line@) == without_line_end(line@.take(n as int)),
        decreases n,
    {
        assert(line@.take(n as int).drop_last() == line@.take(n - 1));
        n -= 1;
    }
    let r = vstd::slice::slice_subrange(line, 0, n);
    assert(r@ == line@.take(n as int));
    r
}

/// What was read of a reply, up to its line end: the reply as text, or that the connection
/// was closed.
pub fn response_line(raw: &[u8]) -> (r: Result<String, CoreError>)
    ensures
        match r {
            Ok(s) => raw@.len() > 0 && s@ == text::decoded(without_line_end(raw@)),
            Err(e) => raw@.len() == 0 && e@ == CoreErrorView::Nntp(
                "connection closed mid-response"@,
            ),
        },
{
    if raw.len() == 0 {
        return Err(CoreError::Nntp("connection closed mid-response".to_owned()));
    }
    Ok(from_utf8_lossy(strip_line_end(raw)))
}

/// The content of a line of a body: without its one line end.
pub open spec fn line_content(line: Seq<u8>) -> Seq<u8> {
    let n = line.len() as int;
    if n >= 2 && line[n - 2] == 13 && line[n - 1] == 10 {
        line.take(n - 2)
    } else if n >= 1 && line[n - 1] == 10 {
        line.take(n - 1)
    } else {
        line
    }
}

/// Two dots at the start of a line stand for one.
pub open spec fn unstuffed(content: Seq<u8>) -> Seq<u8> {
    if content.len() >= 2 && content[0] == 46 && content[1] == 46 {
        content.skip(1)
    } else {
        content
    }
}

/// The line end within a body.
pub open spec fn crlf() -> Seq<u8> {
    seq![13u8, 10u8]
}

/// Whether a line ends the body: it holds one dot and nothing else.
pub open spec fn ends_body(line: Seq<u8>) -> bool {
    line_content(line) == seq![46u8]
}

/// What has been read of a body once one more line is read.
pub open spec fn with_line(body: Seq<u8>, line: Seq<u8>) -> Seq<u8> {
    if ends_body(line) {
        body
    } else {
        body + unstuffed(line_content(line)) + crlf()
    }
}

/// What has been read of a body.
#[derive(Debug)]
pub struct DotBody {
    bytes: Vec<u8>,
}

impl View for DotBody {
    type V = Seq<u8>;

    closed spec fn view(&self) -> Seq<u8> {
        self.bytes@
    }
}

fn content_of(line: &[u8]) -> (r: &[u8])
    ensures
        r@ == line_content(line@),
{
    let n: usize = line.len();
    let m: usize = if n >= 2 && line[n - 2] == 13 && line[n - 1] == 10 {
        n - 2
    } else if n >= 1 && line[n - 1] == 10 {
        n - 1
    } else {
        n
    };
    let r = vstd::slice::slice_subrange(line, 0, m);
    assert(r@ == line@.take(m as int));
    assert(line@.take(n as int) == line@);
    r
}

impl DotBody {
    /// Nothing read yet.
    pub fn new() -> (r: Self)
        ensures
            r@ == Seq::<u8>::empty(),
    {
        DotBody { bytes: Vec::new() }
    }

    /// Reads one more line, with its line end. Whether it ended the body is returned. Where
    /// nothing could be read the connection was closed.
    pub fn feed(&mut self, line: &[u8]) -> (r: Result<bool, CoreError>)
        ensures
            match r {
                Ok(ended) => {
                    &&& line@.len() > 0
                    &&& ended == ends_body(line@)
                    &&& final(self)@ == with_line(old(self)@, line@)
                },
                Err(e) => {
                    &&& line@.len() == 0
                    &&& e@ == CoreErrorView::Nntp("connection closed mid-body"@)
                    &&& final(self)@ == old(self)@
                },
            },
    {
        if line.len() == 0 {
            return Err(CoreError::Nntp("connection closed mid-body".to_owned()));
        }
        let content = content_of(line);
        if content.len() == 1 && content[0] == 46 {
            assert(content@ =~= seq![46u8]);
            return Ok(true);
        }
        let from: usize = if content.len() >= 2 && content[0] == 46 && content[1] == 46 {
            1
        } else {
            0
        };
        let ghost u = unstuffed(content@);
        assert(u =~= content@.skip(from as int));
        let mut i: usize = from;
        assert(old(self)@ + content@.subrange(from as int, from as int) =~= old(self)@);
        while i < content.len()
            invariant
                from <= i <= content.len(),
                self@ == old(self)@ + content@.subrange(from as int, i as int),
            decreases content.len() - i,
        {
            self.bytes.push(content[i]);
            assert(content@.subrange(from as int, i + 1) =~= content@.subrange(
                from as int,
                i as int,
            ).push(content@[i as int]));
            i += 1;
        }
        assert(content@.subrange(from as int, content.len() as int) =~= u);
        self.bytes.push(13);
        self.bytes.push(10);
        assert(self@ =~= old(self)@ + u + crlf());
        Ok(false)
    }

    /// The body.
    pub fn finish(self) -> (r: ArticleBody)
        ensures
            r.bytes@ == self@,
    {
        ArticleBody { bytes: self.bytes }
    }
}

/// A line of a body as a server sends it: a dot at its start is doubled.
pub open spec fn sent_line(content: Seq<u8>) -> Seq<u8> {
    if content.len() > 0 && content[0] == 46 {
        seq![46u8] + content + crlf()
    } else {
        content + crlf()
    }
}

/// What is read of a body, line after line.
pub open spec fn body_of(lines: Seq<Seq<u8>>) -> Seq<u8>
    decreases lines.len(),
{
    if lines.len() == 0 {
        Seq::empty()
    } else {
        with_line(body_of(lines.drop_last()), lines.last())
    }
}

/// The lines of a body, each with its line end.
pub open spec fn plain_body(contents: Seq<Seq<u8>>) -> Seq<u8>
    decreases contents.len(),
{
    if contents.len() == 0 {
        Seq::empty()
    } else {
        plain_body(contents.drop_last()) + contents.last() + crlf()
    }
}

/// The lines of a body as a server sends them, with the line that ends it.
pub open spec fn sent_lines(contents: Seq<Seq<u8>>) -> Seq<Seq<u8>> {
    contents.map_values(|c: Seq<u8>| sent_line(c)).push(seq![46u8] + crlf())
}

/// A line that a server sends is read as its content, and never ends the body.
pub proof fn sent_line_is_read_back(content: Seq<u8>)
    ensures
        !ends_body(sent_line(content)),
        unstuffed(line_content(sent_line(content))) == content,
{
    let line = sent_line(content);
    let n = line.len() as int;
    let c = line_content(line);
    assert(line[n - 2] == 13 && line[n - 1] == 10);
    if content.len() > 0 && content[0] == 46 {
        assert(c =~= seq![46u8] + content);
        assert(c.len() >= 2);
        assert(unstuffed(c) =~= content);
    } else {
        assert(c =~= content);
    }
}

proof fn lemma_sent_contents(contents: Seq<Seq<u8>>)
    ensures
        body_of(contents.map_values(|c: Seq<u8>| sent_line(c))) == plain_body(contents),
    decreases contents.len(),
{
    let f = |c: Seq<u8>| sent_line(c);
    let lines = contents.map_values(f);
    if contents.len() > 0 {
        lemma_sent_contents(contents.drop_last());
        sent_line_is_read_back(contents.last());
        assert(lines.drop_last() =~= contents.drop_last().map_values(f));
    }
}

/// A body that a server sends is read as it was: the last of its lines ends it and no other,
/// and what is read then is what was sent.
pub proof fn sent_body_is_read_back(contents: Seq<Seq<u8>>, i: int)
    requires
        0 <= i < sent_lines(contents).len(),
    ensures
        ends_body(sent_lines(contents)[i]) == (i == contents.len()),
        body_of(sent_lines(contents)) == plain_body(contents),
{
    let f = |c: Seq<u8>| sent_line(c);
    let end = seq![46u8] + crlf();
    let lines = sent_lines(contents);
    assert(line_content(end) =~= seq![46u8]);
    if i < contents.len() {
        sent_line_is_read_back(contents[i]);
        assert(lines[i] == sent_line(contents[i]));
    }
    assert(lines.drop_last() =~= contents.map_values(f));
    lemma_sent_contents(contents);
}

/// A reply has the number that its first three digits write; a reply that is shorter or starts
/// with anything else has none.
pub proof fn replies_start_with_numbers(a: char, b: char, c: char, rest: Seq<char>, s: Seq<char>)
    ensures
        ('0' as u32 <= a as u32 <= '9' as u32 && '0' as u32 <= b as u32 <= '9' as u32 && '0' as u32
            <= c as u32 <= '9' as u32) ==> reply_code(seq![a, b, c] + rest) == Some(
            (100 * (a as u32 - '0' as u32) + 10 * (b as u32 - '0' as u32) + (c as u32
                - '0' as u32)) as u16,
        ),
        !('0' as u32 <= a as u32 <= '9' as u32 && '0' as u32 <= b as u32 <= '9' as u32
            && '0' as u32 <= c as u32 <= '9' as u32) ==> reply_code(seq![a, b, c] + rest) is None,
        s.len() < 3 ==> reply_code(s) is None,
{
    let t = seq![a, b, c];
    assert((t + rest).take(3) =~= t);
    assert(t[0] == a && t[1] == b && t[2] == c);
    reveal_with_fuel(text::digits_value, 4);
    assert(t.drop_last() =~= seq![a, b]);
    assert(seq![a, b].drop_last() =~= seq![a]);
    assert(seq![a].drop_last() =~= Seq::empty());
}

/// What the numbers of replies mean: a server is ready with a number in the two hundreds; a name
/// is enough with 281 and wants a password with 381; a password is right with 281; an article
/// follows with 222 and is there with 223; and it is missing with 423 or 430. Anything else is an
/// error.
pub proof fn numbers_of_replies_mean(line: Seq<char>)
    ensures
        greeting_outcome(line) is Ok <==> reply_code(line) is Some && 200 <= reply_code(line)->0
            <= 299,
        user_outcome(line) == Ok::<AuthStep, CoreErrorView>(AuthStep::SendPassword) <==> reply_code(
            line,
        ) == Some(381u16),
        user_outcome(line) == Ok::<AuthStep, CoreErrorView>(AuthStep::Done) <==> reply_code(line)
            == Some(281u16),
        user_outcome(line) is Err ==> user_outcome(line)->Err_0 is NtpAuthFailed,
        password_outcome(line) is Ok <==> reply_code(line) == Some(281u16),
        password_outcome(line) is Err ==> password_outcome(line)->Err_0 is NtpAuthFailed,
        body_outcome(line) == Ok::<BodyReply, CoreErrorView>(BodyReply::Follows) <==> reply_code(
            line,
        ) == Some(222u16),
        body_outcome(line) == Ok::<BodyReply, CoreErrorView>(BodyReply::Missing) <==> (reply_code(
            line,
        ) == Some(423u16) || reply_code(line) == Some(430u16)),
        stat_outcome(line) == Ok::<StatResult, CoreErrorView>(StatResult::Present) <==> reply_code(
            line,
        ) == Some(223u16),
        stat_outcome(line) == Ok::<StatResult, CoreErrorView>(StatResult::Missing) <==> (reply_code(
            line,
        ) == Some(423u16) || reply_code(line) == Some(430u16)),
        greeting_outcome(line) is Err ==> greeting_outcome(line)->Err_0 is NntpConnect,
        body_outcome(line) is Err ==> body_outcome(line)->Err_0 is Nntp,
        stat_outcome(line) is Err ==> stat_outcome(line)->Err_0 is Nntp,
{
}

/// A server is told a name and a password exactly if both are set and the name is not empty.
pub proof fn logins_need_name_and_password(cfg: ServerView)
    ensures
        login_of(cfg) is Some <==> cfg.user is Some && cfg.user->0.len() > 0 && cfg.password
            is Some,
        login_of(cfg) is Some ==> login_of(cfg) == Some((cfg.user->0, cfg.password->0)),
{
}

/// The line ends at the end of a line are dropped, all of them, and nothing else.
pub proof fn line_ends_are_dropped(line: Seq<u8>)
    ensures
        ({
            let n = without_line_end(line).len();
            &&& n <= line.len()
            &&& without_line_end(line) == line.take(n as int)
            &&& forall|i: int| n <= i < line.len() ==> (#[trigger] line[i] == 10 || line[i] == 13)
            &&& n > 0 ==> line[n - 1] != 10 && line[n - 1] != 13
        }),
    decreases line.len(),
{
    if line.len() > 0 && is_line_end(line.last()) {
        let t = line.drop_last();
        line_ends_are_dropped(t);
        let n = without_line_end(t).len();
        assert(t.take(n as int) =~= line.take(n as int));
        assert forall|i: int| n <= i < line.len() implies (#[trigger] line[i] == 10 || line[i]
            == 13) by {
            if i < t.len() {
                assert(line[i] == t[i]);
            }
        }
    } else {
        assert(line.take(line.len() as int) =~= line);
    }
}

/// A line of a body is kept as it is, with its line end, unless it starts with two dots, of which
/// one is dropped. A single dot ends the body and is not part of it.
pub proof fn lines_of_a_body_are_kept(body: Seq<u8>, content: Seq<u8>)
    requires
        !content.contains(10u8),
        content.len() > 0 ==> content[content.len() - 1] != 13,
    ensures
        ends_body(content + seq![13u8, 10u8]) <==> content == seq![46u8],
        ends_body(content + seq![10u8]) <==> content == seq![46u8],
        content != seq![46u8] && !(content.len() >= 2 && content[0] == 46 && content[1] == 46)
            ==> with_line(body, content + seq![13u8, 10u8]) == body + content + seq![13u8, 10u8],
        content.len() >= 2 && content[0] == 46 && content[1] == 46 ==> with_line(
            body,
            content + seq![13u8, 10u8],
        ) == body + content.skip(1) + seq![13u8, 10u8],
        content == seq![46u8] ==> with_line(body, content + seq![13u8, 10u8]) == body,
        with_line(body, content + seq![10u8]) == with_line(body, content + seq![13u8, 10u8]),
{
    let line = content + seq![13u8, 10u8];
    let short = content + seq![10u8];
    let n = line.len() as int;
    assert(line[n - 2] == 13 && line[n - 1] == 10);
    assert(line.take(n - 2) =~= content);
    let m = short.len() as int;
    assert(short[m - 1] == 10);
    if m >= 2 {
        assert(short[m - 2] == content[content.len() - 1]);
    }
    assert(short.take(m - 1) =~= content);
}

/// The lines of a body follow each other, each with its line end.
pub proof fn lines_follow_each_other(contents: Seq<Seq<u8>>, c: Seq<u8>)
    ensures
        plain_body(Seq::empty()) == Seq::<u8>::empty(),
        plain_body(contents.push(c)) == plain_body(contents) + c + seq![13u8, 10u8],
{
    assert(contents.push(c).drop_last() =~= contents);
}

/// A refusal tells the reply of the server, behind what was refused; a reply without a number is
/// told as a bad one.
pub proof fn refusals_tell_the_reply(line: Seq<char>)
    ensures
        ({
            let bad = reply_code(line) is None;
            &&& greeting_outcome(line) is Err ==> greeting_outcome(line)->Err_0
                == CoreErrorView::NntpConnect(
                if bad {
                    "bad greeting: "@ + line
                } else {
                    "server greeting rejected: "@ + line
                },
            )
            &&& body_outcome(line) is Err ==> body_outcome(line)->Err_0 == CoreErrorView::Nntp(
                if bad {
                    "bad response: "@ + line
                } else {
                    "BODY failed: "@ + line
                },
            )
            &&& stat_outcome(line) is Err ==> stat_outcome(line)->Err_0 == CoreErrorView::Nntp(
                if bad {
                    "bad response: "@ + line
                } else {
                    "STAT failed: "@ + line
                },
            )
        }),
{
}

} // verus!
