use vstd::prelude::*;
use crate::text::{
    chars_of, is_ascii_alphanumeric, lemma_trim_keeps_alphanumeric_ends, string_from_range, trim,
    trim_bounds,
};

verus! {

/// The field name, with its `=`, that the submit form carries the message under.
pub open spec fn message_key() -> Seq<char> {
    seq!['m', 'e', 's', 's', 'a', 'g', 'e', '=']
}

/// Whether `key` occurs in `text` starting at index `i`.
pub open spec fn key_at(text: Seq<char>, key: Seq<char>, i: int) -> bool {
    0 <= i && i + key.len() <= text.len() && text.subrange(i, i + key.len()) == key
}

/// The first index at or after `from` where `key` occurs in `text`, as `str::find` gives it.
pub open spec fn find_from(text: Seq<char>, key: Seq<char>, from: int) -> Option<int>
    decreases text.len() + 1 - from,
{
    if from < 0 || from + key.len() > text.len() {
        None
    } else if text.subrange(from, from + key.len()) == key {
        Some(from)
    } else {
        find_from(text, key, from + 1)
    }
}

/// What the form handler reads out of a form value: `+` and `%20` stand for a
/// space, the value ends at the first `&`, and every other character stands
/// for itself.
pub open spec fn decode_form_value(s: Seq<char>) -> Seq<char>
    decreases s.len(),
{
    if s.len() == 0 {
        Seq::empty()
    } else if s[0] == '&' {
        Seq::empty()
    } else if s[0] == '+' {
        seq![' '] + decode_form_value(s.drop_first())
    } else if s.len() >= 3 && s[0] == '%' && s[1] == '2' && s[2] == '0' {
        seq![' '] + decode_form_value(s.subrange(3, s.len() as int))
    } else {
        seq![s[0]] + decode_form_value(s.drop_first())
    }
}

/// The message that a query string submits: the text after the first
/// `message=`, decoded and trimmed; `None` where the query has no `message=`.
pub open spec fn submitted_message(query: Seq<char>) -> Option<Seq<char>> {
    match find_from(query, message_key(), 0) {
        Some(i) => Some(trim(decode_form_value(query.subrange(i + 8, query.len() as int)))),
        None => None,
    }
}

/// The message that an optional query string submits.
pub open spec fn query_message(query: Option<Seq<char>>) -> Option<Seq<char>> {
    match query {
        Some(q) => submitted_message(q),
        None => None,
    }
}

/// `find_from` gives the first occurrence at or after `from`, and `None`
/// exactly where there is none.
pub proof fn lemma_find_from_first(text: Seq<char>, key: Seq<char>, from: int)
    requires
        0 <= from,
    ensures
        match find_from(text, key, from) {
            Some(i) => from <= i && key_at(text, key, i) && forall|j: int|
                from <= j < i ==> !key_at(text, key, j),
            None => forall|j: int| from <= j ==> !key_at(text, key, j),
        },
    decreases text.len() + 1 - from,
{
    if from + key.len() > text.len() {
    } else if text.subrange(from, from + key.len()) == key {
    } else {
        lemma_find_from_first(text, key, from + 1);
    }
}

/// The form encoding of spaces: each space becomes `+`.
pub open spec fn form_encode_spaces(t: Seq<char>) -> Seq<char> {
    t.map_values(|c: char| if c == ' ' { '+' } else { c })
}

/// Whether `t` holds none of the characters that the decoding treats specially.
pub open spec fn plain_text(t: Seq<char>) -> bool {
    !t.contains('+') && !t.contains('%') && !t.contains('&')
}

proof fn lemma_drop_first_keeps_absent(t: Seq<char>, c: char)
    requires
        t.len() > 0,
        !t.contains(c),
    ensures
        !t.drop_first().contains(c),
{
    if t.drop_first().contains(c) {
        let i = choose|i: int| 0 <= i < t.drop_first().len() && t.drop_first()[i] == c;
        assert(t[i + 1] == c);
    }
}

/// A decoded form value holds no `+` and no `&`.
pub proof fn lemma_decoded_has_no_plus_or_ampersand(s: Seq<char>)
    ensures
        !decode_form_value(s).contains('+'),
        !decode_form_value(s).contains('&'),
    decreases s.len(),
{
    let d = decode_form_value(s);
    if s.len() == 0 || s[0] == '&' {
    } else {
        let rest = if s[0] != '+' && s.len() >= 3 && s[0] == '%' && s[1] == '2' && s[2] == '0' {
            s.subrange(3, s.len() as int)
        } else {
            s.drop_first()
        };
        lemma_decoded_has_no_plus_or_ampersand(rest);
        let dr = decode_form_value(rest);
        assert(d == seq![d[0]] + dr);
        assert(d[0] != '+' && d[0] != '&');
        assert forall|i: int| 0 <= i < d.len() implies d[i] != '+' && d[i] != '&' by {
            if i > 0 {
                assert(d[i] == dr[i - 1]);
            }
        }
    }
}

/// Decoding a text without `%` and `&` and then more is decoding each part.
pub proof fn lemma_decode_append(a: Seq<char>, b: Seq<char>)
    requires
        !a.contains('%'),
        !a.contains('&'),
    ensures
        decode_form_value(a + b) == decode_form_value(a) + decode_form_value(b),
    decreases a.len(),
{
    if a.len() == 0 {
        assert(a + b =~= b);
        assert(decode_form_value(a) + decode_form_value(b) =~= decode_form_value(b));
    } else {
        assert((a + b)[0] == a[0]);
        assert((a + b).drop_first() =~= a.drop_first() + b);
        assert(a[0] != '%' && a[0] != '&') by {
            assert(a.contains(a[0]));
        }
        lemma_drop_first_keeps_absent(a, '%');
        lemma_drop_first_keeps_absent(a, '&');
        lemma_decode_append(a.drop_first(), b);
        let h = if a[0] == '+' { ' ' } else { a[0] };
        assert(decode_form_value(a + b) == seq![h] + decode_form_value(a.drop_first() + b));
        assert(decode_form_value(a) == seq![h] + decode_form_value(a.drop_first()));
        assert(seq![h] + (decode_form_value(a.drop_first()) + decode_form_value(b)) =~= (seq![h]
            + decode_form_value(a.drop_first())) + decode_form_value(b));
    }
}

/// Decoding undoes the form encoding of spaces, for text that holds none of
/// `+`, `%` and `&`.
pub proof fn lemma_decode_form_encoded(t: Seq<char>)
    requires
        plain_text(t),
    ensures
        decode_form_value(form_encode_spaces(t)) == t,
        !form_encode_spaces(t).contains('%'),
        !form_encode_spaces(t).contains('&'),
    decreases t.len(),
{
    let e = form_encode_spaces(t);
    if t.len() == 0 {
        assert(e =~= Seq::<char>::empty());
    } else {
        assert(t[0] != '+' && t[0] != '%' && t[0] != '&') by {
            assert(t.contains(t[0]));
        }
        lemma_drop_first_keeps_absent(t, '+');
        lemma_drop_first_keeps_absent(t, '%');
        lemma_drop_first_keeps_absent(t, '&');
        lemma_decode_form_encoded(t.drop_first());
        assert(e.drop_first() =~= form_encode_spaces(t.drop_first()));
        assert(e[0] == if t[0] == ' ' { '+' } else { t[0] });
        assert(seq![t[0]] + t.drop_first() =~= t);
        assert(!e.contains('%') && !e.contains('&')) by {
            if e.contains('%') || e.contains('&') {
                let i = choose|i: int| 0 <= i < e.len() && (e[i] == '%' || e[i] == '&');
                if i == 0 {
                } else {
                    assert(e[i] == form_encode_spaces(t.drop_first())[i - 1]);
                }
            }
        }
    }
}

/// The form's message arrives as it was typed: a query that starts with
/// `message=` followed by a text with spaces sent as `+`, alone or followed
/// by `&` and further fields, submits that text, where the text holds none of
/// `+`, `%` and `&` and has no white space at either end.
pub proof fn lemma_form_round_trip(t: Seq<char>, rest: Seq<char>)
    requires
        plain_text(t),
        trim(t) == t,
    ensures
        submitted_message(message_key() + form_encode_spaces(t)) == Some(t),
        submitted_message(message_key() + form_encode_spaces(t) + seq!['&'] + rest) == Some(t),
{
    lemma_decode_form_encoded(t);
    let e = form_encode_spaces(t);
    let q1 = message_key() + e;
    let q2 = message_key() + e + seq!['&'] + rest;
    assert(q1.subrange(0, 8) =~= message_key());
    assert(q2.subrange(0, 8) =~= message_key());
    assert(q1.subrange(8, q1.len() as int) =~= e);
    assert(q2.subrange(8, q2.len() as int) =~= e + (seq!['&'] + rest));
    lemma_decode_append(e, seq!['&'] + rest);
    assert((seq!['&'] + rest)[0] == '&');
    assert(decode_form_value(e) + decode_form_value(seq!['&'] + rest) =~= t);
}

/// Timeouts and connection policy of the web server.
#[derive(PartialEq, Eq, Structural, Clone, Copy, Debug)]
pub struct ServerTimeouts {
    /// Time allowed for the first request on a new connection to start.
    pub start_read_request_secs: u64,
    /// Time allowed for reading a request once it has started.
    pub read_request_secs: u64,
    /// Time allowed for writing a response.
    pub write_secs: u64,
    /// Time allowed for a further request on a kept-alive connection to start.
    pub persistent_start_read_request_secs: u64,
    /// Whether connections are kept alive between requests.
    pub keep_connection_alive: bool,
}

/// The web server's configuration: five seconds for a first request to
/// start, one second for the other steps, connections kept alive.
pub fn server_timeouts() -> (t: ServerTimeouts)
    ensures
        t == (ServerTimeouts {
            start_read_request_secs: 5,
            read_request_secs: 1,
            write_secs: 1,
            persistent_start_read_request_secs: 1,
            keep_connection_alive: true,
        }),
{
    ServerTimeouts {
        start_read_request_secs: 5,
        read_request_secs: 1,
        write_secs: 1,
        persistent_start_read_request_secs: 1,
        keep_connection_alive: true,
    }
}

/// Pause, after a device has joined the access point, before the network
/// configuration is read and reported.
pub const IP_SETTLE_MILLIS: u64 = 2000;

/// Pause between two looks at the link while no device is connected.
pub const LINK_POLL_MILLIS: u64 = 500;

/// What the web server task reports when it first looks at the link.
#[derive(PartialEq, Eq, Structural, Clone, Copy, Debug)]
pub enum LinkStart {
    /// The link is already up: a device may already be connected.
    AlreadyConnected,
    /// The link is down: wait for a device.
    WaitingForDevice,
}

/// What the web server task reports after a look at the link.
#[derive(PartialEq, Eq, Structural, Clone, Copy, Debug)]
pub enum LinkNotice {
    /// Nothing to report.
    Quiet,
    /// A device has connected: wait `IP_SETTLE_MILLIS`, then report the
    /// network configuration.
    Connected,
    /// The device has disconnected.
    Disconnected,
}

/// What the web server task does after a look at the link.
#[derive(PartialEq, Eq, Structural, Clone, Copy, Debug)]
pub enum LinkNext {
    /// The link is up: start serving requests.
    StartServer,
    /// The link is down: look again after this many milliseconds.
    PollAfterMillis(u64),
}

/// The outcome of one look at the link.
#[derive(PartialEq, Eq, Structural, Clone, Copy, Debug)]
pub struct LinkStep {
    pub notice: LinkNotice,
    pub next: LinkNext,
}

/// One look at the link, as a function of the link state seen last, whether
/// a connection is reported, and the link state now: whether a connection is
/// reported afterwards, and the outcome of the look.
pub open spec fn link_step_spec(last_up: bool, logged: bool, link_up: bool) -> (bool, LinkStep) {
    let notice = if link_up != last_up && link_up && !logged {
        LinkNotice::Connected
    } else if link_up != last_up && !link_up && logged {
        LinkNotice::Disconnected
    } else {
        LinkNotice::Quiet
    };
    let logged_after = if notice == LinkNotice::Connected {
        true
    } else if notice == LinkNotice::Disconnected {
        false
    } else {
        logged
    };
    let next = if link_up {
        LinkNext::StartServer
    } else {
        LinkNext::PollAfterMillis(LINK_POLL_MILLIS)
    };
    (logged_after, LinkStep { notice, next })
}

/// The watch's state, as (link state seen last, connection reported), after
/// the first look `first` and then the looks `polls`.
pub open spec fn link_state_after(first: bool, polls: Seq<bool>) -> (bool, bool)
    decreases polls.len(),
{
    if polls.len() == 0 {
        (first, first)
    } else {
        let st = link_state_after(first, polls.drop_last());
        (polls.last(), link_step_spec(st.0, st.1, polls.last()).0)
    }
}

/// The outcomes of the looks `polls` that follow the first look `first`.
pub open spec fn link_outcomes(first: bool, polls: Seq<bool>) -> Seq<LinkStep>
    decreases polls.len(),
{
    if polls.len() == 0 {
        Seq::empty()
    } else {
        let st = link_state_after(first, polls.drop_last());
        link_outcomes(first, polls.drop_last()).push(link_step_spec(st.0, st.1, polls.last()).1)
    }
}

proof fn lemma_link_state_tracks(first: bool, polls: Seq<bool>)
    ensures
        link_state_after(first, polls).0 == link_state_after(first, polls).1,
        link_state_after(first, polls).0 == (if polls.len() == 0 { first } else { polls.last() }),
        link_outcomes(first, polls).len() == polls.len(),
    decreases polls.len(),
{
    if polls.len() > 0 {
        lemma_link_state_tracks(first, polls.drop_last());
    }
}

/// Over any run of looks at the link before the server starts: after the
/// first look `first`, each look that finds the link down is followed by a
/// pause of `LINK_POLL_MILLIS`; the server starts at the first later look that
/// finds it up; a connection is reported exactly at a look that finds the link
/// up after one that found it down (for the first of them, after `first`), a
/// disconnection exactly at one that finds it down after one that found it up.
pub proof fn lemma_link_watch_run(first: bool, polls: Seq<bool>)
    ensures
        link_outcomes(first, polls).len() == polls.len(),
        forall|i: int|
            0 <= i < polls.len() ==> {
                let before = if i == 0 { first } else { polls[i - 1] };
                &&& (#[trigger] link_outcomes(first, polls)[i]).next == (if polls[i] {
                    LinkNext::StartServer
                } else {
                    LinkNext::PollAfterMillis(LINK_POLL_MILLIS)
                })
                &&& (link_outcomes(first, polls)[i].notice == LinkNotice::Connected <==> !before
                    && polls[i])
                &&& (link_outcomes(first, polls)[i].notice == LinkNotice::Disconnected
                    <==> before && !polls[i])
            },
    decreases polls.len(),
{
    lemma_link_state_tracks(first, polls);
    if polls.len() > 0 {
        let p = polls.drop_last();
        lemma_link_watch_run(first, p);
        lemma_link_state_tracks(first, p);
        assert forall|i: int| 0 <= i < polls.len() implies {
            let before = if i == 0 { first } else { polls[i - 1] };
            &&& (#[trigger] link_outcomes(first, polls)[i]).next == (if polls[i] {
                LinkNext::StartServer
            } else {
                LinkNext::PollAfterMillis(LINK_POLL_MILLIS)
            })
            &&& (link_outcomes(first, polls)[i].notice == LinkNotice::Connected <==> !before
                && polls[i])
            &&& (link_outcomes(first, polls)[i].notice == LinkNotice::Disconnected <==> before
                && !polls[i])
        } by {
            if i < p.len() {
                assert(link_outcomes(first, polls)[i] == link_outcomes(first, p)[i]);
                assert(polls[i] == p[i]);
                if i > 0 {
                    assert(polls[i - 1] == p[i - 1]);
                }
            } else {
                if i > 0 {
                    assert(polls[i - 1] == p.last());
                }
            }
        }
    }
}

/// The web server task's watch on the link before it starts serving: the
/// link state seen last, and whether a connection has been reported.
pub struct LinkMonitor {
    last_link_up: bool,
    connection_logged: bool,
}

impl LinkMonitor {
    /// A connection is reported exactly while the link was last seen up.
    #[verifier::type_invariant]
    pub closed spec fn logged_matches_link(self) -> bool {
        self.connection_logged == self.last_link_up
    }

    /// The link state seen last.
    pub closed spec fn last_link_up(self) -> bool {
        self.last_link_up
    }

    /// Whether a connection is currently reported.
    pub closed spec fn connection_logged(self) -> bool {
        self.connection_logged
    }

    /// The watch after the first look at the link: a link already up counts
    /// as a reported connection.
    pub fn start(link_up: bool) -> (r: (LinkMonitor, LinkStart))
        ensures
            r.0.last_link_up() == link_up,
            r.0.connection_logged() == link_up,
            r.1 == (if link_up { LinkStart::AlreadyConnected } else { LinkStart::WaitingForDevice }),
    {
        if link_up {
            (LinkMonitor { last_link_up: true, connection_logged: true }, LinkStart::AlreadyConnected)
        } else {
            (
                LinkMonitor { last_link_up: false, connection_logged: false },
                LinkStart::WaitingForDevice,
            )
        }
    }

    /// One more look at the link: a change to up with no connection reported
    /// reports a connection, a change to down with one reported reports the
    /// disconnection; the server starts once the link is up, and the task
    /// looks again after `LINK_POLL_MILLIS` while it is down.
    pub fn observe(&mut self, link_up: bool) -> (step: LinkStep)
        ensures
            step.notice == (if link_up != old(self).last_link_up() && link_up
                && !old(self).connection_logged() {
                LinkNotice::Connected
            } else if link_up != old(self).last_link_up() && !link_up
                && old(self).connection_logged() {
                LinkNotice::Disconnected
            } else {
                LinkNotice::Quiet
            }),
            final(self).connection_logged() == (if step.notice == LinkNotice::Connected {
                true
            } else if step.notice == LinkNotice::Disconnected {
                false
            } else {
                old(self).connection_logged()
            }),
            final(self).last_link_up() == link_up,
            (final(self).connection_logged(), step) == link_step_spec(
                old(self).last_link_up(),
                old(self).connection_logged(),
                link_up,
            ),
            step.notice == LinkNotice::Connected <==> !old(self).last_link_up() && link_up,
            step.notice == LinkNotice::Disconnected <==> old(self).last_link_up() && !link_up,
            step.next == (if link_up {
                LinkNext::StartServer
            } else {
                LinkNext::PollAfterMillis(LINK_POLL_MILLIS)
            }),
    {
        proof {
            use_type_invariant(&*self);
        }
        let mut notice = LinkNotice::Quiet;
        let mut logged = self.connection_logged;
        if link_up != self.last_link_up {
            if link_up && !logged {
                notice = LinkNotice::Connected;
                logged = true;
            } else if !link_up && logged {
                notice = LinkNotice::Disconnected;
                logged = false;
            }
        }
        *self = LinkMonitor { last_link_up: link_up, connection_logged: logged };
        let next = if link_up {
            LinkNext::StartServer
        } else {
            LinkNext::PollAfterMillis(LINK_POLL_MILLIS)
        };
        LinkStep { notice, next }
    }

    /// The watch reports a connection exactly while the link was last seen
    /// up, so a connection is reported on each change of the link to up and
    /// a disconnection on each change to down.
    pub proof fn lemma_notices_follow_link(m: LinkMonitor, link_up: bool)
        requires
            m.logged_matches_link(),
        ensures
            m.connection_logged() == m.last_link_up(),
            (link_up != m.last_link_up() && link_up && !m.connection_logged()) <==> (
            !m.last_link_up() && link_up),
            (link_up != m.last_link_up() && !link_up && m.connection_logged()) <==> (
            m.last_link_up() && !link_up),
    {
    }
}

/// The form's message arrives as it was typed, whatever its length: a query
/// that starts with `message=` followed by a text with spaces sent as `+`,
/// alone or followed by `&` and further fields, submits exactly that text,
/// where the text holds none of `+`, `%` and `&` and starts and ends with an
/// ASCII letter or digit.
pub proof fn lemma_typed_text_round_trip(t: Seq<char>, rest: Seq<char>)
    requires
        plain_text(t),
        t.len() > 0,
        is_ascii_alphanumeric(t[0]),
        is_ascii_alphanumeric(t.last()),
    ensures
        submitted_message(message_key() + form_encode_spaces(t)) == Some(t),
        submitted_message(message_key() + form_encode_spaces(t) + seq!['&'] + rest) == Some(t),
{
    lemma_trim_keeps_alphanumeric_ends(t);
    lemma_form_round_trip(t, rest);
}

/// Whether `q[i..i + key.len()]` equals `key`.
fn matches_at(q: &Vec<char>, key: &Vec<char>, i: usize) -> (b: bool)
    requires
        i + key.len() <= q.len(),
    ensures
        b == (q@.subrange(i as int, i + key.len()) == key@),
{
    let mut k: usize = 0;
    while k < key.len()
        invariant
            i + key.len() <= q.len(),
            k <= key.len(),
            forall|j: int| 0 <= j < k ==> q@[i + j] == key@[j],
        decreases key.len() - k,
    {
        if q[i + k] != key[k] {
            assert(q@.subrange(i as int, i + key.len())[k as int] != key@[k as int]);
            return false;
        }
        k += 1;
    }
    assert(q@.subrange(i as int, i + key.len()) =~= key@);
    true
}

/// The first index where `key` occurs in `q`.
fn find_key(q: &Vec<char>, key: &Vec<char>) -> (r: Option<usize>)
    ensures
        match r {
            Some(i) => find_from(q@, key@, 0) == Some(i as int) && i + key.len() <= q.len(),
            None => find_from(q@, key@, 0) is None,
        },
{
    let n = q.len();
    let k = key.len();
    if k > n {
        return None;
    }
    if k == 0 {
        assert(q@.subrange(0, 0) =~= key@);
        return Some(0);
    }
    let mut i: usize = 0;
    while i <= n - k
        invariant
            1 <= k <= n,
            n == q.len(),
            k == key.len(),
            i <= n - k + 1,
            find_from(q@, key@, 0) == find_from(q@, key@, i as int),
        decreases n - k + 1 - i,
    {
        if matches_at(q, key, i) {
            return Some(i);
        }
        i += 1;
    }
    None
}

/// Decodes the form value `v[start..]`.
fn decode_from(v: &Vec<char>, start: usize) -> (out: Vec<char>)
    requires
        start <= v.len(),
    ensures
        out@ == decode_form_value(v@.subrange(start as int, v.len() as int)),
{
    let n = v.len();
    let mut out: Vec<char> = Vec::new();
    let mut i: usize = start;
    while i < n
        invariant
            start <= i <= n == v.len(),
            decode_form_value(v@.subrange(start as int, n as int)) == out@ + decode_form_value(
                v@.subrange(i as int, n as int),
            ),
        decreases n - i,
    {
        let ghost t = v@.subrange(i as int, n as int);
        let ch = v[i];
        assert(t[0] == ch);
        if ch == '&' {
            assert(out@ + decode_form_value(t) == out@);
            return out;
        } else if ch == '+' {
            assert(t.drop_first() == v@.subrange(i + 1, n as int));
            out.push(' ');
            i += 1;
        } else if ch == '%' && n - i > 2 && v[i + 1] == '2' && v[i + 2] == '0' {
            assert(t.subrange(3, t.len() as int) == v@.subrange(i + 3, n as int));
            out.push(' ');
            i += 3;
        } else {
            assert(t.drop_first() == v@.subrange(i + 1, n as int));
            out.push(ch);
            i += 1;
        }
    }
    assert(out@ + decode_form_value(v@.subrange(n as int, n as int)) == out@);
    out
}

/// The message submitted by `query`: the text after the first `message=`,
/// decoded and with surrounding white space removed; `None` where the query
/// holds no `message=`.
pub fn submitted_message_text(query: &str) -> (r: Option<String>)
    ensures
        match r {
            Some(m) => submitted_message(query@) == Some(m@),
            None => submitted_message(query@) is None,
        },
{
    let q = chars_of(query);
    let key: Vec<char> = vec!['m', 'e', 's', 's', 'a', 'g', 'e', '='];
    assert(key@ == message_key());
    match find_key(&q, &key) {
        None => None,
        Some(i) => {
            let decoded = decode_from(&q, i + 8);
            let (lo, hi) = trim_bounds(&decoded);
            Some(string_from_range(&decoded, lo, hi))
        },
    }
}

/// The handler of the web form's `/submit` route.
pub struct LoggingSubmitService;

impl LoggingSubmitService {
    /// The message that a request to `/submit` hands on to the display, from
    /// the request's query string: `None` where there is no query or it holds
    /// no `message=`.
    pub fn message_from_query(&self, query: Option<&str>) -> (r: Option<String>)
        ensures
            match r {
                Some(m) => query matches Some(q) && submitted_message(q@) == Some(m@),
                None => query is None || submitted_message(query->0@) is None,
            },
    {
        match query {
            Some(q) => submitted_message_text(q),
            None => None,
        }
    }
}

} // verus!
