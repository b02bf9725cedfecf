//! What the panel's server answers: the page with the data in it, the data alone,
//! and the replies to requests.

use vstd::prelude::*;
use vstd::utf8::encode_utf8;
use crate::numbers::{chars_of, decimal, int_text};
use crate::text::same;

verus! {

/// The place for the data in the page. Without data the page is valid too.
pub const DATA_MARK: &'static str = "/*__DATA__*/null";

// ------------------------------------------------------------------ rendering

/// A text begins with another.
pub open spec fn begins_with(s: Seq<char>, start: Seq<char>) -> bool {
    s.len() >= start.len() && s.take(start.len() as int) == start
}

/// A text with each occurrence of `mark` replaced, from the left and without
/// overlaps.
pub open spec fn replaced(s: Seq<char>, mark: Seq<char>, by: Seq<char>) -> Seq<char>
    decreases s.len(),
{
    if s.len() == 0 || mark.len() == 0 {
        s
    } else if begins_with(s, mark) {
        by + replaced(s.skip(mark.len() as int), mark, by)
    } else {
        seq![s[0]] + replaced(s.drop_first(), mark, by)
    }
}

fn occurs_at(v: &Vec<char>, at: usize, mark: &Vec<char>) -> (r: bool)
    requires
        at <= v@.len(),
    ensures
        r == begins_with(v@.skip(at as int), mark@),
{
    let n = v.len();
    if n - at < mark.len() {
        return false;
    }
    let mut k: usize = 0;
    while k < mark.len()
        invariant
            k <= mark@.len(),
            n == v@.len(),
            at + mark@.len() <= n,
            forall|j: int| 0 <= j < k ==> v@[at + j] == #[trigger] mark@[j],
        decreases mark@.len() - k,
    {
        if v[at + k] != mark[k] {
            assert(v@.skip(at as int).take(mark@.len() as int)[k as int] != mark@[k as int]);
            return false;
        }
        k += 1;
    }
    assert(v@.skip(at as int).take(mark@.len() as int) =~= mark@);
    true
}

/// A text with each occurrence of `mark` replaced.
pub fn replace_all(s: &str, mark: &str, by: &str) -> (out: String)
    requires
        mark@.len() > 0,
    ensures
        out@ == replaced(s@, mark@, by@),
{
    let v = chars_of(s);
    let m = chars_of(mark);
    let n = v.len();
    let mut out = String::new();
    let mut start: usize = 0;
    let mut i: usize = 0;
    proof {
        assert(v@.skip(0) =~= s@);
        assert(out@ + s@.subrange(0, 0) + replaced(v@.skip(0), mark@, by@) =~= replaced(
            s@,
            mark@,
            by@,
        ));
    }
    while i < n
        invariant
            start <= i <= n,
            n == v@.len(),
            v@ == s@,
            m@ == mark@,
            mark@.len() > 0,
            replaced(s@, mark@, by@) == out@ + s@.subrange(start as int, i as int) + replaced(
                v@.skip(i as int),
                mark@,
                by@,
            ),
        decreases n - i,
    {
        let ghost rest = v@.skip(i as int);
        if occurs_at(&v, i, &m) {
            out.append(s.substring_char(start, i));
            out.append(by);
            proof {
                assert(rest.skip(mark@.len() as int) =~= v@.skip(i + mark@.len()));
            }
            i += m.len();
            start = i;
            assert(replaced(s@, mark@, by@) =~= out@ + s@.subrange(start as int, i as int)
                + replaced(v@.skip(i as int), mark@, by@));
        } else {
            proof {
                assert(rest.drop_first() =~= v@.skip(i + 1));
                assert(s@.subrange(start as int, i as int) + seq![rest[0]] =~= s@.subrange(
                    start as int,
                    i + 1,
                ));
                assert(replaced(s@, mark@, by@) =~= out@ + s@.subrange(start as int, i + 1)
                    + replaced(v@.skip(i + 1), mark@, by@));
            }
            i += 1;
        }
    }
    out.append(s.substring_char(start, n));
    assert(v@.skip(n as int) =~= Seq::<char>::empty());
    assert(out@ =~= replaced(s@, mark@, by@));
    out
}

/// The page: the data in its place.
pub fn render(template: &str, data: &str) -> (page: String)
    ensures
        page@ == replaced(template@, DATA_MARK@, data@),
{
    proof {
        reveal_strlit("/*__DATA__*/null");
    }
    replace_all(template, DATA_MARK, data)
}

/// A text in which the mark does not occur stays as it is.
pub proof fn lemma_nothing_to_replace(s: Seq<char>, mark: Seq<char>, by: Seq<char>)
    requires
        forall|i: int| 0 <= i < s.len() ==> !begins_with(#[trigger] s.skip(i), mark),
    ensures
        replaced(s, mark, by) == s,
    decreases s.len(),
{
    if s.len() > 0 && mark.len() > 0 {
        assert(s.skip(0) =~= s);
        let rest = s.drop_first();
        assert forall|i: int| 0 <= i < rest.len() implies !begins_with(
            #[trigger] rest.skip(i),
            mark,
        ) by {
            assert(rest.skip(i) =~= s.skip(i + 1));
        }
        lemma_nothing_to_replace(rest, mark, by);
        assert(seq![s[0]] + rest =~= s);
    }
}

/// A page with one place for the data holds the data in that place, and is the
/// template everywhere else.
pub proof fn lemma_data_stands_in_its_place(
    before: Seq<char>,
    mark: Seq<char>,
    after: Seq<char>,
    data: Seq<char>,
)
    requires
        mark.len() > 0,
        forall|i: int|
            0 <= i < before.len() ==> !begins_with(#[trigger] (before + mark + after).skip(i), mark),
        forall|i: int| 0 <= i < after.len() ==> !begins_with(#[trigger] after.skip(i), mark),
    ensures
        replaced(before + mark + after, mark, data) == before + data + after,
    decreases before.len(),
{
    let s = before + mark + after;
    if before.len() == 0 {
        assert(s.take(mark.len() as int) =~= mark);
        assert(s.skip(mark.len() as int) =~= after);
        lemma_nothing_to_replace(after, mark, data);
        assert(before + data + after =~= data + after);
    } else {
        assert(s.skip(0) =~= s);
        let rest = before.drop_first();
        assert(s.drop_first() =~= rest + mark + after);
        assert forall|i: int| 0 <= i < rest.len() implies !begins_with(
            #[trigger] (rest + mark + after).skip(i),
            mark,
        ) by {
            assert((rest + mark + after).skip(i) =~= s.skip(i + 1));
        }
        lemma_data_stands_in_its_place(rest, mark, after, data);
        assert(seq![s[0]] + (rest + data + after) =~= before + data + after);
    }
}

// ------------------------------------------------------------------ snapshots

/// What is served at a time.
pub struct Snapshot {
    pub html: String,
    pub json: String,
}

impl Snapshot {
    /// The page with the data, and the data.
    pub open spec fn shows(&self, template: Seq<char>, data: Seq<char>) -> bool {
        &&& self.html@ == replaced(template, DATA_MARK@, data)
        &&& self.json@ == data
    }

    pub fn of(template: &str, data: &str) -> (s: Snapshot)
        ensures
            s.shows(template@, data@),
    {
        Snapshot { html: render(template, data), json: data.to_owned() }
    }

    /// `self` is served after `before`, once a refresh has come out so.
    pub open spec fn follows(
        &self,
        before: Snapshot,
        template: Seq<char>,
        outcome: Result<String, String>,
    ) -> bool {
        match outcome {
            Ok(data) => self.shows(template, data@),
            Err(_) => *self == before,
        }
    }

    /// What is served after a refresh. One that failed leaves what was served.
    pub fn refreshed(self, template: &str, outcome: &Result<String, String>) -> (s: Snapshot)
        ensures
            s.follows(self, template@, *outcome),
    {
        match outcome {
            Ok(data) => Snapshot::of(template, data.as_str()),
            Err(_) => self,
        }
    }
}

/// The data of the last refresh that did not fail, or the first data.
pub open spec fn last_good(first: Seq<char>, outcomes: Seq<Result<String, String>>) -> Seq<char>
    decreases outcomes.len(),
{
    if outcomes.len() == 0 {
        first
    } else {
        match outcomes.last() {
            Ok(data) => data@,
            Err(_) => last_good(first, outcomes.drop_last()),
        }
    }
}

/// What is served from the first version on, refresh by refresh.
pub open spec fn is_served(
    versions: Seq<Snapshot>,
    template: Seq<char>,
    first: Seq<char>,
    outcomes: Seq<Result<String, String>>,
) -> bool {
    &&& versions.len() == outcomes.len() + 1
    &&& versions[0].shows(template, first)
    &&& forall|k: int|
        0 <= k < outcomes.len() ==> versions[k + 1].follows(
            versions[k],
            template,
            #[trigger] outcomes[k],
        )
}

/// However many refreshes fail, what is served is the last good version.
pub proof fn lemma_last_good_version_is_served(
    versions: Seq<Snapshot>,
    template: Seq<char>,
    first: Seq<char>,
    outcomes: Seq<Result<String, String>>,
)
    requires
        is_served(versions, template, first, outcomes),
    ensures
        versions.last().shows(template, last_good(first, outcomes)),
    decreases outcomes.len(),
{
    if outcomes.len() > 0 {
        let rest = outcomes.drop_last();
        let n = rest.len() as int;
        assert forall|k: int| 0 <= k < n implies versions.drop_last()[k + 1].follows(
            versions.drop_last()[k],
            template,
            #[trigger] rest[k],
        ) by {
            assert(rest[k] == outcomes[k]);
        }
        lemma_last_good_version_is_served(versions.drop_last(), template, first, rest);
        assert(versions.drop_last().last() == versions[n]);
        assert(versions[n + 1].follows(versions[n], template, outcomes[n]));
    }
}

// --------------------------------------------------------------------- server

/// What the server is about to do.
#[derive(Debug, Clone, Copy, PartialEq, Eq, Structural)]
pub enum Phase {
    /// Taking its port.
    Binding,
    /// Waiting for the interval to pass.
    Waiting,
    /// Refreshing the data.
    Refreshing,
    /// Nothing more: the port could not be had.
    Failed,
}

/// What has happened to the server.
pub enum Happening {
    Bound,
    NotBound,
    Elapsed,
    Refreshed(Result<String, String>),
}

/// What comes after a phase. What does not belong to the phase changes nothing.
pub open spec fn next_phase(phase: Phase, h: Happening) -> Phase {
    match (phase, h) {
        (Phase::Binding, Happening::Bound) => Phase::Waiting,
        (Phase::Binding, Happening::NotBound) => Phase::Failed,
        (Phase::Waiting, Happening::Elapsed) => Phase::Refreshing,
        (Phase::Refreshing, Happening::Refreshed(_)) => Phase::Waiting,
        _ => phase,
    }
}

/// The server: what it is about to do, and what it serves.
pub struct Server {
    pub phase: Phase,
    pub snap: Snapshot,
}

impl Server {
    /// `self` is the server once something has happened to `before`.
    pub open spec fn comes_after(
        &self,
        before: Server,
        template: Seq<char>,
        h: Happening,
    ) -> bool {
        &&& self.phase == next_phase(before.phase, h)
        &&& match (before.phase, h) {
            (Phase::Refreshing, Happening::Refreshed(outcome)) => self.snap.follows(
                before.snap,
                template,
                outcome,
            ),
            _ => self.snap == before.snap,
        }
    }

    pub fn new(template: &str, data: &str) -> (s: Server)
        ensures
            s.phase == Phase::Binding,
            s.snap.shows(template@, data@),
    {
        Server { phase: Phase::Binding, snap: Snapshot::of(template, data) }
    }

    pub fn happened(self, template: &str, h: Happening) -> (s: Server)
        ensures
            s.comes_after(self, template@, h),
    {
        match (self.phase, h) {
            (Phase::Binding, Happening::Bound) => Server { phase: Phase::Waiting, snap: self.snap },
            (Phase::Binding, Happening::NotBound) => Server {
                phase: Phase::Failed,
                snap: self.snap,
            },
            (Phase::Waiting, Happening::Elapsed) => Server {
                phase: Phase::Refreshing,
                snap: self.snap,
            },
            (Phase::Refreshing, Happening::Refreshed(outcome)) => Server {
                phase: Phase::Waiting,
                snap: self.snap.refreshed(template, &outcome),
            },
            _ => self,
        }
    }
}

/// The states of a server from its start on, one for each thing that happens.
pub open spec fn is_course(
    states: Seq<Server>,
    template: Seq<char>,
    first: Seq<char>,
    happenings: Seq<Happening>,
) -> bool {
    &&& states.len() == happenings.len() + 1
    &&& states[0].phase == Phase::Binding
    &&& states[0].snap.shows(template, first)
    &&& forall|k: int|
        0 <= k < happenings.len() ==> states[k + 1].comes_after(
            states[k],
            template,
            #[trigger] happenings[k],
        )
}

/// The outcomes of the refreshes in a course.
pub open spec fn refreshes(
    states: Seq<Server>,
    happenings: Seq<Happening>,
) -> Seq<Result<String, String>>
    decreases happenings.len(),
{
    if happenings.len() == 0 {
        Seq::empty()
    } else {
        let before = refreshes(states, happenings.drop_last());
        match (states[happenings.len() - 1].phase, happenings.last()) {
            (Phase::Refreshing, Happening::Refreshed(outcome)) => before.push(outcome),
            _ => before,
        }
    }
}

/// Whatever happens to the server, it serves the last good version. Without a port it
/// ends, and nothing was ever refreshed. With one it goes on: after each refresh, failed
/// or not, it waits, and after each interval it refreshes.
pub proof fn lemma_server_goes_on(
    states: Seq<Server>,
    template: Seq<char>,
    first: Seq<char>,
    happenings: Seq<Happening>,
)
    requires
        is_course(states, template, first, happenings),
    ensures
        states.last().snap.shows(template, last_good(first, refreshes(states, happenings))),
        states.last().phase == Phase::Failed || states.last().phase == Phase::Binding
            ==> refreshes(states, happenings).len() == 0,
        forall|j: int, k: int|
            0 <= j < k < states.len() && (#[trigger] states[j]).phase == Phase::Failed ==> (
            #[trigger] states[k]).phase == Phase::Failed,
        forall|k: int|
            0 <= k < happenings.len() && states[k].phase == Phase::Refreshing && (
            #[trigger] happenings[k]) is Refreshed ==> states[k + 1].phase == Phase::Waiting,
        forall|k: int|
            0 <= k < happenings.len() && states[k].phase == Phase::Waiting && (
            #[trigger] happenings[k]) is Elapsed ==> states[k + 1].phase == Phase::Refreshing,
    decreases happenings.len(),
{
    if happenings.len() > 0 {
        let rest = happenings.drop_last();
        let n = rest.len() as int;
        let earlier = states.drop_last();
        assert forall|k: int| 0 <= k < n implies earlier[k + 1].comes_after(
            earlier[k],
            template,
            #[trigger] rest[k],
        ) by {
            assert(rest[k] == happenings[k]);
        }
        lemma_server_goes_on(earlier, template, first, rest);
        lemma_refreshes_of_earlier(states, earlier, rest);
        assert(earlier.last() == states[n]);
        assert(states[n + 1].comes_after(states[n], template, happenings[n]));
        let before = refreshes(states, rest);
        if let Happening::Refreshed(outcome) = happenings[n] {
            assert(before.push(outcome).drop_last() =~= before);
        }
        assert forall|j: int, k: int|
            0 <= j < k < states.len() && (#[trigger] states[j]).phase == Phase::Failed implies (
        #[trigger] states[k]).phase == Phase::Failed by {
            assert(earlier[j] == states[j]);
            if k <= n {
                assert(earlier[k] == states[k]);
            } else if j < n {
                assert(earlier[n] == states[n]);
            }
        }
    }
}

proof fn lemma_refreshes_of_earlier(
    states: Seq<Server>,
    earlier: Seq<Server>,
    happenings: Seq<Happening>,
)
    requires
        happenings.len() <= earlier.len() <= states.len(),
        forall|k: int| 0 <= k < earlier.len() ==> #[trigger] earlier[k] == states[k],
    ensures
        refreshes(states, happenings) == refreshes(earlier, happenings),
    decreases happenings.len(),
{
    if happenings.len() > 0 {
        lemma_refreshes_of_earlier(states, earlier, happenings.drop_last());
        assert(earlier[happenings.len() - 1] == states[happenings.len() - 1]);
    }
}

// ------------------------------------------------------------------- requests

/// White space as Unicode has it.
pub open spec fn is_space(c: char) -> bool {
    ||| '\u{9}' <= c <= '\u{d}'
    ||| c == '\u{20}'
    ||| c == '\u{85}'
    ||| c == '\u{a0}'
    ||| c == '\u{1680}'
    ||| '\u{2000}' <= c <= '\u{200a}'
    ||| c == '\u{2028}'
    ||| c == '\u{2029}'
    ||| c == '\u{202f}'
    ||| c == '\u{205f}'
    ||| c == '\u{3000}'
}

/// Without the white space at the beginning.
pub open spec fn unspaced(s: Seq<char>) -> Seq<char>
    decreases s.len(),
{
    if s.len() > 0 && is_space(s[0]) {
        unspaced(s.drop_first())
    } else {
        s
    }
}

/// The word that a text begins with.
pub open spec fn first_word(s: Seq<char>) -> Seq<char>
    decreases s.len(),
{
    if s.len() == 0 || is_space(s[0]) {
        Seq::empty()
    } else {
        seq![s[0]] + first_word(s.drop_first())
    }
}

/// The second word of a text, empty where it has none.
pub open spec fn second_word(s: Seq<char>) -> Seq<char> {
    let words = unspaced(s);
    first_word(unspaced(words.skip(first_word(words).len() as int)))
}

/// The path that a request asks for: the second word of its first line, or "/".
pub open spec fn path_of(line: Seq<char>) -> Seq<char> {
    if second_word(line).len() == 0 {
        "/"@
    } else {
        second_word(line)
    }
}

fn space(c: char) -> (r: bool)
    ensures
        r == is_space(c),
{
    ('\u{9}' <= c && c <= '\u{d}') || c == '\u{20}' || c == '\u{85}' || c == '\u{a0}' || c
        == '\u{1680}' || ('\u{2000}' <= c && c <= '\u{200a}') || c == '\u{2028}' || c == '\u{2029}'
        || c == '\u{202f}' || c == '\u{205f}' || c == '\u{3000}'
}

fn skip_spaces(v: &Vec<char>, from: usize) -> (to: usize)
    requires
        from <= v@.len(),
    ensures
        from <= to <= v@.len(),
        v@.skip(to as int) == unspaced(v@.skip(from as int)),
{
    let mut i: usize = from;
    while i < v.len() && space(v[i])
        invariant
            from <= i <= v@.len(),
            unspaced(v@.skip(i as int)) == unspaced(v@.skip(from as int)),
        decreases v@.len() - i,
    {
        assert(v@.skip(i as int)[0] == v@[i as int]);
        assert(v@.skip(i as int).drop_first() =~= v@.skip(i + 1));
        i += 1;
    }
    if i < v.len() {
        assert(v@.skip(i as int)[0] == v@[i as int]);
    }
    i
}

fn skip_word(v: &Vec<char>, from: usize) -> (to: usize)
    requires
        from <= v@.len(),
    ensures
        from <= to <= v@.len(),
        first_word(v@.skip(from as int)) == v@.subrange(from as int, to as int),
{
    let mut i: usize = from;
    let ghost word = first_word(v@.skip(from as int));
    assert(v@.subrange(from as int, from as int) + word =~= word);
    while i < v.len() && !space(v[i])
        invariant
            from <= i <= v@.len(),
            word == v@.subrange(from as int, i as int) + first_word(v@.skip(i as int)),
        decreases v@.len() - i,
    {
        let ghost rest = v@.skip(i as int);
        assert(rest[0] == v@[i as int]);
        assert(rest.drop_first() =~= v@.skip(i + 1));
        assert(v@.subrange(from as int, i as int) + seq![rest[0]] =~= v@.subrange(
            from as int,
            i + 1,
        ));
        assert(word =~= v@.subrange(from as int, i + 1) + first_word(v@.skip(i + 1)));
        i += 1;
    }
    if i < v.len() {
        assert(v@.skip(i as int)[0] == v@[i as int]);
    }
    assert(word =~= v@.subrange(from as int, i as int));
    i
}

/// The path that a request asks for.
pub fn request_path(line: &str) -> (path: String)
    ensures
        path@ == path_of(line@),
{
    let v = chars_of(line);
    assert(v@.skip(0) =~= v@);
    let a = skip_spaces(&v, 0);
    let b = skip_word(&v, a);
    proof {
        assert(v@.skip(a as int).skip(b - a) =~= v@.skip(b as int));
    }
    let c = skip_spaces(&v, b);
    let d = skip_word(&v, c);
    assert(second_word(line@) == v@.subrange(c as int, d as int));
    if c < d {
        line.substring_char(c, d).to_owned()
    } else {
        "/".to_owned()
    }
}

/// What is asked for.
#[derive(Debug, Clone, Copy, PartialEq, Eq, Structural)]
pub enum Route {
    Page,
    Data,
    Missing,
}

/// What a path stands for.
pub open spec fn route_view(path: Seq<char>) -> Route {
    if path == "/"@ || path == "/index.html"@ {
        Route::Page
    } else if path == "/api"@ || path == "/api.json"@ {
        Route::Data
    } else {
        Route::Missing
    }
}

/// What a path stands for.
pub fn route_of(path: &str) -> (r: Route)
    ensures
        r == route_view(path@),
{
    if same(path, "/") || same(path, "/index.html") {
        Route::Page
    } else if same(path, "/api") || same(path, "/api.json") {
        Route::Data
    } else {
        Route::Missing
    }
}

/// A reply: its status, the type of its body, and its body.
pub struct Reply {
    pub status: String,
    pub ctype: String,
    pub body: String,
}

impl Reply {
    /// The reply to a request by its first line, from what is served.
    pub open spec fn answers(&self, line: Seq<char>, snap: Snapshot) -> bool {
        match route_view(path_of(line)) {
            Route::Page => self.status@ == "200 OK"@ && self.ctype@ == "text/html; charset=utf-8"@
                && self.body@ == snap.html@,
            Route::Data => self.status@ == "200 OK"@ && self.ctype@
                == "application/json; charset=utf-8"@ && self.body@ == snap.json@,
            Route::Missing => self.status@ == "404 Not Found"@ && self.ctype@
                == "text/plain; charset=utf-8"@ && self.body@ == "no existe"@,
        }
    }
}

/// The reply to a request by its first line.
pub fn handle(line: &str, snap: &Snapshot) -> (r: Reply)
    ensures
        r.answers(line@, *snap),
{
    let path = request_path(line);
    let (status, ctype, body) = match route_of(path.as_str()) {
        Route::Page => ("200 OK", "text/html; charset=utf-8", snap.html.clone()),
        Route::Data => ("200 OK", "application/json; charset=utf-8", snap.json.clone()),
        Route::Missing => ("404 Not Found", "text/plain; charset=utf-8", "no existe".to_owned()),
    };
    Reply { status: status.to_owned(), ctype: ctype.to_owned(), body }
}

/// After any number of refreshes, the page and the data that are sent are those of the
/// last refresh that did not fail, and of the first version before there was one.
pub proof fn lemma_requests_get_the_last_good_version(
    versions: Seq<Snapshot>,
    template: Seq<char>,
    first: Seq<char>,
    outcomes: Seq<Result<String, String>>,
    line: Seq<char>,
    r: Reply,
)
    requires
        is_served(versions, template, first, outcomes),
        r.answers(line, versions.last()),
        route_view(path_of(line)) != Route::Missing,
    ensures
        r.status@ == "200 OK"@,
        route_view(path_of(line)) == Route::Page ==> r.body@ == replaced(
            template,
            DATA_MARK@,
            last_good(first, outcomes),
        ),
        route_view(path_of(line)) == Route::Data ==> r.body@ == last_good(first, outcomes),
{
    lemma_last_good_version_is_served(versions, template, first, outcomes);
}

impl Reply {
    /// What is sent before the body. The length is that of the body in bytes.
    pub fn respond(&self) -> (head: String)
        ensures
            head@ == "HTTP/1.1 "@ + self.status@ + "\r\nContent-Type: "@ + self.ctype@
                + "\r\nContent-Length: "@ + int_text(encode_utf8(self.body@).len() as int)
                + "\r\nCache-Control: no-store\r\nConnection: close\r\n\r\n"@,
    {
        let length = self.body.as_str().as_bytes().len();
        let mut head = "HTTP/1.1 ".to_owned();
        head.append(self.status.as_str());
        head.append("\r\nContent-Type: ");
        head.append(self.ctype.as_str());
        head.append("\r\nContent-Length: ");
        head.append(decimal(length as i128).as_str());
        head.append("\r\nCache-Control: no-store\r\nConnection: close\r\n\r\n");
        head
    }
}

// --------------------------------------------------------------- laws of requests

/// White space and nothing else.
pub open spec fn is_blank(s: Seq<char>) -> bool {
    forall|i: int| 0 <= i < s.len() ==> is_space(#[trigger] s[i])
}

/// A word: something, and no white space in it.
pub open spec fn is_word(s: Seq<char>) -> bool {
    s.len() > 0 && forall|i: int| 0 <= i < s.len() ==> !is_space(#[trigger] s[i])
}

/// Nothing, or something that begins with white space.
pub open spec fn is_apart(s: Seq<char>) -> bool {
    s.len() == 0 || is_space(s[0])
}

proof fn lemma_blanks_are_skipped(blank: Seq<char>, s: Seq<char>)
    requires
        is_blank(blank),
        s.len() == 0 || !is_space(s[0]),
    ensures
        unspaced(blank + s) == s,
    decreases blank.len(),
{
    if blank.len() == 0 {
        assert(blank + s =~= s);
    } else {
        let rest = blank.drop_first();
        assert(is_space(blank[0]));
        assert forall|i: int| 0 <= i < rest.len() implies is_space(#[trigger] rest[i]) by {
            assert(rest[i] == blank[i + 1]);
        }
        lemma_blanks_are_skipped(rest, s);
        assert((blank + s).drop_first() =~= rest + s);
    }
}

proof fn lemma_word_ends_at_blank(word: Seq<char>, s: Seq<char>)
    requires
        forall|i: int| 0 <= i < word.len() ==> !is_space(#[trigger] word[i]),
        is_apart(s),
    ensures
        first_word(word + s) == word,
    decreases word.len(),
{
    if word.len() == 0 {
        assert(word + s =~= s);
    } else {
        let rest = word.drop_first();
        assert(!is_space(word[0]));
        assert forall|i: int| 0 <= i < rest.len() implies !is_space(#[trigger] rest[i]) by {
            assert(rest[i] == word[i + 1]);
        }
        lemma_word_ends_at_blank(rest, s);
        assert((word + s).drop_first() =~= rest + s);
        assert(seq![word[0]] + rest =~= word);
    }
}

/// The path of a request is its second word, whatever white space stands before, between
/// and behind its words, and whatever its other words are.
pub proof fn lemma_path_is_the_second_word(
    lead: Seq<char>,
    method: Seq<char>,
    gap: Seq<char>,
    path: Seq<char>,
    more: Seq<char>,
)
    requires
        is_blank(lead),
        is_word(method),
        is_blank(gap) && gap.len() > 0,
        is_word(path),
        is_apart(more),
    ensures
        path_of(lead + method + gap + path + more) == path,
{
    let line = lead + method + gap + path + more;
    let words = method + (gap + (path + more));
    assert(line =~= lead + words);
    assert(!is_space(method[0]) && words[0] == method[0]);
    lemma_blanks_are_skipped(lead, words);
    assert(is_space(gap[0]) && (gap + (path + more))[0] == gap[0]);
    lemma_word_ends_at_blank(method, gap + (path + more));
    assert(words.skip(method.len() as int) =~= gap + (path + more));
    assert(!is_space(path[0]) && (path + more)[0] == path[0]);
    lemma_blanks_are_skipped(gap, path + more);
    lemma_word_ends_at_blank(path, more);
}

/// A request of one word or none asks for the page.
pub proof fn lemma_no_path_asks_for_the_page(
    lead: Seq<char>,
    method: Seq<char>,
    gap: Seq<char>,
)
    requires
        is_blank(lead),
        is_word(method),
        is_blank(gap),
    ensures
        path_of(lead + method + gap) == "/"@,
        path_of(lead) == "/"@,
        route_view("/"@) == Route::Page,
{
    let line = lead + method + gap;
    assert(line =~= lead + (method + gap));
    assert(!is_space(method[0]) && (method + gap)[0] == method[0]);
    lemma_blanks_are_skipped(lead, method + gap);
    if gap.len() > 0 {
        assert(is_space(gap[0]));
    }
    lemma_word_ends_at_blank(method, gap);
    assert((method + gap).skip(method.len() as int) =~= gap);
    let none = Seq::<char>::empty();
    lemma_blanks_are_skipped(gap, none);
    assert(gap + none =~= gap);
    lemma_blanks_are_skipped(lead, none);
    assert(lead + none =~= lead);
    assert(none.skip(0) =~= none);
    assert(first_word(none) =~= none);
}

/// The page and the data are found at two paths each, the page as a page and the data as
/// data, and nothing at any other path.
pub proof fn lemma_paths_are_answered(line: Seq<char>, snap: Snapshot, r: Reply)
    requires
        r.answers(line, snap),
    ensures
        path_of(line) == "/"@ || path_of(line) == "/index.html"@ ==> r.body@ == snap.html@
            && r.ctype@ == "text/html; charset=utf-8"@ && r.status@ == "200 OK"@,
        path_of(line) == "/api"@ || path_of(line) == "/api.json"@ ==> r.body@ == snap.json@
            && r.ctype@ == "application/json; charset=utf-8"@ && r.status@ == "200 OK"@,
        path_of(line) != "/"@ && path_of(line) != "/index.html"@ && path_of(line) != "/api"@
            && path_of(line) != "/api.json"@ ==> r.status@ == "404 Not Found"@ && r.body@
            == "no existe"@,
{
    reveal_strlit("/");
    reveal_strlit("/index.html");
    reveal_strlit("/api");
    reveal_strlit("/api.json");
    assert("/"@.len() == 1 && "/index.html"@.len() == 11);
    assert("/api"@.len() == 4 && "/api.json"@.len() == 9);
}

/// A server that follows another serves the page made of the new data where the refresh
/// brought data, and what was served where it failed; nothing but a refresh changes what is
/// served, and a refresh that nobody waited for does not either.
pub proof fn lemma_only_a_refresh_changes_what_is_served(
    after: Server,
    before: Server,
    template: Seq<char>,
    h: Happening,
)
    requires
        after.comes_after(before, template, h),
    ensures
        before.phase != Phase::Refreshing ==> after.snap == before.snap,
        !(h is Refreshed) ==> after.snap == before.snap,
        before.phase == Phase::Refreshing ==> match h {
            Happening::Refreshed(Ok(data)) => after.snap.json@ == data@ && after.snap.html@
                == replaced(template, "/*__DATA__*/null"@, data@) && after.phase == Phase::Waiting,
            Happening::Refreshed(Err(_)) => after.snap == before.snap && after.phase
                == Phase::Waiting,
            _ => after == before,
        },
        before.phase == Phase::Waiting ==> (after.phase == Phase::Refreshing <==> h is Elapsed),
        before.phase == Phase::Binding ==> (after.phase == Phase::Waiting <==> h is Bound) && (
        after.phase == Phase::Failed <==> h is NotBound),
        before.phase == Phase::Failed ==> after == before,
{
}

} // verus!
