//! The HTTP interface: health, statistics and metrics.
use crate::storage::StorageStats;
use crate::text::{
    blank, chars_of, decimal, decimal_is_numeral, decimal_text, is_digit,
    is_white_space, lemma_digits_end, lemma_same_rest, numeral, numerals_are_unique, one_word,
    same_text, trim_start, white_space, white_space_in_front_is_trimmed,
};
use vstd::prelude::*;
use vstd::slice::slice_subrange;
use vstd::string::*;
use vstd::utf8::{decode_utf8, encode_utf8, valid_utf8};

verus! {

/// The text in some bytes, with a replacement character for what is no UTF-8.
pub uninterp spec fn lossy_text(bytes: Seq<u8>) -> Seq<char>;

/// `String::from_utf8_lossy`. UTF-8 is taken as it is.
#[verifier::external_body]
fn text_of(bytes: &[u8]) -> (s: String)
    ensures
        s@ == lossy_text(bytes@),
        valid_utf8(bytes@) ==> s@ == decode_utf8(bytes@),
{
    String::from_utf8_lossy(bytes).into_owned()
}

/// How many characters come before the first white space.
pub open spec fn word_len(s: Seq<char>) -> int
    decreases s.len(),
{
    if s.len() == 0 || is_white_space(s[0]) {
        0
    } else {
        1 + word_len(s.skip(1))
    }
}

/// The path of a request: its second word, or a slash.
pub open spec fn requested_path(request: Seq<char>) -> Seq<char> {
    let first = trim_start(request);
    let second = trim_start(first.skip(word_len(first)));
    if second.len() == 0 {
        "/"@
    } else {
        second.take(word_len(second))
    }
}

/// What a path is answered with: status, content type and body.
pub struct Answer {
    pub status: u64,
    pub ctype: Seq<char>,
    pub body: Seq<char>,
}

pub open spec fn health_text(node: u64, uptime: u64) -> Seq<char> {
    "{\"status\":\"healthy\",\"node\":"@ + decimal_text(node as nat) + ",\"uptime_secs\":"@
        + decimal_text(uptime as nat) + "}"@
}

pub open spec fn stats_text(node: u64, s: StorageStats) -> Seq<char> {
    "{\"node\":"@ + decimal_text(node as nat) + ",\"series\":"@ + decimal_text(s.series as nat)
        + ",\"segments\":"@ + decimal_text(s.segments as nat) + ",\"memtable_points\":"@
        + decimal_text(s.memtable_points as nat) + "}"@
}

pub open spec fn metrics_text(uptime: u64, s: StorageStats) -> Seq<char> {
    "# TYPE lattice_uptime_seconds counter\n"@ + "lattice_uptime_seconds "@ + decimal_text(
        uptime as nat,
    ) + "\n"@ + "# TYPE lattice_series gauge\n"@ + "lattice_series "@ + decimal_text(
        s.series as nat,
    ) + "\n"@ + "# TYPE lattice_segments gauge\n"@ + "lattice_segments "@ + decimal_text(
        s.segments as nat,
    ) + "\n"@ + "# TYPE lattice_memtable_points gauge\n"@ + "lattice_memtable_points "@
        + decimal_text(s.memtable_points as nat) + "\n"@
}

/// What a path is answered with.
pub open spec fn answer(path: Seq<char>, node: u64, uptime: u64, s: StorageStats) -> Answer {
    if path == "/health"@ {
        Answer { status: 200, ctype: "application/json"@, body: health_text(node, uptime) }
    } else if path == "/stats"@ {
        Answer { status: 200, ctype: "application/json"@, body: stats_text(node, s) }
    } else if path == "/metrics"@ {
        Answer {
            status: 200,
            ctype: "text/plain; version=0.0.4"@,
            body: metrics_text(uptime, s),
        }
    } else {
        Answer { status: 404, ctype: "text/plain"@, body: "not found"@ }
    }
}

/// What the path is answered with depends on the counts of the store.
pub open spec fn wants_stats(path: Seq<char>) -> bool {
    path == "/stats"@ || path == "/metrics"@
}

/// Any other path is answered alike whatever the counts are.
pub proof fn other_answers_need_no_stats(
    path: Seq<char>,
    node: u64,
    uptime: u64,
    a: StorageStats,
    b: StorageStats,
)
    requires
        !wants_stats(path),
    ensures
        answer(path, node, uptime, a) == answer(path, node, uptime, b),
{
}

/// An answer as an HTTP response.
pub open spec fn response_text(a: Answer) -> Seq<char> {
    "HTTP/1.1 "@ + decimal_text(a.status as nat) + " "@ + (if a.status == 200 {
        "OK"@
    } else {
        "Not Found"@
    }) + "\r\nContent-Type: "@ + a.ctype + "\r\nContent-Length: "@ + decimal_text(
        encode_utf8(a.body).len(),
    ) + "\r\nConnection: close\r\n\r\n"@ + a.body
}

/// How many of the characters from a position on come before white space.
fn word_end(chars: &[char], from: usize) -> (end: usize)
    requires
        from <= chars@.len(),
    ensures
        from <= end <= chars@.len(),
        end - from == word_len(chars@.skip(from as int)),
{
    let mut end: usize = from;
    while end < chars.len() && !white_space(chars[end])
        invariant
            from <= end <= chars@.len(),
            word_len(chars@.skip(from as int)) == end - from + word_len(chars@.skip(end as int)),
        decreases chars@.len() - end,
    {
        assert(chars@.skip(end as int).skip(1) =~= chars@.skip(end + 1));
        end = end + 1;
    }
    end
}

/// Where the first word from a position on begins.
fn word_start(chars: &[char], from: usize) -> (start: usize)
    requires
        from <= chars@.len(),
    ensures
        from <= start <= chars@.len(),
        chars@.skip(start as int) == trim_start(chars@.skip(from as int)),
{
    let mut start: usize = from;
    while start < chars.len() && white_space(chars[start])
        invariant
            from <= start <= chars@.len(),
            trim_start(chars@.skip(from as int)) == trim_start(chars@.skip(start as int)),
        decreases chars@.len() - start,
    {
        assert(chars@.skip(start as int).skip(1) =~= chars@.skip(start + 1));
        start = start + 1;
    }
    start
}

/// The path that the text of a request asks for.
fn path_in(request: &str) -> (path: Vec<char>)
    ensures
        path@ == requested_path(request@),
{
    let chars = chars_of(request);
    let all = chars.as_slice();
    let a = word_start(all, 0);
    let b = word_end(all, a);
    let c = word_start(all, b);
    let d = word_end(all, c);
    proof {
        let first = all@.skip(a as int);
        let second = all@.skip(c as int);
        assert(all@.skip(0) =~= all@);
        assert(first.skip(word_len(first)) =~= all@.skip(b as int));
        assert(second.take(word_len(second)) =~= all@.subrange(c as int, d as int));
        reveal_strlit("/");
        assert(seq!['/'] =~= "/"@);
    }
    let mut path: Vec<char> = Vec::new();
    if c == all.len() {
        path.push('/');
    } else {
        path.extend_from_slice(slice_subrange(all, c, d));
        assert(path@ =~= all@.subrange(c as int, d as int));
    }
    path
}

pub struct ApiServer {
    node_id: u64,
}

impl ApiServer {
    /// The id of the node.
    pub closed spec fn node(self) -> u64 {
        self.node_id
    }

    pub fn new(node_id: u64) -> (s: Self)
        ensures
            s.node() == node_id,
    {
        ApiServer { node_id }
    }

    /// Whether the answer to the bytes of a request depends on the counts of the store.
    pub fn wants_stats(&self, request: &[u8]) -> (b: bool)
        ensures
            b == wants_stats(requested_path(lossy_text(request@))),
    {
        let text = text_of(request);
        let word = path_in(text.as_str());
        same_text(word.as_slice(), "/stats") || same_text(word.as_slice(), "/metrics")
    }

    /// Answers the bytes of a request. `uptime` is in seconds.
    pub fn handle(&self, request: &[u8], uptime: u64, s: &StorageStats) -> (response: String)
        ensures
            response@ == response_text(
                answer(requested_path(lossy_text(request@)), self.node(), uptime, *s),
            ),
            valid_utf8(request@) ==> response@ == response_text(
                answer(requested_path(decode_utf8(request@)), self.node(), uptime, *s),
            ),
    {
        let text = text_of(request);
        self.respond(text.as_str(), uptime, s)
    }

    /// Answers the text of a request. `uptime` is in seconds.
    pub fn respond(&self, request: &str, uptime: u64, s: &StorageStats) -> (response: String)
        ensures
            response@ == response_text(
                answer(requested_path(request@), self.node(), uptime, *s),
            ),
    {
        let path = path_in(request);
        let word = path.as_slice();
        if same_text(word, "/health") {
            reply(200, "application/json", self.health(uptime))
        } else if same_text(word, "/stats") {
            reply(200, "application/json", self.stats(s))
        } else if same_text(word, "/metrics") {
            reply(200, "text/plain; version=0.0.4", self.metrics(uptime, s))
        } else {
            reply(404, "text/plain", String::from_str("not found"))
        }
    }

    fn health(&self, uptime: u64) -> (body: String)
        ensures
            body@ == health_text(self.node(), uptime),
    {
        let mut body = String::from_str("{\"status\":\"healthy\",\"node\":");
        body.append(decimal(self.node_id).as_str());
        body.append(",\"uptime_secs\":");
        body.append(decimal(uptime).as_str());
        body.append("}");
        body
    }

    fn stats(&self, s: &StorageStats) -> (body: String)
        ensures
            body@ == stats_text(self.node(), *s),
    {
        let mut body = String::from_str("{\"node\":");
        body.append(decimal(self.node_id).as_str());
        body.append(",\"series\":");
        body.append(decimal(s.series as u64).as_str());
        body.append(",\"segments\":");
        body.append(decimal(s.segments as u64).as_str());
        body.append(",\"memtable_points\":");
        body.append(decimal(s.memtable_points as u64).as_str());
        body.append("}");
        body
    }

    fn metrics(&self, uptime: u64, s: &StorageStats) -> (body: String)
        ensures
            body@ == metrics_text(uptime, *s),
    {
        let mut out = String::new();
        out.append("# TYPE lattice_uptime_seconds counter\n");
        assert(out@ =~= "# TYPE lattice_uptime_seconds counter\n"@);
        out.append("lattice_uptime_seconds ");
        out.append(decimal(uptime).as_str());
        out.append("\n");
        out.append("# TYPE lattice_series gauge\n");
        out.append("lattice_series ");
        out.append(decimal(s.series as u64).as_str());
        out.append("\n");
        out.append("# TYPE lattice_segments gauge\n");
        out.append("lattice_segments ");
        out.append(decimal(s.segments as u64).as_str());
        out.append("\n");
        out.append("# TYPE lattice_memtable_points gauge\n");
        out.append("lattice_memtable_points ");
        out.append(decimal(s.memtable_points as u64).as_str());
        out.append("\n");
        out
    }
}

/// An HTTP response.
fn reply(status: u64, ctype: &str, body: String) -> (response: String)
    ensures
        response@ == response_text(Answer { status, ctype: ctype@, body: body@ }),
{
    let mut out = String::from_str("HTTP/1.1 ");
    out.append(decimal(status).as_str());
    out.append(" ");
    if status == 200 {
        out.append("OK");
    } else {
        out.append("Not Found");
    }
    out.append("\r\nContent-Type: ");
    out.append(ctype);
    out.append("\r\nContent-Length: ");
    out.append(decimal(body.as_str().as_bytes().len() as u64).as_str());
    out.append("\r\nConnection: close\r\n\r\n");
    out.append(body.as_str());
    out
}

/// A text goes on with a number: what stands before it, the number, and what stands
/// behind it, which does not begin with a digit.
spec fn goes_on(body: Seq<char>, before: Seq<char>, n: nat, rest: Seq<char>) -> bool {
    &&& body == before + decimal_text(n) + rest
    &&& rest.len() > 0
    &&& !is_digit(rest[0])
}

/// Two texts that go on with a number behind the same beginning are the same only if the
/// numbers are, and what stands behind them.
proof fn lemma_goes_on(
    body: Seq<char>,
    before: Seq<char>,
    m: nat,
    x: Seq<char>,
    n: nat,
    y: Seq<char>,
)
    requires
        goes_on(body, before, m, x),
        goes_on(body, before, n, y),
    ensures
        m == n,
        x == y,
{
    decimal_is_numeral(m);
    decimal_is_numeral(n);
    let a = decimal_text(m);
    let b = decimal_text(n);
    assert(body =~= before + (a + x));
    assert(body =~= before + (b + y));
    lemma_same_rest(before, a + x, b + y);
    lemma_digits_end(a, b, x, y);
}

/// What stands between the numbers of a body does not begin with a digit.
proof fn lemma_no_digits()
    ensures
        ",\"series\":"@.len() > 0 && !is_digit(",\"series\":"@[0]),
        ",\"segments\":"@.len() > 0 && !is_digit(",\"segments\":"@[0]),
        ",\"memtable_points\":"@.len() > 0 && !is_digit(",\"memtable_points\":"@[0]),
        ",\"uptime_secs\":"@.len() > 0 && !is_digit(",\"uptime_secs\":"@[0]),
        "}"@.len() > 0 && !is_digit("}"@[0]),
        "\n"@.len() > 0 && !is_digit("\n"@[0]),
{
    reveal_strlit(",\"series\":");
    reveal_strlit(",\"segments\":");
    reveal_strlit(",\"memtable_points\":");
    reveal_strlit(",\"uptime_secs\":");
    reveal_strlit("}");
    reveal_strlit("\n");
}

/// The body of `/health` says that the node is healthy, under `node` the id of the node,
/// and under `uptime_secs` how long it has been up, each as a numeral.
pub proof fn health_names_the_node(node: u64, uptime: u64, n: Seq<char>, u: Seq<char>)
    requires
        numeral(n, node as nat),
        numeral(u, uptime as nat),
    ensures
        health_text(node, uptime) == "{\"status\":\"healthy\",\"node\":"@ + n
            + ",\"uptime_secs\":"@ + u + "}"@,
{
    decimal_is_numeral(node as nat);
    decimal_is_numeral(uptime as nat);
    numerals_are_unique(n, decimal_text(node as nat), node as nat);
    numerals_are_unique(u, decimal_text(uptime as nat), uptime as nat);
}

/// Nodes with different ids, or that have been up for different times, never give the
/// same body of `/health`.
pub proof fn health_tells_nodes_apart(a: u64, up: u64, b: u64, vp: u64)
    requires
        health_text(a, up) == health_text(b, vp),
    ensures
        a == b,
        up == vp,
{
    lemma_no_digits();
    let body = health_text(a, up);
    let head = "{\"status\":\"healthy\",\"node\":"@;
    let then = ",\"uptime_secs\":"@;
    let x = then + decimal_text(up as nat) + "}"@;
    let y = then + decimal_text(vp as nat) + "}"@;
    assert(body =~= head + decimal_text(a as nat) + x);
    assert(body =~= head + decimal_text(b as nat) + y);
    assert(x[0] == then[0] && y[0] == then[0]);
    lemma_goes_on(body, head, a as nat, x, b as nat, y);
    lemma_goes_on(x, then, up as nat, "}"@, vp as nat, "}"@);
}

/// The body of `/stats` gives under `node` the id of the node, and under `series`,
/// `segments` and `memtable_points` the counts of the store, each as a numeral.
pub proof fn stats_name_the_node(
    node: u64,
    s: StorageStats,
    n: Seq<char>,
    series: Seq<char>,
    segments: Seq<char>,
    points: Seq<char>,
)
    requires
        numeral(n, node as nat),
        numeral(series, s.series as nat),
        numeral(segments, s.segments as nat),
        numeral(points, s.memtable_points as nat),
    ensures
        stats_text(node, s) == "{\"node\":"@ + n + ",\"series\":"@ + series + ",\"segments\":"@
            + segments + ",\"memtable_points\":"@ + points + "}"@,
{
    decimal_is_numeral(node as nat);
    decimal_is_numeral(s.series as nat);
    decimal_is_numeral(s.segments as nat);
    decimal_is_numeral(s.memtable_points as nat);
    numerals_are_unique(n, decimal_text(node as nat), node as nat);
    numerals_are_unique(series, decimal_text(s.series as nat), s.series as nat);
    numerals_are_unique(segments, decimal_text(s.segments as nat), s.segments as nat);
    numerals_are_unique(points, decimal_text(s.memtable_points as nat), s.memtable_points as nat);
}

/// Nodes with different ids, or with different counts, never give the same body of
/// `/stats`.
pub proof fn stats_tell_nodes_apart(a: u64, s: StorageStats, b: u64, t: StorageStats)
    requires
        stats_text(a, s) == stats_text(b, t),
    ensures
        a == b,
        s.series == t.series,
        s.segments == t.segments,
        s.memtable_points == t.memtable_points,
{
    lemma_no_digits();
    let body = stats_text(a, s);
    let l1 = "{\"node\":"@;
    let l2 = ",\"series\":"@;
    let l3 = ",\"segments\":"@;
    let l4 = ",\"memtable_points\":"@;
    let x4 = l4 + decimal_text(s.memtable_points as nat) + "}"@;
    let y4 = l4 + decimal_text(t.memtable_points as nat) + "}"@;
    let x3 = l3 + decimal_text(s.segments as nat) + x4;
    let y3 = l3 + decimal_text(t.segments as nat) + y4;
    let x2 = l2 + decimal_text(s.series as nat) + x3;
    let y2 = l2 + decimal_text(t.series as nat) + y3;
    assert(body =~= l1 + decimal_text(a as nat) + x2);
    assert(body =~= l1 + decimal_text(b as nat) + y2);
    assert(x2[0] == l2[0] && y2[0] == l2[0]);
    assert(x3[0] == l3[0] && y3[0] == l3[0]);
    assert(x4[0] == l4[0] && y4[0] == l4[0]);
    lemma_goes_on(body, l1, a as nat, x2, b as nat, y2);
    lemma_goes_on(x2, l2, s.series as nat, x3, t.series as nat, y3);
    lemma_goes_on(x3, l3, s.segments as nat, x4, t.segments as nat, y4);
    lemma_goes_on(x4, l4, s.memtable_points as nat, "}"@, t.memtable_points as nat, "}"@);
}

/// The body of `/metrics` gives the time that the node has been up and the counts of the
/// store, each as a numeral behind its name and under its type.
pub proof fn metrics_give_the_counts(
    uptime: u64,
    s: StorageStats,
    up: Seq<char>,
    series: Seq<char>,
    segments: Seq<char>,
    points: Seq<char>,
)
    requires
        numeral(up, uptime as nat),
        numeral(series, s.series as nat),
        numeral(segments, s.segments as nat),
        numeral(points, s.memtable_points as nat),
    ensures
        metrics_text(uptime, s) == "# TYPE lattice_uptime_seconds counter\n"@
            + "lattice_uptime_seconds "@ + up + "\n"@ + "# TYPE lattice_series gauge\n"@
            + "lattice_series "@ + series + "\n"@ + "# TYPE lattice_segments gauge\n"@
            + "lattice_segments "@ + segments + "\n"@ + "# TYPE lattice_memtable_points gauge\n"@
            + "lattice_memtable_points "@ + points + "\n"@,
{
    decimal_is_numeral(uptime as nat);
    decimal_is_numeral(s.series as nat);
    decimal_is_numeral(s.segments as nat);
    decimal_is_numeral(s.memtable_points as nat);
    numerals_are_unique(up, decimal_text(uptime as nat), uptime as nat);
    numerals_are_unique(series, decimal_text(s.series as nat), s.series as nat);
    numerals_are_unique(segments, decimal_text(s.segments as nat), s.segments as nat);
    numerals_are_unique(points, decimal_text(s.memtable_points as nat), s.memtable_points as nat);
}

/// Pieces behind a text may be put together first.
proof fn lemma_together(p: Seq<char>, a: Seq<char>, b: Seq<char>, c: Seq<char>, d: Seq<char>)
    ensures
        p + a + b + c + d == p + (a + b + c + d),
{
    assert(p + a + b + c + d =~= p + (a + b + c + d));
}

/// The lines of the body of `/metrics`, put together from the end.
proof fn lemma_metrics_lines(up: u64, s: StorageStats)
    ensures
        ({
            let l1 = "# TYPE lattice_uptime_seconds counter\n"@ + "lattice_uptime_seconds "@;
            let l2 = "\n"@ + "# TYPE lattice_series gauge\n"@ + "lattice_series "@;
            let l3 = "\n"@ + "# TYPE lattice_segments gauge\n"@ + "lattice_segments "@;
            let l4 = "\n"@ + "# TYPE lattice_memtable_points gauge\n"@
                + "lattice_memtable_points "@;
            let x4 = l4 + decimal_text(s.memtable_points as nat) + "\n"@;
            let x3 = l3 + decimal_text(s.segments as nat) + x4;
            let x2 = l2 + decimal_text(s.series as nat) + x3;
            metrics_text(up, s) == l1 + decimal_text(up as nat) + x2
        }),
{
    let d1 = decimal_text(up as nat);
    let d2 = decimal_text(s.series as nat);
    let d3 = decimal_text(s.segments as nat);
    let d4 = decimal_text(s.memtable_points as nat);
    let n = "\n"@;
    let p1 = "# TYPE lattice_uptime_seconds counter\n"@ + "lattice_uptime_seconds "@ + d1;
    let s2 = n + "# TYPE lattice_series gauge\n"@ + "lattice_series "@ + d2;
    let s3 = n + "# TYPE lattice_segments gauge\n"@ + "lattice_segments "@ + d3;
    let s4 = n + "# TYPE lattice_memtable_points gauge\n"@ + "lattice_memtable_points "@ + d4;
    lemma_together(p1, n, "# TYPE lattice_series gauge\n"@, "lattice_series "@, d2);
    lemma_together(p1 + s2, n, "# TYPE lattice_segments gauge\n"@, "lattice_segments "@, d3);
    lemma_together(
        p1 + s2 + s3,
        n,
        "# TYPE lattice_memtable_points gauge\n"@,
        "lattice_memtable_points "@,
        d4,
    );
    lemma_together(p1, s2, s3, s4, n);
    assert(s2 + s3 + s4 + n =~= s2 + (s3 + (s4 + n)));
}

/// Different times and different counts never give the same body of `/metrics`.
pub proof fn metrics_tell_counts_apart(up: u64, s: StorageStats, vp: u64, t: StorageStats)
    requires
        metrics_text(up, s) == metrics_text(vp, t),
    ensures
        up == vp,
        s.series == t.series,
        s.segments == t.segments,
        s.memtable_points == t.memtable_points,
{
    lemma_no_digits();
    let body = metrics_text(up, s);
    let l1 = "# TYPE lattice_uptime_seconds counter\n"@ + "lattice_uptime_seconds "@;
    let l2 = "\n"@ + "# TYPE lattice_series gauge\n"@ + "lattice_series "@;
    let l3 = "\n"@ + "# TYPE lattice_segments gauge\n"@ + "lattice_segments "@;
    let l4 = "\n"@ + "# TYPE lattice_memtable_points gauge\n"@ + "lattice_memtable_points "@;
    let x4 = l4 + decimal_text(s.memtable_points as nat) + "\n"@;
    let y4 = l4 + decimal_text(t.memtable_points as nat) + "\n"@;
    let x3 = l3 + decimal_text(s.segments as nat) + x4;
    let y3 = l3 + decimal_text(t.segments as nat) + y4;
    let x2 = l2 + decimal_text(s.series as nat) + x3;
    let y2 = l2 + decimal_text(t.series as nat) + y3;
    lemma_metrics_lines(up, s);
    lemma_metrics_lines(vp, t);
    assert(l2[0] == "\n"@[0] && l3[0] == "\n"@[0] && l4[0] == "\n"@[0]);
    assert(x2[0] == l2[0] && y2[0] == l2[0]);
    assert(x3[0] == l3[0] && y3[0] == l3[0]);
    assert(x4[0] == l4[0] && y4[0] == l4[0]);
    lemma_goes_on(body, l1, up as nat, x2, vp as nat, y2);
    lemma_goes_on(x2, l2, s.series as nat, x3, t.series as nat, y3);
    lemma_goes_on(x3, l3, s.segments as nat, x4, t.segments as nat, y4);
    lemma_goes_on(x4, l4, s.memtable_points as nat, "\n"@, t.memtable_points as nat, "\n"@);
}

/// The three paths are told apart.
proof fn lemma_paths_differ()
    ensures
        "/health"@ != "/stats"@,
        "/health"@ != "/metrics"@,
        "/stats"@ != "/metrics"@,
{
    reveal_strlit("/health");
    reveal_strlit("/stats");
    reveal_strlit("/metrics");
    assert("/health"@[1] != "/stats"@[1]);
    assert("/health"@[1] != "/metrics"@[1]);
    assert("/stats"@[1] != "/metrics"@[1]);
}

/// Health, statistics and metrics are always to be had, whatever the node, the time and
/// the counts are, each under its own path; any other path is not found.
pub proof fn three_paths_are_answered(path: Seq<char>, node: u64, uptime: u64, s: StorageStats)
    ensures
        ({
            let a = answer(path, node, uptime, s);
            &&& path == "/health"@ ==> a.status == 200 && a.ctype == "application/json"@ && a.body
                == health_text(node, uptime)
            &&& path == "/stats"@ ==> a.status == 200 && a.ctype == "application/json"@ && a.body
                == stats_text(node, s)
            &&& path == "/metrics"@ ==> a.status == 200 && a.ctype
                == "text/plain; version=0.0.4"@ && a.body == metrics_text(uptime, s)
            &&& path != "/health"@ && path != "/stats"@ && path != "/metrics"@ ==> a.status == 404
                && a.ctype == "text/plain"@ && a.body == "not found"@
        }),
{
    lemma_paths_differ();
}

/// Where the counts are wanted, different counts give different answers.
pub proof fn wanted_stats_matter(
    path: Seq<char>,
    node: u64,
    uptime: u64,
    a: StorageStats,
    b: StorageStats,
)
    requires
        wants_stats(path),
        a.series != b.series || a.segments != b.segments || a.memtable_points
            != b.memtable_points,
    ensures
        answer(path, node, uptime, a) != answer(path, node, uptime, b),
{
    lemma_paths_differ();
    if answer(path, node, uptime, a) == answer(path, node, uptime, b) {
        if path == "/stats"@ {
            stats_tell_nodes_apart(node, a, node, b);
        } else {
            metrics_tell_counts_apart(uptime, a, uptime, b);
        }
    }
}

/// A response begins with the status, names the content type and the number of bytes of
/// the body, and ends with the body.
pub proof fn response_carries_its_body(a: Answer, status: Seq<char>, len: Seq<char>)
    requires
        numeral(status, a.status as nat),
        numeral(len, encode_utf8(a.body).len()),
    ensures
        ({
            let reason = if a.status == 200 {
                "OK"@
            } else {
                "Not Found"@
            };
            let head = "HTTP/1.1 "@ + status + " "@ + reason + "\r\nContent-Type: "@ + a.ctype
                + "\r\nContent-Length: "@ + len + "\r\nConnection: close\r\n\r\n"@;
            response_text(a) == head + a.body
        }),
{
    decimal_is_numeral(a.status as nat);
    decimal_is_numeral(encode_utf8(a.body).len());
    numerals_are_unique(status, decimal_text(a.status as nat), a.status as nat);
    numerals_are_unique(
        len,
        decimal_text(encode_utf8(a.body).len()),
        encode_utf8(a.body).len(),
    );
}

/// A word is as long as what comes before the next white space.
proof fn lemma_word_len(w: Seq<char>, rest: Seq<char>)
    requires
        forall|i: int| 0 <= i < w.len() ==> !is_white_space(#[trigger] w[i]),
        rest.len() == 0 || is_white_space(rest[0]),
    ensures
        word_len(w + rest) == w.len(),
    decreases w.len(),
{
    if w.len() > 0 {
        assert((w + rest)[0] == w[0]);
        assert((w + rest).skip(1) =~= w.skip(1) + rest);
        assert forall|i: int| 0 <= i < w.skip(1).len() implies !is_white_space(
            #[trigger] w.skip(1)[i],
        ) by {
            assert(w.skip(1)[i] == w[i + 1]);
        }
        lemma_word_len(w.skip(1), rest);
    } else {
        assert(w + rest =~= rest);
    }
}

/// The path is the second word of the request, whole and as it is, whatever white space
/// stands around it and whatever comes behind.
pub proof fn second_word_is_the_path(
    lead: Seq<char>,
    method: Seq<char>,
    gap: Seq<char>,
    path: Seq<char>,
    rest: Seq<char>,
)
    requires
        blank(lead),
        one_word(method),
        blank(gap),
        gap.len() > 0,
        one_word(path),
        rest.len() == 0 || is_white_space(rest[0]),
    ensures
        requested_path(lead + method + gap + path + rest) == path,
{
    let request = lead + method + gap + path + rest;
    let first = method + (gap + (path + rest));
    let second = path + rest;
    assert(request =~= lead + first);
    assert(first[0] == method[0]);
    white_space_in_front_is_trimmed(lead, first);
    assert((gap + second)[0] == gap[0]);
    lemma_word_len(method, gap + second);
    assert(first.skip(method.len() as int) =~= gap + second);
    assert(second[0] == path[0]);
    white_space_in_front_is_trimmed(gap, second);
    lemma_word_len(path, rest);
    assert(second.take(path.len() as int) =~= path);
}

/// A request of one word, or of none, asks for the root.
pub proof fn single_word_asks_for_the_root(lead: Seq<char>, method: Seq<char>, rest: Seq<char>)
    requires
        blank(lead),
        method.len() > 0 ==> one_word(method),
        blank(rest),
        method.len() == 0 ==> rest.len() == 0,
    ensures
        requested_path(lead + method + rest) == "/"@,
{
    let request = lead + method + rest;
    let first = method + rest;
    assert(request =~= lead + first);
    if method.len() > 0 {
        assert(first[0] == method[0]);
    }
    white_space_in_front_is_trimmed(lead, first);
    lemma_word_len(method, rest);
    assert(first.skip(method.len() as int) =~= rest);
    assert(rest + Seq::<char>::empty() =~= rest);
    white_space_in_front_is_trimmed(rest, seq![]);
}

/// The request asks for a path: that is its second word.
pub open spec fn asks_for(request: Seq<char>, path: Seq<char>) -> bool {
    exists|lead: Seq<char>, method: Seq<char>, gap: Seq<char>, rest: Seq<char>|
        {
            &&& #[trigger] blank(lead)
            &&& #[trigger] one_word(method)
            &&& #[trigger] blank(gap)
            &&& gap.len() > 0
            &&& #[trigger] begins_blank(rest)
            &&& request == lead + method + gap + path + rest
        }
}

/// The text is empty, or begins with white space.
pub open spec fn begins_blank(s: Seq<char>) -> bool {
    s.len() == 0 || is_white_space(s[0])
}

proof fn lemma_asked_path(request: Seq<char>, path: Seq<char>)
    requires
        asks_for(request, path),
        one_word(path),
    ensures
        requested_path(request) == path,
{
    let (lead, method, gap, rest) = choose|
        lead: Seq<char>,
        method: Seq<char>,
        gap: Seq<char>,
        rest: Seq<char>,
    |
        {
            &&& #[trigger] blank(lead)
            &&& #[trigger] one_word(method)
            &&& #[trigger] blank(gap)
            &&& gap.len() > 0
            &&& #[trigger] begins_blank(rest)
            &&& request == lead + method + gap + path + rest
        };
    second_word_is_the_path(lead, method, gap, path, rest);
}

/// The three paths are words.
proof fn lemma_paths_are_words()
    ensures
        one_word("/health"@),
        one_word("/stats"@),
        one_word("/metrics"@),
{
    reveal_strlit("/health");
    reveal_strlit("/stats");
    reveal_strlit("/metrics");
}

/// The response is `200 OK` with this content type and this body, whose length in bytes
/// is a numeral.
pub open spec fn is_ok(response: Seq<char>, ctype: Seq<char>, body: Seq<char>) -> bool {
    exists|status: Seq<char>, len: Seq<char>|
        {
            &&& #[trigger] numeral(status, 200)
            &&& #[trigger] numeral(len, encode_utf8(body).len())
            &&& response == "HTTP/1.1 "@ + status + " "@ + "OK"@ + "\r\nContent-Type: "@ + ctype
                + "\r\nContent-Length: "@ + len + "\r\nConnection: close\r\n\r\n"@ + body
        }
}

proof fn lemma_is_ok(a: Answer)
    requires
        a.status == 200,
    ensures
        is_ok(response_text(a), a.ctype, a.body),
{
    let status = decimal_text(200);
    let len = decimal_text(encode_utf8(a.body).len());
    decimal_is_numeral(200);
    decimal_is_numeral(encode_utf8(a.body).len());
    response_carries_its_body(a, status, len);
    assert(numeral(status, 200) && numeral(len, encode_utf8(a.body).len()));
}

/// A server that was made for a node answers a request for `/stats` with the id of that
/// node and the counts of the store, each as a numeral under its key.
pub proof fn stats_request_is_answered(
    id: u64,
    server: ApiServer,
    request: &str,
    uptime: u64,
    s: StorageStats,
    response: String,
    n: Seq<char>,
    series: Seq<char>,
    segments: Seq<char>,
    points: Seq<char>,
)
    requires
        call_ensures(ApiServer::new, (id,), server),
        call_ensures(ApiServer::respond, (&server, request, uptime, &s), response),
        asks_for(request@, "/stats"@),
        numeral(n, id as nat),
        numeral(series, s.series as nat),
        numeral(segments, s.segments as nat),
        numeral(points, s.memtable_points as nat),
    ensures
        is_ok(
            response@,
            "application/json"@,
            "{\"node\":"@ + n + ",\"series\":"@ + series + ",\"segments\":"@ + segments
                + ",\"memtable_points\":"@ + points + "}"@,
        ),
{
    lemma_paths_are_words();
    lemma_paths_differ();
    lemma_asked_path(request@, "/stats"@);
    stats_name_the_node(id, s, n, series, segments, points);
    lemma_is_ok(answer("/stats"@, id, uptime, s));
}

/// A server that was made for a node answers a request for `/health` with the id of that
/// node and the time that it has been up, each as a numeral under its key.
pub proof fn health_request_is_answered(
    id: u64,
    server: ApiServer,
    request: &str,
    uptime: u64,
    s: StorageStats,
    response: String,
    n: Seq<char>,
    u: Seq<char>,
)
    requires
        call_ensures(ApiServer::new, (id,), server),
        call_ensures(ApiServer::respond, (&server, request, uptime, &s), response),
        asks_for(request@, "/health"@),
        numeral(n, id as nat),
        numeral(u, uptime as nat),
    ensures
        is_ok(
            response@,
            "application/json"@,
            "{\"status\":\"healthy\",\"node\":"@ + n + ",\"uptime_secs\":"@ + u + "}"@,
        ),
{
    lemma_paths_are_words();
    lemma_paths_differ();
    lemma_asked_path(request@, "/health"@);
    health_names_the_node(id, uptime, n, u);
    lemma_is_ok(answer("/health"@, id, uptime, s));
}

/// A request for `/metrics` is answered with the time that the node has been up and the
/// counts of the store, each as a numeral behind its name.
pub proof fn metrics_request_is_answered(
    server: ApiServer,
    request: &str,
    uptime: u64,
    s: StorageStats,
    response: String,
    up: Seq<char>,
    series: Seq<char>,
    segments: Seq<char>,
    points: Seq<char>,
)
    requires
        call_ensures(ApiServer::respond, (&server, request, uptime, &s), response),
        asks_for(request@, "/metrics"@),
        numeral(up, uptime as nat),
        numeral(series, s.series as nat),
        numeral(segments, s.segments as nat),
        numeral(points, s.memtable_points as nat),
    ensures
        is_ok(
            response@,
            "text/plain; version=0.0.4"@,
            "# TYPE lattice_uptime_seconds counter\n"@ + "lattice_uptime_seconds "@ + up + "\n"@
                + "# TYPE lattice_series gauge\n"@ + "lattice_series "@ + series + "\n"@
                + "# TYPE lattice_segments gauge\n"@ + "lattice_segments "@ + segments + "\n"@
                + "# TYPE lattice_memtable_points gauge\n"@ + "lattice_memtable_points "@ + points
                + "\n"@,
        ),
{
    lemma_paths_are_words();
    lemma_paths_differ();
    lemma_asked_path(request@, "/metrics"@);
    metrics_give_the_counts(uptime, s, up, series, segments, points);
    lemma_is_ok(answer("/metrics"@, server.node(), uptime, s));
}

/// A request for any other path is answered with `404 Not Found`.
pub proof fn other_requests_are_not_found(
    server: ApiServer,
    request: &str,
    path: Seq<char>,
    uptime: u64,
    s: StorageStats,
    response: String,
    status: Seq<char>,
    len: Seq<char>,
)
    requires
        call_ensures(ApiServer::respond, (&server, request, uptime, &s), response),
        one_word(path),
        asks_for(request@, path),
        path != "/health"@,
        path != "/stats"@,
        path != "/metrics"@,
        numeral(status, 404),
        numeral(len, encode_utf8("not found"@).len()),
    ensures
        response@ == "HTTP/1.1 "@ + status + " "@ + "Not Found"@ + "\r\nContent-Type: "@
            + "text/plain"@ + "\r\nContent-Length: "@ + len + "\r\nConnection: close\r\n\r\n"@
            + "not found"@,
{
    lemma_asked_path(request@, path);
    response_carries_its_body(answer(path, server.node(), uptime, s), status, len);
}

/// The bytes of a request are answered like its text, and where the counts of the store are
/// not wanted, alike whatever they are.
pub proof fn bytes_are_answered_like_text(
    server: ApiServer,
    bytes: &[u8],
    text: &str,
    uptime: u64,
    s: StorageStats,
    t: StorageStats,
    wanted: bool,
    a: String,
    b: String,
    c: String,
)
    requires
        call_ensures(ApiServer::handle, (&server, bytes, uptime, &s), a),
        call_ensures(ApiServer::handle, (&server, bytes, uptime, &t), b),
        call_ensures(ApiServer::respond, (&server, text, uptime, &s), c),
        call_ensures(ApiServer::wants_stats, (&server, bytes), wanted),
    ensures
        valid_utf8(bytes@) && decode_utf8(bytes@) == text@ ==> a@ == c@,
        !wanted ==> a@ == b@,
        s.series == t.series && s.segments == t.segments && s.memtable_points == t.memtable_points
            ==> a@ == b@,
{
    if !wanted {
        other_answers_need_no_stats(
            requested_path(lossy_text(bytes@)),
            server.node(),
            uptime,
            s,
            t,
        );
    }
}

} // verus!
