//! End-of-run summary: totals, rates, latencies and the anomaly verdict.

use vstd::arithmetic::power2::*;
use vstd::prelude::*;
use vstd::string::*;

use crate::accuracy::{
    lemma_near_integer, lemma_near_order, lemma_near_product, lemma_near_quotient, lemma_near_ratio, near, within,
};
use crate::figures::Duration;
use crate::float::Binary64;
use crate::histogram::{LogHistogram, QuantilePoint};
use crate::snapshot::{BurstTxStats, HttpStats, RxStats, SocketStats, StatsSnapshot, TxStats};
use crate::{figures, float, histogram, rates, text, totals};

verus! {

/// Severity of a report line.
#[derive(Clone, Copy, Debug, PartialEq, Eq, Structural)]
pub enum Level {
    Info,
    Warn,
}

/// A line of the report.
#[derive(Clone, Debug)]
pub struct LogLine {
    pub level: Level,
    pub text: String,
}

impl View for LogLine {
    type V = (Level, Seq<char>);

    open spec fn view(&self) -> (Level, Seq<char>) {
        (self.level, self.text@)
    }
}

/// Latency quantiles of a run in microseconds.
///
/// The largest value stands for a quantile that does not exist.
#[derive(Clone, Copy, Debug, PartialEq, Eq, Structural)]
pub struct Latencies {
    pub p50: u64,
    pub p90: u64,
    pub p95: u64,
    pub p99: u64,
    pub p999: u64,
    pub max: u64,
}

/// The folded result of a finished shooting, ready to be logged.
#[derive(Debug)]
pub struct RunSummary {
    pub engine_kind: &'static str,
    /// Load-window duration: engine start to the moment the shooting stops.
    pub duration: Duration,
    /// Achieved rate per sampling interval.
    pub rates: Vec<Binary64>,
    /// Target rate at each sample.
    pub targets: Vec<u64>,
    pub snapshot: StatsSnapshot,
}

/// Achieved/target ratio below which a run is flagged, `0.95`.
pub open spec fn underachieved_threshold() -> Binary64 {
    float::rounded_ratio(95, 100)
}

/// The texts of the given strings.
pub open spec fn texts(v: Seq<String>) -> Seq<Seq<char>> {
    Seq::new(v.len(), |i: int| v[i]@)
}

/// The contents of the given lines.
pub open spec fn lines(v: Seq<LogLine>) -> Seq<(Level, Seq<char>)> {
    Seq::new(v.len(), |i: int| v[i]@)
}

/// Requests that got neither a response nor a timeout.
pub open spec fn unanswered(requests: nat, rx: RxStats) -> nat {
    if requests >= rx.num_responses + rx.num_timeouts {
        (requests - rx.num_responses - rx.num_timeouts) as nat
    } else {
        0
    }
}

/// A message that is present only when its condition holds.
pub open spec fn when(cond: bool, message: Seq<char>) -> Seq<Seq<char>> {
    if cond {
        seq![message]
    } else {
        Seq::empty()
    }
}

/// Anomalies visible in the reception counters.
pub open spec fn rx_issues(rx: Option<RxStats>, requests: nat, noun: Seq<char>) -> Seq<Seq<char>> {
    match rx {
        None => Seq::empty(),
        Some(rx) => {
            let lost = unanswered(requests, rx);
            when(
                rx.num_timeouts > 0,
                text::decimal(rx.num_timeouts as nat) + " timeouts ("@ + figures::percentage(
                    rx.num_timeouts as nat,
                    requests,
                ).fixed(3) + "% of "@ + noun + ")"@,
            ) + when(
                figures::integer(1).less(figures::percentage(lost, requests)),
                text::decimal(lost) + " "@ + noun + " got no response ("@ + figures::percentage(lost, requests).fixed(2)
                    + "%, stuck target or lost responses)"@,
            )
        },
    }
}

/// Anomalies visible in the HTTP counters.
pub open spec fn http_issues(http: Option<HttpStats>) -> Seq<Seq<char>> {
    match http {
        None => Seq::empty(),
        Some(http) => when(http.num_5xx > 0, text::decimal(http.num_5xx as nat) + " HTTP 5xx responses"@) + when(
            http.num_4xx > 0,
            text::decimal(http.num_4xx as nat) + " HTTP 4xx responses"@,
        ),
    }
}

/// Anomalies visible in the socket counters.
pub open spec fn socket_issues(sock: Option<SocketStats>) -> Seq<Seq<char>> {
    match sock {
        None => Seq::empty(),
        Some(sock) => when(sock.num_sock_errors > 0, text::decimal(sock.num_sock_errors as nat) + " socket errors"@)
            + when(
            sock.num_retransmits > 0,
            text::decimal(sock.num_retransmits as nat) + " TCP retransmits (network or target under pressure)"@,
        ),
    }
}

/// The achieved share of a target rate, in percent.
pub open spec fn achieved(avg: Binary64, target: nat) -> Binary64 {
    float::quotient(float::product(figures::integer(100), avg), figures::integer(target))
}

/// Whether the average rate misses the target.
pub open spec fn misses(avg: Binary64, target: nat) -> bool {
    target > 0 && avg.less(float::product(underachieved_threshold(), figures::integer(target)))
}

/// The target anomaly.
pub open spec fn target_issues(target: Option<u64>, avg: Binary64, unit: Seq<char>) -> Seq<Seq<char>> {
    match target {
        None => Seq::empty(),
        Some(t) => when(
            misses(avg, t as nat),
            "target underachieved: avg "@ + text::decimal(avg.rounded() as nat) + " of "@ + text::decimal(t as nat)
                + " "@ + unit + " ("@ + achieved(avg, t as nat).fixed(1) + "%)"@,
        ),
    }
}

/// One informational line, present only when its condition holds.
pub open spec fn info_when(cond: bool, message: Seq<char>) -> Seq<(Level, Seq<char>)> {
    if cond {
        seq![(Level::Info, message)]
    } else {
        Seq::empty()
    }
}

/// The lines on transmission.
pub open spec fn tx_lines(
    tx: Option<TxStats>,
    samples: Seq<Binary64>,
    secs: Binary64,
    noun: Seq<char>,
    unit: Seq<char>,
) -> Seq<(Level, Seq<char>)> {
    match tx {
        None => Seq::empty(),
        Some(tx) => {
            let avg = float::quotient(figures::integer(tx.num_requests as nat), secs).rounded();
            let head = noun + ": total="@ + text::decimal(tx.num_requests as nat) + ", avg="@ + text::decimal(
                avg as nat,
            ) + " "@ + unit;
            let tail = match rates::spread(samples) {
                None => Seq::empty(),
                Some((median, min, max)) => ", median="@ + text::decimal(median as nat) + " "@ + unit + ", min="@
                    + text::decimal(min as nat) + " "@ + unit + ", max="@ + text::decimal(max as nat) + " "@ + unit,
            };
            seq![
                (Level::Info, head + tail),
                (
                    Level::Info,
                    "tx: bytes="@ + figures::bytes_text(tx.bytes_tx as nat) + " ("@ + figures::bitrate_text(
                        tx.bytes_tx as nat,
                        secs,
                    ) + ")"@,
                ),
            ]
        },
    }
}

/// The line on the target rate.
pub open spec fn target_lines(target: Option<u64>, avg: Binary64, unit: Seq<char>) -> Seq<(Level, Seq<char>)> {
    match target {
        None => Seq::empty(),
        Some(t) => info_when(
            t > 0,
            "target: avg="@ + text::decimal(t as nat) + " "@ + unit + ", achieved="@ + achieved(avg, t as nat).fixed(1)
                + "%"@,
        ),
    }
}

/// The line on reception.
pub open spec fn rx_line(rx: RxStats, requests: nat, secs: Binary64, noun: Seq<char>) -> Seq<char> {
    "rx: responses="@ + text::decimal(rx.num_responses as nat) + " ("@ + figures::percentage(
        rx.num_responses as nat,
        requests,
    ).fixed(2) + "% of "@ + noun + "), timeouts="@ + text::decimal(rx.num_timeouts as nat) + ", unanswered="@
        + text::decimal(unanswered(requests, rx)) + ", bytes="@ + figures::bytes_text(rx.bytes_rx as nat) + " ("@
        + figures::bitrate_text(rx.bytes_rx as nat, secs) + ")"@
}

/// The line on latencies.
pub open spec fn latency_line(l: Latencies) -> Seq<char> {
    "latency: p50="@ + figures::us_text(l.p50 as nat) + ", p90="@ + figures::us_text(l.p90 as nat) + ", p95="@
        + figures::us_text(l.p95 as nat) + ", p99="@ + figures::us_text(l.p99 as nat) + ", p99.9="@
        + figures::us_text(l.p999 as nat) + ", max="@ + figures::us_text(l.max as nat)
}

/// The lines on reception and latencies.
pub open spec fn rx_lines(
    rx: Option<RxStats>,
    requests: nat,
    secs: Binary64,
    noun: Seq<char>,
    l: Latencies,
) -> Seq<(Level, Seq<char>)> {
    match rx {
        None => Seq::empty(),
        Some(rx) => seq![(Level::Info, rx_line(rx, requests, secs, noun))] + info_when(
            totals::total(rx.histogram_buckets@) > 0,
            latency_line(l),
        ),
    }
}

/// The number of HTTP responses.
pub open spec fn http_total(h: HttpStats) -> nat {
    (h.num_2xx + h.num_3xx + h.num_4xx + h.num_5xx) as nat
}

/// The line on HTTP responses.
pub open spec fn http_lines(http: Option<HttpStats>) -> Seq<(Level, Seq<char>)> {
    match http {
        None => Seq::empty(),
        Some(h) => info_when(
            http_total(h) > 0,
            "http: 2xx="@ + text::decimal(h.num_2xx as nat) + " ("@ + figures::percentage(
                h.num_2xx as nat,
                http_total(h),
            ).fixed(2) + "%), 3xx="@ + text::decimal(h.num_3xx as nat) + ", 4xx="@ + text::decimal(h.num_4xx as nat)
                + ", 5xx="@ + text::decimal(h.num_5xx as nat),
        ),
    }
}

/// The line on sockets.
pub open spec fn socket_lines(sock: Option<SocketStats>) -> Seq<(Level, Seq<char>)> {
    match sock {
        None => Seq::empty(),
        Some(s) => seq![
            (
                Level::Info,
                "sockets: created="@ + text::decimal(s.num_sock_created as nat) + ", errors="@ + text::decimal(
                    s.num_sock_errors as nat,
                ) + ", retransmits="@ + text::decimal(s.num_retransmits as nat),
            ),
        ],
    }
}

/// The line on bursts.
pub open spec fn burst_lines(bursts: Option<BurstTxStats>) -> Seq<(Level, Seq<char>)> {
    match bursts {
        None => Seq::empty(),
        Some(b) => match rates::burst_figures(b.num_bursts_tx@) {
            None => Seq::empty(),
            Some((n, size, full)) => seq![
                (
                    Level::Info,
                    "bursts: total="@ + text::decimal(n as nat) + ", avg-size="@ + size.fixed(1) + ", full="@
                        + full.fixed(1) + "%"@,
                ),
            ],
        },
    }
}

/// A labelled line.
pub open spec fn labelled(label: Seq<char>, rest: Seq<char>) -> Seq<char> {
    label + ": "@ + rest
}

/// The closing lines: each anomaly as a warning, then the verdict.
pub open spec fn verdict_lines(issues: Seq<Seq<char>>) -> Seq<(Level, Seq<char>)> {
    if issues.len() == 0 {
        seq![(Level::Info, labelled("verdict"@, "OK (no anomalies detected)"@))]
    } else {
        Seq::new(issues.len(), |i: int| (Level::Warn, labelled("anomaly"@, issues[i]))).push(
            (Level::Warn, labelled("verdict"@, text::decimal(issues.len()) + " anomaly kind(s) detected"@)),
        )
    }
}

impl RunSummary {
    /// The sums that the report is made of are in range.
    pub open spec fn wf(&self) -> bool {
        &&& self.duration.wf()
        &&& rates::samples_wf(self.rates@)
        &&& totals::total(self.targets@) <= u64::MAX
        &&& self.snapshot.rx matches Some(rx) ==> rx.num_responses + rx.num_timeouts <= u64::MAX && totals::total(
            rx.histogram_buckets@,
        ) <= u64::MAX
        &&& self.snapshot.http matches Some(h) ==> http_total(h) <= u64::MAX
        &&& self.snapshot.burst_tx matches Some(b) ==> rates::packets(b.num_bursts_tx@) <= u64::MAX
    }

    /// The number of requests sent.
    pub open spec fn sent(&self) -> nat {
        match self.snapshot.tx {
            Some(tx) => tx.num_requests as nat,
            None => 0,
        }
    }

    /// What a unit of load is called.
    pub open spec fn noun(&self) -> Seq<char> {
        if self.engine_kind@ == "dpdk"@ {
            "packets"@
        } else {
            "requests"@
        }
    }

    /// What a unit of load per second is called.
    pub open spec fn unit(&self) -> Seq<char> {
        if self.engine_kind@ == "dpdk"@ {
            "pps"@
        } else {
            "rps"@
        }
    }

    /// The average achieved rate.
    pub open spec fn average_rate(&self) -> Binary64 {
        float::quotient(figures::integer(self.sent()), self.duration.divisor())
    }

    /// The anomalies of the run, one entry per kind.
    pub open spec fn anomalies(&self) -> Seq<Seq<char>> {
        rx_issues(self.snapshot.rx, self.sent(), self.noun()) + http_issues(self.snapshot.http) + socket_issues(
            self.snapshot.socket,
        ) + target_issues(rates::average(self.targets@), self.average_rate(), self.unit())
    }

    /// The whole report.
    pub open spec fn report(&self, l: Latencies) -> Seq<(Level, Seq<char>)> {
        let secs = self.duration.divisor();
        seq![
            (
                Level::Info,
                "shooting finished: engine="@ + self.engine_kind@ + ", duration="@ + figures::duration_text(
                    self.duration,
                ),
            ),
        ] + tx_lines(self.snapshot.tx, self.rates@, secs, self.noun(), self.unit()) + target_lines(
            rates::average(self.targets@),
            self.average_rate(),
            self.unit(),
        ) + rx_lines(self.snapshot.rx, self.sent(), secs, self.noun(), l) + http_lines(self.snapshot.http)
            + socket_lines(self.snapshot.socket) + burst_lines(self.snapshot.burst_tx) + verdict_lines(
            self.anomalies(),
        )
    }

    /// What to call the load units: DPDK pushes packets, everything else requests.
    pub fn wording(&self) -> (r: (&'static str, &'static str))
        ensures
            r.0@ == self.noun(),
            r.1@ == self.unit(),
    {
        if self.engine_kind.to_owned() == "dpdk".to_owned() {
            ("packets", "pps")
        } else {
            ("requests", "rps")
        }
    }

    /// The number of requests sent.
    pub fn requests(&self) -> (r: u64)
        ensures
            r == self.sent(),
    {
        match &self.snapshot.tx {
            Some(tx) => tx.num_requests,
            None => 0,
        }
    }

    fn avg(&self) -> (r: Binary64)
        requires
            self.wf(),
        ensures
            r == self.average_rate(),
            r.wf(),
            r.mant != 0 ==> -67 <= r.log() <= 117,
    {
        Binary64::from_u64(self.requests()).over(self.duration.to_divisor())
    }
}

/// The text of a counter followed by a phrase.
fn counted(n: u64, phrase: &str) -> (r: String)
    ensures
        r@ == text::decimal(n as nat) + phrase@,
{
    let mut out: String = String::new();
    text::push_decimal(&mut out, n as u128);
    out.append(phrase);
    assert(out@ =~= text::decimal(n as nat) + phrase@);
    out
}

/// The text of a labelled line.
fn labelled_text(label: &str, rest: &str) -> (r: String)
    ensures
        r@ == labelled(label@, rest@),
{
    let mut out: String = label.to_owned();
    out.append(": ");
    out.append(rest);
    out
}

/// Appends an issue.
fn push_issue(issues: &mut Vec<String>, issue: String)
    ensures
        texts(final(issues)@) == texts(old(issues)@) + seq![issue@],
{
    issues.push(issue);
    assert(texts(issues@) =~= texts(old(issues)@) + seq![issue@]);
}

/// Appends a line.
fn push_line(out: &mut Vec<LogLine>, level: Level, text: String)
    ensures
        lines(final(out)@) == lines(old(out)@) + seq![(level, text@)],
{
    let ghost t = text@;
    out.push(LogLine { level, text });
    assert(lines(out@) =~= lines(old(out)@) + seq![(level, t)]);
}

/// The number of requests that got neither a response nor a timeout.
fn count_unanswered(requests: u64, rx: &RxStats) -> (r: u64)
    requires
        rx.num_responses + rx.num_timeouts <= u64::MAX,
    ensures
        r == unanswered(requests as nat, *rx),
{
    let answered: u64 = rx.num_responses + rx.num_timeouts;
    if requests >= answered {
        requests - answered
    } else {
        0
    }
}

fn push_rx_issues(issues: &mut Vec<String>, rx: &RxStats, requests: u64, noun: &str)
    requires
        rx.num_responses + rx.num_timeouts <= u64::MAX,
    ensures
        texts(final(issues)@) == texts(old(issues)@) + rx_issues(Some(*rx), requests as nat, noun@),
{
    let ghost start = texts(issues@);
    if rx.num_timeouts > 0 {
        let mut out: String = counted(rx.num_timeouts, " timeouts (");
        figures::pct(rx.num_timeouts, requests).push_fixed(&mut out, 3);
        out.append("% of ");
        out.append(noun);
        out.append(")");
        assert(out@ =~= text::decimal(rx.num_timeouts as nat) + " timeouts ("@ + figures::percentage(
            rx.num_timeouts as nat,
            requests as nat,
        ).fixed(3) + "% of "@ + noun@ + ")"@);
        push_issue(issues, out);
    }
    let ghost middle = texts(issues@);
    let lost: u64 = count_unanswered(requests, rx);
    let share: Binary64 = figures::pct(lost, requests);
    if Binary64::from_u64(1).lt(share) {
        let mut out: String = counted(lost, " ");
        out.append(noun);
        out.append(" got no response (");
        share.push_fixed(&mut out, 2);
        out.append("%, stuck target or lost responses)");
        assert(out@ =~= text::decimal(lost as nat) + " "@ + noun@ + " got no response ("@ + share.fixed(2)
            + "%, stuck target or lost responses)"@);
        push_issue(issues, out);
    }
    assert(texts(issues@) =~= start + rx_issues(Some(*rx), requests as nat, noun@));
}

fn push_http_issues(issues: &mut Vec<String>, http: &HttpStats)
    ensures
        texts(final(issues)@) == texts(old(issues)@) + http_issues(Some(*http)),
{
    let ghost start = texts(issues@);
    if http.num_5xx > 0 {
        push_issue(issues, counted(http.num_5xx, " HTTP 5xx responses"));
    }
    if http.num_4xx > 0 {
        push_issue(issues, counted(http.num_4xx, " HTTP 4xx responses"));
    }
    assert(texts(issues@) =~= start + http_issues(Some(*http)));
}

fn push_socket_issues(issues: &mut Vec<String>, sock: &SocketStats)
    ensures
        texts(final(issues)@) == texts(old(issues)@) + socket_issues(Some(*sock)),
{
    let ghost start = texts(issues@);
    if sock.num_sock_errors > 0 {
        push_issue(issues, counted(sock.num_sock_errors, " socket errors"));
    }
    if sock.num_retransmits > 0 {
        push_issue(issues, counted(sock.num_retransmits, " TCP retransmits (network or target under pressure)"));
    }
    assert(texts(issues@) =~= start + socket_issues(Some(*sock)));
}

/// The achieved share of a target rate, in percent.
fn achieved_share(avg: Binary64, target: u64) -> (r: Binary64)
    requires
        avg.wf(),
        avg.mant != 0 ==> -67 <= avg.log() <= 117,
        target > 0,
    ensures
        r == achieved(avg, target as nat),
        r.wf(),
        r.log() <= 127,
{
    proof {
        lemma2_to64();
        float::lemma_integer_log(100, 6, 7);
    }
    Binary64::from_u64(100).times(avg).over(Binary64::from_u64(target))
}

fn push_target_issues(issues: &mut Vec<String>, target: u64, avg: Binary64, unit: &str)
    requires
        avg.wf(),
        avg.mant != 0 ==> -67 <= avg.log() <= 117,
    ensures
        texts(final(issues)@) == texts(old(issues)@) + target_issues(Some(target), avg, unit@),
{
    let ghost start = texts(issues@);
    if target > 0 && avg.lt(Binary64::ratio(95, 100).times(Binary64::from_u64(target))) {
        let mut out: String = "target underachieved: avg ".to_owned();
        text::push_decimal(&mut out, avg.round_to_u64() as u128);
        out.append(" of ");
        text::push_decimal(&mut out, target as u128);
        out.append(" ");
        out.append(unit);
        out.append(" (");
        achieved_share(avg, target).push_fixed(&mut out, 1);
        out.append("%)");
        assert(out@ =~= "target underachieved: avg "@ + text::decimal(avg.rounded() as nat) + " of "@ + text::decimal(
            target as nat,
        ) + " "@ + unit@ + " ("@ + achieved(avg, target as nat).fixed(1) + "%)"@);
        push_issue(issues, out);
    }
    assert(texts(issues@) =~= start + target_issues(Some(target), avg, unit@));
}

fn push_tx_lines(out: &mut Vec<LogLine>, tx: &TxStats, samples: &[Binary64], secs: Binary64, noun: &str, unit: &str)
    requires
        rates::samples_wf(samples@),
        secs.wf(),
        secs.mant != 0,
        -52 <= secs.log() <= 66,
    ensures
        lines(final(out)@) == lines(old(out)@) + tx_lines(Some(*tx), samples@, secs, noun@, unit@),
{
    let avg: u64 = Binary64::from_u64(tx.num_requests).over(secs).round_to_u64();
    let mut line: String = noun.to_owned();
    line.append(": total=");
    text::push_decimal(&mut line, tx.num_requests as u128);
    line.append(", avg=");
    text::push_decimal(&mut line, avg as u128);
    line.append(" ");
    line.append(unit);
    let ghost head = line@;
    assert(head =~= noun@ + ": total="@ + text::decimal(tx.num_requests as nat) + ", avg="@ + text::decimal(avg as nat)
        + " "@ + unit@);
    if let Some((median, min, max)) = rates::distribution(samples) {
        line.append(", median=");
        text::push_decimal(&mut line, median as u128);
        line.append(" ");
        line.append(unit);
        line.append(", min=");
        text::push_decimal(&mut line, min as u128);
        line.append(" ");
        line.append(unit);
        line.append(", max=");
        text::push_decimal(&mut line, max as u128);
        line.append(" ");
        line.append(unit);
        assert(line@ =~= head + (", median="@ + text::decimal(median as nat) + " "@ + unit@ + ", min="@ + text::decimal(
            min as nat,
        ) + " "@ + unit@ + ", max="@ + text::decimal(max as nat) + " "@ + unit@));
    } else {
        assert(line@ =~= head + Seq::<char>::empty());
    }
    push_line(out, Level::Info, line);
    let mut bytes: String = "tx: bytes=".to_owned();
    bytes.append(figures::fmt_bytes(tx.bytes_tx).as_str());
    bytes.append(" (");
    bytes.append(figures::fmt_bitrate(tx.bytes_tx, secs).as_str());
    bytes.append(")");
    push_line(out, Level::Info, bytes);
    assert(lines(out@) =~= lines(old(out)@) + tx_lines(Some(*tx), samples@, secs, noun@, unit@));
}

fn push_target_line(out: &mut Vec<LogLine>, target: u64, avg: Binary64, unit: &str)
    requires
        avg.wf(),
        avg.mant != 0 ==> -67 <= avg.log() <= 117,
    ensures
        lines(final(out)@) == lines(old(out)@) + target_lines(Some(target), avg, unit@),
{
    if target > 0 {
        let mut line: String = "target: avg=".to_owned();
        text::push_decimal(&mut line, target as u128);
        line.append(" ");
        line.append(unit);
        line.append(", achieved=");
        achieved_share(avg, target).push_fixed(&mut line, 1);
        line.append("%");
        push_line(out, Level::Info, line);
    }
    assert(lines(out@) =~= lines(old(out)@) + target_lines(Some(target), avg, unit@));
}

fn latency_text(l: &Latencies) -> (r: String)
    ensures
        r@ == latency_line(*l),
{
    let mut line: String = "latency: p50=".to_owned();
    line.append(figures::fmt_us(l.p50).as_str());
    line.append(", p90=");
    line.append(figures::fmt_us(l.p90).as_str());
    line.append(", p95=");
    line.append(figures::fmt_us(l.p95).as_str());
    line.append(", p99=");
    line.append(figures::fmt_us(l.p99).as_str());
    line.append(", p99.9=");
    line.append(figures::fmt_us(l.p999).as_str());
    line.append(", max=");
    line.append(figures::fmt_us(l.max).as_str());
    line
}

fn push_rx_lines(out: &mut Vec<LogLine>, rx: &RxStats, requests: u64, secs: Binary64, noun: &str, l: &Latencies)
    requires
        rx.num_responses + rx.num_timeouts <= u64::MAX,
        totals::total(rx.histogram_buckets@) <= u64::MAX,
        secs.wf(),
        secs.mant != 0,
        -52 <= secs.log() <= 66,
    ensures
        lines(final(out)@) == lines(old(out)@) + rx_lines(Some(*rx), requests as nat, secs, noun@, *l),
{
    let mut line: String = "rx: responses=".to_owned();
    text::push_decimal(&mut line, rx.num_responses as u128);
    line.append(" (");
    figures::pct(rx.num_responses, requests).push_fixed(&mut line, 2);
    line.append("% of ");
    line.append(noun);
    line.append("), timeouts=");
    text::push_decimal(&mut line, rx.num_timeouts as u128);
    line.append(", unanswered=");
    text::push_decimal(&mut line, count_unanswered(requests, rx) as u128);
    line.append(", bytes=");
    line.append(figures::fmt_bytes(rx.bytes_rx).as_str());
    line.append(" (");
    line.append(figures::fmt_bitrate(rx.bytes_rx, secs).as_str());
    line.append(")");
    assert(line@ =~= rx_line(*rx, requests as nat, secs, noun@));
    push_line(out, Level::Info, line);
    if totals::sum(rx.histogram_buckets.as_slice()) > 0 {
        push_line(out, Level::Info, latency_text(l));
    }
    assert(lines(out@) =~= lines(old(out)@) + rx_lines(Some(*rx), requests as nat, secs, noun@, *l));
}

fn push_http_line(out: &mut Vec<LogLine>, h: &HttpStats)
    requires
        http_total(*h) <= u64::MAX,
    ensures
        lines(final(out)@) == lines(old(out)@) + http_lines(Some(*h)),
{
    let total: u64 = h.num_2xx + h.num_3xx + h.num_4xx + h.num_5xx;
    if total > 0 {
        let mut line: String = "http: 2xx=".to_owned();
        text::push_decimal(&mut line, h.num_2xx as u128);
        line.append(" (");
        figures::pct(h.num_2xx, total).push_fixed(&mut line, 2);
        line.append("%), 3xx=");
        text::push_decimal(&mut line, h.num_3xx as u128);
        line.append(", 4xx=");
        text::push_decimal(&mut line, h.num_4xx as u128);
        line.append(", 5xx=");
        text::push_decimal(&mut line, h.num_5xx as u128);
        push_line(out, Level::Info, line);
    }
    assert(lines(out@) =~= lines(old(out)@) + http_lines(Some(*h)));
}

fn push_socket_line(out: &mut Vec<LogLine>, s: &SocketStats)
    ensures
        lines(final(out)@) == lines(old(out)@) + socket_lines(Some(*s)),
{
    let mut line: String = "sockets: created=".to_owned();
    text::push_decimal(&mut line, s.num_sock_created as u128);
    line.append(", errors=");
    text::push_decimal(&mut line, s.num_sock_errors as u128);
    line.append(", retransmits=");
    text::push_decimal(&mut line, s.num_retransmits as u128);
    push_line(out, Level::Info, line);
    assert(lines(out@) =~= lines(old(out)@) + socket_lines(Some(*s)));
}

fn push_burst_line(out: &mut Vec<LogLine>, b: &BurstTxStats)
    requires
        rates::packets(b.num_bursts_tx@) <= u64::MAX,
    ensures
        lines(final(out)@) == lines(old(out)@) + burst_lines(Some(*b)),
{
    if let Some((n, size, full)) = rates::burst_stats(b.num_bursts_tx.as_slice()) {
        let mut line: String = "bursts: total=".to_owned();
        text::push_decimal(&mut line, n as u128);
        line.append(", avg-size=");
        size.push_fixed(&mut line, 1);
        line.append(", full=");
        full.push_fixed(&mut line, 1);
        line.append("%");
        push_line(out, Level::Info, line);
    }
    assert(lines(out@) =~= lines(old(out)@) + burst_lines(Some(*b)));
}

fn push_verdict(out: &mut Vec<LogLine>, issues: &Vec<String>)
    ensures
        lines(final(out)@) == lines(old(out)@) + verdict_lines(texts(issues@)),
{
    let ghost start = lines(out@);
    let ghost all = texts(issues@);
    if issues.len() == 0 {
        push_line(out, Level::Info, labelled_text("verdict", "OK (no anomalies detected)"));
    } else {
        let ghost warnings = Seq::new(all.len(), |i: int| (Level::Warn, labelled("anomaly"@, all[i])));
        let mut i: usize = 0;
        assert(lines(out@) =~= start + warnings.take(0));
        while i < issues.len()
            invariant
                i <= issues.len(),
                all == texts(issues@),
                warnings == Seq::new(all.len(), |i: int| (Level::Warn, labelled("anomaly"@, all[i]))),
                lines(out@) == start + warnings.take(i as int),
            decreases issues.len() - i,
        {
            push_line(out, Level::Warn, labelled_text("anomaly", issues[i].as_str()));
            assert(lines(out@) =~= start + warnings.take(i + 1));
            i = i + 1;
        }
        assert(warnings.take(i as int) =~= warnings);
        let mut found: String = String::new();
        text::push_decimal(&mut found, issues.len() as u128);
        found.append(" anomaly kind(s) detected");
        assert(found@ =~= text::decimal(all.len()) + " anomaly kind(s) detected"@);
        push_line(out, Level::Warn, labelled_text("verdict", found.as_str()));
    }
    assert(lines(out@) =~= start + verdict_lines(all));
}

impl RunSummary {
    /// Everything a performance engineer should be alarmed by, one entry per anomaly kind.
    pub fn issues(&self) -> (r: Vec<String>)
        requires
            self.wf(),
        ensures
            texts(r@) == self.anomalies(),
    {
        let mut issues: Vec<String> = Vec::new();
        let (noun, unit) = self.wording();
        let requests: u64 = self.requests();
        assert(texts(issues@) =~= Seq::empty());
        if let Some(rx) = &self.snapshot.rx {
            push_rx_issues(&mut issues, rx, requests, noun);
        }
        let ghost part = rx_issues(self.snapshot.rx, self.sent(), self.noun());
        assert(texts(issues@) =~= part);
        if let Some(http) = &self.snapshot.http {
            push_http_issues(&mut issues, http);
        }
        let ghost part2 = part + http_issues(self.snapshot.http);
        assert(texts(issues@) =~= part2);
        if let Some(sock) = &self.snapshot.socket {
            push_socket_issues(&mut issues, sock);
        }
        let ghost part3 = part2 + socket_issues(self.snapshot.socket);
        assert(texts(issues@) =~= part3);
        if let Some(target) = rates::mean(self.targets.as_slice()) {
            push_target_issues(&mut issues, target, self.avg(), unit);
        }
        assert(texts(issues@) =~= self.anomalies());
        issues
    }

    /// Builds the report: `Info` for the figures, `Warn` for every detected anomaly and the
    /// non-clean verdict.
    pub fn log(&self, latencies: &Latencies) -> (r: Vec<LogLine>)
        requires
            self.wf(),
        ensures
            lines(r@) == self.report(*latencies),
    {
        let mut out: Vec<LogLine> = Vec::new();
        let secs: Binary64 = self.duration.to_divisor();
        let (noun, unit) = self.wording();
        let requests: u64 = self.requests();
        let mut line: String = "shooting finished: engine=".to_owned();
        line.append(self.engine_kind);
        line.append(", duration=");
        line.append(figures::fmt_duration(self.duration).as_str());
        push_line(&mut out, Level::Info, line);
        let ghost s0 = lines(out@);
        if let Some(tx) = &self.snapshot.tx {
            push_tx_lines(&mut out, tx, self.rates.as_slice(), secs, noun, unit);
        }
        let ghost s1 = s0 + tx_lines(self.snapshot.tx, self.rates@, secs, self.noun(), self.unit());
        assert(lines(out@) =~= s1);
        if let Some(target) = rates::mean(self.targets.as_slice()) {
            push_target_line(&mut out, target, self.avg(), unit);
        }
        let ghost s2 = s1 + target_lines(rates::average(self.targets@), self.average_rate(), self.unit());
        assert(lines(out@) =~= s2);
        if let Some(rx) = &self.snapshot.rx {
            push_rx_lines(&mut out, rx, requests, secs, noun, latencies);
        }
        let ghost s3 = s2 + rx_lines(self.snapshot.rx, self.sent(), secs, self.noun(), *latencies);
        assert(lines(out@) =~= s3);
        if let Some(http) = &self.snapshot.http {
            push_http_line(&mut out, http);
        }
        let ghost s4 = s3 + http_lines(self.snapshot.http);
        assert(lines(out@) =~= s4);
        if let Some(sock) = &self.snapshot.socket {
            push_socket_line(&mut out, sock);
        }
        let ghost s5 = s4 + socket_lines(self.snapshot.socket);
        assert(lines(out@) =~= s5);
        if let Some(bursts) = &self.snapshot.burst_tx {
            push_burst_line(&mut out, bursts);
        }
        let ghost s6 = s5 + burst_lines(self.snapshot.burst_tx);
        assert(lines(out@) =~= s6);
        let issues: Vec<String> = self.issues();
        push_verdict(&mut out, &issues);
        assert(s0 =~= seq![
            (
                Level::Info,
                "shooting finished: engine="@ + self.engine_kind@ + ", duration="@ + figures::duration_text(
                    self.duration,
                ),
            ),
        ]);
        out
    }
}

/// The places of the reported latency quantiles in the histogram.
#[derive(Clone, Copy, Debug, PartialEq, Eq, Structural)]
pub struct LatencyPoints {
    pub p50: QuantilePoint,
    pub p90: QuantilePoint,
    pub p95: QuantilePoint,
    pub p99: QuantilePoint,
    pub p999: QuantilePoint,
    pub max: QuantilePoint,
}

impl LatencyPoints {
    /// Whether the points locate the reported quantiles of the given buckets.
    pub open spec fn of(self, s: Seq<u64>) -> bool {
        &&& histogram::is_quantile(s, float::rounded_ratio(1, 2), self.p50)
        &&& histogram::is_quantile(s, float::rounded_ratio(9, 10), self.p90)
        &&& histogram::is_quantile(s, float::rounded_ratio(95, 100), self.p95)
        &&& histogram::is_quantile(s, float::rounded_ratio(99, 100), self.p99)
        &&& histogram::is_quantile(s, float::rounded_ratio(999, 1000), self.p999)
        &&& histogram::is_quantile(s, float::rounded_ratio(1, 1), self.max)
    }
}

/// Locates the quantile `num / den`.
fn locate(hist: &LogHistogram, num: u64, den: u64) -> (r: QuantilePoint)
    requires
        0 < num <= den,
        hist@.len() > 0,
        totals::total(hist@) <= u64::MAX,
    ensures
        histogram::is_quantile(hist@, float::rounded_ratio(num as nat, den as nat), r),
{
    proof {
        float::lemma_proper_fraction(num as nat, den as nat);
    }
    match hist.quantile(Binary64::ratio(num, den)) {
        Some(p) => p,
        None => QuantilePoint { idx: 0, below: 0, count: 0, size: 0 },
    }
}

impl RunSummary {
    /// Locates the reported latency quantiles; `None` when no latency was recorded.
    ///
    /// Timeouts are recorded into the same histogram.
    pub fn latency_points(&self) -> (r: Option<LatencyPoints>)
        requires
            self.wf(),
        ensures
            match self.snapshot.rx {
                None => r is None,
                Some(rx) => {
                    &&& r is Some <==> totals::total(rx.histogram_buckets@) > 0
                    &&& r matches Some(p) ==> p.of(rx.histogram_buckets@)
                },
            },
    {
        match &self.snapshot.rx {
            None => None,
            Some(rx) => {
                if totals::sum(rx.histogram_buckets.as_slice()) == 0 {
                    return None;
                }
                let hist: LogHistogram = LogHistogram::new(copied(&rx.histogram_buckets));
                Some(
                    LatencyPoints {
                        p50: locate(&hist, 1, 2),
                        p90: locate(&hist, 9, 10),
                        p95: locate(&hist, 95, 100),
                        p99: locate(&hist, 99, 100),
                        p999: locate(&hist, 999, 1000),
                        max: locate(&hist, 1, 1),
                    },
                )
            },
        }
    }
}

/// Copies the counters.
fn copied(v: &Vec<u64>) -> (r: Vec<u64>)
    ensures
        r@ == v@,
{
    let r: Vec<u64> = v.clone();
    assert(r@ =~= v@);
    r
}

/// The report ends with the verdict, which is positive exactly for a run without anomalies, and
/// every anomaly has a warning of its own before it.
pub proof fn lemma_verdict_closes_report(s: RunSummary, l: Latencies)
    ensures
        s.report(l).last() == (if s.anomalies().len() == 0 {
            (Level::Info, labelled("verdict"@, "OK (no anomalies detected)"@))
        } else {
            (Level::Warn, labelled("verdict"@, text::decimal(s.anomalies().len()) + " anomaly kind(s) detected"@))
        }),
        forall|i: int| 0 <= i < s.anomalies().len() ==> s.report(l).contains(
            (Level::Warn, labelled("anomaly"@, #[trigger] s.anomalies()[i])),
        ),
{
    let closing = verdict_lines(s.anomalies());
    let all = s.report(l);
    let start = all.len() - closing.len();
    assert(all.skip(start) =~= closing);
    assert forall|i: int| 0 <= i < s.anomalies().len() implies s.report(l).contains(
        (Level::Warn, labelled("anomaly"@, #[trigger] s.anomalies()[i])),
    ) by {
        assert(all[start + i] == closing[i]);
    }
}

/// Whether no line is a warning.
pub open spec fn no_warnings(s: Seq<(Level, Seq<char>)>) -> bool {
    forall|i: int| 0 <= i < s.len() ==> (#[trigger] s[i]).0 == Level::Info
}

proof fn lemma_no_warnings_concat(a: Seq<(Level, Seq<char>)>, b: Seq<(Level, Seq<char>)>)
    requires
        no_warnings(a),
        no_warnings(b),
    ensures
        no_warnings(a + b),
{
}

/// A warning in the report means that an anomaly was found.
pub proof fn lemma_warnings_only_for_anomalies(s: RunSummary, l: Latencies)
    requires
        s.anomalies().len() == 0,
    ensures
        no_warnings(s.report(l)),
{
    let secs = s.duration.divisor();
    let (noun, unit, avg) = (s.noun(), s.unit(), s.average_rate());
    let head = seq![
        (
            Level::Info,
            "shooting finished: engine="@ + s.engine_kind@ + ", duration="@ + figures::duration_text(s.duration),
        ),
    ];
    let tx = tx_lines(s.snapshot.tx, s.rates@, secs, noun, unit);
    let target = target_lines(rates::average(s.targets@), avg, unit);
    let rx = rx_lines(s.snapshot.rx, s.sent(), secs, noun, l);
    lemma_no_warnings_concat(head, tx);
    lemma_no_warnings_concat(head + tx, target);
    let s1 = head + tx + target;
    lemma_no_warnings_concat(s1, rx);
    let s2 = s1 + rx;
    lemma_no_warnings_concat(s2, http_lines(s.snapshot.http));
    let s3 = s2 + http_lines(s.snapshot.http);
    lemma_no_warnings_concat(s3, socket_lines(s.snapshot.socket));
    let s4 = s3 + socket_lines(s.snapshot.socket);
    lemma_no_warnings_concat(s4, burst_lines(s.snapshot.burst_tx));
    let s5 = s4 + burst_lines(s.snapshot.burst_tx);
    lemma_no_warnings_concat(s5, verdict_lines(s.anomalies()));
}

/// There are at most seven kinds of anomalies.
pub proof fn lemma_anomaly_kinds(s: RunSummary)
    ensures
        s.anomalies().len() <= 7,
{
}

proof fn lemma_shares_ordered(s: Seq<u64>, n1: nat, d1: nat, n2: nat, d2: nat, p1: QuantilePoint, p2: QuantilePoint)
    requires
        totals::total(s) <= u64::MAX,
        0 < n1 <= d1 <= 1000,
        0 < n2 <= d2 <= 1000,
        n1 * d2 <= n2 * d1,
        histogram::is_quantile(s, float::rounded_ratio(n1, d1), p1),
        histogram::is_quantile(s, float::rounded_ratio(n2, d2), p2),
    ensures
        p1.idx <= p2.idx,
{
    float::lemma_proper_fraction(n1, d1);
    float::lemma_proper_fraction(n2, d2);
    float::lemma_rounding_monotone(n1, d1, n2, d2);
    histogram::lemma_quantiles_ordered(
        s,
        float::rounded_ratio(n1, d1),
        float::rounded_ratio(n2, d2),
        p1,
        p2,
    );
}

/// The reported latencies are in ascending order of their quantiles: each is located no earlier than the
/// one before.
pub proof fn lemma_latencies_ascend(p: LatencyPoints, s: Seq<u64>)
    requires
        totals::total(s) <= u64::MAX,
        p.of(s),
    ensures
        p.p50.idx <= p.p90.idx <= p.p95.idx <= p.p99.idx <= p.p999.idx <= p.max.idx,
{
    lemma_shares_ordered(s, 1, 2, 9, 10, p.p50, p.p90);
    lemma_shares_ordered(s, 9, 10, 95, 100, p.p90, p.p95);
    lemma_shares_ordered(s, 95, 100, 99, 100, p.p95, p.p99);
    lemma_shares_ordered(s, 99, 100, 999, 1000, p.p99, p.p999);
    lemma_shares_ordered(s, 999, 1000, 1, 1, p.p999, p.max);
}

/// Whether bucket `i` is the first with which `num / den` of all samples are counted: the samples up to and with
/// it are at least that share of all, those up to and with any earlier one are at most that share, both but for
/// ten parts in `2^52`.
pub open spec fn first_with_share(s: Seq<u64>, i: int, num: int, den: int) -> bool {
    &&& 0 <= i < s.len()
    &&& within(num * totals::total(s), den, totals::total(s.take(i + 1)) as int, 1, 10)
    &&& forall|j: int|
        0 <= j < i ==> within(#[trigger] totals::total(s.take(j + 1)) as int, 1, num * totals::total(s), den, 10)
}

proof fn lemma_share_located(s: Seq<u64>, num: nat, den: nat, p: QuantilePoint)
    requires
        totals::total(s) <= u64::MAX,
        0 < num <= den <= 1000,
        histogram::is_quantile(s, float::rounded_ratio(num, den), p),
    ensures
        first_with_share(s, p.idx as int, num as int, den as int),
{
    let (q, size) = (float::rounded_ratio(num, den), figures::integer(totals::total(s)));
    let all = totals::total(s) as int;
    let wanted = float::product(q, size);
    float::lemma_proper_fraction(num, den);
    lemma_near_ratio(num, den);
    lemma_near_integer(totals::total(s));
    float::lemma_product_in_range(q, size);
    lemma_near_product(q, size, num as int, den as int, 1, all, 1, 1);
    let (share, i) = (num * all, p.idx as int);
    assert(den * 1 == den as int);
    assert(share >= 0) by (nonlinear_arith)
        requires
            share == num * all,
            all >= 0,
    ;
    totals::lemma_total_prefix(s, i + 1);
    lemma_near_integer(totals::total(s.take(i + 1)));
    let counted = figures::integer(totals::total(s.take(i + 1)));
    assert(histogram::covers(s, q, i));
    lemma_near_order(wanted, counted, share, den as int, 5, totals::total(s.take(i + 1)) as int, 1, 1);
    crate::accuracy::lemma_within_more(share, den as int, totals::total(s.take(i + 1)) as int, 1, 8, 10);
    assert forall|j: int| 0 <= j < i implies within(
        #[trigger] totals::total(s.take(j + 1)) as int,
        1,
        num as int * totals::total(s),
        den as int,
        10,
    ) by {
        totals::lemma_total_prefix(s, j + 1);
        lemma_near_integer(totals::total(s.take(j + 1)));
        let below = figures::integer(totals::total(s.take(j + 1)));
        assert(!histogram::covers(s, q, j));
        assert(!wanted.less(below));
        lemma_near_order(below, wanted, totals::total(s.take(j + 1)) as int, 1, 1, share, den as int, 5);
        crate::accuracy::lemma_within_more(totals::total(s.take(j + 1)) as int, 1, share, den as int, 8, 10);
    }
}

/// Each reported latency lies in the first bucket with which the share that its name says is counted: a half, 90,
/// 95, 99 and 99.9 percent, and all.
pub proof fn lemma_latencies_have_shares(p: LatencyPoints, s: Seq<u64>)
    requires
        totals::total(s) <= u64::MAX,
        p.of(s),
    ensures
        first_with_share(s, p.p50.idx as int, 50, 100),
        first_with_share(s, p.p90.idx as int, 90, 100),
        first_with_share(s, p.p95.idx as int, 95, 100),
        first_with_share(s, p.p99.idx as int, 99, 100),
        first_with_share(s, p.p999.idx as int, 999, 1000),
        first_with_share(s, p.max.idx as int, 1, 1),
{
    lemma_share_located(s, 1, 2, p.p50);
    lemma_share_located(s, 9, 10, p.p90);
    lemma_share_located(s, 95, 100, p.p95);
    lemma_share_located(s, 99, 100, p.p99);
    lemma_share_located(s, 999, 1000, p.p999);
    lemma_share_located(s, 1, 1, p.max);
}

/// One for true.
pub open spec fn one_if(b: bool) -> int {
    if b {
        1
    } else {
        0
    }
}

/// The length of a run in nanoseconds.
pub open spec fn nanos_of(d: Duration) -> int {
    d.secs * 1000000000 + d.nanos
}

/// The average rate times the length of the run is the number of requests sent.
pub proof fn lemma_average_times_duration(s: RunSummary)
    requires
        s.duration.wf(),
        s.duration.secs != 0 || s.duration.nanos != 0,
    ensures
        s.snapshot.tx matches Some(tx) ==> near(
            s.average_rate(),
            tx.num_requests * 1000000000,
            nanos_of(s.duration),
            11,
        ),
        s.snapshot.tx is None ==> near(s.average_rate(), 0, nanos_of(s.duration), 11),
        s.average_rate().wf(),
        s.average_rate().mant != 0 ==> -70 <= s.average_rate().log() <= 120,
{
    figures::lemma_divisor_is_length(s.duration);
    lemma_near_integer(s.sent());
    let (x, y) = (figures::integer(s.sent()), s.duration.divisor());
    float::lemma_quotient_in_range(x, y);
    lemma_near_quotient(x, y, s.sent() as int, 1, 1, nanos_of(s.duration), 1000000000, 7);
}

/// Every request is answered, timed out or unanswered, as long as there are no more answers than requests.
pub proof fn lemma_requests_are_accounted_for(requests: nat, rx: RxStats)
    ensures
        rx.num_responses + rx.num_timeouts <= requests ==> rx.num_responses + rx.num_timeouts + unanswered(requests, rx)
            == requests,
        rx.num_responses + rx.num_timeouts >= requests ==> unanswered(requests, rx) == 0,
{
}

/// Reception shows up to two anomalies. Any timeout is one. Requests without a response are one where they are more
/// than one percent of all requests. Both messages give the count and its share of all requests in percent.
pub proof fn lemma_rx_anomalies(rx: RxStats, requests: nat, noun: Seq<char>) -> (r: (bool, Binary64, Binary64))
    requires
        requests <= u64::MAX,
        rx.num_responses + rx.num_timeouts <= u64::MAX,
    ensures
        r.0 ==> requests > 0 && within(1, 1, 100 * unanswered(requests, rx) as int, requests as int, 12),
        !r.0 ==> requests == 0 || within(100 * unanswered(requests, rx) as int, requests as int, 1, 1, 12),
        requests > 0 ==> near(r.1, 100 * rx.num_timeouts as int, requests as int, 9),
        requests > 0 ==> near(r.2, 100 * unanswered(requests, rx) as int, requests as int, 9),
        requests == 0 ==> r.1.num() == 0 && r.2.num() == 0,
        rx_issues(None, requests, noun).len() == 0,
        rx_issues(Some(rx), requests, noun).len() == one_if(rx.num_timeouts > 0) + one_if(r.0),
        rx.num_timeouts > 0 ==> rx_issues(Some(rx), requests, noun)[0] == text::decimal(rx.num_timeouts as nat)
            + " timeouts ("@ + r.1.fixed(3) + "% of "@ + noun + ")"@,
        r.0 ==> rx_issues(Some(rx), requests, noun).last() == text::decimal(unanswered(requests, rx)) + " "@ + noun
            + " got no response ("@ + r.2.fixed(2) + "%, stuck target or lost responses)"@,
{
    let lost = unanswered(requests, rx);
    let (p, q) = (figures::percentage(rx.num_timeouts as nat, requests), figures::percentage(lost, requests));
    let one = figures::integer(1);
    let flagged = one.less(q);
    lemma_near_integer(1);
    lemma_near_integer(0);
    float::lemma_integer_rounding(0);
    if requests > 0 {
        figures::lemma_percentage_of_whole(rx.num_timeouts as nat, requests);
        figures::lemma_percentage_of_whole(lost, requests);
        figures::lemma_percentage_range(lost, requests);
        if flagged {
            assert(!q.less(one));
            lemma_near_order(one, q, 1, 1, 1, (100 * lost) as int, requests as int, 9);
        } else {
            lemma_near_order(q, one, (100 * lost) as int, requests as int, 9, 1, 1, 1);
        }
    } else {
        assert(p == figures::integer(0) && q == figures::integer(0));
        assert(q.mant == 0);
        assert(q.num() == 0) by (nonlinear_arith)
            requires
                q.mant == 0,
                q.num() == q.mant as nat * pow2(float::up(q.exp as int)),
        ;
        assert(q.num() * one.den() == 0) by (nonlinear_arith)
            requires
                q.num() == 0,
        ;
        assert(one.num() * q.den() >= 0);
    }
    (flagged, p, q)
}

/// Server and client errors are an anomaly each, in this order, wherever there are any.
pub proof fn lemma_http_anomalies(h: HttpStats)
    ensures
        http_issues(None).len() == 0,
        http_issues(Some(h)).len() == one_if(h.num_4xx > 0) + one_if(h.num_5xx > 0),
        h.num_5xx > 0 ==> http_issues(Some(h))[0] == text::decimal(h.num_5xx as nat) + " HTTP 5xx responses"@,
        h.num_4xx > 0 ==> http_issues(Some(h)).last() == text::decimal(h.num_4xx as nat) + " HTTP 4xx responses"@,
{
}

/// Socket errors and retransmits are an anomaly each, in this order, wherever there are any.
pub proof fn lemma_socket_anomalies(k: SocketStats)
    ensures
        socket_issues(None).len() == 0,
        socket_issues(Some(k)).len() == one_if(k.num_sock_errors > 0) + one_if(k.num_retransmits > 0),
        k.num_sock_errors > 0 ==> socket_issues(Some(k))[0] == text::decimal(k.num_sock_errors as nat)
            + " socket errors"@,
        k.num_retransmits > 0 ==> socket_issues(Some(k)).last() == text::decimal(k.num_retransmits as nat)
            + " TCP retransmits (network or target under pressure)"@,
{
}

/// A run misses its target where there is one and the requests sent are fewer than 95 percent of the target times
/// the length of the run. The message gives the average rate, the target and the former's share of the
/// latter in percent.
pub proof fn lemma_target_anomaly(s: RunSummary, target: u64, unit: Seq<char>) -> (r: (bool, Binary64))
    requires
        s.duration.wf(),
        s.duration.secs != 0 || s.duration.nanos != 0,
    ensures
        r.0 ==> target > 0 && within(
            s.sent() as int * 1000000000,
            nanos_of(s.duration),
            95 * target as int,
            100,
            18,
        ),
        !r.0 ==> target == 0 || within(
            95 * target as int,
            100,
            s.sent() as int * 1000000000,
            nanos_of(s.duration),
            18,
        ),
        target > 0 ==> near(r.1, 100 * (s.sent() as int * 1000000000), nanos_of(s.duration) * target, 19),
        target_issues(None, s.average_rate(), unit).len() == 0,
        target_issues(Some(target), s.average_rate(), unit).len() == one_if(r.0),
        r.0 ==> target_issues(Some(target), s.average_rate(), unit)[0] == "target underachieved: avg "@ + text::decimal(
            s.average_rate().rounded() as nat,
        ) + " of "@ + text::decimal(target as nat) + " "@ + unit + " ("@ + r.1.fixed(1) + "%)"@,
        target > 0 ==> target_lines(Some(target), s.average_rate(), unit) == seq![
            (
                Level::Info,
                "target: avg="@ + text::decimal(target as nat) + " "@ + unit + ", achieved="@ + r.1.fixed(1) + "%"@,
            ),
        ],
        target == 0 ==> target_lines(Some(target), s.average_rate(), unit).len() == 0,
{
    lemma2_to64();
    lemma_average_times_duration(s);
    let avg = s.average_rate();
    let (n, d) = (s.sent() as int * 1000000000, nanos_of(s.duration));
    let (t, ratio) = (figures::integer(target as nat), float::rounded_ratio(95, 100));
    let missed = misses(avg, target as nat);
    float::lemma_integer_log(100, 6, 7);
    lemma_near_integer(100);
    if target > 0 {
        lemma_near_integer(target as nat);
        float::lemma_proper_fraction(95, 100);
        lemma_near_ratio(95, 100);
        float::lemma_product_in_range(ratio, t);
        let wanted = float::product(ratio, t);
        lemma_near_product(ratio, t, 95, 100, 1, target as int, 1, 1);
        if missed {
            assert(!wanted.less(avg));
            lemma_near_order(avg, wanted, n, d, 11, 95 * target as int, 100, 5);
        } else {
            lemma_near_order(wanted, avg, 95 * target as int, 100, 5, n, d, 11);
        }
        let c = figures::integer(100);
        float::lemma_product_in_range(c, avg);
        lemma_near_product(c, avg, 100, 1, 1, n, d, 11);
        lemma_near_quotient(float::product(c, avg), t, 100 * n, d, 15, target as int, 1, 1);
    }
    (missed, achieved(avg, target as nat))
}

/// The anomalies of a run are those of reception, HTTP responses, sockets and the target, in this order.
pub proof fn lemma_anomalies_in_order(s: RunSummary, i: int)
    ensures
        s.anomalies().len() == rx_issues(s.snapshot.rx, s.sent(), s.noun()).len() + http_issues(s.snapshot.http).len()
            + socket_issues(s.snapshot.socket).len() + target_issues(
            rates::average(s.targets@),
            s.average_rate(),
            s.unit(),
        ).len(),
        0 <= i < rx_issues(s.snapshot.rx, s.sent(), s.noun()).len() ==> s.anomalies().contains(
            rx_issues(s.snapshot.rx, s.sent(), s.noun())[i],
        ),
        0 <= i < http_issues(s.snapshot.http).len() ==> s.anomalies().contains(http_issues(s.snapshot.http)[i]),
        0 <= i < socket_issues(s.snapshot.socket).len() ==> s.anomalies().contains(socket_issues(s.snapshot.socket)[i]),
        0 <= i < target_issues(rates::average(s.targets@), s.average_rate(), s.unit()).len() ==> s.anomalies().contains(
            target_issues(rates::average(s.targets@), s.average_rate(), s.unit())[i],
        ),
{
    let a = rx_issues(s.snapshot.rx, s.sent(), s.noun());
    let b = http_issues(s.snapshot.http);
    let c = socket_issues(s.snapshot.socket);
    let d = target_issues(rates::average(s.targets@), s.average_rate(), s.unit());
    let all = s.anomalies();
    if 0 <= i < a.len() {
        assert(all[i] == a[i]);
    }
    if 0 <= i < b.len() {
        assert(all[a.len() + i] == b[i]);
    }
    if 0 <= i < c.len() {
        assert(all[a.len() + b.len() + i] == c[i]);
    }
    if 0 <= i < d.len() {
        assert(all[a.len() + b.len() + c.len() + i] == d[i]);
    }
}

/// A run without timeouts, errors and retransmits whose requests were all answered at a rate that reaches its target
/// has no anomalies.
pub proof fn lemma_clean_run(s: RunSummary)
    requires
        s.wf(),
        s.duration.secs != 0 || s.duration.nanos != 0,
        s.snapshot.rx matches Some(rx) ==> rx.num_timeouts == 0 && rx.num_responses >= s.sent(),
        s.snapshot.http matches Some(h) ==> h.num_4xx == 0 && h.num_5xx == 0,
        s.snapshot.socket matches Some(k) ==> k.num_sock_errors == 0 && k.num_retransmits == 0,
        rates::average(s.targets@) matches Some(t) ==> s.sent() * 1000000000 >= t * nanos_of(s.duration),
    ensures
        s.anomalies().len() == 0,
{
    lemma_anomalies_in_order(s, 0);
    if let Some(rx) = s.snapshot.rx {
        let (flagged, _, _) = lemma_rx_anomalies(rx, s.sent(), s.noun());
        let n = s.sent() as int;
        assert(flagged ==> 1 * n * 0x10_0000_0000_0000 <= (100 * 0) * 1 * (0x10_0000_0000_0000 + 12));
    }
    if let Some(h) = s.snapshot.http {
        lemma_http_anomalies(h);
    }
    if let Some(k) = s.snapshot.socket {
        lemma_socket_anomalies(k);
    }
    if let Some(t) = rates::average(s.targets@) {
        let (missed, _) = lemma_target_anomaly(s, t, s.unit());
        if missed {
            let (n, d) = (s.sent() as int * 1000000000, nanos_of(s.duration));
            let w = t * d;
            assert(n * 100 * 0x10_0000_0000_0000 <= 95 * w * (0x10_0000_0000_0000 + 18)) by {
                assert((95 * t) * d == 95 * w) by (nonlinear_arith)
                    requires
                        w == t * d,
                ;
            }
            assert(w > 0) by (nonlinear_arith)
                requires
                    w == t * d,
                    t > 0,
                    d > 0,
            ;
        }
    }
}

proof fn lemma_contains_front(a: Seq<(Level, Seq<char>)>, b: Seq<(Level, Seq<char>)>, line: (Level, Seq<char>))
    ensures
        a.contains(line) || b.contains(line) ==> (a + b).contains(line),
{
    if a.contains(line) {
        let i = choose|i: int| 0 <= i < a.len() && a[i] == line;
        assert((a + b)[i] == line);
    } else if b.contains(line) {
        let i = choose|i: int| 0 <= i < b.len() && b[i] == line;
        assert((a + b)[a.len() + i] == line);
    }
}

/// The lines of every section are in the report.
proof fn lemma_sections_are_reported(s: RunSummary, l: Latencies, line: (Level, Seq<char>))
    requires
        ({
            let secs = s.duration.divisor();
            ||| tx_lines(s.snapshot.tx, s.rates@, secs, s.noun(), s.unit()).contains(line)
            ||| target_lines(rates::average(s.targets@), s.average_rate(), s.unit()).contains(line)
            ||| rx_lines(s.snapshot.rx, s.sent(), secs, s.noun(), l).contains(line)
            ||| http_lines(s.snapshot.http).contains(line)
            ||| socket_lines(s.snapshot.socket).contains(line)
            ||| burst_lines(s.snapshot.burst_tx).contains(line)
        }),
    ensures
        s.report(l).contains(line),
{
    let secs = s.duration.divisor();
    let head = seq![
        (
            Level::Info,
            "shooting finished: engine="@ + s.engine_kind@ + ", duration="@ + figures::duration_text(s.duration),
        ),
    ];
    let tx = tx_lines(s.snapshot.tx, s.rates@, secs, s.noun(), s.unit());
    let target = target_lines(rates::average(s.targets@), s.average_rate(), s.unit());
    let rx = rx_lines(s.snapshot.rx, s.sent(), secs, s.noun(), l);
    lemma_contains_front(head, tx, line);
    let s1 = head + tx;
    lemma_contains_front(s1, target, line);
    let s2 = s1 + target;
    lemma_contains_front(s2, rx, line);
    let s3 = s2 + rx;
    lemma_contains_front(s3, http_lines(s.snapshot.http), line);
    let s4 = s3 + http_lines(s.snapshot.http);
    lemma_contains_front(s4, socket_lines(s.snapshot.socket), line);
    let s5 = s4 + socket_lines(s.snapshot.socket);
    lemma_contains_front(s5, burst_lines(s.snapshot.burst_tx), line);
    let s6 = s5 + burst_lines(s.snapshot.burst_tx);
    lemma_contains_front(s6, verdict_lines(s.anomalies()), line);
}

/// The report opens with the engine and the duration, and speaks of packets where the engine is DPDK, else of
/// requests.
pub proof fn lemma_report_opens(s: RunSummary, l: Latencies)
    ensures
        s.report(l)[0] == (
            Level::Info,
            "shooting finished: engine="@ + s.engine_kind@ + ", duration="@ + figures::duration_text(s.duration),
        ),
        s.engine_kind@ == "dpdk"@ ==> s.noun() == "packets"@ && s.unit() == "pps"@,
        s.engine_kind@ != "dpdk"@ ==> s.noun() == "requests"@ && s.unit() == "rps"@,
{
}

/// The report gives the requests sent, their average rate over the run, the median, the least and the greatest of the
/// sampled rates where there are samples, and the bytes sent.
pub proof fn lemma_transmission_is_reported(s: RunSummary, l: Latencies)
    requires
        s.wf(),
        s.duration.secs != 0 || s.duration.nanos != 0,
    ensures
        s.snapshot.tx matches Some(tx) ==> {
            let avg = s.average_rate();
            let head = s.noun() + ": total="@ + text::decimal(tx.num_requests as nat) + ", avg="@ + text::decimal(
                avg.rounded() as nat,
            ) + " "@ + s.unit();
            &&& near(avg, tx.num_requests * 1000000000, nanos_of(s.duration), 11)
            &&& rates::spread(s.rates@) is None ==> s.report(l).contains((Level::Info, head + Seq::empty()))
            &&& rates::spread(s.rates@) matches Some((median, min, max)) ==> s.report(l).contains(
                (
                    Level::Info,
                    head + (", median="@ + text::decimal(median as nat) + " "@ + s.unit() + ", min="@ + text::decimal(
                        min as nat,
                    ) + " "@ + s.unit() + ", max="@ + text::decimal(max as nat) + " "@ + s.unit()),
                ),
            )
            &&& s.report(l).contains(
                (
                    Level::Info,
                    "tx: bytes="@ + figures::bytes_text(tx.bytes_tx as nat) + " ("@ + figures::bitrate_text(
                        tx.bytes_tx as nat,
                        s.duration.divisor(),
                    ) + ")"@,
                ),
            )
        },
{
    lemma_average_times_duration(s);
    if s.snapshot.tx is Some {
        let lines = tx_lines(s.snapshot.tx, s.rates@, s.duration.divisor(), s.noun(), s.unit());
        assert(lines.contains(lines[0]) && lines.contains(lines[1]));
        lemma_sections_are_reported(s, l, lines[0]);
        lemma_sections_are_reported(s, l, lines[1]);
    }
}

/// The report gives the responses with their share of the requests sent, the timeouts, what is left of the
/// requests, and the bytes received; and the latencies, each under its name, wherever any was recorded.
pub proof fn lemma_reception_is_reported(s: RunSummary, l: Latencies) -> (r: (Binary64, nat))
    requires
        s.wf(),
    ensures
        s.snapshot.rx matches Some(rx) ==> {
            &&& s.sent() > 0 ==> near(r.0, 100 * rx.num_responses as int, s.sent() as int, 9)
            &&& s.sent() >= rx.num_responses + rx.num_timeouts ==> r.1 + rx.num_responses + rx.num_timeouts == s.sent()
            &&& s.sent() < rx.num_responses + rx.num_timeouts ==> r.1 == 0
            &&& s.report(l).contains(
                (
                    Level::Info,
                    "rx: responses="@ + text::decimal(rx.num_responses as nat) + " ("@ + r.0.fixed(2) + "% of "@
                        + s.noun() + "), timeouts="@ + text::decimal(rx.num_timeouts as nat) + ", unanswered="@
                        + text::decimal(r.1) + ", bytes="@ + figures::bytes_text(rx.bytes_rx as nat) + " ("@
                        + figures::bitrate_text(rx.bytes_rx as nat, s.duration.divisor()) + ")"@,
                ),
            )
            &&& totals::total(rx.histogram_buckets@) > 0 ==> s.report(l).contains(
                (
                    Level::Info,
                    "latency: p50="@ + figures::us_text(l.p50 as nat) + ", p90="@ + figures::us_text(l.p90 as nat)
                        + ", p95="@ + figures::us_text(l.p95 as nat) + ", p99="@ + figures::us_text(l.p99 as nat)
                        + ", p99.9="@ + figures::us_text(l.p999 as nat) + ", max="@ + figures::us_text(l.max as nat),
                ),
            )
        },
{
    let mut out = (figures::integer(0), 0nat);
    if s.snapshot.rx is Some {
        let rx = s.snapshot.rx->0;
        let lines = rx_lines(s.snapshot.rx, s.sent(), s.duration.divisor(), s.noun(), l);
        if s.sent() > 0 {
            figures::lemma_percentage_of_whole(rx.num_responses as nat, s.sent());
        }
        assert(lines[0].1 == rx_line(rx, s.sent(), s.duration.divisor(), s.noun()));
        assert(lines.contains(lines[0]));
        lemma_sections_are_reported(s, l, lines[0]);
        if totals::total(rx.histogram_buckets@) > 0 {
            assert(lines[1] == (Level::Info, latency_line(l)));
            assert(lines.contains(lines[1]));
            lemma_sections_are_reported(s, l, lines[1]);
        }
        out = (figures::percentage(rx.num_responses as nat, s.sent()), unanswered(s.sent(), rx));
    }
    out
}

/// The report gives the HTTP responses by class, with the share of good ones among them, wherever there are any; the
/// socket counters; and the bursts with their average size and the share of full ones.
pub proof fn lemma_counters_are_reported(s: RunSummary, l: Latencies) -> (r: Binary64)
    requires
        s.wf(),
    ensures
        s.snapshot.http matches Some(h) ==> {
            let all = h.num_2xx + h.num_3xx + h.num_4xx + h.num_5xx;
            all > 0 ==> near(r, 100 * h.num_2xx as int, all, 9) && s.report(l).contains(
                (
                    Level::Info,
                    "http: 2xx="@ + text::decimal(h.num_2xx as nat) + " ("@ + r.fixed(2) + "%), 3xx="@ + text::decimal(
                        h.num_3xx as nat,
                    ) + ", 4xx="@ + text::decimal(h.num_4xx as nat) + ", 5xx="@ + text::decimal(h.num_5xx as nat),
                ),
            )
        },
        s.snapshot.socket matches Some(k) ==> s.report(l).contains(
            (
                Level::Info,
                "sockets: created="@ + text::decimal(k.num_sock_created as nat) + ", errors="@ + text::decimal(
                    k.num_sock_errors as nat,
                ) + ", retransmits="@ + text::decimal(k.num_retransmits as nat),
            ),
        ),
        s.snapshot.burst_tx matches Some(b) ==> (rates::burst_figures(b.num_bursts_tx@) matches Some((n, size, full))
            ==> s.report(l).contains(
            (
                Level::Info,
                "bursts: total="@ + text::decimal(n as nat) + ", avg-size="@ + size.fixed(1) + ", full="@ + full.fixed(1)
                    + "%"@,
            ),
        )),
{
    let mut out = figures::integer(0);
    if s.snapshot.http is Some {
        let h = s.snapshot.http->0;
        let lines = http_lines(s.snapshot.http);
        if http_total(h) > 0 {
            figures::lemma_percentage_of_whole(h.num_2xx as nat, http_total(h));
            assert(lines.contains(lines[0]));
            lemma_sections_are_reported(s, l, lines[0]);
        }
        out = figures::percentage(h.num_2xx as nat, http_total(h));
    }
    if s.snapshot.socket is Some {
        let lines = socket_lines(s.snapshot.socket);
        assert(lines.contains(lines[0]));
        lemma_sections_are_reported(s, l, lines[0]);
    }
    if s.snapshot.burst_tx is Some {
        let lines = burst_lines(s.snapshot.burst_tx);
        if rates::burst_figures(s.snapshot.burst_tx->0.num_bursts_tx@) is Some {
            assert(lines.contains(lines[0]));
            lemma_sections_are_reported(s, l, lines[0]);
        }
    }
    out
}

proof fn lemma_report_is_sections(s: RunSummary, l: Latencies)
    ensures
        s.report(l).len() == 1 + tx_lines(s.snapshot.tx, s.rates@, s.duration.divisor(), s.noun(), s.unit()).len()
            + target_lines(rates::average(s.targets@), s.average_rate(), s.unit()).len() + rx_lines(
            s.snapshot.rx,
            s.sent(),
            s.duration.divisor(),
            s.noun(),
            l,
        ).len() + http_lines(s.snapshot.http).len() + socket_lines(s.snapshot.socket).len() + burst_lines(
            s.snapshot.burst_tx,
        ).len() + verdict_lines(s.anomalies()).len(),
{
}

proof fn lemma_section_lengths(s: RunSummary, l: Latencies)
    requires
        s.wf(),
    ensures
        tx_lines(s.snapshot.tx, s.rates@, s.duration.divisor(), s.noun(), s.unit()).len() == 2 * one_if(
            s.snapshot.tx is Some,
        ),
        target_lines(rates::average(s.targets@), s.average_rate(), s.unit()).len() == one_if(
            rates::average(s.targets@) matches Some(t) && t > 0,
        ),
        rx_lines(s.snapshot.rx, s.sent(), s.duration.divisor(), s.noun(), l).len() == one_if(s.snapshot.rx is Some)
            + one_if(s.snapshot.rx matches Some(rx) && totals::total(rx.histogram_buckets@) > 0),
        http_lines(s.snapshot.http).len() == one_if(
            s.snapshot.http matches Some(h) && h.num_2xx + h.num_3xx + h.num_4xx + h.num_5xx > 0,
        ),
        socket_lines(s.snapshot.socket).len() == one_if(s.snapshot.socket is Some),
        burst_lines(s.snapshot.burst_tx).len() == one_if(
            s.snapshot.burst_tx matches Some(b) && totals::total(b.num_bursts_tx@) > 0,
        ),
        verdict_lines(s.anomalies()).len() == 1 + s.anomalies().len(),
{
    if s.snapshot.burst_tx is Some {
        rates::lemma_burst_figures(s.snapshot.burst_tx->0.num_bursts_tx@);
    }
}

/// The report has one line on the engine, two on transmission, one on the target where there is one, one on reception
/// and one on latencies where any was recorded, one on HTTP responses where there are any, one on sockets, one
/// on bursts where there are any, and the verdict after one line for each anomaly.
pub proof fn lemma_report_length(s: RunSummary, l: Latencies)
    requires
        s.wf(),
    ensures
        s.report(l).len() == 2 + 2 * one_if(s.snapshot.tx is Some) + one_if(
            rates::average(s.targets@) matches Some(t) && t > 0,
        ) + one_if(s.snapshot.rx is Some) + one_if(
            s.snapshot.rx matches Some(rx) && totals::total(rx.histogram_buckets@) > 0,
        ) + one_if(
            s.snapshot.http matches Some(h) && h.num_2xx + h.num_3xx + h.num_4xx + h.num_5xx > 0,
        ) + one_if(s.snapshot.socket is Some) + one_if(
            s.snapshot.burst_tx matches Some(b) && totals::total(b.num_bursts_tx@) > 0,
        ) + s.anomalies().len(),
{
    lemma_section_lengths(s, l);
    lemma_report_is_sections(s, l);
}

proof fn lemma_part_of(a: Seq<(Level, Seq<char>)>, b: Seq<(Level, Seq<char>)>, i: int, j: int)
    requires
        0 <= i <= j <= a.len(),
    ensures
        (a + b).subrange(i, j) == a.subrange(i, j),
        (a + b).subrange(a.len() as int, (a + b).len() as int) == b,
{
    assert((a + b).subrange(i, j) =~= a.subrange(i, j));
    assert((a + b).subrange(a.len() as int, (a + b).len() as int) =~= b);
}

/// Where the parts of a text of eight parts are.
proof fn lemma_parts_in_order(
    h: Seq<(Level, Seq<char>)>,
    t0: Seq<(Level, Seq<char>)>,
    t1: Seq<(Level, Seq<char>)>,
    t2: Seq<(Level, Seq<char>)>,
    t3: Seq<(Level, Seq<char>)>,
    t4: Seq<(Level, Seq<char>)>,
    t5: Seq<(Level, Seq<char>)>,
    t6: Seq<(Level, Seq<char>)>,
)
    ensures
        ({
            let r = h + t0 + t1 + t2 + t3 + t4 + t5 + t6;
            let o = h.len() as int;
            let a = o + t0.len() as int;
            let b = a + t1.len() as int;
            let c = b + t2.len() as int;
            let d = c + t3.len() as int;
            let e = d + t4.len() as int;
            let f = e + t5.len() as int;
            &&& r.subrange(o, a) == t0
            &&& r.subrange(a, b) == t1
            &&& r.subrange(b, c) == t2
            &&& r.subrange(c, d) == t3
            &&& r.subrange(d, e) == t4
            &&& r.subrange(e, f) == t5
            &&& r.skip(f) == t6
            &&& r.len() == f + t6.len()
        }),
{
    let s0 = h + t0;
    let s1 = s0 + t1;
    let s2 = s1 + t2;
    let s3 = s2 + t3;
    let s4 = s3 + t4;
    let s5 = s4 + t5;
    let o = h.len() as int;
    let (a, b, c) = (s0.len() as int, s1.len() as int, s2.len() as int);
    let (d, e, f) = (s3.len() as int, s4.len() as int, s5.len() as int);
    lemma_part_of(h, t0, 0, 0);
    lemma_part_of(s0, t1, o, a);
    lemma_part_of(s1, t2, o, a);
    lemma_part_of(s1, t2, a, b);
    lemma_part_of(s2, t3, o, a);
    lemma_part_of(s2, t3, a, b);
    lemma_part_of(s2, t3, b, c);
    lemma_part_of(s3, t4, o, a);
    lemma_part_of(s3, t4, a, b);
    lemma_part_of(s3, t4, b, c);
    lemma_part_of(s3, t4, c, d);
    lemma_part_of(s4, t5, o, a);
    lemma_part_of(s4, t5, a, b);
    lemma_part_of(s4, t5, b, c);
    lemma_part_of(s4, t5, c, d);
    lemma_part_of(s4, t5, d, e);
    lemma_part_of(s5, t6, o, a);
    lemma_part_of(s5, t6, a, b);
    lemma_part_of(s5, t6, b, c);
    lemma_part_of(s5, t6, c, d);
    lemma_part_of(s5, t6, d, e);
    lemma_part_of(s5, t6, e, f);
}

/// Sections follow each other: the engine, transmission, the target, reception, HTTP responses, sockets, bursts and
/// the verdict. A line of a later section comes after every line of an earlier one.
pub proof fn lemma_sections_in_order(s: RunSummary, l: Latencies)
    ensures
        ({
            let r = s.report(l);
            let secs = s.duration.divisor();
            let a = 1 + tx_lines(s.snapshot.tx, s.rates@, secs, s.noun(), s.unit()).len() as int;
            let b = a + target_lines(rates::average(s.targets@), s.average_rate(), s.unit()).len() as int;
            let c = b + rx_lines(s.snapshot.rx, s.sent(), secs, s.noun(), l).len() as int;
            let d = c + http_lines(s.snapshot.http).len() as int;
            let e = d + socket_lines(s.snapshot.socket).len() as int;
            let f = e + burst_lines(s.snapshot.burst_tx).len() as int;
            &&& r.subrange(1, a) == tx_lines(s.snapshot.tx, s.rates@, secs, s.noun(), s.unit())
            &&& r.subrange(a, b) == target_lines(rates::average(s.targets@), s.average_rate(), s.unit())
            &&& r.subrange(b, c) == rx_lines(s.snapshot.rx, s.sent(), secs, s.noun(), l)
            &&& r.subrange(c, d) == http_lines(s.snapshot.http)
            &&& r.subrange(d, e) == socket_lines(s.snapshot.socket)
            &&& r.subrange(e, f) == burst_lines(s.snapshot.burst_tx)
            &&& r.skip(f) == verdict_lines(s.anomalies())
        }),
{
    let secs = s.duration.divisor();
    let head = seq![
        (
            Level::Info,
            "shooting finished: engine="@ + s.engine_kind@ + ", duration="@ + figures::duration_text(s.duration),
        ),
    ];
    lemma_parts_in_order(
        head,
        tx_lines(s.snapshot.tx, s.rates@, secs, s.noun(), s.unit()),
        target_lines(rates::average(s.targets@), s.average_rate(), s.unit()),
        rx_lines(s.snapshot.rx, s.sent(), secs, s.noun(), l),
        http_lines(s.snapshot.http),
        socket_lines(s.snapshot.socket),
        burst_lines(s.snapshot.burst_tx),
        verdict_lines(s.anomalies()),
    );
}

} // verus!
