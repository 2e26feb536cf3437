//! What the HTTP endpoints answer: the metrics of the lag register in the
//! Prometheus text format, and the status of the readiness probe.
//!
//! The text is defined by spec functions from the register's entries, in
//! their order, to characters; the executable functions append exactly that
//! text.

use crate::consumer_groups::Member;
use crate::kafka_types::TopicPartition;
use crate::lag_register::{GroupWithLag, Lag, LagRegister, LagWithOwner};
use crate::ordered_map::OrderedMap;
use vstd::prelude::*;
use vstd::string::StringExecFns;

verus! {

/// The content type of the metrics: the Prometheus text format.
pub const METRICS_CONTENT_TYPE: &'static str = "text/plain; version=0.0.4";

/// The status of a probe that finds the service ready.
pub const STATUS_OK: u16 = 200;

/// The status of a probe that finds the service not ready.
pub const STATUS_SERVICE_UNAVAILABLE: u16 = 503;

/// The three metrics that are reported of each entry with a lag.
#[derive(Clone, Copy, Debug, PartialEq, Eq, Structural)]
pub enum Metric {
    /// The committed offset.
    Offset,
    /// The offset lag.
    LagOffset,
    /// The time lag in milliseconds.
    LagMilliseconds,
}

impl Metric {
    pub open spec fn spec_name(self) -> Seq<char> {
        match self {
            Metric::Offset => "kcl_kafka_consumer_partition_offset"@,
            Metric::LagOffset => "kcl_kafka_consumer_partition_lag_offset"@,
            Metric::LagMilliseconds => "kcl_kafka_consumer_partition_lag_milliseconds"@,
        }
    }

    pub open spec fn spec_help(self) -> Seq<char> {
        match self {
            Metric::Offset => "The last offset that the consumer group committed on the topic partition."@,
            Metric::LagOffset => "The number of messages between the committed offset and the high watermark of the topic partition."@,
            Metric::LagMilliseconds => "The estimated time in milliseconds between the production of the committed message and that of the latest message."@,
        }
    }

    /// The number that the metric reports of a lag.
    pub open spec fn value(self, lag: Lag) -> int {
        match self {
            Metric::Offset => lag.offset as int,
            Metric::LagOffset => lag.offset_lag as int,
            Metric::LagMilliseconds => lag.time_lag.millis as int,
        }
    }

    /// The name of the metric.
    pub fn name(self) -> (s: &'static str)
        ensures
            s@ == self.spec_name(),
    {
        match self {
            Metric::Offset => "kcl_kafka_consumer_partition_offset",
            Metric::LagOffset => "kcl_kafka_consumer_partition_lag_offset",
            Metric::LagMilliseconds => "kcl_kafka_consumer_partition_lag_milliseconds",
        }
    }

    /// The line that explains the metric.
    pub fn help(self) -> (s: &'static str)
        ensures
            s@ == self.spec_help(),
    {
        match self {
            Metric::Offset => "The last offset that the consumer group committed on the topic partition.",
            Metric::LagOffset => "The number of messages between the committed offset and the high watermark of the topic partition.",
            Metric::LagMilliseconds => "The estimated time in milliseconds between the production of the committed message and that of the latest message.",
        }
    }
}

/// The character of a decimal digit.
pub open spec fn digit(d: int) -> char {
    if d == 0 {
        '0'
    } else if d == 1 {
        '1'
    } else if d == 2 {
        '2'
    } else if d == 3 {
        '3'
    } else if d == 4 {
        '4'
    } else if d == 5 {
        '5'
    } else if d == 6 {
        '6'
    } else if d == 7 {
        '7'
    } else if d == 8 {
        '8'
    } else {
        '9'
    }
}

/// A natural number in decimal digits, without leading zeros.
pub open spec fn decimal(n: nat) -> Seq<char>
    decreases n,
{
    if n < 10 {
        seq![digit(n as int)]
    } else {
        decimal(n / 10).push(digit((n % 10) as int))
    }
}

/// An integer in decimal digits, with a minus sign before a negative one.
pub open spec fn signed_decimal(i: int) -> Seq<char> {
    if i < 0 {
        seq!['-'] + decimal((-i) as nat)
    } else {
        decimal(i as nat)
    }
}

/// A character as it stands in a label value: backslash, double quote and
/// line feed are escaped.
pub open spec fn escaped_char(c: char) -> Seq<char> {
    if c == '\\' {
        seq!['\\', '\\']
    } else if c == '"' {
        seq!['\\', '"']
    } else if c == '\n' {
        seq!['\\', 'n']
    } else {
        seq![c]
    }
}

/// A text as it stands in a label value.
pub open spec fn escaped(s: Seq<char>) -> Seq<char>
    decreases s.len(),
{
    if s.len() == 0 {
        Seq::empty()
    } else {
        escaped(s.drop_last()) + escaped_char(s.last())
    }
}

/// The labels of an entry, in braces. An entry without owner has empty
/// values under the three labels of the member.
pub open spec fn labels(
    cluster_id: Seq<char>,
    group: Seq<char>,
    tp: (Seq<char>, u32),
    owner: Option<Member>,
) -> Seq<char> {
    let (member_id, member_host, member_client_id) = match owner {
        Some(m) => (m.id@, m.client_host@, m.client_id@),
        None => (Seq::empty(), Seq::empty(), Seq::empty()),
    };
    "{cluster_id=\""@ + escaped(cluster_id) + "\",group=\""@ + escaped(group) + "\",topic=\""@
        + escaped(tp.0) + "\",partition=\""@ + decimal(tp.1 as nat) + "\",member_id=\""@ + escaped(
        member_id,
    ) + "\",member_host=\""@ + escaped(member_host) + "\",member_client_id=\""@ + escaped(
        member_client_id,
    ) + "\"}"@
}

/// The line of one entry under one metric; nothing for an entry without
/// lag.
pub open spec fn entry_line(
    metric: Metric,
    cluster_id: Seq<char>,
    group: Seq<char>,
    tp: (Seq<char>, u32),
    entry: LagWithOwner,
) -> Seq<char> {
    match entry.lag {
        Some(lag) => metric.spec_name() + labels(cluster_id, group, tp, entry.owner) + " "@
            + signed_decimal(metric.value(lag)) + "\n"@,
        None => Seq::empty(),
    }
}

/// The lines of the first `n` entries of a group under one metric.
pub open spec fn group_lines(
    metric: Metric,
    cluster_id: Seq<char>,
    group: Seq<char>,
    entries: OrderedMap<TopicPartition, LagWithOwner>,
    n: int,
) -> Seq<char>
    decreases n,
{
    if n <= 0 {
        Seq::empty()
    } else {
        group_lines(metric, cluster_id, group, entries, n - 1) + entry_line(
            metric,
            cluster_id,
            group,
            entries.keys()[n - 1],
            entries.values()[n - 1],
        )
    }
}

/// The lines of the first `n` groups under one metric.
pub open spec fn family_lines(
    metric: Metric,
    cluster_id: Seq<char>,
    groups: OrderedMap<String, GroupWithLag>,
    n: int,
) -> Seq<char>
    decreases n,
{
    if n <= 0 {
        Seq::empty()
    } else {
        family_lines(metric, cluster_id, groups, n - 1) + group_lines(
            metric,
            cluster_id,
            groups.keys()[n - 1],
            groups.values()[n - 1].lag_by_topic_partition,
            groups.values()[n - 1].lag_by_topic_partition.keys().len() as int,
        )
    }
}

/// The two lines that open a metric's family: what it means, and that it is
/// a gauge.
pub open spec fn headers(metric: Metric) -> Seq<char> {
    "# HELP "@ + metric.spec_name() + " "@ + metric.spec_help() + "\n"@ + "# TYPE "@
        + metric.spec_name() + " gauge\n"@
}

/// A metric's family: its headers, then the line of every entry that has a
/// lag, group by group.
pub open spec fn family(
    metric: Metric,
    cluster_id: Seq<char>,
    groups: OrderedMap<String, GroupWithLag>,
) -> Seq<char> {
    headers(metric) + family_lines(metric, cluster_id, groups, groups.keys().len() as int)
}

/// The whole body: the three families, a blank line after each.
pub open spec fn metrics_body(cluster_id: Seq<char>, groups: OrderedMap<String, GroupWithLag>) -> Seq<
    char,
> {
    family(Metric::Offset, cluster_id, groups) + "\n"@ + family(
        Metric::LagOffset,
        cluster_id,
        groups,
    ) + "\n"@ + family(Metric::LagMilliseconds, cluster_id, groups) + "\n"@
}

fn digit_char(d: u64) -> (c: char)
    requires
        d < 10,
    ensures
        c == digit(d as int),
{
    if d == 0 {
        '0'
    } else if d == 1 {
        '1'
    } else if d == 2 {
        '2'
    } else if d == 3 {
        '3'
    } else if d == 4 {
        '4'
    } else if d == 5 {
        '5'
    } else if d == 6 {
        '6'
    } else if d == 7 {
        '7'
    } else if d == 8 {
        '8'
    } else {
        '9'
    }
}

/// The low digits that were split off `n`, highest first, stand behind the
/// digits of what is left.
spec fn digits_split(n: nat, rest: nat, low: Seq<char>) -> bool {
    decimal(n) == if rest > 0 {
        decimal(rest) + low
    } else {
        low
    }
}

/// Appends `n` in decimal digits.
pub fn append_decimal(out: &mut String, n: u64)
    ensures
        final(out)@ == old(out)@ + decimal(n as nat),
{
    let mut digits: Vec<char> = Vec::new();
    digits.push(digit_char(n % 10));
    let mut rest: u64 = n / 10;
    let ghost mut low: Seq<char> = seq![digit((n % 10) as int)];
    proof {
        if n >= 10 {
            assert(decimal(n as nat) =~= decimal(rest as nat) + low);
        }
    }
    while rest > 0
        invariant
            digits@.len() == low.len(),
            digits@.len() > 0,
            forall|k: int| 0 <= k < low.len() ==> low[k] == digits@[digits@.len() - 1 - k],
            digits_split(n as nat, rest as nat, low),
        decreases rest,
    {
        let d = digit_char(rest % 10);
        proof {
            let next: Seq<char> = seq![d] + low;
            if rest >= 10 {
                assert(decimal(rest as nat) + low =~= decimal((rest / 10) as nat) + next);
            } else {
                assert(decimal(rest as nat) + low =~= next);
            }
            low = next;
        }
        digits.push(d);
        rest = rest / 10;
    }
    let mut i: usize = digits.len();
    while i > 0
        invariant
            i <= digits@.len(),
            digits@.len() == low.len(),
            forall|k: int| 0 <= k < low.len() ==> low[k] == digits@[digits@.len() - 1 - k],
            out@ == old(out)@ + low.take(digits@.len() - i),
        decreases i,
    {
        i = i - 1;
        out.push(digits[i]);
        assert(out@ =~= old(out)@ + low.take(digits@.len() - i));
    }
    assert(low.take(low.len() as int) =~= low);
}

/// Appends `i` in decimal digits, with a minus sign if it is negative.
pub fn append_signed_decimal(out: &mut String, i: i64)
    ensures
        final(out)@ == old(out)@ + signed_decimal(i as int),
{
    if i < 0 {
        out.push('-');
        let magnitude: u64 = if i == i64::MIN {
            9223372036854775808u64
        } else {
            (-i) as u64
        };
        append_decimal(out, magnitude);
        assert(out@ =~= old(out)@ + signed_decimal(i as int));
    } else {
        append_decimal(out, i as u64);
    }
}

/// Appends `s` as it stands in a label value.
pub fn append_escaped(out: &mut String, s: &str)
    ensures
        final(out)@ == old(out)@ + escaped(s@),
{
    broadcast use vstd::string::group_string_axioms;

    for c in it: s.chars()
        invariant
            it.seq() == s@,
            out@ == old(out)@ + escaped(s@.take(it.index() as int)),
    {
        proof {
            let next = s@.take(it.index() as int + 1);
            assert(next.drop_last() =~= s@.take(it.index() as int));
            assert(next.last() == c);
        }
        if c == '\\' {
            out.push('\\');
            out.push('\\');
        } else if c == '"' {
            out.push('\\');
            out.push('"');
        } else if c == '\n' {
            out.push('\\');
            out.push('n');
        } else {
            out.push(c);
        }
        assert(out@ =~= old(out)@ + escaped(s@.take(it.index() as int + 1)));
    }
    assert(s@.take(s@.len() as int) =~= s@);
}

/// Appends the labels of an entry.
fn append_labels(
    out: &mut String,
    cluster_id: &str,
    group: &str,
    tp: &TopicPartition,
    owner: &Option<Member>,
)
    ensures
        final(out)@ == old(out)@ + labels(cluster_id@, group@, tp@, *owner),
{
    out.append("{cluster_id=\"");
    append_escaped(out, cluster_id);
    out.append("\",group=\"");
    append_escaped(out, group);
    out.append("\",topic=\"");
    append_escaped(out, tp.topic.as_str());
    out.append("\",partition=\"");
    append_decimal(out, tp.partition as u64);
    out.append("\",member_id=\"");
    match owner {
        Some(m) => {
            append_escaped(out, m.id.as_str());
            out.append("\",member_host=\"");
            append_escaped(out, m.client_host.as_str());
            out.append("\",member_client_id=\"");
            append_escaped(out, m.client_id.as_str());
        },
        None => {
            assert(escaped(Seq::<char>::empty()) =~= Seq::<char>::empty());
            out.append("\",member_host=\"");
            out.append("\",member_client_id=\"");
        },
    }
    out.append("\"}");
    assert(out@ =~= old(out)@ + labels(cluster_id@, group@, tp@, *owner));
}

/// Appends the two lines that open a metric's family.
pub fn append_headers(out: &mut String, metric: Metric)
    ensures
        final(out)@ == old(out)@ + headers(metric),
{
    out.append("# HELP ");
    out.append(metric.name());
    out.append(" ");
    out.append(metric.help());
    out.append("\n");
    out.append("# TYPE ");
    out.append(metric.name());
    out.append(" gauge\n");
    assert(out@ =~= old(out)@ + headers(metric));
}

/// Appends the line of one entry under one metric, if the entry has a lag.
pub fn append_metric(
    out: &mut String,
    metric: Metric,
    cluster_id: &str,
    group: &str,
    tp: &TopicPartition,
    entry: &LagWithOwner,
)
    ensures
        final(out)@ == old(out)@ + entry_line(metric, cluster_id@, group@, tp@, *entry),
{
    match entry.lag {
        Some(lag) => {
            out.append(metric.name());
            append_labels(out, cluster_id, group, tp, &entry.owner);
            out.append(" ");
            match metric {
                Metric::Offset => {
                    append_decimal(out, lag.offset);
                },
                Metric::LagOffset => {
                    append_decimal(out, lag.offset_lag);
                },
                Metric::LagMilliseconds => {
                    append_signed_decimal(out, lag.time_lag.millis);
                },
            }
            out.append("\n");
            assert(out@ =~= old(out)@ + entry_line(metric, cluster_id@, group@, tp@, *entry));
        },
        None => {
            assert(out@ =~= old(out)@ + entry_line(metric, cluster_id@, group@, tp@, *entry));
        },
    }
}

/// Appends a metric's family.
fn append_family(
    out: &mut String,
    metric: Metric,
    cluster_id: &str,
    groups: &OrderedMap<String, GroupWithLag>,
)
    requires
        groups.wf(),
        forall|name: Seq<char>| #[trigger]
            groups@.contains_key(name) ==> groups@[name].lag_by_topic_partition.wf(),
    ensures
        final(out)@ == old(out)@ + family(metric, cluster_id@, *groups),
{
    append_headers(out, metric);
    let n = groups.len();
    let mut i: usize = 0;
    assert(out@ =~= old(out)@ + headers(metric) + family_lines(metric, cluster_id@, *groups, 0));
    while i < n
        invariant
            i <= n,
            n == groups.keys().len(),
            groups.wf(),
            forall|name: Seq<char>| #[trigger]
                groups@.contains_key(name) ==> groups@[name].lag_by_topic_partition.wf(),
            out@ == old(out)@ + headers(metric) + family_lines(
                metric,
                cluster_id@,
                *groups,
                i as int,
            ),
        decreases n - i,
    {
        let name = groups.key_at(i);
        let group = groups.value_at(i);
        proof {
            groups.lemma_entry(i as int);
        }
        let entries = &group.lag_by_topic_partition;
        let m = entries.len();
        let ghost start = out@;
        let mut j: usize = 0;
        assert(out@ =~= start + group_lines(metric, cluster_id@, name@, *entries, 0));
        while j < m
            invariant
                j <= m,
                m == entries.keys().len(),
                entries.wf(),
                out@ == start + group_lines(metric, cluster_id@, name@, *entries, j as int),
            decreases m - j,
        {
            append_metric(
                out,
                metric,
                cluster_id,
                name.as_str(),
                entries.key_at(j),
                entries.value_at(j),
            );
            assert(out@ =~= start + group_lines(metric, cluster_id@, name@, *entries, j as int + 1));
            j = j + 1;
        }
        assert(out@ =~= old(out)@ + headers(metric) + family_lines(
            metric,
            cluster_id@,
            *groups,
            i as int + 1,
        ));
        i = i + 1;
    }
    assert(out@ =~= old(out)@ + family(metric, cluster_id@, *groups));
}

/// The body that `GET /metrics` answers with: the three metrics of every
/// entry of the register that has a lag.
pub fn prometheus_metrics(cluster_id: &str, lag_reg: &LagRegister) -> (body: String)
    requires
        lag_reg.wf(),
    ensures
        body@ == metrics_body(cluster_id@, lag_reg.entries()),
{
    let groups = lag_reg.groups();
    let mut body = String::new();
    append_family(&mut body, Metric::Offset, cluster_id, groups);
    body.append("\n");
    append_family(&mut body, Metric::LagOffset, cluster_id, groups);
    body.append("\n");
    append_family(&mut body, Metric::LagMilliseconds, cluster_id, groups);
    body.append("\n");
    assert(body@ =~= metrics_body(cluster_id@, lag_reg.entries()));
    body
}

/// The status that `GET /status/ready` answers with: 200 once the register
/// is ready, 503 before.
pub fn ready_status(lag_reg: &LagRegister) -> (status: u16)
    requires
        lag_reg.wf(),
    ensures
        status == if exists|name: Seq<char>, tp: (Seq<char>, u32)|
            lag_reg@.contains_key(name) && #[trigger] lag_reg@[name].lags.contains_key(tp) {
            STATUS_OK
        } else {
            STATUS_SERVICE_UNAVAILABLE
        },
{
    if lag_reg.is_ready() {
        STATUS_OK
    } else {
        STATUS_SERVICE_UNAVAILABLE
    }
}

} // verus!
