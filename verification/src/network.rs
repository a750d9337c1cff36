//! Network traffic counters.
//!
//! The cumulative byte counters come from the `/proc/net/dev` table: two
//! header lines, then one line per interface, `name: ` followed by eight
//! receive fields and eight transmit fields. Received bytes are the first
//! field, transmitted bytes the ninth. The loopback interface `lo` is not
//! counted.
use vstd::prelude::*;

use crate::text::{
    chars_of, ends_lines, field_spans, fields, lemma_lines_append, line_spans, lines,
    parse_u64_span, parsed_u64, spans_name, trim, trim_span,
};

verus! {

/// Cumulative bytes over all interfaces but loopback.
#[derive(Clone, Copy, Debug, PartialEq, Eq, Structural)]
pub struct TrafficBytes {
    pub received: u64,
    pub transmitted: u64,
}

/// A sum of byte counters that does not fit in a `u64`.
#[derive(Clone, Copy, Debug, PartialEq, Eq, Structural)]
pub struct CounterOverflow;

/// How one line of the interface table counts.
#[derive(Clone, Copy, Debug, PartialEq, Eq, Structural)]
pub enum DeviceLine {
    /// The line has no `':'`: it names no interface and is passed over.
    NoInterface,
    /// The loopback interface, passed over.
    Loopback,
    /// An interface with its received and transmitted byte counters.
    Counters { received: u64, transmitted: u64 },
    /// An interface line whose first or ninth field is missing or is not a `u64`.
    Malformed,
}

/// The position of the first `':'` in `s`.
pub open spec fn first_colon(s: Seq<char>) -> Option<int>
    decreases s.len(),
{
    if s.len() == 0 {
        None
    } else {
        match first_colon(s.drop_last()) {
            Some(k) => Some(k),
            None => if s.last() == ':' {
                Some(s.len() - 1)
            } else {
                None
            },
        }
    }
}

/// The interface name `lo`, whitespace around it ignored.
pub open spec fn is_loopback_name(name: Seq<char>) -> bool {
    trim(name) == seq!['l', 'o']
}

/// How the line `line` of the table counts: split at its first `':'` into a
/// name and the statistics, which are split at whitespace.
pub open spec fn device_line(line: Seq<char>) -> DeviceLine {
    match first_colon(line) {
        None => DeviceLine::NoInterface,
        Some(k) => if is_loopback_name(line.take(k)) {
            DeviceLine::Loopback
        } else {
            let f = fields(line.skip(k + 1));
            if f.len() > 8 && parsed_u64(f[0]) is Some && parsed_u64(f[8]) is Some {
                DeviceLine::Counters {
                    received: parsed_u64(f[0])->0,
                    transmitted: parsed_u64(f[8])->0,
                }
            } else {
                DeviceLine::Malformed
            }
        },
    }
}

/// Reading the lines `ls` in order: the sums of received and of transmitted
/// bytes over the interface lines before the first malformed one, and whether
/// a malformed one occurs.
pub open spec fn tally(ls: Seq<Seq<char>>) -> (int, int, bool)
    decreases ls.len(),
{
    if ls.len() == 0 {
        (0, 0, false)
    } else {
        let t = tally(ls.drop_last());
        if t.2 {
            t
        } else {
            match device_line(ls.last()) {
                DeviceLine::Counters { received, transmitted } => (
                    t.0 + received,
                    t.1 + transmitted,
                    false,
                ),
                DeviceLine::Malformed => (t.0, t.1, true),
                _ => t,
            }
        }
    }
}

/// The lines of the table below its two header lines.
pub open spec fn device_lines(content: Seq<char>) -> Seq<Seq<char>> {
    let l = lines(content);
    if l.len() <= 2 {
        seq![]
    } else {
        l.skip(2)
    }
}

pub open spec fn traffic_tally(content: Seq<char>) -> (int, int, bool) {
    tally(device_lines(content))
}

/// The sums that a read of `content` adds up fit in a `u64`.
pub open spec fn counters_fit(content: Seq<char>) -> bool {
    traffic_tally(content).0 <= u64::MAX && traffic_tally(content).1 <= u64::MAX
}

/// A counter's growth from `previous` to `current`; a counter that went back
/// (the interface was reset) grew by nothing.
pub open spec fn counter_growth(previous: u64, current: u64) -> nat {
    if current >= previous {
        (current - previous) as nat
    } else {
        0
    }
}

/// The bytes moved between the readings `previous` and `current`.
pub open spec fn transferred(previous: TrafficBytes, current: TrafficBytes) -> nat {
    counter_growth(previous.received, current.received) + counter_growth(
        previous.transmitted,
        current.transmitted,
    )
}

/// Reading lines one by one never lowers the sums, and a malformed line, once
/// met, stays met.
pub proof fn lemma_tally_prefix(ls: Seq<Seq<char>>, k: int)
    requires
        0 <= k <= ls.len(),
    ensures
        tally(ls.take(k)).0 <= tally(ls).0,
        tally(ls.take(k)).1 <= tally(ls).1,
        tally(ls.take(k)).2 ==> tally(ls) == tally(ls.take(k)),
    decreases ls.len() - k,
{
    if k < ls.len() {
        lemma_tally_prefix(ls, k + 1);
        assert(ls.take(k + 1).drop_last() =~= ls.take(k));
    } else {
        assert(ls.take(k) =~= ls);
    }
}

/// A loopback line, wherever it stands among the interface lines, changes
/// nothing that a read reports.
pub proof fn lemma_loopback_lines_do_not_count(ls: Seq<Seq<char>>, i: int, line: Seq<char>)
    requires
        0 <= i <= ls.len(),
        first_colon(line) is Some,
        is_loopback_name(line.take(first_colon(line)->0)),
    ensures
        tally(ls.insert(i, line)) == tally(ls),
    decreases ls.len(),
{
    assert(device_line(line) == DeviceLine::Loopback);
    if i == ls.len() {
        assert(ls.insert(i, line).drop_last() =~= ls);
    } else {
        lemma_loopback_lines_do_not_count(ls.drop_last(), i, line);
        assert(ls.insert(i, line).drop_last() =~= ls.drop_last().insert(i, line));
        assert(ls.insert(i, line).last() == ls.last());
    }
}

/// Reading `la` and then `lb`: a malformed line in `la` settles the result;
/// otherwise the sums add and `lb` decides whether a malformed line occurs.
pub proof fn lemma_tally_append(la: Seq<Seq<char>>, lb: Seq<Seq<char>>)
    ensures
        tally(la + lb) == (if tally(la).2 {
            tally(la)
        } else {
            (tally(la).0 + tally(lb).0, tally(la).1 + tally(lb).1, tally(lb).2)
        }),
    decreases lb.len(),
{
    if lb.len() == 0 {
        assert(la + lb =~= la);
    } else {
        assert((la + lb).drop_last() =~= la + lb.drop_last());
        assert((la + lb).last() == lb.last());
        lemma_tally_append(la, lb.drop_last());
    }
}

/// Only the lines below the first two count: two tables whose lines agree
/// past their first two read alike, whatever their first two lines hold.
pub proof fn lemma_header_lines_do_not_count(c1: Seq<char>, c2: Seq<char>)
    requires
        lines(c1).len() <= 2 && lines(c2).len() <= 2 || lines(c1).len() >= 2 && lines(c2).len()
            >= 2 && lines(c1).skip(2) == lines(c2).skip(2),
    ensures
        traffic_tally(c1) == traffic_tally(c2),
{
    let l1 = lines(c1);
    let l2 = lines(c2);
    if l1.len() >= 2 && l2.len() >= 2 && l1.skip(2) == l2.skip(2) {
        assert(l1.skip(2).len() == l2.skip(2).len());
    }
}

/// Interface tables add up: below the same two header lines `h`, the whole
/// lines `a` followed by the whole lines `b` read as the sum of what `a` and
/// `b` read alone, in either order; a malformed line in either makes the
/// whole malformed.
pub proof fn lemma_tables_add(h: Seq<char>, a: Seq<char>, b: Seq<char>)
    requires
        lines(h).len() == 2,
        ends_lines(h),
        ends_lines(a),
        ends_lines(b),
    ensures
        traffic_tally(h + a + b).2 == (traffic_tally(h + a).2 || traffic_tally(h + b).2),
        traffic_tally(h + b + a).2 == traffic_tally(h + a + b).2,
        !traffic_tally(h + a + b).2 ==> traffic_tally(h + a + b) == (
            traffic_tally(h + a).0 + traffic_tally(h + b).0,
            traffic_tally(h + a).1 + traffic_tally(h + b).1,
            false,
        ),
        !traffic_tally(h + a + b).2 ==> traffic_tally(h + b + a) == traffic_tally(h + a + b),
{
    lemma_table_lines(h, a, b);
    lemma_table_lines(h, b, a);
    lemma_table_lines(h, a, Seq::<char>::empty());
    lemma_table_lines(h, b, Seq::<char>::empty());
    assert(h + a + Seq::<char>::empty() =~= h + a);
    assert(h + b + Seq::<char>::empty() =~= h + b);
    assert(lines(Seq::<char>::empty()) =~= Seq::<Seq<char>>::empty());
    let la = lines(a);
    let lb = lines(b);
    assert(la + Seq::<Seq<char>>::empty() =~= la);
    assert(lb + Seq::<Seq<char>>::empty() =~= lb);
    lemma_tally_append(la, lb);
    lemma_tally_append(lb, la);
}

/// The interface lines of `h + a + b`, for two header lines `h` and whole
/// lines `a`, are those of `a` and then those of `b`.
proof fn lemma_table_lines(h: Seq<char>, a: Seq<char>, b: Seq<char>)
    requires
        lines(h).len() == 2,
        ends_lines(h),
        ends_lines(a),
    ensures
        device_lines(h + a + b) == lines(a) + lines(b),
{
    lemma_lines_append(h, a);
    assert(ends_lines(h + a)) by {
        if a.len() == 0 {
            assert(h + a =~= h);
        } else {
            assert((h + a).last() == a.last());
        }
    }
    lemma_lines_append(h + a, b);
    let rest = lines(a) + lines(b);
    assert(lines(h + a + b) =~= lines(h) + rest);
    assert((lines(h) + rest).skip(2) =~= rest);
    if rest.len() == 0 {
        assert(device_lines(h + a + b) =~= rest);
    }
}

/// A name holds no `':'`.
pub open spec fn no_colon(name: Seq<char>) -> bool {
    forall|i: int| 0 <= i < name.len() ==> name[i] != ':'
}

proof fn lemma_first_colon_none(s: Seq<char>)
    requires
        no_colon(s),
    ensures
        first_colon(s) is None,
    decreases s.len(),
{
    if s.len() > 0 {
        lemma_first_colon_none(s.drop_last());
    }
}

/// The name of an interface does not matter, `lo` aside: a line
/// `name:stats` whose name is not `lo` (whitespace around it ignored) is an
/// interface line that counts, and counts alike whatever its name.
pub proof fn lemma_interface_name_does_not_matter(
    name1: Seq<char>,
    name2: Seq<char>,
    stats: Seq<char>,
)
    requires
        no_colon(name1),
        no_colon(name2),
        trim(name1) != seq!['l', 'o'],
        trim(name2) != seq!['l', 'o'],
    ensures
        device_line(name1 + seq![':'] + stats) == device_line(name2 + seq![':'] + stats),
        device_line(name1 + seq![':'] + stats) != DeviceLine::NoInterface,
        device_line(name1 + seq![':'] + stats) != DeviceLine::Loopback,
{
    lemma_name_stats_split(name1, stats);
    lemma_name_stats_split(name2, stats);
}

proof fn lemma_name_stats_split(name: Seq<char>, stats: Seq<char>)
    requires
        no_colon(name),
    ensures
        first_colon(name + seq![':'] + stats) == Some(name.len() as int),
        (name + seq![':'] + stats).take(name.len() as int) == name,
        (name + seq![':'] + stats).skip(name.len() as int + 1) == stats,
{
    let line = name + seq![':'] + stats;
    let k = name.len() as int;
    lemma_first_colon_none(name);
    assert(line.take(k + 1).drop_last() =~= name);
    assert(line.take(k + 1).last() == ':');
    lemma_first_colon_extends(line, k + 1);
    assert(line.take(k) =~= name);
    assert(line.skip(k + 1) =~= stats);
}

/// Lines that count alike read alike.
pub proof fn lemma_tally_same_counts(ls1: Seq<Seq<char>>, ls2: Seq<Seq<char>>)
    requires
        ls1.len() == ls2.len(),
        forall|k: int| 0 <= k < ls1.len() ==> device_line(ls1[k]) == device_line(ls2[k]),
    ensures
        tally(ls1) == tally(ls2),
    decreases ls1.len(),
{
    if ls1.len() > 0 {
        lemma_tally_same_counts(ls1.drop_last(), ls2.drop_last());
        assert(device_line(ls1.last()) == device_line(ls2.last()));
    }
}

/// Renaming an interface other than `lo` to another name that is not `lo`
/// changes nothing that a read of the table reports.
pub proof fn lemma_renamed_interface_reads_alike(
    ls: Seq<Seq<char>>,
    k: int,
    name1: Seq<char>,
    name2: Seq<char>,
    stats: Seq<char>,
)
    requires
        0 <= k < ls.len(),
        ls[k] == name1 + seq![':'] + stats,
        no_colon(name1),
        no_colon(name2),
        trim(name1) != seq!['l', 'o'],
        trim(name2) != seq!['l', 'o'],
    ensures
        tally(ls.update(k, name2 + seq![':'] + stats)) == tally(ls),
{
    lemma_interface_name_does_not_matter(name1, name2, stats);
    let ls2 = ls.update(k, name2 + seq![':'] + stats);
    assert forall|j: int| 0 <= j < ls.len() implies device_line(ls2[j]) == device_line(
        ls[j],
    ) by {}
    lemma_tally_same_counts(ls2, ls);
}

/// A table of one interface line `name:stats`, `name` not `lo`, whose first
/// and ninth fields after the `':'` are `u64`s, reads as exactly those two
/// counters.
pub proof fn lemma_single_interface(name: Seq<char>, stats: Seq<char>)
    requires
        no_colon(name),
        trim(name) != seq!['l', 'o'],
        fields(stats).len() > 8,
        parsed_u64(fields(stats)[0]) is Some,
        parsed_u64(fields(stats)[8]) is Some,
    ensures
        tally(seq![name + seq![':'] + stats]) == (
            parsed_u64(fields(stats)[0])->0 as int,
            parsed_u64(fields(stats)[8])->0 as int,
            false,
        ),
{
    lemma_name_stats_split(name, stats);
    let line = name + seq![':'] + stats;
    let ls = seq![line];
    assert(ls.drop_last() =~= Seq::<Seq<char>>::empty());
    assert(ls.last() == line);
    assert(tally(ls.drop_last()) == (0int, 0int, false));
    assert(!is_loopback_name(line.take(name.len() as int)));
    assert(device_line(line) == DeviceLine::Counters {
        received: parsed_u64(fields(stats)[0])->0,
        transmitted: parsed_u64(fields(stats)[8])->0,
    });
}

/// An interface line `name:stats`, `name` not `lo`, read alone: it is
/// malformed unless its first and ninth fields after the `':'` are `u64`s,
/// and then it counts for exactly those two counters.
pub proof fn lemma_single_interface_line(name: Seq<char>, stats: Seq<char>)
    requires
        no_colon(name),
        trim(name) != seq!['l', 'o'],
    ensures
        tally(seq![name + seq![':'] + stats]).2 <==> !(fields(stats).len() > 8 && parsed_u64(
            fields(stats)[0],
        ) is Some && parsed_u64(fields(stats)[8]) is Some),
        tally(seq![name + seq![':'] + stats]).2 ==> tally(seq![name + seq![':'] + stats]).0 == 0
            && tally(seq![name + seq![':'] + stats]).1 == 0,
{
    lemma_name_stats_split(name, stats);
    let line = name + seq![':'] + stats;
    let ls = seq![line];
    assert(ls.drop_last() =~= Seq::<Seq<char>>::empty());
    assert(ls.last() == line);
    assert(tally(ls.drop_last()) == (0int, 0int, false));
    assert(!is_loopback_name(line.take(name.len() as int)));
    if fields(stats).len() > 8 && parsed_u64(fields(stats)[0]) is Some && parsed_u64(
        fields(stats)[8],
    ) is Some {
        lemma_single_interface(name, stats);
    }
}

/// How the line `text[start..end]` of the table counts.
pub fn classify_line(text: &Vec<char>, start: usize, end: usize) -> (res: DeviceLine)
    requires
        start <= end <= text@.len(),
    ensures
        res == device_line(text@.subrange(start as int, end as int)),
        (exists|k: int| start <= k < end && text@[k] == ':') ==> res != DeviceLine::NoInterface,
{
    let ghost line = text@.subrange(start as int, end as int);
    let mut colon = start;
    while colon < end && text[colon] != ':'
        invariant
            start <= colon <= end <= text@.len(),
            line == text@.subrange(start as int, end as int),
            first_colon(line.take(colon - start)) is None,
            forall|j: int| start <= j < colon ==> text@[j] != ':',
        decreases end - colon,
    {
        let ghost k = colon - start;
        assert(line.take(k + 1).drop_last() =~= line.take(k));
        assert(line.take(k + 1).last() == text@[colon as int]);
        colon = colon + 1;
    }
    if colon == end {
        assert(line.take(end - start) =~= line);
        return DeviceLine::NoInterface;
    }
    let ghost k = colon - start;
    assert(line.take(k + 1).drop_last() =~= line.take(k));
    assert(line.take(k + 1).last() == text@[colon as int]);
    proof {
        lemma_first_colon_extends(line, k + 1);
    }
    assert(first_colon(line) == Some(k));
    let (a, b) = trim_span(text, start, colon);
    assert(text@.subrange(start as int, colon as int) =~= line.take(k));
    let is_lo = b - a == 2 && text[a] == 'l' && text[a + 1] == 'o';
    proof {
        let t = text@.subrange(a as int, b as int);
        if is_lo {
            assert(t =~= seq!['l', 'o']);
        } else if t == seq!['l', 'o'] {
            assert(t.len() == 2);
            assert(t[0] == text@[a as int]);
            assert(t[1] == text@[a + 1]);
        }
        assert(is_lo == is_loopback_name(line.take(k)));
    }
    if is_lo {
        return DeviceLine::Loopback;
    }
    let spans = field_spans(text, colon + 1, end);
    assert(text@.subrange(colon + 1, end as int) =~= line.skip(k + 1));
    let ghost f = fields(line.skip(k + 1));
    if spans.len() <= 8 {
        return DeviceLine::Malformed;
    }
    let (r0, r1) = spans[0];
    let (t0, t1) = spans[8];
    let received = parse_u64_span(text, r0, r1);
    let transmitted = parse_u64_span(text, t0, t1);
    assert(text@.subrange(r0 as int, r1 as int) == f[0]);
    assert(text@.subrange(t0 as int, t1 as int) == f[8]);
    match (received, transmitted) {
        (Some(received), Some(transmitted)) => DeviceLine::Counters { received, transmitted },
        _ => DeviceLine::Malformed,
    }
}

/// Once a prefix of `s` holds a `':'`, the first one in `s` is the first one
/// in that prefix.
pub proof fn lemma_first_colon_extends(s: Seq<char>, k: int)
    requires
        0 <= k <= s.len(),
        first_colon(s.take(k)) is Some,
    ensures
        first_colon(s) == first_colon(s.take(k)),
    decreases s.len() - k,
{
    if k < s.len() {
        assert(s.take(k + 1).drop_last() =~= s.take(k));
        lemma_first_colon_extends(s, k + 1);
    } else {
        assert(s.take(k) =~= s);
    }
}

impl TrafficBytes {
    /// Sums the byte counters of the interface table `content` (the format of
    /// `/proc/net/dev`). `None` where an interface line lacks its received or
    /// transmitted field or holds there something that is not a `u64`.
    pub fn parse(content: &str) -> (res: Option<Self>)
        requires
            counters_fit(content@),
        ensures
            res is None <==> traffic_tally(content@).2,
            res matches Some(total) ==> {
                &&& total.received == traffic_tally(content@).0
                &&& total.transmitted == traffic_tally(content@).1
            },
    {
        match Self::parse_checked(content) {
            Ok(res) => res,
            Err(_) => None,
        }
    }

    /// `parse`, for any input: `Err` where a sum that it adds up does not fit
    /// in a `u64`.
    pub fn parse_checked(content: &str) -> (res: Result<Option<Self>, CounterOverflow>)
        ensures
            res is Err <==> !counters_fit(content@),
            res matches Ok(parsed) ==> {
                &&& parsed is None <==> traffic_tally(content@).2
                &&& parsed matches Some(total) ==> {
                    &&& total.received == traffic_tally(content@).0
                    &&& total.transmitted == traffic_tally(content@).1
                }
            },
    {
        let text = chars_of(content);
        let spans = line_spans(&text);
        let ghost ls = lines(text@);
        let mut total = TrafficBytes { received: 0, transmitted: 0 };
        if spans.len() <= 2 {
            return Ok(Some(total));
        }
        let ghost dl = ls.skip(2);
        assert(dl.take(0) =~= seq![]);
        let mut j: usize = 2;
        while j < spans.len()
            invariant
                2 <= j <= spans@.len(),
                text@ == content@,
                ls == lines(text@),
                dl == device_lines(content@),
                dl == ls.skip(2),
                spans_name(text@, spans@, ls),
                tally(dl.take(j - 2)) == (total.received as int, total.transmitted as int, false),
            decreases spans@.len() - j,
        {
            let (a, b) = spans[j];
            let entry = classify_line(&text, a, b);
            let ghost k = j - 2;
            assert(dl.take(k + 1).drop_last() =~= dl.take(k));
            assert(dl.take(k + 1).last() == ls[j as int]);
            proof {
                lemma_tally_prefix(dl, k + 1);
            }
            match entry {
                DeviceLine::Counters { received, transmitted } => {
                    match (
                        total.received.checked_add(received),
                        total.transmitted.checked_add(transmitted),
                    ) {
                        (Some(r), Some(t)) => {
                            total.received = r;
                            total.transmitted = t;
                        },
                        _ => {
                            return Err(CounterOverflow);
                        },
                    }
                },
                DeviceLine::Malformed => {
                    return Ok(None);
                },
                _ => {},
            }
            j = j + 1;
        }
        assert(dl.take(dl.len() as int) =~= dl);
        Ok(Some(total))
    }

    /// The bytes moved between two readings of the counters: the growth of
    /// the received counter plus that of the transmitted one, a counter that
    /// went back counting as no growth. `None` where that sum does not fit in
    /// a `u64`.
    pub fn transferred_bytes(previous: Self, current: Self) -> (res: Option<u64>)
        ensures
            res is None <==> transferred(previous, current) > u64::MAX,
            res matches Some(bytes) ==> bytes == transferred(previous, current),
            current.received <= previous.received && current.transmitted <= previous.transmitted
                ==> res == Some(0u64),
            previous.received <= current.received && previous.transmitted <= current.transmitted
                && res is Some ==> res->0 == (current.received - previous.received) + (
                current.transmitted - previous.transmitted),
            current.received < previous.received && res is Some ==> res->0 == counter_growth(
                previous.transmitted,
                current.transmitted,
            ),
            current.transmitted < previous.transmitted && res is Some ==> res->0
                == counter_growth(previous.received, current.received),
    {
        let received = current.received.saturating_sub(previous.received);
        let transmitted = current.transmitted.saturating_sub(previous.transmitted);
        received.checked_add(transmitted)
    }
}

/// One interface's bytes over a measuring interval, as the system reports them.
pub struct InterfaceTraffic {
    pub name: String,
    pub received: u64,
    pub transmitted: u64,
}

/// Over the interfaces `s` other than `lo`: the bytes received and
/// transmitted, together, and how many interfaces there are.
pub open spec fn interval_sum(s: Seq<InterfaceTraffic>) -> (int, nat)
    decreases s.len(),
{
    if s.len() == 0 {
        (0, 0)
    } else {
        let t = interval_sum(s.drop_last());
        if s.last().name@ == seq!['l', 'o'] {
            t
        } else {
            (t.0 + s.last().received + s.last().transmitted, t.1 + 1)
        }
    }
}

pub proof fn lemma_interval_sum_prefix(s: Seq<InterfaceTraffic>, k: int)
    requires
        0 <= k <= s.len(),
    ensures
        interval_sum(s.take(k)).0 <= interval_sum(s).0,
        interval_sum(s.take(k)).1 <= k,
    decreases s.len() - k,
{
    if k < s.len() {
        lemma_interval_sum_prefix(s, k + 1);
        assert(s.take(k + 1).drop_last() =~= s.take(k));
    } else {
        assert(s.take(k) =~= s);
    }
    lemma_interval_count_le(s.take(k));
}

pub proof fn lemma_interval_count_le(s: Seq<InterfaceTraffic>)
    ensures
        interval_sum(s).1 <= s.len(),
    decreases s.len(),
{
    if s.len() > 0 {
        lemma_interval_count_le(s.drop_last());
    }
}

/// The count is the number of interfaces not named `lo`, whatever traffic
/// each had.
pub proof fn lemma_interval_count_is_non_loopback(s: Seq<InterfaceTraffic>)
    ensures
        interval_sum(s).1 == s.filter(|t: InterfaceTraffic| t.name@ != seq!['l', 'o']).len(),
    decreases s.len(),
{
    reveal(Seq::filter);
    if s.len() > 0 {
        lemma_interval_count_is_non_loopback(s.drop_last());
    }
}

/// Interval sums add up over the interfaces: the sums of `a` followed by `b`
/// are those of `a` plus those of `b`.
pub proof fn lemma_interval_sum_append(a: Seq<InterfaceTraffic>, b: Seq<InterfaceTraffic>)
    ensures
        interval_sum(a + b) == (interval_sum(a).0 + interval_sum(b).0, interval_sum(a).1
            + interval_sum(b).1),
    decreases b.len(),
{
    if b.len() == 0 {
        assert(a + b =~= a);
    } else {
        assert((a + b).drop_last() =~= a + b.drop_last());
        assert((a + b).last() == b.last());
        lemma_interval_sum_append(a, b.drop_last());
    }
}

/// One interface alone: `lo` counts for nothing; any other for its received
/// and transmitted bytes, and as one interface.
pub proof fn lemma_interval_sum_single(t: InterfaceTraffic)
    ensures
        interval_sum(seq![t]) == (if t.name@ == seq!['l', 'o'] {
            (0int, 0nat)
        } else {
            (t.received + t.transmitted, 1nat)
        }),
{
    assert(seq![t].drop_last() =~= Seq::<InterfaceTraffic>::empty());
    assert(seq![t].last() == t);
    assert(interval_sum(seq![t].drop_last()) == (0int, 0nat));
}

/// The bytes that all interfaces but `lo` moved in an interval, and how many
/// such interfaces there are; `None` where the bytes do not fit in a `u64`.
pub fn interval_traffic(interfaces: &[InterfaceTraffic]) -> (res: Option<(u64, usize)>)
    ensures
        res is None <==> interval_sum(interfaces@).0 > u64::MAX,
        res matches Some(total) ==> {
            &&& total.0 == interval_sum(interfaces@).0
            &&& total.1 == interval_sum(interfaces@).1
            &&& total.1 == interfaces@.filter(|t: InterfaceTraffic| t.name@ != seq!['l', 'o']).len()
        },
{
    proof {
        lemma_interval_count_is_non_loopback(interfaces@);
    }
    let mut bytes: u64 = 0;
    let mut count: usize = 0;
    let mut i: usize = 0;
    assert(interfaces@.take(0) =~= seq![]);
    while i < interfaces.len()
        invariant
            i <= interfaces@.len(),
            interval_sum(interfaces@.take(i as int)) == (bytes as int, count as nat),
        decreases interfaces@.len() - i,
    {
        let ghost s = interfaces@;
        assert(s.take(i + 1).drop_last() =~= s.take(i as int));
        assert(s.take(i + 1).last() == s[i as int]);
        proof {
            lemma_interval_sum_prefix(s, i + 1);
        }
        let name = chars_of(interfaces[i].name.as_str());
        let is_lo = name.len() == 2 && name[0] == 'l' && name[1] == 'o';
        proof {
            if is_lo {
                assert(name@ =~= seq!['l', 'o']);
            } else if name@ == seq!['l', 'o'] {
                assert(name@[0] == 'l' && name@[1] == 'o');
            }
        }
        if !is_lo {
            let with_received = bytes.checked_add(interfaces[i].received);
            let next = match with_received {
                Some(b) => b.checked_add(interfaces[i].transmitted),
                None => None,
            };
            match next {
                Some(b) => {
                    bytes = b;
                },
                None => {
                    return None;
                },
            }
            count = count + 1;
        }
        i = i + 1;
    }
    assert(interfaces@.take(i as int) =~= interfaces@);
    Some((bytes, count))
}
} // verus!
