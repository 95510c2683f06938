use vstd::arithmetic::div_mod::{lemma_mod_multiples_vanish, lemma_small_mod};
use crate::configs::{builtin_patterns, column, rows_view, strings_view, SingletonReader};
use crate::event::{data_view, Event};
use crate::patterns::{regex_finds, PatternRegistry};
use vstd::prelude::*;

verus! {

/// The number of raw records in one batch handed to a deserialization worker.
pub const RECORD_LEN_PER_THREAD: i32 = 100;

/// Errors that the pipeline reports to its caller.
#[derive(Debug, Clone, Copy, PartialEq, Eq, Structural)]
pub enum DetectionError {
    /// A batch size below one was asked for.
    InvalidChunkSize,
}

/// The concatenation of a sequence of batches.
pub open spec fn flatten_batches<T>(b: Seq<Vec<T>>) -> Seq<T> {
    b.map_values(|v: Vec<T>| v@).flatten()
}

/// The length of the last batch when `n` records are cut into batches of `size`.
pub open spec fn last_batch_len(n: int, size: int) -> int {
    if n % size == 0 {
        size
    } else {
        n % size
    }
}

/// `b` cuts `src` into consecutive batches of `size`, the last possibly shorter.
pub open spec fn is_chunking<T>(b: Seq<Vec<T>>, src: Seq<T>, size: int) -> bool {
    &&& flatten_batches(b) == src
    &&& forall|i: int| 0 <= i < b.len() - 1 ==> (#[trigger] b[i])@.len() == size
    &&& b.len() == 0 <==> src.len() == 0
    &&& b.len() > 0 ==> b.last()@.len() == last_batch_len(src.len() as int, size)
}

/// The channels that have a detector of their own.
#[derive(Debug, Clone, Copy, PartialEq, Eq, Structural)]
pub enum Channel {
    Security,
    System,
    Application,
    PowerShell,
    Sysmon,
    AppLocker,
}

/// The detector that a channel name selects: an exact, case-sensitive match.
pub open spec fn route_spec(c: Seq<char>) -> Option<Channel> {
    if c == "Security"@ {
        Some(Channel::Security)
    } else if c == "System"@ {
        Some(Channel::System)
    } else if c == "Application"@ {
        Some(Channel::Application)
    } else if c == "Microsoft-Windows-PowerShell/Operational"@ {
        Some(Channel::PowerShell)
    } else if c == "Microsoft-Windows-Sysmon/Operational"@ {
        Some(Channel::Sysmon)
    } else if c == "Microsoft-Windows-AppLocker/EXE and DLL"@ {
        Some(Channel::AppLocker)
    } else {
        None
    }
}

/// The position of a channel's detector in the fixed report order.
pub open spec fn channel_index(c: Channel) -> int {
    match c {
        Channel::Security => 0,
        Channel::System => 1,
        Channel::Application => 2,
        Channel::PowerShell => 3,
        Channel::Sysmon => 4,
        Channel::AppLocker => 5,
    }
}

/// Selects the specialized detector for `channel`, or none.
pub fn route(channel: &str) -> (r: Option<Channel>)
    ensures
        r == route_spec(channel@),
{
    let c = channel.to_owned();
    if c == "Security".to_owned() {
        Some(Channel::Security)
    } else if c == "System".to_owned() {
        Some(Channel::System)
    } else if c == "Application".to_owned() {
        Some(Channel::Application)
    } else if c == "Microsoft-Windows-PowerShell/Operational".to_owned() {
        Some(Channel::PowerShell)
    } else if c == "Microsoft-Windows-Sysmon/Operational".to_owned() {
        Some(Channel::Sysmon)
    } else if c == "Microsoft-Windows-AppLocker/EXE and DLL".to_owned() {
        Some(Channel::AppLocker)
    } else {
        None
    }
}

fn channel_slot(c: Channel) -> (r: usize)
    ensures
        r == channel_index(c),
{
    match c {
        Channel::Security => 0,
        Channel::System => 1,
        Channel::Application => 2,
        Channel::PowerShell => 3,
        Channel::Sysmon => 4,
        Channel::AppLocker => 5,
    }
}

/// One indicator found: the event id, the event-data field, the indicator's name.
pub struct Finding {
    pub event_id: String,
    pub field: String,
    pub indicator: String,
}

pub type FindingView = (Seq<char>, Seq<char>, Seq<char>);

pub open spec fn findings_view(f: Seq<Finding>) -> Seq<FindingView> {
    f.map_values(|x: Finding| (x.event_id@, x.field@, x.indicator@))
}

/// The findings for one value: one per indicator (name, pattern) whose pattern
/// is in the registry and matches the value, in indicator order.
pub open spec fn value_findings(
    id: Seq<char>,
    key: Seq<char>,
    value: Seq<char>,
    inds: Seq<(Seq<char>, Seq<char>)>,
    reg: Set<Seq<char>>,
) -> Seq<FindingView>
    decreases inds.len(),
{
    if inds.len() == 0 {
        Seq::empty()
    } else {
        let prev = value_findings(id, key, value, inds.drop_last(), reg);
        let src = inds.last().1;
        if reg.contains(src) && regex_finds(src, value) {
            prev.push((id, key, inds.last().0))
        } else {
            prev
        }
    }
}

/// A value is whitelisted when a whitelist pattern in the registry matches it.
pub open spec fn whitelisted(wl: Seq<Seq<char>>, reg: Set<Seq<char>>, value: Seq<char>) -> bool {
    exists|i: int| 0 <= i < wl.len() && reg.contains(wl[i]) && regex_finds(#[trigger] wl[i], value)
}

/// The findings for an event's data, whitelisted values left out.
pub open spec fn event_findings(
    id: Seq<char>,
    data: Seq<(Seq<char>, Seq<char>)>,
    inds: Seq<(Seq<char>, Seq<char>)>,
    wl: Seq<Seq<char>>,
    reg: Set<Seq<char>>,
) -> Seq<FindingView>
    decreases data.len(),
{
    if data.len() == 0 {
        Seq::empty()
    } else {
        let prev = event_findings(id, data.drop_last(), inds, wl, reg);
        if whitelisted(wl, reg, data.last().1) {
            prev
        } else {
            prev + value_findings(id, data.last().0, data.last().1, inds, reg)
        }
    }
}

/// The findings for a sequence of events, in order.
pub open spec fn all_findings(
    events: Seq<Event>,
    inds: Seq<(Seq<char>, Seq<char>)>,
    wl: Seq<Seq<char>>,
    reg: Set<Seq<char>>,
) -> Seq<FindingView>
    decreases events.len(),
{
    if events.len() == 0 {
        Seq::empty()
    } else {
        all_findings(events.drop_last(), inds, wl, reg) + event_findings(
            events.last().event_id@,
            events.last().data(),
            inds,
            wl,
            reg,
        )
    }
}

/// Accumulates findings over the events it observes.
pub struct Detector {
    pub observed: u64,
    pub findings: Vec<Finding>,
}

/// What a detector scans with: indicator (name, pattern) pairs, whitelist
/// patterns, and the registry that holds their matchers.
pub struct Rules<'a> {
    pub indicators: Vec<(String, String)>,
    pub whitelist: Vec<String>,
    pub registry: &'a PatternRegistry,
}

impl<'a> Rules<'a> {
    pub open spec fn inds(&self) -> Seq<(Seq<char>, Seq<char>)> {
        data_view(self.indicators@)
    }

    pub open spec fn wl(&self) -> Seq<Seq<char>> {
        strings_view(self.whitelist@)
    }

    pub open spec fn reg(&self) -> Set<Seq<char>> {
        self.registry@
    }
}

/// The indicators of a configuration: the encoded-command pattern, then each
/// (name, pattern) row of the detection file.
pub open spec fn config_indicators(regex_rows: Seq<Seq<Seq<char>>>) -> Seq<(Seq<char>, Seq<char>)> {
    seq![("encoded command"@, builtin_patterns()[0])] + name_pattern_pairs(regex_rows)
}

/// (field 0, field 1) of every row that has two fields.
pub open spec fn name_pattern_pairs(rows: Seq<Seq<Seq<char>>>) -> Seq<(Seq<char>, Seq<char>)>
    decreases rows.len(),
{
    if rows.len() == 0 {
        Seq::empty()
    } else {
        let prev = name_pattern_pairs(rows.drop_last());
        if 2 <= rows.last().len() {
            prev.push((rows.last()[0], rows.last()[1]))
        } else {
            prev
        }
    }
}

impl<'a> Rules<'a> {
    /// The rules that a configuration gives.
    pub fn from_config(config: &'a SingletonReader) -> (r: Rules<'a>)
        ensures
            r.inds() == config_indicators(rows_view(config.regex@)),
            r.wl() == column(rows_view(config.whitelist@), 0),
            r.registry == &config.cached_regex,
    {
        let rows = &config.regex;
        let ghost rv = rows_view(rows@);
        let mut inds: Vec<(String, String)> = Vec::new();
        inds.push(("encoded command".to_owned(), "\\-enc.*[A-Za-z0-9/+=]{100}".to_owned()));
        proof {
            assert(data_view(inds@) =~= seq![("encoded command"@, builtin_patterns()[0])]);
            assert(rv.take(0) =~= Seq::<Seq<Seq<char>>>::empty());
        }
        let mut i: usize = 0;
        while i < rows.len()
            invariant
                i <= rows@.len(),
                rv == rows_view(rows@),
                data_view(inds@) == seq![("encoded command"@, builtin_patterns()[0])]
                    + name_pattern_pairs(rv.take(i as int)),
            decreases rows@.len() - i,
        {
            proof {
                assert(rv.take(i + 1).drop_last() =~= rv.take(i as int));
                assert(rv.take(i + 1).last() == strings_view(rows@[i as int]@));
            }
            if 2 <= rows[i].len() {
                let ghost d0 = inds@;
                inds.push((rows[i][0].as_str().to_owned(), rows[i][1].as_str().to_owned()));
                proof {
                    assert(data_view(inds@) =~= data_view(d0).push(
                        (rows@[i as int]@[0]@, rows@[i as int]@[1]@),
                    ));
                }
            }
            i = i + 1;
        }
        proof {
            assert(rv.take(i as int) =~= rv);
        }
        Rules {
            indicators: inds,
            whitelist: crate::configs::pattern_column(&config.whitelist, 0),
            registry: &config.cached_regex,
        }
    }

    /// Whether a whitelist pattern matches `value`.
    pub fn is_whitelisted(&self, value: &str) -> (r: bool)
        ensures
            r == whitelisted(self.wl(), self.reg(), value@),
    {
        let mut i: usize = 0;
        while i < self.whitelist.len()
            invariant
                i <= self.whitelist@.len(),
                forall|j: int|
                    0 <= j < i ==> !(self.reg().contains(self.wl()[j]) && regex_finds(
                        #[trigger] self.wl()[j],
                        value@,
                    )),
            decreases self.whitelist@.len() - i,
        {
            match self.registry.get(self.whitelist[i].as_str()) {
                Some(entry) => {
                    if entry.is_match(value) {
                        proof {
                            assert(self.wl()[i as int] == self.whitelist@[i as int]@);
                        }
                        return true;
                    }
                },
                None => {},
            }
            i = i + 1;
        }
        false
    }
}

impl Detector {
    pub fn new() -> (r: Detector)
        ensures
            r.observed == 0,
            r.findings@.len() == 0,
    {
        Detector { observed: 0, findings: Vec::new() }
    }

    fn scan_value(&mut self, id: &String, key: &String, value: &String, rules: &Rules)
        ensures
            final(self).observed == old(self).observed,
            findings_view(final(self).findings@) == findings_view(old(self).findings@)
                + value_findings(id@, key@, value@, rules.inds(), rules.reg()),
    {
        let ghost f0 = findings_view(self.findings@);
        let ghost inds = rules.inds();
        let mut i: usize = 0;
        proof {
            assert(inds.take(0) =~= Seq::<(Seq<char>, Seq<char>)>::empty());
            assert(f0 + Seq::<FindingView>::empty() =~= f0);
        }
        while i < rules.indicators.len()
            invariant
                i <= rules.indicators@.len(),
                inds == rules.inds(),
                self.observed == old(self).observed,
                findings_view(self.findings@) == f0 + value_findings(
                    id@,
                    key@,
                    value@,
                    inds.take(i as int),
                    rules.reg(),
                ),
            decreases rules.indicators@.len() - i,
        {
            proof {
                assert(inds.take(i + 1).drop_last() =~= inds.take(i as int));
                assert(inds.take(i + 1).last() == inds[i as int]);
            }
            let src = rules.indicators[i].1.as_str();
            match rules.registry.get(src) {
                Some(entry) => {
                    if entry.is_match(value.as_str()) {
                        let ghost fv = findings_view(self.findings@);
                        let f = Finding {
                            event_id: id.as_str().to_owned(),
                            field: key.as_str().to_owned(),
                            indicator: rules.indicators[i].0.as_str().to_owned(),
                        };
                        self.findings.push(f);
                        proof {
                            assert(findings_view(self.findings@) =~= fv.push(
                                (id@, key@, inds[i as int].0),
                            ));
                        }
                    }
                },
                None => {},
            }
            i = i + 1;
        }
        proof {
            assert(inds.take(i as int) =~= inds);
        }
    }

    /// Observes one event: counts it and adds its findings.
    pub fn observe(&mut self, event: &Event, rules: &Rules)
        requires
            old(self).observed < u64::MAX,
        ensures
            final(self).observed == old(self).observed + 1,
            findings_view(final(self).findings@) == findings_view(old(self).findings@)
                + event_findings(
                event.event_id@,
                event.data(),
                rules.inds(),
                rules.wl(),
                rules.reg(),
            ),
    {
        let ghost f0 = findings_view(self.findings@);
        let ghost data = event.data();
        let mut i: usize = 0;
        proof {
            assert(data.take(0) =~= Seq::<(Seq<char>, Seq<char>)>::empty());
            assert(f0 + Seq::<FindingView>::empty() =~= f0);
        }
        while i < event.event_data.len()
            invariant
                i <= event.event_data@.len(),
                data == event.data(),
                self.observed == old(self).observed,
                findings_view(self.findings@) == f0 + event_findings(
                    event.event_id@,
                    data.take(i as int),
                    rules.inds(),
                    rules.wl(),
                    rules.reg(),
                ),
            decreases event.event_data@.len() - i,
        {
            proof {
                assert(data.take(i + 1).drop_last() =~= data.take(i as int));
                assert(data.take(i + 1).last() == data[i as int]);
            }
            let value = &event.event_data[i].1;
            if !rules.is_whitelisted(value.as_str()) {
                let ghost fv = findings_view(self.findings@);
                self.scan_value(&event.event_id, &event.event_data[i].0, value, rules);
                proof {
                    assert(f0 + event_findings(
                        event.event_id@,
                        data.take(i + 1),
                        rules.inds(),
                        rules.wl(),
                        rules.reg(),
                    ) =~= fv + value_findings(
                        event.event_id@,
                        data[i as int].0,
                        data[i as int].1,
                        rules.inds(),
                        rules.reg(),
                    ));
                }
            }
            i = i + 1;
        }
        proof {
            assert(data.take(i as int) =~= data);
        }
        self.observed = self.observed + 1;
    }
}

/// The events whose channel selects the detector at position `i`, in order.
pub open spec fn routed(events: Seq<Event>, i: int) -> Seq<Event>
    decreases events.len(),
{
    if events.len() == 0 {
        Seq::empty()
    } else {
        let prev = routed(events.drop_last(), i);
        let c = route_spec(events.last().channel@);
        if c is Some && channel_index(c->0) == i {
            prev.push(events.last())
        } else {
            prev
        }
    }
}

/// `d2` is `d` after observing `events` under the given rules.
pub open spec fn observed_all(
    d: Detector,
    d2: Detector,
    events: Seq<Event>,
    inds: Seq<(Seq<char>, Seq<char>)>,
    wl: Seq<Seq<char>>,
    reg: Set<Seq<char>>,
) -> bool {
    &&& d2.observed == d.observed + events.len()
    &&& findings_view(d2.findings@) == findings_view(d.findings@) + all_findings(
        events,
        inds,
        wl,
        reg,
    )
}

pub proof fn lemma_all_findings_append(
    a: Seq<Event>,
    b: Seq<Event>,
    inds: Seq<(Seq<char>, Seq<char>)>,
    wl: Seq<Seq<char>>,
    reg: Set<Seq<char>>,
)
    ensures
        all_findings(a + b, inds, wl, reg) == all_findings(a, inds, wl, reg) + all_findings(
            b,
            inds,
            wl,
            reg,
        ),
    decreases b.len(),
{
    if b.len() == 0 {
        assert(a + b =~= a);
        assert(all_findings(a, inds, wl, reg) + all_findings(b, inds, wl, reg) =~= all_findings(
            a,
            inds,
            wl,
            reg,
        ));
    } else {
        lemma_all_findings_append(a, b.drop_last(), inds, wl, reg);
        assert((a + b).drop_last() =~= a + b.drop_last());
        assert((a + b).last() == b.last());
        assert(all_findings(a + b, inds, wl, reg) =~= all_findings(a, inds, wl, reg)
            + all_findings(b, inds, wl, reg));
    }
}

pub proof fn lemma_routed_append(a: Seq<Event>, b: Seq<Event>, i: int)
    ensures
        routed(a + b, i) == routed(a, i) + routed(b, i),
    decreases b.len(),
{
    if b.len() == 0 {
        assert(a + b =~= a);
        assert(routed(a, i) + routed(b, i) =~= routed(a, i));
    } else {
        lemma_routed_append(a, b.drop_last(), i);
        assert((a + b).drop_last() =~= a + b.drop_last());
        assert((a + b).last() == b.last());
        assert(routed(a + b, i) =~= routed(a, i) + routed(b, i));
    }
}

proof fn lemma_observed_compose(
    a: Detector,
    b: Detector,
    c: Detector,
    s1: Seq<Event>,
    s2: Seq<Event>,
    inds: Seq<(Seq<char>, Seq<char>)>,
    wl: Seq<Seq<char>>,
    reg: Set<Seq<char>>,
)
    requires
        observed_all(a, b, s1, inds, wl, reg),
        observed_all(b, c, s2, inds, wl, reg),
    ensures
        observed_all(a, c, s1 + s2, inds, wl, reg),
{
    lemma_all_findings_append(s1, s2, inds, wl, reg);
    assert(findings_view(c.findings@) =~= findings_view(a.findings@) + all_findings(
        s1 + s2,
        inds,
        wl,
        reg,
    ));
}

/// The events that were deserialized, failed ones left out, in order.
pub open spec fn ok_events(s: Seq<Option<Event>>) -> Seq<Event>
    decreases s.len(),
{
    if s.len() == 0 {
        Seq::empty()
    } else {
        let prev = ok_events(s.drop_last());
        match s.last() {
            Some(e) => prev.push(e),
            None => prev,
        }
    }
}

pub proof fn lemma_ok_events_append(a: Seq<Option<Event>>, b: Seq<Option<Event>>)
    ensures
        ok_events(a + b) == ok_events(a) + ok_events(b),
    decreases b.len(),
{
    if b.len() == 0 {
        assert(a + b =~= a);
        assert(ok_events(a) + ok_events(b) =~= ok_events(a));
    } else {
        lemma_ok_events_append(a, b.drop_last());
        assert((a + b).drop_last() =~= a + b.drop_last());
        assert(ok_events(a + b) =~= ok_events(a) + ok_events(b));
    }
}

/// No more events come out than went in.
pub proof fn lemma_ok_events_len(s: Seq<Option<Event>>)
    ensures
        ok_events(s).len() <= s.len(),
    decreases s.len(),
{
    if s.len() > 0 {
        lemma_ok_events_len(s.drop_last());
    }
}

/// The number of events that the batches of `b` yield, batch by batch.
pub open spec fn ok_count(b: Seq<Vec<Option<Event>>>) -> nat
    decreases b.len(),
{
    if b.len() == 0 {
        0
    } else {
        ok_count(b.drop_last()) + ok_events(b.last()@).len()
    }
}

proof fn lemma_merged_len(b: Seq<Vec<Option<Event>>>)
    ensures
        ok_events(flatten_batches(b)).len() == ok_count(b),
    decreases b.len(),
{
    if b.len() == 0 {
        assert(flatten_batches(b) =~= Seq::<Option<Event>>::empty());
    } else {
        lemma_merged_len(b.drop_last());
        let m = b.drop_last().map_values(|v: Vec<Option<Event>>| v@);
        assert(b.map_values(|v: Vec<Option<Event>>| v@) =~= m.push(b.last()@));
        m.lemma_flatten_push(b.last()@);
        lemma_ok_events_append(flatten_batches(b.drop_last()), b.last()@);
    }
}

proof fn lemma_ok_count_remove(b: Seq<Vec<Option<Event>>>, k: int)
    requires
        0 <= k < b.len(),
    ensures
        ok_count(b) == ok_count(b.remove(k)) + ok_events(b[k]@).len(),
    decreases b.len(),
{
    if k == b.len() - 1 {
        assert(b.remove(k) =~= b.drop_last());
    } else {
        lemma_ok_count_remove(b.drop_last(), k);
        assert(b.remove(k).drop_last() =~= b.drop_last().remove(k));
        assert(b.remove(k).last() == b.last());
    }
}

proof fn lemma_ok_count_permutation(a: Seq<Vec<Option<Event>>>, b: Seq<Vec<Option<Event>>>)
    requires
        a.to_multiset() == b.to_multiset(),
    ensures
        ok_count(a) == ok_count(b),
    decreases a.len(),
{
    broadcast use vstd::seq_lib::group_to_multiset_ensures;

    if a.len() == 0 {
        vstd::seq_lib::to_multiset_len(a);
        vstd::seq_lib::to_multiset_len(b);
        assert(b.len() == 0);
    } else {
        let x = a.last();
        assert(a.to_multiset().contains(x));
        assert(b.contains(x));
        let k = choose|k: int| 0 <= k < b.len() && b[k] == x;
        lemma_ok_count_remove(b, k);
        assert(a.remove(a.len() - 1) =~= a.drop_last());
        vstd::seq_lib::to_multiset_remove(a, a.len() - 1);
        vstd::seq_lib::to_multiset_remove(b, k);
        lemma_ok_count_permutation(a.drop_last(), b.remove(k));
    }
}

/// However the batch results are ordered on arrival, as long as the same batch
/// results arrive, the merged collection has the same size, and never more
/// events than records.
pub proof fn lemma_merge_order_free(a: Seq<Vec<Option<Event>>>, b: Seq<Vec<Option<Event>>>)
    requires
        a.to_multiset() == b.to_multiset(),
    ensures
        ok_events(flatten_batches(a)).len() == ok_events(flatten_batches(b)).len(),
        ok_events(flatten_batches(a)).len() <= flatten_batches(a).len(),
{
    lemma_merged_len(a);
    lemma_merged_len(b);
    lemma_ok_count_permutation(a, b);
    lemma_ok_events_len(flatten_batches(a));
}

/// Concatenates the results of all batches, in the order given, leaving out the
/// records that failed to deserialize.
pub fn merge_batches(batches: Vec<Vec<Option<Event>>>) -> (r: Vec<Event>)
    ensures
        r@ == ok_events(flatten_batches(batches@)),
        r@.len() <= flatten_batches(batches@).len(),
{
    let ghost total = ok_events(flatten_batches(batches@));
    let mut rest = batches;
    let mut ret: Vec<Event> = Vec::new();
    proof {
        assert(ret@ + ok_events(flatten_batches(rest@)) =~= total);
    }
    while rest.len() > 0
        invariant
            ret@ + ok_events(flatten_batches(rest@)) == total,
        decreases rest@.len(),
    {
        let ghost r0 = rest@;
        let mut batch = rest.remove(0);
        proof {
            assert(r0.map_values(|v: Vec<Option<Event>>| v@) =~= seq![batch@] + rest@.map_values(
                |v: Vec<Option<Event>>| v@,
            ));
            let m = r0.map_values(|v: Vec<Option<Event>>| v@);
            assert(m.first() == batch@);
            assert(m.drop_first() =~= rest@.map_values(|v: Vec<Option<Event>>| v@));
            assert(flatten_batches(r0) == batch@ + flatten_batches(rest@));
            lemma_ok_events_append(batch@, flatten_batches(rest@));
        }
        while batch.len() > 0
            invariant
                ret@ + ok_events(batch@) + ok_events(flatten_batches(rest@)) == total,
            decreases batch@.len(),
        {
            let ghost b0 = batch@;
            let item = batch.remove(0);
            proof {
                assert(b0 =~= seq![item] + batch@);
                lemma_ok_events_append(seq![item], batch@);
                assert(seq![item].drop_last() =~= Seq::<Option<Event>>::empty());
                assert(seq![item].last() == item);
                assert(ok_events(Seq::<Option<Event>>::empty()) == Seq::<Event>::empty());
                if item is Some {
                    assert(ok_events(seq![item]) =~= seq![item->0]);
                } else {
                    assert(ok_events(seq![item]) =~= Seq::<Event>::empty());
                }
            }
            match item {
                Some(e) => {
                    let ghost g0 = ret@;
                    ret.push(e);
                    proof {
                        assert(ret@ =~= g0 + seq![e]);
                    }
                },
                None => {},
            }
        }
    }
    proof {
        assert(flatten_batches(rest@) =~= Seq::<Option<Event>>::empty());
        assert(ret@ =~= total);
        lemma_ok_events_len(flatten_batches(batches@));
    }
    ret
}

/// The detectors of one run: the general detector, which observes every event,
/// and one detector per channel, in the fixed report order of `Channel`.
pub struct Detection {
    pub general: Detector,
    pub specialized: Vec<Detector>,
}

/// `d2` is `d` after every event of `events` was dispatched, in order.
pub open spec fn ran_over(
    d: Detection,
    d2: Detection,
    events: Seq<Event>,
    inds: Seq<(Seq<char>, Seq<char>)>,
    wl: Seq<Seq<char>>,
    reg: Set<Seq<char>>,
) -> bool {
    &&& observed_all(d.general, d2.general, events, inds, wl, reg)
    &&& forall|i: int|
        0 <= i < 6 ==> observed_all(
            #[trigger] d.specialized@[i],
            d2.specialized@[i],
            routed(events, i),
            inds,
            wl,
            reg,
        )
}

/// Events with the same channel name go to the same specialized detector, or
/// to none alike.
pub proof fn lemma_route_by_channel(a: Event, b: Event, i: int)
    requires
        a.channel@ == b.channel@,
    ensures
        routed(seq![a], i).len() == routed(seq![b], i).len(),
{
    assert(seq![a].drop_last() =~= Seq::<Event>::empty());
    assert(seq![b].drop_last() =~= Seq::<Event>::empty());
    assert(seq![a].last() == a);
    assert(seq![b].last() == b);
}

/// No event reaches more than one specialized detector.
pub proof fn lemma_one_detector_per_event(events: Seq<Event>)
    ensures
        routed(events, 0).len() + routed(events, 1).len() + routed(events, 2).len() + routed(
            events,
            3,
        ).len() + routed(events, 4).len() + routed(events, 5).len() <= events.len(),
    decreases events.len(),
{
    if events.len() > 0 {
        lemma_one_detector_per_event(events.drop_last());
    }
}

/// After a run the general detector has observed every event, whatever its channel.
pub proof fn lemma_general_observes_all(
    d: Detection,
    d2: Detection,
    events: Seq<Event>,
    inds: Seq<(Seq<char>, Seq<char>)>,
    wl: Seq<Seq<char>>,
    reg: Set<Seq<char>>,
)
    requires
        ran_over(d, d2, events, inds, wl, reg),
    ensures
        d2.general.observed == d.general.observed + events.len(),
        forall|i: int|
            0 <= i < 6 ==> #[trigger] d2.specialized@[i].observed == d.specialized@[i].observed
                + routed(events, i).len(),
{
}

impl Detection {
    pub open spec fn wf(&self) -> bool {
        &&& self.specialized@.len() == 6
        &&& forall|i: int|
            0 <= i < 6 ==> (#[trigger] self.specialized@[i]).observed <= self.general.observed
    }

    pub fn new() -> (r: Detection)
        ensures
            r.wf(),
            r.general.observed == 0,
            r.general.findings@.len() == 0,
            forall|i: int|
                0 <= i < 6 ==> (#[trigger] r.specialized@[i]).observed == 0
                    && r.specialized@[i].findings@.len() == 0,
    {
        let mut specialized: Vec<Detector> = Vec::new();
        let mut i: usize = 0;
        while i < 6
            invariant
                i <= 6,
                specialized@.len() == i,
                forall|j: int|
                    0 <= j < i ==> (#[trigger] specialized@[j]).observed == 0
                        && specialized@[j].findings@.len() == 0,
            decreases 6 - i,
        {
            specialized.push(Detector::new());
            i = i + 1;
        }
        Detection { general: Detector::new(), specialized }
    }

    /// Hands one event to the general detector, then to the detector that its
    /// channel selects, if any.
    pub fn dispatch(&mut self, event: &Event, rules: &Rules)
        requires
            old(self).wf(),
            old(self).general.observed < u64::MAX,
        ensures
            final(self).wf(),
            observed_all(
                old(self).general,
                final(self).general,
                seq![*event],
                rules.inds(),
                rules.wl(),
                rules.reg(),
            ),
            forall|i: int|
                0 <= i < 6 ==> observed_all(
                    #[trigger] old(self).specialized@[i],
                    final(self).specialized@[i],
                    routed(seq![*event], i),
                    rules.inds(),
                    rules.wl(),
                    rules.reg(),
                ),
    {
        let ghost one = seq![*event];
        proof {
            assert(one.drop_last() =~= Seq::<Event>::empty());
            assert(one.last() == *event);
            assert(all_findings(Seq::<Event>::empty(), rules.inds(), rules.wl(), rules.reg())
                == Seq::<FindingView>::empty());
            assert(all_findings(one, rules.inds(), rules.wl(), rules.reg()) =~= event_findings(
                event.event_id@,
                event.data(),
                rules.inds(),
                rules.wl(),
                rules.reg(),
            ));
        }
        self.general.observe(event, rules);
        match route(event.channel.as_str()) {
            Some(c) => {
                let k = channel_slot(c);
                let ghost s0 = self.specialized@;
                let mut d = self.specialized.remove(k);
                d.observe(event, rules);
                self.specialized.insert(k, d);
                proof {
                    assert(self.specialized@ =~= s0.update(k as int, d));
                    assert(route_spec(event.channel@) == Some(c));
                    assert forall|i: int| 0 <= i < 6 implies observed_all(
                        #[trigger] old(self).specialized@[i],
                        self.specialized@[i],
                        routed(one, i),
                        rules.inds(),
                        rules.wl(),
                        rules.reg(),
                    ) by {
                        assert(routed(Seq::<Event>::empty(), i) == Seq::<Event>::empty());
                        if i == k {
                            assert(routed(one, i) =~= one);
                        } else {
                            assert(routed(one, i) =~= Seq::<Event>::empty());
                            assert(findings_view(self.specialized@[i].findings@) + Seq::<
                                FindingView,
                            >::empty() =~= findings_view(self.specialized@[i].findings@));
                        }
                    }
                }
            },
            None => {
                proof {
                    assert(route_spec(event.channel@) is None);
                    assert forall|i: int| 0 <= i < 6 implies observed_all(
                        #[trigger] old(self).specialized@[i],
                        self.specialized@[i],
                        routed(one, i),
                        rules.inds(),
                        rules.wl(),
                        rules.reg(),
                    ) by {
                        assert(routed(Seq::<Event>::empty(), i) == Seq::<Event>::empty());
                        assert(routed(one, i) =~= Seq::<Event>::empty());
                        assert(findings_view(self.specialized@[i].findings@) + Seq::<
                            FindingView,
                        >::empty() =~= findings_view(self.specialized@[i].findings@));
                    }
                }
            },
        }
    }

    /// Routes every event in order: the general detector observes each one, and
    /// each channel's detector observes exactly the events of its channel.
    pub fn start(&mut self, config: &SingletonReader, events: &Vec<Event>)
        requires
            old(self).wf(),
            old(self).general.observed + events@.len() <= u64::MAX,
        ensures
            final(self).wf(),
            ran_over(
                *old(self),
                *final(self),
                events@,
                config_indicators(rows_view(config.regex@)),
                column(rows_view(config.whitelist@), 0),
                config.cached_regex@,
            ),
    {
        let rules = Rules::from_config(config);
        let ghost inds = rules.inds();
        let ghost wl = rules.wl();
        let ghost reg = rules.reg();
        let mut j: usize = 0;
        proof {
            assert(events@.take(0) =~= Seq::<Event>::empty());
            assert(findings_view(self.general.findings@) + Seq::<FindingView>::empty()
                =~= findings_view(self.general.findings@));
            assert forall|i: int| 0 <= i < 6 implies observed_all(
                #[trigger] old(self).specialized@[i],
                self.specialized@[i],
                routed(events@.take(0), i),
                inds,
                wl,
                reg,
            ) by {
                assert(findings_view(self.specialized@[i].findings@) + Seq::<FindingView>::empty()
                    =~= findings_view(self.specialized@[i].findings@));
            }
        }
        while j < events.len()
            invariant
                j <= events@.len(),
                self.wf(),
                inds == rules.inds() && wl == rules.wl() && reg == rules.reg(),
                old(self).general.observed + events@.len() <= u64::MAX,
                ran_over(*old(self), *self, events@.take(j as int), inds, wl, reg),
            decreases events@.len() - j,
        {
            let ghost mid = *self;
            self.dispatch(&events[j], &rules);
            proof {
                let e = events@[j as int];
                assert(events@.take(j + 1) =~= events@.take(j as int) + seq![e]);
                lemma_observed_compose(
                    old(self).general,
                    mid.general,
                    self.general,
                    events@.take(j as int),
                    seq![e],
                    inds,
                    wl,
                    reg,
                );
                assert forall|i: int| 0 <= i < 6 implies observed_all(
                    #[trigger] old(self).specialized@[i],
                    self.specialized@[i],
                    routed(events@.take(j + 1), i),
                    inds,
                    wl,
                    reg,
                ) by {
                    lemma_routed_append(events@.take(j as int), seq![e], i);
                    lemma_observed_compose(
                        old(self).specialized@[i],
                        mid.specialized@[i],
                        self.specialized@[i],
                        routed(events@.take(j as int), i),
                        routed(seq![e], i),
                        inds,
                        wl,
                        reg,
                    );
                }
            }
            j = j + 1;
        }
        proof {
            assert(events@.take(j as int) =~= events@);
        }
    }

    /// Cuts `ary` into batches of `size` records, keeping their order.
    pub fn chunks<T>(ary: Vec<T>, size: i32) -> (r: Result<Vec<Vec<T>>, DetectionError>)
        ensures
            size <= 0 <==> r is Err,
            r is Err ==> r->Err_0 == DetectionError::InvalidChunkSize,
            r is Ok ==> is_chunking(r->Ok_0@, ary@, size as int),
    {
        if size <= 0 {
            return Err(DetectionError::InvalidChunkSize);
        }
        let sz = size as usize;
        let ghost total = ary@;
        let mut ret: Vec<Vec<T>> = Vec::new();
        let mut rest = ary;
        while rest.len() > 0
            invariant
                sz > 0,
                flatten_batches(ret@) + rest@ == total,
                forall|i: int| 0 <= i < ret@.len() - 1 ==> (#[trigger] ret@[i])@.len() == sz,
                rest@.len() > 0 && ret@.len() > 0 ==> ret@.last()@.len() == sz,
                ret@.len() > 0 ==> 0 < ret@.last()@.len() <= sz,
                ret@.len() > 0 ==> total.len() == (ret@.len() - 1) * sz + ret@.last()@.len()
                    + rest@.len(),
                ret@.len() == 0 ==> rest@ == total,
            decreases rest@.len(),
        {
            let tail = if rest.len() > sz {
                rest.split_off(sz)
            } else {
                Vec::new()
            };
            let ghost before = ret@;
            ret.push(rest);
            proof {
                let m = ret@.map_values(|v: Vec<T>| v@);
                assert(m == before.map_values(|v: Vec<T>| v@).push(ret@.last()@));
                before.map_values(|v: Vec<T>| v@).lemma_flatten_push(ret@.last()@);
                assert(flatten_batches(ret@) + tail@ == total);
                if before.len() > 0 {
                    assert(ret@[before.len() - 1] == before.last());
                }
                assert((ret@.len() - 1) * sz == (before.len() - 1) * sz + sz) by (nonlinear_arith)
                    requires
                        ret@.len() == before.len() + 1,
                ;
            }
            rest = tail;
        }
        proof {
            assert(flatten_batches(ret@) + rest@ =~= flatten_batches(ret@));
            if ret@.len() == 0 {
                assert(total.len() == 0);
            }
            if ret@.len() > 0 {
                assert(total.len() > 0);
                let k = ret@.len() - 1;
                let l = ret@.last()@.len() as int;
                lemma_mod_multiples_vanish(k, l, sz as int);
                assert(sz * k == k * sz) by (nonlinear_arith);
                if l < sz {
                    lemma_small_mod(l as nat, sz as nat);
                }
                if l == sz {
                    lemma_mod_multiples_vanish(k + 1, 0, sz as int);
                    assert(sz * (k + 1) == k * sz + sz) by (nonlinear_arith);
                    assert(0int % (sz as int) == 0);
                }
                assert(last_batch_len(total.len() as int, sz as int) == l);
            }
        }
        Ok(ret)
    }
}

} // verus!
