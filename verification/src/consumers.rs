//! Consumers: they read the log lines one by one and summarize them.

use vstd::prelude::*;
use std::collections::HashMap;
use crate::datetime::{date_time_text, Date};
use crate::formater::{value_view, value_wf, DataMap, DataValue, DataView, FormatVisitor};
use crate::log_line::{is_resource_path, LogLine, LogLineView};
use crate::text::{decimal_chars, push_decimal};

verus! {

broadcast use vstd::std_specs::hash::group_hash_axioms;

/// Something that reads the log lines one by one.
pub trait LineConsumer {
    /// The lines eaten since the consumer was made (or, where its `reset`
    /// forgets them, since the last reset), as plain values.
    spec fn eaten(&self) -> Seq<LogLineView>;

    /// What `get_data` reports, as plain values.
    spec fn summary(&self) -> Map<Seq<char>, DataView>;

    /// The consumer is as its `end_eating` leaves it.
    spec fn is_ended(&self) -> bool;

    /// The consumer is as its `reset` leaves it.
    spec fn is_reset(&self) -> bool;

    fn start_eating(&mut self, _first_date: Date) {
    }

    /// Takes one more line into account.
    fn eat_line(&mut self, log_line: &LogLine)
        ensures
            final(self).eaten() == old(self).eaten().push(log_line@),
    ;

    /// Hears that the lines are over.
    fn end_eating(&mut self)
        ensures
            final(self).is_ended(),
    ;

    /// The summary of the lines eaten.
    fn get_data(&self) -> (r: DataMap)
        ensures
            r.wf(),
            r@ == self.summary(),
    ;

    /// Forgets what the lines eaten taught the consumer, as far as it forgets it.
    fn reset(&mut self)
        ensures
            final(self).is_reset(),
    ;
}

/// `n + 1`, or `n` where that does not fit.
pub open spec fn bumped(n: usize) -> usize {
    if n < usize::MAX {
        (n + 1) as usize
    } else {
        n
    }
}

fn single_map(name: &str, value: DataValue) -> (r: DataMap)
    requires
        value_wf(value),
    ensures
        r.wf(),
        r@ == map![name@ => value_view(value)],
{
    let mut out = DataMap::new();
    out.insert(name.to_owned(), value);
    out
}

/// `Some(n)` as a machine count: `n`, or `usize::MAX` where `n` is larger.
pub open spec fn capped(n: nat) -> usize {
    if n <= usize::MAX {
        n as usize
    } else {
        usize::MAX
    }
}

// ---------------------------------------------------------------- resources

/// Counts the hits for static resources.
pub struct ResourceConsumer {
    pub counter: usize,
    /// The lines eaten since made or reset.
    pub eaten: Ghost<Seq<LogLineView>>,
}

/// The number of the lines whose path names a static resource.
pub open spec fn resource_count(ls: Seq<LogLineView>) -> nat
    decreases ls.len(),
{
    if ls.len() == 0 {
        0
    } else {
        resource_count(ls.drop_last()) + if is_resource_path(ls.last().path) {
            1nat
        } else {
            0nat
        }
    }
}

/// The lines whose path names a static resource.
pub open spec fn resource_lines(ls: Seq<LogLineView>) -> Seq<LogLineView> {
    ls.filter(|l: LogLineView| is_resource_path(l.path))
}

/// The number of resource hits is the number of lines kept by filtering on
/// their path naming a static resource.
pub proof fn lemma_resource_count_filter(ls: Seq<LogLineView>)
    ensures
        resource_count(ls) == resource_lines(ls).len(),
    decreases ls.len(),
{
    if ls.len() > 0 {
        lemma_resource_count_filter(ls.drop_last());
        reveal_with_fuel(Seq::filter, 1);
        assert(resource_lines(ls) == if is_resource_path(ls.last().path) {
            resource_lines(ls.drop_last()).push(ls.last())
        } else {
            resource_lines(ls.drop_last())
        });
    }
}

impl ResourceConsumer {
    /// The counter holds the number of resource hits among the lines eaten
    /// (at most `usize::MAX`).
    pub open spec fn counts_eaten(&self) -> bool {
        self.counter == capped(resource_count(self.eaten()))
    }
}

impl Default for ResourceConsumer {
    fn default() -> (r: Self)
        ensures
            r.counter == 0,
            r.eaten() == Seq::<LogLineView>::empty(),
            r.counts_eaten(),
    {
        ResourceConsumer { counter: 0, eaten: Ghost(Seq::empty()) }
    }
}

impl ResourceConsumer {
    fn is_resource(&self, log_line: &LogLine) -> (r: bool)
        ensures
            r == is_resource_path(log_line.path@),
    {
        log_line.is_resource()
    }
}

impl LineConsumer for ResourceConsumer {
    closed spec fn eaten(&self) -> Seq<LogLineView> {
        self.eaten@
    }

    /// `{"resources_count": counter}`.
    open spec fn summary(&self) -> Map<Seq<char>, DataView> {
        map!["resources_count"@ => DataView::Number(self.counter)]
    }

    /// Nothing is done at the end of the lines.
    open spec fn is_ended(&self) -> bool {
        true
    }

    /// No line eaten, no resource counted.
    open spec fn is_reset(&self) -> bool {
        self.counter == 0 && self.eaten().len() == 0
    }

    fn eat_line(&mut self, log_line: &LogLine)
        ensures
            final(self).counter == if is_resource_path(log_line.path@) {
                bumped(old(self).counter)
            } else {
                old(self).counter
            },
            old(self).counts_eaten() ==> final(self).counts_eaten(),
    {
        if self.is_resource(&log_line) {
            if self.counter < usize::MAX {
                self.counter = self.counter + 1;
            }
        }
        let ghost before = self.eaten@;
        self.eaten = Ghost(self.eaten@.push(log_line@));
        assert(self.eaten@.drop_last() =~= before);
    }

    fn end_eating(&mut self) {
    }

    fn get_data(&self) -> (r: DataMap) {
        single_map("resources_count", DataValue::Number(self.counter))
    }

    fn reset(&mut self)
        ensures
            final(self).counter == 0,
            final(self).counts_eaten(),
    {
        self.counter = 0;
        self.eaten = Ghost(Seq::empty());
    }
}

impl FormatVisitor for ResourceConsumer {
    fn to_json(&self) -> (r: DataMap)
        ensures
            r.wf(),
            r@ == map!["resources"@ => DataView::Object(map!["count"@ => DataView::Number(self.counter)])],
    {
        let summary = single_map("count", DataValue::Number(self.counter));
        single_map("resources", DataValue::Object(summary))
    }
}

/// The resource count reported is the number of resource hits among the
/// lines eaten since the consumer was made or reset (at most `usize::MAX`).
pub proof fn lemma_resource_report(r: ResourceConsumer)
    requires
        r.counts_eaten(),
    ensures
        r.summary() == map!["resources_count"@ => DataView::Number(capped(resource_count(r.eaten())))],
        resource_count(r.eaten()) == resource_lines(r.eaten()).len(),
{
    lemma_resource_count_filter(r.eaten());
}

// ---------------------------------------------------------------- visitors

/// Counts the distinct remote addresses.
pub struct VisitorsConsumer {
    ips: Vec<String>,
    eaten: Ghost<Seq<LogLineView>>,
}

/// The remote addresses of the lines, each once, in the order first seen.
pub open spec fn first_seen(ls: Seq<LogLineView>) -> Seq<Seq<char>>
    decreases ls.len(),
{
    if ls.len() == 0 {
        Seq::empty()
    } else {
        let seen = first_seen(ls.drop_last());
        if seen.contains(ls.last().remote_addr) {
            seen
        } else {
            seen.push(ls.last().remote_addr)
        }
    }
}

/// The addresses first seen are those of the lines, each once.
pub proof fn lemma_first_seen(ls: Seq<LogLineView>)
    ensures
        first_seen(ls).no_duplicates(),
        forall|a: Seq<char>|
            #[trigger] first_seen(ls).contains(a) <==> exists|i: int|
                0 <= i < ls.len() && (#[trigger] ls[i]).remote_addr == a,
    decreases ls.len(),
{
    if ls.len() > 0 {
        let rest = ls.drop_last();
        lemma_first_seen(rest);
        let seen = first_seen(rest);
        assert forall|a: Seq<char>|
            #[trigger] first_seen(ls).contains(a) <==> exists|i: int|
                0 <= i < ls.len() && (#[trigger] ls[i]).remote_addr == a by {
            if first_seen(ls).contains(a) {
                if seen.contains(a) {
                    let i = choose|i: int| 0 <= i < rest.len() && (#[trigger] rest[i]).remote_addr == a;
                    assert(ls[i] == rest[i]);
                } else {
                    assert(first_seen(ls) == seen.push(ls.last().remote_addr));
                    let k = choose|k: int| 0 <= k < first_seen(ls).len() && first_seen(ls)[k] == a;
                    assert(k == seen.len());
                    assert(ls[ls.len() - 1].remote_addr == a);
                }
            }
            if exists|i: int| 0 <= i < ls.len() && (#[trigger] ls[i]).remote_addr == a {
                let i = choose|i: int| 0 <= i < ls.len() && (#[trigger] ls[i]).remote_addr == a;
                if i < ls.len() - 1 {
                    assert(rest[i] == ls[i]);
                    assert(seen.contains(a));
                    if !seen.contains(ls.last().remote_addr) {
                        let k = choose|k: int| 0 <= k < seen.len() && seen[k] == a;
                        assert(first_seen(ls)[k] == a);
                    }
                } else {
                    if !seen.contains(ls.last().remote_addr) {
                        assert(first_seen(ls)[seen.len() as int] == a);
                    }
                }
            }
        }
    }
}

impl View for VisitorsConsumer {
    type V = Seq<Seq<char>>;

    /// The addresses seen, in the order first seen.
    closed spec fn view(&self) -> Seq<Seq<char>> {
        self.ips@.map_values(|s: String| s@)
    }
}

impl Default for VisitorsConsumer {
    fn default() -> (r: Self)
        ensures
            r@ == Seq::<Seq<char>>::empty(),
            r.eaten() == Seq::<LogLineView>::empty(),
            r.counts_eaten(),
    {
        let r = VisitorsConsumer { ips: Vec::new(), eaten: Ghost(Seq::empty()) };
        assert(r@ =~= Seq::<Seq<char>>::empty());
        r
    }
}

impl VisitorsConsumer {
    /// The addresses known are those of the lines eaten, each once, in the
    /// order first seen.
    pub open spec fn counts_eaten(&self) -> bool {
        self@ == first_seen(self.eaten())
    }

    fn knows(&self, addr: &String) -> (r: bool)
        ensures
            r == self@.contains(addr@),
    {
        let n = self.ips.len();
        let mut i: usize = 0;
        while i < n
            invariant
                n == self.ips@.len(),
                i <= n,
                forall|j: int| 0 <= j < i ==> self@[j] != addr@,
            decreases n - i,
        {
            if self.ips[i] == *addr {
                assert(self@[i as int] == addr@);
                return true;
            }
            i = i + 1;
        }
        false
    }
}

impl LineConsumer for VisitorsConsumer {
    closed spec fn eaten(&self) -> Seq<LogLineView> {
        self.eaten@
    }

    /// `{"visitors": {"count": number of addresses known}}`.
    open spec fn summary(&self) -> Map<Seq<char>, DataView> {
        map!["visitors"@ => DataView::Object(map!["count"@ => DataView::Number(self@.len() as usize)])]
    }

    /// Nothing is done at the end of the lines.
    open spec fn is_ended(&self) -> bool {
        true
    }

    /// No line eaten, no address known.
    open spec fn is_reset(&self) -> bool {
        self@.len() == 0 && self.eaten().len() == 0
    }

    fn eat_line(&mut self, log_line: &LogLine)
        ensures
            final(self)@ == if old(self)@.contains(log_line.remote_addr@) {
                old(self)@
            } else {
                old(self)@.push(log_line.remote_addr@)
            },
            old(self)@.no_duplicates() ==> final(self)@.no_duplicates(),
            old(self).counts_eaten() ==> final(self).counts_eaten(),
    {
        let addr = log_line.remote_addr.clone();
        if !self.knows(&addr) {
            let ghost before = self@;
            self.ips.push(addr);
            assert(self@ =~= before.push(addr@));
        }
        let ghost before_eaten = self.eaten@;
        self.eaten = Ghost(self.eaten@.push(log_line@));
        assert(self.eaten@.drop_last() =~= before_eaten);
    }

    fn end_eating(&mut self) {
    }

    fn get_data(&self) -> (r: DataMap) {
        let summary = single_map("count", DataValue::Number(self.ips.len()));
        single_map("visitors", DataValue::Object(summary))
    }

    fn reset(&mut self)
        ensures
            final(self)@ == Seq::<Seq<char>>::empty(),
            final(self).counts_eaten(),
    {
        self.ips.clear();
        self.eaten = Ghost(Seq::empty());
        assert(self@ =~= Seq::<Seq<char>>::empty());
    }
}

/// The remote addresses of the lines `ls`, as a set.
pub open spec fn addresses(ls: Seq<LogLineView>) -> Set<Seq<char>> {
    Set::new(|a: Seq<char>| exists|i: int| 0 <= i < ls.len() && (#[trigger] ls[i]).remote_addr == a)
}

/// The visitor count reported is the number of distinct remote addresses
/// among the lines eaten since the consumer was made or reset.
pub proof fn lemma_visitors_report(v: VisitorsConsumer)
    requires
        v.counts_eaten(),
    ensures
        v.summary() == map![
            "visitors"@ => DataView::Object(
                map!["count"@ => DataView::Number(first_seen(v.eaten()).len() as usize)],
            ),
        ],
        first_seen(v.eaten()).len() == addresses(v.eaten()).len(),
{
    let ls = v.eaten();
    lemma_first_seen(ls);
    first_seen(ls).unique_seq_to_set();
    assert(first_seen(ls).to_set() =~= addresses(ls));
}

// ---------------------------------------------------------------- status codes

/// Counts the hits by HTTP status code.
pub struct StatusConsumer {
    pub counter: HashMap<u16, usize>,
    /// The lines eaten since made.
    pub eaten: Ghost<Seq<LogLineView>>,
}

impl Default for StatusConsumer {
    fn default() -> (r: Self)
        ensures
            r.counter@ == Map::<u16, usize>::empty(),
            r.eaten() == Seq::<LogLineView>::empty(),
            r.counts_eaten(),
    {
        let r = StatusConsumer { counter: HashMap::new(), eaten: Ghost(Seq::empty()) };
        assert(status_counts(Seq::<LogLineView>::empty()) =~= Map::<u16, usize>::empty());
        r
    }
}

/// The number of lines by status code (each at most `usize::MAX`).
pub open spec fn status_counts(ls: Seq<LogLineView>) -> Map<u16, usize>
    decreases ls.len(),
{
    if ls.len() == 0 {
        Map::empty()
    } else {
        let counts = status_counts(ls.drop_last());
        let code = ls.last().status;
        counts.insert(code, bumped(count_of(counts, code)))
    }
}

/// The value of a count in a summary: a number, or its decimal writing where `as_text`.
pub open spec fn count_view(v: usize, as_text: bool) -> DataView {
    if as_text {
        DataView::Text(decimal_chars(v as nat))
    } else {
        DataView::Number(v)
    }
}

/// The summary entries of the counts of the codes below `c`: each code in
/// decimal, with its count.
pub open spec fn status_entries(counts: Map<u16, usize>, c: int, as_text: bool) -> Map<
    Seq<char>,
    DataView,
>
    decreases c,
{
    if c <= 0 {
        Map::empty()
    } else {
        let before = status_entries(counts, c - 1, as_text);
        let code = (c - 1) as u16;
        if counts.contains_key(code) {
            before.insert(decimal_chars(code as nat), count_view(counts[code], as_text))
        } else {
            before
        }
    }
}

impl StatusConsumer {
    /// The counts are those of the lines eaten.
    pub open spec fn counts_eaten(&self) -> bool {
        self.counter@ == status_counts(self.eaten())
    }
}

/// The number of hits counted for `code`.
pub open spec fn count_of(counts: Map<u16, usize>, code: u16) -> usize {
    if counts.contains_key(code) {
        counts[code]
    } else {
        0
    }
}

impl StatusConsumer {
    /// The counts by status code, as numbers or as texts.
    fn counts_map(&self, as_text: bool) -> (r: DataMap)
        ensures
            r.wf(),
            r@ == status_entries(self.counter@, 65536, as_text),
    {
        let mut out = DataMap::new();
        let mut c: u32 = 0;
        let ghost counts = self.counter@;
        while c < 65536
            invariant
                counts == self.counter@,
                c <= 65536,
                out.wf(),
                out@ == status_entries(counts, c as int, as_text),
            decreases 65536 - c,
        {
            let code = c as u16;
            assert(code as int == c as int);
            match self.counter.get(&code) {
                Some(v) => {
                    let mut key = String::new();
                    push_decimal(&mut key, code as u64);
                    assert(key@ =~= decimal_chars(code as nat));
                    let value = if as_text {
                        let mut t = String::new();
                        push_decimal(&mut t, *v as u64);
                        assert(t@ =~= decimal_chars(*v as nat));
                        DataValue::Text(t)
                    } else {
                        DataValue::Number(*v)
                    };
                    assert(value_view(value) == count_view(*v, as_text));
                    out.insert(key, value);
                },
                None => {},
            }
            c = c + 1;
        }
        out
    }
}

impl LineConsumer for StatusConsumer {
    closed spec fn eaten(&self) -> Seq<LogLineView> {
        self.eaten@
    }

    /// `{"status": {code: count, ...}}`.
    open spec fn summary(&self) -> Map<Seq<char>, DataView> {
        map!["status"@ => DataView::Object(status_entries(self.counter@, 65536, false))]
    }

    /// Nothing is done at the end of the lines.
    open spec fn is_ended(&self) -> bool {
        true
    }

    /// The status counts are kept by `reset`: any state is as `reset` leaves it.
    open spec fn is_reset(&self) -> bool {
        true
    }

    fn end_eating(&mut self) {
    }

    /// Keeps the counts, and the lines they count.
    fn reset(&mut self)
        ensures
            final(self).counter@ == old(self).counter@,
            final(self).eaten() == old(self).eaten(),
    {
    }

    fn eat_line(&mut self, log_line: &LogLine)
        ensures
            final(self).counter@ == old(self).counter@.insert(
                log_line.status,
                bumped(count_of(old(self).counter@, log_line.status)),
            ),
            old(self).counts_eaten() ==> final(self).counts_eaten(),
    {
        let cur: usize = match self.counter.get(&log_line.status) {
            Some(v) => *v,
            None => 0,
        };
        let next = if cur < usize::MAX {
            cur + 1
        } else {
            cur
        };
        self.counter.insert(log_line.status, next);
        let ghost before = self.eaten@;
        self.eaten = Ghost(self.eaten@.push(log_line@));
        assert(self.eaten@.drop_last() =~= before);
    }

    fn get_data(&self) -> (r: DataMap) {
        let summary = self.counts_map(false);
        single_map("status", DataValue::Object(summary))
    }
}

impl FormatVisitor for StatusConsumer {
    fn to_json(&self) -> (r: DataMap)
        ensures
            r.wf(),
            r@ == map!["status"@ => DataView::Object(status_entries(self.counter@, 65536, true))],
    {
        let summary = self.counts_map(true);
        single_map("status", DataValue::Object(summary))
    }
}

/// The counts reported are those of the lines eaten since the consumer was
/// made, one entry per status code seen.
pub proof fn lemma_status_report(s: StatusConsumer)
    requires
        s.counts_eaten(),
    ensures
        s.summary() == map![
            "status"@ => DataView::Object(status_entries(status_counts(s.eaten()), 65536, false)),
        ],
{
}

// ---------------------------------------------------------------- all consumers

/// The summaries of the first `k` consumers, merged in turn: a later name
/// takes the place of an earlier one.
pub open spec fn merged_summaries(cs: Seq<Box<dyn LineConsumer>>, k: int) -> Map<
    Seq<char>,
    DataView,
>
    decreases k,
{
    if k <= 0 {
        Map::empty()
    } else {
        merged_summaries(cs, k - 1).union_prefer_right(cs[k - 1].summary())
    }
}

/// A name is in the merged summaries of the first `n` consumers exactly when
/// one of them reports it, with the value of the last one that does.
pub proof fn lemma_merged_summaries(cs: Seq<Box<dyn LineConsumer>>, n: int, key: Seq<char>)
    requires
        0 <= n <= cs.len(),
    ensures
        merged_summaries(cs, n).dom().contains(key) <==> exists|i: int|
            0 <= i < n && (#[trigger] cs[i].summary()).dom().contains(key),
        forall|i: int|
            0 <= i < n && (#[trigger] cs[i].summary()).dom().contains(key) && (forall|j: int|
                i < j < n ==> !(#[trigger] cs[j].summary()).dom().contains(key))
                ==> merged_summaries(cs, n)[key] == cs[i].summary()[key],
    decreases n,
{
    if n > 0 {
        lemma_merged_summaries(cs, n - 1, key);
        let last = cs[n - 1].summary();
        if last.dom().contains(key) {
            assert(0 <= n - 1 < n && cs[n - 1].summary().dom().contains(key));
        }
        assert forall|i: int|
            0 <= i < n && (#[trigger] cs[i].summary()).dom().contains(key) && (forall|j: int|
                i < j < n ==> !(#[trigger] cs[j].summary()).dom().contains(key))
                implies merged_summaries(cs, n)[key] == cs[i].summary()[key] by {
            if i < n - 1 {
                assert(!cs[n - 1].summary().dom().contains(key));
            }
        }
        if exists|i: int| 0 <= i < n && (#[trigger] cs[i].summary()).dom().contains(key) {
            let i = choose|i: int| 0 <= i < n && (#[trigger] cs[i].summary()).dom().contains(key);
            if i < n - 1 {
                assert(merged_summaries(cs, n - 1).dom().contains(key));
            }
        }
    }
}

/// What `Consumers::get_data` reports under a name other than `hits`,
/// `date_start` and `date_end`: the name is there exactly when a consumer
/// reports it, with the value of the last consumer that does.
pub proof fn lemma_report_consumer_names(
    cs: Seq<Box<dyn LineConsumer>>,
    ls: Seq<LogLine>,
    key: Seq<char>,
)
    requires
        key != "hits"@,
        key != "date_start"@,
        key != "date_end"@,
    ensures
        report(cs, ls).dom().contains(key) <==> exists|i: int|
            0 <= i < cs.len() && (#[trigger] cs[i].summary()).dom().contains(key),
        forall|i: int|
            0 <= i < cs.len() && (#[trigger] cs[i].summary()).dom().contains(key) && (forall|j: int|
                i < j < cs.len() ==> !(#[trigger] cs[j].summary()).dom().contains(key))
                ==> report(cs, ls)[key] == cs[i].summary()[key],
{
    lemma_merged_summaries(cs, cs.len() as int, key);
    assert(!dates_summary(ls).dom().contains(key));
}

/// The date-times of the first and the last of the lines `ls`, as a summary.
pub open spec fn dates_summary(ls: Seq<LogLine>) -> Map<Seq<char>, DataView> {
    map![
        "date_start"@ => DataView::Text(date_time_text(ls[0].date_time)),
        "date_end"@ => DataView::Text(date_time_text(ls.last().date_time)),
    ]
}

/// What the consumers `cs` report on the lines `ls`: their summaries merged
/// in turn, then `hits`, the number of lines, then `date_start` and
/// `date_end`, the date-times of the first and the last line.
pub open spec fn report(cs: Seq<Box<dyn LineConsumer>>, ls: Seq<LogLine>) -> Map<
    Seq<char>,
    DataView,
> {
    merged_summaries(cs, cs.len() as int).insert("hits"@, DataView::Number(ls.len() as usize))
        .union_prefer_right(dates_summary(ls))
}

/// The consumers, and the lines they were fed.
pub struct Consumers {
    pub consumers: Vec<Box<dyn LineConsumer>>,
    lines: Vec<LogLine>,
    size: usize,
}

impl Consumers {
    /// The consumers the lines are fed to.
    pub closed spec fn consumer_list(&self) -> Seq<Box<dyn LineConsumer>> {
        self.consumers@
    }

    /// The lines fed so far.
    pub closed spec fn lines(&self) -> Seq<LogLine> {
        self.lines@
    }

    /// The bytes that the lines fed so far take (at most `usize::MAX`).
    pub closed spec fn size(&self) -> usize {
        self.size
    }

    /// The number of lines fed so far.
    pub fn hits(&self) -> (r: usize)
        ensures
            r == self.lines().len(),
    {
        self.lines.len()
    }

    pub fn new() -> (r: Self)
        ensures
            r.consumer_list().len() == 0,
            r.lines().len() == 0,
            r.size() == 0,
    {
        let consumers: Vec<Box<dyn LineConsumer>> = Vec::new();
        Self { consumers, lines: Vec::new(), size: 0 }
    }

    pub fn add_consumer(&mut self, c: Box<dyn LineConsumer>)
        ensures
            final(self).consumer_list() == old(self).consumer_list().push(c),
            final(self).lines() == old(self).lines(),
            final(self).size() == old(self).size(),
    {
        self.consumers.push(c);
    }

    /// Feeds a line to each consumer in turn, and keeps it.
    pub fn eat_line(&mut self, log_line: LogLine)
        ensures
            final(self).consumer_list().len() == old(self).consumer_list().len(),
            forall|i: int|
                0 <= i < final(self).consumer_list().len() ==> (#[trigger] final(self).consumer_list()[i]).eaten() == old(self).consumer_list()[i].eaten().push(
                    log_line@,
                ),
            final(self).lines() == old(self).lines().push(log_line),
            final(self).size() == if old(self).size() + vstd::layout::spec_size_of_val::<LogLine>(
                &log_line,
            ) <= usize::MAX {
                old(self).size() + vstd::layout::spec_size_of_val::<LogLine>(&log_line)
            } else {
                usize::MAX as int
            },
    {
        let n = self.consumers.len();
        let mut i: usize = 0;
        while i < n
            invariant
                n == self.consumers@.len(),
                n == old(self).consumers@.len(),
                i <= n,
                forall|j: int|
                    0 <= j < i ==> (#[trigger] self.consumers@[j]).eaten() == old(self).consumers@[j].eaten().push(log_line@),
                forall|j: int| i <= j < n ==> #[trigger] self.consumers@[j] == old(self).consumers@[j],
                self.lines@ == old(self).lines@,
                self.size == old(self).size,
            decreases n - i,
        {
            self.consumers[i].eat_line(&log_line);
            i = i + 1;
        }
        let line_size = std::mem::size_of_val(&log_line);
        self.size = if self.size <= usize::MAX - line_size {
            self.size + line_size
        } else {
            usize::MAX
        };
        self.lines.push(log_line);
    }

    /// Tells each consumer that the lines are over; gives the number of lines
    /// kept and the megabytes they take (for the caller to report).
    pub fn end_eating(&mut self) -> (r: (usize, usize))
        ensures
            final(self).consumer_list().len() == old(self).consumer_list().len(),
            forall|i: int|
                0 <= i < final(self).consumer_list().len() ==> (#[trigger] final(self).consumer_list()[i]).is_ended(),
            final(self).lines() == old(self).lines(),
            final(self).size() == old(self).size(),
            r == (old(self).lines().len() as usize, ((old(self).size() / 1024) / 1024) as usize),
    {
        let n = self.consumers.len();
        let mut i: usize = 0;
        while i < n
            invariant
                n == self.consumers@.len(),
                i <= n,
                forall|j: int| 0 <= j < i ==> (#[trigger] self.consumers@[j]).is_ended(),
                self.lines@ == old(self).lines@,
                self.size == old(self).size,
            decreases n - i,
        {
            self.consumers[i].end_eating();
            i = i + 1;
        }
        (self.lines.len(), (self.size / 1024) / 1024)
    }

    /// The summaries of the consumers, in turn, then the number of hits and
    /// the date-times of the first and the last line.
    pub fn get_data(&self) -> (r: DataMap)
        requires
            self.lines().len() > 0,
        ensures
            r.wf(),
            r@ == report(self.consumer_list(), self.lines()),
    {
        let mut out = DataMap::new();
        let n = self.consumers.len();
        let mut i: usize = 0;
        while i < n
            invariant
                n == self.consumers@.len(),
                i <= n,
                out.wf(),
                out@ == merged_summaries(self.consumers@, i as int),
            decreases n - i,
        {
            out.extend(self.consumers[i].get_data());
            i = i + 1;
        }
        let dates = self.get_dates();
        out.insert("hits".to_owned(), DataValue::Number(self.lines.len()));
        out.extend(dates);
        out
    }

    /// The date-times of the first and the last line, as text.
    fn get_dates(&self) -> (r: DataMap)
        requires
            self.lines().len() > 0,
        ensures
            r.wf(),
            r@ == dates_summary(self.lines()),
    {
        let mut out = DataMap::new();
        out.insert("date_start".to_owned(), DataValue::Text(self.lines[0].date_time.to_string()));
        out.insert(
            "date_end".to_owned(),
            DataValue::Text(self.lines[self.lines.len() - 1].date_time.to_string()),
        );
        out
    }

    /// Resets each consumer in turn; the lines are kept.
    pub fn reset(&mut self)
        ensures
            final(self).consumer_list().len() == old(self).consumer_list().len(),
            forall|i: int|
                0 <= i < final(self).consumer_list().len() ==> (#[trigger] final(self).consumer_list()[i]).is_reset(),
            final(self).lines() == old(self).lines(),
            final(self).size() == old(self).size(),
    {
        let n = self.consumers.len();
        let mut i: usize = 0;
        while i < n
            invariant
                n == self.consumers@.len(),
                i <= n,
                forall|j: int| 0 <= j < i ==> (#[trigger] self.consumers@[j]).is_reset(),
                self.lines@ == old(self).lines@,
                self.size == old(self).size,
            decreases n - i,
        {
            self.consumers[i].reset();
            i = i + 1;
        }
    }
}

impl Default for Consumers {
    fn default() -> (r: Self)
        ensures
            r.consumer_list().len() == 0,
            r.lines().len() == 0,
            r.size() == 0,
    {
        Consumers::new()
    }
}

} // verus!
