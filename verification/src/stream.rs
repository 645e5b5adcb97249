//! The streaming-task runner: consuming a live sequence of newline-delimited
//! progress records.
//!
//! The network read stays outside; callers feed the raw byte chunks in
//! arrival order. The library splits them on line boundaries, parses each
//! complete line as a progress record (lines that are no record are silently
//! skipped), forwards records in exactly the order received, and stops at
//! the first record carrying a non-empty error field: nothing after it is
//! examined.

use vstd::prelude::*;
use crate::json::{JsonRecord, JsonValue, FieldModel, FieldValue, sp_record, lookup, parse_record};
use crate::text::{NEWLINE, copy_bytes, views_of};

verus! {

// ------------------------------------------------------------------
// The record keys of the progress protocol
// ------------------------------------------------------------------

/// The bytes `"status"`.
pub open spec fn status_key() -> Seq<u8> {
    seq![0x73u8, 0x74u8, 0x61u8, 0x74u8, 0x75u8, 0x73u8]
}

/// The bytes `"completed"`.
pub open spec fn completed_key() -> Seq<u8> {
    seq![0x63u8, 0x6fu8, 0x6du8, 0x70u8, 0x6cu8, 0x65u8, 0x74u8, 0x65u8, 0x64u8]
}

/// The bytes `"total"`.
pub open spec fn total_key() -> Seq<u8> {
    seq![0x74u8, 0x6fu8, 0x74u8, 0x61u8, 0x6cu8]
}

/// The bytes `"error"`.
pub open spec fn error_key() -> Seq<u8> {
    seq![0x65u8, 0x72u8, 0x72u8, 0x6fu8, 0x72u8]
}

/// The key `status` as a vector.
fn key_status() -> (r: Vec<u8>)
    ensures
        r@ == status_key(),
{
    let mut v: Vec<u8> = Vec::new();
    v.push(0x73);
    v.push(0x74);
    v.push(0x61);
    v.push(0x74);
    v.push(0x75);
    v.push(0x73);
    proof {
        assert(v@ =~= status_key());
    }
    v
}

/// The key `completed` as a vector.
fn key_completed() -> (r: Vec<u8>)
    ensures
        r@ == completed_key(),
{
    let mut v: Vec<u8> = Vec::new();
    v.push(0x63);
    v.push(0x6f);
    v.push(0x6d);
    v.push(0x70);
    v.push(0x6c);
    v.push(0x65);
    v.push(0x74);
    v.push(0x65);
    v.push(0x64);
    proof {
        assert(v@ =~= completed_key());
    }
    v
}

/// The key `total` as a vector.
fn key_total() -> (r: Vec<u8>)
    ensures
        r@ == total_key(),
{
    let mut v: Vec<u8> = Vec::new();
    v.push(0x74);
    v.push(0x6f);
    v.push(0x74);
    v.push(0x61);
    v.push(0x6c);
    proof {
        assert(v@ =~= total_key());
    }
    v
}

/// The key `error` as a vector.
fn key_error() -> (r: Vec<u8>)
    ensures
        r@ == error_key(),
{
    let mut v: Vec<u8> = Vec::new();
    v.push(0x65);
    v.push(0x72);
    v.push(0x72);
    v.push(0x6f);
    v.push(0x72);
    proof {
        assert(v@ =~= error_key());
    }
    v
}

// ------------------------------------------------------------------
// Progress records
// ------------------------------------------------------------------

/// Mathematical model of one progress record.
pub ghost struct ProgressModel {
    pub status: Seq<u8>,
    pub completed: Option<nat>,
    pub total: Option<nat>,
    pub error: Option<Seq<u8>>,
}

/// One unit of the streamed progress sequence.
#[derive(Debug, Clone, PartialEq, Eq)]
pub struct ProgressRecord {
    pub status: Vec<u8>,
    pub completed: Option<u64>,
    pub total: Option<u64>,
    pub error: Option<Vec<u8>>,
}

impl View for ProgressRecord {
    type V = ProgressModel;

    open spec fn view(&self) -> ProgressModel {
        ProgressModel {
            status: self.status@,
            completed: match self.completed {
                Some(c) => Some(c as nat),
                None => None,
            },
            total: match self.total {
                Some(t) => Some(t as nat),
                None => None,
            },
            error: match self.error {
                Some(e) => Some(e@),
                None => None,
            },
        }
    }
}

/// An optional unsigned member: absent or null means none; a number is the
/// value; any other type disqualifies the record.
pub open spec fn opt_num_field(m: Seq<FieldModel>, k: Seq<u8>) -> Option<Option<nat>> {
    match lookup(m, k) {
        None => Some(None),
        Some(FieldValue::Null) => Some(None),
        Some(FieldValue::Num(n)) => Some(Some(n)),
        Some(_) => None,
    }
}

/// An optional string member: absent or null means none; a string is the
/// value; any other type disqualifies the record.
pub open spec fn opt_txt_field(m: Seq<FieldModel>, k: Seq<u8>) -> Option<Option<Seq<u8>>> {
    match lookup(m, k) {
        None => Some(None),
        Some(FieldValue::Null) => Some(None),
        Some(FieldValue::Txt(t)) => Some(Some(t)),
        Some(_) => None,
    }
}

/// The progress record a parsed JSON record stands for, if it matches the
/// protocol: a string `status` is required; `completed` and `total` are
/// optional numbers; `error` is an optional string.
pub open spec fn progress_of(m: Seq<FieldModel>) -> Option<ProgressModel> {
    match lookup(m, status_key()) {
        Some(FieldValue::Txt(st)) => match (
            opt_num_field(m, completed_key()),
            opt_num_field(m, total_key()),
            opt_txt_field(m, error_key()),
        ) {
            (Some(c), Some(t), Some(e)) => Some(
                ProgressModel { status: st, completed: c, total: t, error: e },
            ),
            _ => None,
        },
        _ => None,
    }
}

/// Extract the progress record from a parsed JSON record.
pub fn record_to_progress(rec: &JsonRecord) -> (r: Option<ProgressRecord>)
    ensures
        match r {
            Some(p) => progress_of(rec@) == Some(p@),
            None => progress_of(rec@) is None,
        },
{
    let ks = key_status();
    let status = match rec.get(ks.as_slice()) {
        Some(JsonValue::Txt(t)) => copy_bytes(t),
        _ => {
            return None;
        },
    };
    let kc = key_completed();
    let completed = match rec.get(kc.as_slice()) {
        None => None,
        Some(JsonValue::Null) => None,
        Some(JsonValue::Num(n)) => Some(*n),
        _ => {
            return None;
        },
    };
    let kt = key_total();
    let total = match rec.get(kt.as_slice()) {
        None => None,
        Some(JsonValue::Null) => None,
        Some(JsonValue::Num(n)) => Some(*n),
        _ => {
            return None;
        },
    };
    let ke = key_error();
    let error = match rec.get(ke.as_slice()) {
        None => None,
        Some(JsonValue::Null) => None,
        Some(JsonValue::Txt(t)) => Some(copy_bytes(t)),
        _ => {
            return None;
        },
    };
    Some(ProgressRecord { status, completed, total, error })
}

// ------------------------------------------------------------------
// Progress events
// ------------------------------------------------------------------

/// Mathematical model of one event forwarded to the sink.
pub ghost struct EventModel {
    pub status: Seq<u8>,
    pub percent: nat,
    pub downloaded: nat,
    pub total: nat,
}

/// One progress notification as forwarded to the sink: the record's status,
/// the whole-number percentage done, and the byte counts. Absent counts (or
/// a zero total) report zero progress.
#[derive(Debug, Clone, PartialEq, Eq)]
pub struct ProgressEvent {
    pub status: Vec<u8>,
    pub percent: u128,
    pub downloaded: u64,
    pub total: u64,
}

impl View for ProgressEvent {
    type V = EventModel;

    open spec fn view(&self) -> EventModel {
        EventModel {
            status: self.status@,
            percent: self.percent as nat,
            downloaded: self.downloaded as nat,
            total: self.total as nat,
        }
    }
}

/// The event a progress record reports: `completed / total`, in whole
/// percent rounded down, when both counts are present and the total is
/// positive; zero progress otherwise.
pub open spec fn event_of(p: ProgressModel) -> EventModel {
    match (p.completed, p.total) {
        (Some(c), Some(t)) => if t > 0 {
            EventModel { status: p.status, percent: c * 100 / t, downloaded: c, total: t }
        } else {
            EventModel { status: p.status, percent: 0, downloaded: 0, total: 0 }
        },
        _ => EventModel { status: p.status, percent: 0, downloaded: 0, total: 0 },
    }
}

/// Build the event a progress record reports.
pub fn make_event(p: &ProgressRecord) -> (e: ProgressEvent)
    ensures
        e@ == event_of(p@),
{
    let status = copy_bytes(&p.status);
    match (p.completed, p.total) {
        (Some(c), Some(t)) => {
            if t > 0 {
                let percent: u128 = c as u128 * 100 / t as u128;
                ProgressEvent { status, percent, downloaded: c, total: t }
            } else {
                ProgressEvent { status, percent: 0, downloaded: 0, total: 0 }
            }
        },
        _ => ProgressEvent { status, percent: 0, downloaded: 0, total: 0 },
    }
}

/// Progress never exceeds one hundred percent while the completed count is
/// within the total.
pub proof fn lemma_percent_bounded(p: ProgressModel)
    requires
        p.completed matches Some(c) && p.total matches Some(t) && t > 0 && c <= t,
    ensures
        event_of(p).percent <= 100,
{
    let c = p.completed->Some_0;
    let t = p.total->Some_0;
    assert(c * 100 / t <= 100) by (nonlinear_arith)
        requires
            0 < t,
            0 <= c <= t,
    ;
}

// ------------------------------------------------------------------
// Line classification and the early-stop rule
// ------------------------------------------------------------------

/// What one complete line means to the runner.
pub ghost enum StepModel {
    /// The line is no progress record: skipped in silence.
    Skip,
    /// A record to forward to the sink.
    Forward(EventModel),
    /// A record carrying a non-empty error: terminal.
    Terminal(Seq<u8>),
}

/// What the runner does with one complete line.
#[derive(Debug, Clone, PartialEq, Eq)]
pub enum LineStep {
    Skip,
    Forward(ProgressEvent),
    Terminal(Vec<u8>),
}

impl View for LineStep {
    type V = StepModel;

    open spec fn view(&self) -> StepModel {
        match self {
            LineStep::Skip => StepModel::Skip,
            LineStep::Forward(e) => StepModel::Forward(e@),
            LineStep::Terminal(e) => StepModel::Terminal(e@),
        }
    }
}

/// How one complete line is classified: not a record, or not one of the
/// protocol, means skip; a record with a non-empty error field is terminal;
/// every other record is forwarded as its event. A line outside the wire
/// format — nested members, or a unicode escape above `007F` in a string —
/// is a skipped line, and a terminal error written that way would be
/// skipped with it: the protocol's producers stay within the format.
pub open spec fn classify(line: Seq<u8>) -> StepModel {
    match sp_record(line) {
        None => StepModel::Skip,
        Some(m) => match progress_of(m) {
            None => StepModel::Skip,
            Some(p) => match p.error {
                Some(e) => if e.len() > 0 {
                    StepModel::Terminal(e)
                } else {
                    StepModel::Forward(event_of(p))
                },
                None => StepModel::Forward(event_of(p)),
            },
        },
    }
}

/// Classify one complete line.
pub fn process_line(line: &[u8]) -> (r: LineStep)
    ensures
        r@ == classify(line@),
{
    match parse_record(line) {
        None => LineStep::Skip,
        Some(rec) => match record_to_progress(&rec) {
            None => LineStep::Skip,
            Some(p) => {
                match &p.error {
                    Some(e) => {
                        if e.len() > 0 {
                            LineStep::Terminal(copy_bytes(e))
                        } else {
                            LineStep::Forward(make_event(&p))
                        }
                    },
                    None => LineStep::Forward(make_event(&p)),
                }
            },
        },
    }
}

/// The runner's standing state: whether a terminal record has fired.
pub struct RunnerState {
    pub stopped: bool,
}

impl RunnerState {
    /// A runner that has not yet seen a terminal record.
    pub fn new() -> (r: RunnerState)
        ensures
            !r.stopped,
    {
        RunnerState { stopped: false }
    }

    /// Handle one complete line: classify it unless a terminal record has
    /// already fired, in which case the line is not examined at all.
    pub fn step(&mut self, line: &[u8]) -> (r: Option<LineStep>)
        ensures
            old(self).stopped ==> final(self).stopped && r is None,
            !old(self).stopped ==> {
                &&& r matches Some(step) && step@ == classify(line@)
                &&& final(self).stopped <==> classify(line@) is Terminal
            },
    {
        if self.stopped {
            return None;
        }
        let step = process_line(line);
        if let LineStep::Terminal(_) = &step {
            self.stopped = true;
        }
        Some(step)
    }
}

// ------------------------------------------------------------------
// A whole stream at once
// ------------------------------------------------------------------

/// The models of a list of events, in order.
pub open spec fn event_views(es: Seq<ProgressEvent>) -> Seq<EventModel> {
    es.map_values(|e: ProgressEvent| e@)
}

/// Taking event views keeps the length.
pub broadcast proof fn lemma_event_views_len(es: Seq<ProgressEvent>)
    ensures
        #[trigger] event_views(es).len() == es.len(),
{
}

/// Taking event views keeps each position.
pub broadcast proof fn lemma_event_views_index(es: Seq<ProgressEvent>, k: int)
    requires
        0 <= k < es.len(),
    ensures
        #[trigger] event_views(es)[k] == es[k]@,
{
}

/// Index of the first terminal line, if any.
pub open spec fn first_terminal(ls: Seq<Seq<u8>>) -> Option<int>
    decreases ls.len(),
{
    if ls.len() == 0 {
        None
    } else if classify(ls[0]) is Terminal {
        Some(0)
    } else {
        match first_terminal(ls.skip(1)) {
            Some(i) => Some(i + 1),
            None => None,
        }
    }
}

/// The events a stream forwards: those of its forwarded lines, in order,
/// up to but not including the first terminal line.
pub open spec fn events_model(ls: Seq<Seq<u8>>) -> Seq<EventModel>
    decreases ls.len(),
{
    if ls.len() == 0 {
        Seq::empty()
    } else {
        match classify(ls[0]) {
            StepModel::Terminal(_) => Seq::empty(),
            StepModel::Forward(e) => seq![e] + events_model(ls.skip(1)),
            StepModel::Skip => events_model(ls.skip(1)),
        }
    }
}

/// Early stop: once some line is terminal, the stream's events are exactly
/// those of the lines before it — later lines contribute nothing.
pub proof fn lemma_stream_early_stop(ls: Seq<Seq<u8>>, k: int)
    requires
        0 <= k < ls.len(),
        classify(ls[k]) is Terminal,
        forall|j: int| 0 <= j < k ==> !(classify(#[trigger] ls[j]) is Terminal),
    ensures
        first_terminal(ls) == Some(k),
        events_model(ls) == events_model(ls.take(k)),
    decreases k,
{
    if k == 0 {
        assert(ls.take(0) =~= Seq::<Seq<u8>>::empty());
    } else {
        lemma_stream_early_stop(ls.skip(1), k - 1);
        assert(ls.skip(1).take(k - 1) =~= ls.take(k).skip(1));
        assert(ls.take(k)[0] == ls[0]);
        assert(events_model(ls) =~= events_model(ls.take(k)));
    }
}

/// What a finished stream run reports.
#[derive(Debug, Clone, PartialEq, Eq)]
pub struct StreamRun {
    /// The events forwarded to the sink, in arrival order.
    pub events: Vec<ProgressEvent>,
    /// The terminal error, where one fired; a stream that ends without one
    /// succeeded.
    pub failure: Option<Vec<u8>>,
    /// How many of the lines were examined at all.
    pub lines_examined: usize,
}

/// Run a whole stream of complete lines: forward the records in order,
/// stop at the first terminal record, and never examine a line beyond it.
pub fn run_stream(lines: &Vec<Vec<u8>>) -> (r: StreamRun)
    ensures
        event_views(r.events@) == events_model(views_of(lines@)),
        match first_terminal(views_of(lines@)) {
            Some(k) => {
                &&& r.failure matches Some(e) && StepModel::Terminal(e@) == classify(
                    views_of(lines@)[k],
                )
                &&& r.lines_examined == k + 1
            },
            None => r.failure is None && r.lines_examined == lines@.len(),
        },
{
    broadcast use crate::text::lemma_views_of_len, crate::text::lemma_views_of_index;
    broadcast use lemma_event_views_len, lemma_event_views_index;

    let ghost ls = views_of(lines@);
    let n = lines.len();
    let mut out: Vec<ProgressEvent> = Vec::new();
    let mut i: usize = 0;
    proof {
        assert(ls.skip(0) =~= ls);
    }
    while i < n
        invariant
            i <= n,
            n == lines@.len(),
            ls == views_of(lines@),
            forall|j: int| 0 <= j < i ==> !(classify(#[trigger] ls[j]) is Terminal),
            events_model(ls) == event_views(out@) + events_model(ls.skip(i as int)),
            first_terminal(ls) == match first_terminal(ls.skip(i as int)) {
                Some(j) => Some(j + i),
                None => None::<int>,
            },
        decreases n - i,
    {
        let step = process_line(lines[i].as_slice());
        proof {
            assert(ls.skip(i as int)[0] == ls[i as int]);
            assert(ls.skip(i as int).skip(1) =~= ls.skip(i as int + 1));
        }
        match step {
            LineStep::Skip => {},
            LineStep::Forward(e) => {
                let ghost prev = out@;
                out.push(e);
                proof {
                    assert(event_views(out@) =~= event_views(prev).push(e@));
                    assert(events_model(ls) =~= event_views(out@) + events_model(
                        ls.skip(i as int + 1),
                    ));
                }
            },
            LineStep::Terminal(e) => {
                proof {
                    assert(events_model(ls.skip(i as int)) =~= Seq::<EventModel>::empty());
                    assert(events_model(ls) =~= event_views(out@));
                }
                return StreamRun { events: out, failure: Some(e), lines_examined: i + 1 };
            },
        }
        i = i + 1;
    }
    proof {
        assert(ls.skip(n as int) =~= Seq::<Seq<u8>>::empty());
        assert(events_model(ls) =~= event_views(out@));
    }
    StreamRun { events: out, failure: None, lines_examined: n }
}

// ------------------------------------------------------------------
// Splitting chunks into lines
// ------------------------------------------------------------------

/// Position of the first newline, or the length when there is none.
pub open spec fn first_nl(s: Seq<u8>) -> int
    decreases s.len(),
{
    if s.len() == 0 {
        0
    } else if s[0] == NEWLINE {
        0
    } else {
        1 + first_nl(s.skip(1))
    }
}

/// The complete lines of the accumulated bytes: each segment before a
/// newline, in order.
pub open spec fn complete_lines(s: Seq<u8>) -> Seq<Seq<u8>>
    decreases s.len(),
{
    let k = first_nl(s);
    if 0 <= k < s.len() {
        seq![s.take(k)] + complete_lines(s.skip(k + 1))
    } else {
        Seq::empty()
    }
}

/// What remains after the last newline: the still-incomplete line.
pub open spec fn line_rest(s: Seq<u8>) -> Seq<u8>
    decreases s.len(),
{
    let k = first_nl(s);
    if 0 <= k < s.len() {
        line_rest(s.skip(k + 1))
    } else {
        s
    }
}

/// The first newline is where the first newline stands.
proof fn lemma_first_nl_scan(s: Seq<u8>, k: int)
    requires
        0 <= k <= s.len(),
        k == s.len() || s[k] == NEWLINE,
        forall|m: int| 0 <= m < k ==> s[m] != NEWLINE,
    ensures
        first_nl(s) == k,
    decreases k,
{
    if s.len() > 0 && s[0] != NEWLINE {
        lemma_first_nl_scan(s.skip(1), k - 1);
    }
}

/// A buffer without newlines holds no complete line; it is all remainder.
pub proof fn lemma_lines_plain(s: Seq<u8>)
    requires
        forall|m: int| 0 <= m < s.len() ==> s[m] != NEWLINE,
    ensures
        complete_lines(s) == Seq::<Seq<u8>>::empty(),
        line_rest(s) == s,
{
    lemma_first_nl_scan(s, s.len() as int);
}

/// Prepending a full line and its newline prepends that one line.
pub proof fn lemma_lines_step(a: Seq<u8>, rest: Seq<u8>)
    requires
        forall|m: int| 0 <= m < a.len() ==> a[m] != NEWLINE,
    ensures
        complete_lines(a + seq![NEWLINE] + rest) == seq![a] + complete_lines(rest),
        line_rest(a + seq![NEWLINE] + rest) == line_rest(rest),
{
    let s = a + seq![NEWLINE] + rest;
    assert(s[a.len() as int] == NEWLINE);
    assert(forall|m: int| 0 <= m < a.len() ==> s[m] == a[m]);
    lemma_first_nl_scan(s, a.len() as int);
    assert(s.take(a.len() as int) =~= a);
    assert(s.skip(a.len() as int + 1) =~= rest);
    assert(complete_lines(s) =~= seq![a] + complete_lines(rest));
}

/// The lines of a finished printout: every newline-terminated line, and a
/// final unterminated one when present.
pub open spec fn all_lines(s: Seq<u8>) -> Seq<Seq<u8>> {
    if line_rest(s).len() > 0 {
        complete_lines(s).push(line_rest(s))
    } else {
        complete_lines(s)
    }
}

/// Split a finished printout into its lines.
pub fn split_all_lines(s: &[u8]) -> (r: Vec<Vec<u8>>)
    ensures
        views_of(r@) == all_lines(s@),
{
    broadcast use crate::text::lemma_views_of_len, crate::text::lemma_views_of_index;

    let n = s.len();
    let mut lines: Vec<Vec<u8>> = Vec::new();
    let mut buf: Vec<u8> = Vec::new();
    let mut j: usize = 0;
    proof {
        assert(buf@ + s@.skip(0) =~= s@);
    }
    while j < n
        invariant
            j <= n,
            n == s@.len(),
            forall|m: int| 0 <= m < buf@.len() ==> buf@[m] != crate::text::NEWLINE,
            complete_lines(s@) == views_of(lines@) + complete_lines(buf@ + s@.skip(j as int)),
            line_rest(s@) == line_rest(buf@ + s@.skip(j as int)),
        decreases n - j,
    {
        let b = s[j];
        let ghost bprev = buf@;
        proof {
            assert(s@.skip(j as int)[0] == s@[j as int]);
            assert(s@.skip(j as int) =~= seq![b] + s@.skip(j as int + 1));
        }
        if b == crate::text::NEWLINE {
            let line = crate::text::copy_bytes(&buf);
            buf.clear();
            let ghost lprev = lines@;
            lines.push(line);
            proof {
                lemma_lines_step(bprev, s@.skip(j as int + 1));
                assert(bprev + s@.skip(j as int) =~= bprev + seq![crate::text::NEWLINE] + s@.skip(
                    j as int + 1,
                ));
                assert(buf@ + s@.skip(j as int + 1) =~= s@.skip(j as int + 1));
                assert(views_of(lines@) =~= views_of(lprev).push(line@));
                assert(views_of(lines@) + complete_lines(buf@ + s@.skip(j as int + 1))
                    =~= complete_lines(s@));
            }
        } else {
            buf.push(b);
            proof {
                assert(buf@ + s@.skip(j as int + 1) =~= bprev + s@.skip(j as int));
            }
        }
        j = j + 1;
    }
    proof {
        assert(s@.skip(n as int) =~= Seq::<u8>::empty());
        assert(buf@ + s@.skip(n as int) =~= buf@);
        lemma_lines_plain(buf@);
    }
    if buf.len() > 0 {
        let ghost lprev = lines@;
        lines.push(buf);
        proof {
            assert(views_of(lines@) =~= views_of(lprev).push(line_rest(s@)));
            assert(views_of(lines@) =~= all_lines(s@));
        }
        lines
    } else {
        proof {
            assert(views_of(lines@) =~= all_lines(s@));
        }
        lines
    }
}

/// Accumulates stream bytes and hands out each line as it completes.
pub struct LineSplitter {
    buf: Vec<u8>,
}

impl LineSplitter {
    /// The still-incomplete tail held back until its newline arrives.
    pub closed spec fn pending(&self) -> Seq<u8> {
        self.buf@
    }

    /// The held-back tail contains no newline.
    pub closed spec fn wf(&self) -> bool {
        forall|m: int| 0 <= m < self.buf@.len() ==> self.buf@[m] != NEWLINE
    }

    /// An empty splitter.
    pub fn new() -> (r: LineSplitter)
        ensures
            r.wf(),
            r.pending() == Seq::<u8>::empty(),
    {
        LineSplitter { buf: Vec::new() }
    }

    /// Feed the next chunk; returns the lines completed by it, in order.
    /// The lines of a stream do not depend on how it was cut into chunks:
    /// only the concatenation of pending bytes and chunk enters here.
    pub fn push_chunk(&mut self, chunk: &[u8]) -> (lines: Vec<Vec<u8>>)
        requires
            old(self).wf(),
        ensures
            final(self).wf(),
            views_of(lines@) == complete_lines(old(self).pending() + chunk@),
            final(self).pending() == line_rest(old(self).pending() + chunk@),
    {
        broadcast use crate::text::lemma_views_of_len, crate::text::lemma_views_of_index;

        let ghost base = old(self).pending() + chunk@;
        let n = chunk.len();
        let mut lines: Vec<Vec<u8>> = Vec::new();
        let mut j: usize = 0;
        proof {
            assert(self.buf@ + chunk@.skip(0) =~= base);
        }
        while j < n
            invariant
                j <= n,
                n == chunk@.len(),
                self.wf(),
                complete_lines(base) == views_of(lines@) + complete_lines(
                    self.buf@ + chunk@.skip(j as int),
                ),
                line_rest(base) == line_rest(self.buf@ + chunk@.skip(j as int)),
            decreases n - j,
        {
            let b = chunk[j];
            let ghost bprev = self.buf@;
            proof {
                assert(chunk@.skip(j as int)[0] == chunk@[j as int]);
                assert(chunk@.skip(j as int) =~= seq![b] + chunk@.skip(j as int + 1));
            }
            if b == NEWLINE {
                let line = copy_bytes(&self.buf);
                self.buf.clear();
                let ghost lprev = lines@;
                lines.push(line);
                proof {
                    lemma_lines_step(bprev, chunk@.skip(j as int + 1));
                    assert(bprev + chunk@.skip(j as int) =~= bprev + seq![NEWLINE] + chunk@.skip(
                        j as int + 1,
                    ));
                    assert(self.buf@ + chunk@.skip(j as int + 1) =~= chunk@.skip(j as int + 1));
                    assert(views_of(lines@) =~= views_of(lprev).push(line@));
                    assert(views_of(lines@) + complete_lines(self.buf@ + chunk@.skip(j as int + 1))
                        =~= complete_lines(base));
                }
            } else {
                self.buf.push(b);
                proof {
                    assert(self.buf@ + chunk@.skip(j as int + 1) =~= bprev + chunk@.skip(j as int));
                }
            }
            j = j + 1;
        }
        proof {
            assert(chunk@.skip(n as int) =~= Seq::<u8>::empty());
            assert(self.buf@ + chunk@.skip(n as int) =~= self.buf@);
            lemma_lines_plain(self.buf@);
        }
        lines
    }
}

} // verus!
