//! The persistent audio worker: the command language of the playback
//! thread, the model of the owned sink, and the order in which commands
//! reach it.
//!
//! One long-lived thread exclusively owns the platform audio output; the
//! only conduit into it is an ordered queue of commands. The thread's loop —
//! take the next command, apply it to the sink, repeat — is modelled here as
//! a fold whose trace of sink calls is proved to follow submission order,
//! one command at a time, never interleaved. The platform sink itself is
//! I/O and stays outside; drivers perform each returned call against it.

use vstd::prelude::*;

verus! {

/// Mathematical model of one playback command.
pub ghost enum CommandModel {
    Play(Seq<u8>),
    Pause,
    Resume,
    Stop,
    SetVolume(u32),
    Seek(u64),
}

/// One playback command. Volume is in thousandths of full scale and seek
/// positions are in milliseconds, so that commands carry plain integers.
/// Constructed by callers, consumed exactly once by the worker, in
/// submission order.
#[derive(Debug, Clone, PartialEq, Eq)]
pub enum AudioCommand {
    /// Open, decode and play the file at this path, displacing whatever is
    /// queued.
    Play(Vec<u8>),
    Pause,
    Resume,
    /// Clear the sink's queue.
    Stop,
    /// Apply immediately; clamping is the resource's own business.
    SetVolume(u32),
    /// Best effort; a failed seek is swallowed.
    Seek(u64),
}

impl View for AudioCommand {
    type V = CommandModel;

    open spec fn view(&self) -> CommandModel {
        match self {
            AudioCommand::Play(p) => CommandModel::Play(p@),
            AudioCommand::Pause => CommandModel::Pause,
            AudioCommand::Resume => CommandModel::Resume,
            AudioCommand::Stop => CommandModel::Stop,
            AudioCommand::SetVolume(v) => CommandModel::SetVolume(*v),
            AudioCommand::Seek(t) => CommandModel::Seek(*t),
        }
    }
}

/// The models of a command list, in order.
pub open spec fn command_views(cs: Seq<AudioCommand>) -> Seq<CommandModel> {
    cs.map_values(|c: AudioCommand| c@)
}

/// Taking command views keeps the length.
pub broadcast proof fn lemma_command_views_len(cs: Seq<AudioCommand>)
    ensures
        #[trigger] command_views(cs).len() == cs.len(),
{
}

/// Taking command views keeps each position.
pub broadcast proof fn lemma_command_views_index(cs: Seq<AudioCommand>, k: int)
    requires
        0 <= k < cs.len(),
    ensures
        #[trigger] command_views(cs)[k] == cs[k]@,
{
}

/// Mathematical model of one call observed by the owned sink.
pub ghost enum CallModel {
    Stop,
    Append(Seq<u8>),
    Play,
    Pause,
    SetVolume(u32),
    TrySeek(u64),
}

/// One call for the driver to perform against the owned sink.
#[derive(Debug, Clone, PartialEq, Eq)]
pub enum SinkCall {
    Stop,
    Append(Vec<u8>),
    Play,
    Pause,
    SetVolume(u32),
    TrySeek(u64),
}

impl View for SinkCall {
    type V = CallModel;

    open spec fn view(&self) -> CallModel {
        match self {
            SinkCall::Stop => CallModel::Stop,
            SinkCall::Append(p) => CallModel::Append(p@),
            SinkCall::Play => CallModel::Play,
            SinkCall::Pause => CallModel::Pause,
            SinkCall::SetVolume(v) => CallModel::SetVolume(*v),
            SinkCall::TrySeek(t) => CallModel::TrySeek(*t),
        }
    }
}

/// The models of a call list, in order.
pub open spec fn call_views(cs: Seq<SinkCall>) -> Seq<CallModel> {
    cs.map_values(|c: SinkCall| c@)
}

/// Taking call views keeps the length.
pub broadcast proof fn lemma_call_views_len(cs: Seq<SinkCall>)
    ensures
        #[trigger] call_views(cs).len() == cs.len(),
{
}

/// Taking call views keeps each position.
pub broadcast proof fn lemma_call_views_index(cs: Seq<SinkCall>, k: int)
    requires
        0 <= k < cs.len(),
    ensures
        #[trigger] call_views(cs)[k] == cs[k]@,
{
}

/// Mathematical model of the owned sink between commands.
pub ghost struct SinkModel {
    /// How many sources stand in the sink's queue.
    pub queued: nat,
    pub paused: bool,
    /// Thousandths of full scale.
    pub volume: u32,
}

/// The worker's view of the owned sink between commands.
#[derive(Debug, Clone, PartialEq, Eq)]
pub struct SinkState {
    pub queued: usize,
    pub paused: bool,
    pub volume: u32,
}

impl View for SinkState {
    type V = SinkModel;

    open spec fn view(&self) -> SinkModel {
        SinkModel { queued: self.queued as nat, paused: self.paused, volume: self.volume }
    }
}

impl SinkState {
    /// A fresh sink: empty, playing-ready, full volume.
    pub fn new() -> (r: SinkState)
        ensures
            r@ == (SinkModel { queued: 0, paused: false, volume: 1000u32 }),
    {
        SinkState { queued: 0, paused: false, volume: 1000 }
    }
}

/// The calls one command drives into the sink. A play that failed to open
/// or decode drives none — the failure is contained and the loop goes on.
/// A play of a decoded source first clears a non-empty queue.
pub open spec fn command_calls(st: SinkModel, cmd: CommandModel, decode_ok: bool) -> Seq<
    CallModel,
> {
    match cmd {
        CommandModel::Play(p) => if !decode_ok {
            Seq::empty()
        } else if st.queued > 0 {
            seq![CallModel::Stop, CallModel::Append(p), CallModel::Play]
        } else {
            seq![CallModel::Append(p), CallModel::Play]
        },
        CommandModel::Pause => seq![CallModel::Pause],
        CommandModel::Resume => seq![CallModel::Play],
        CommandModel::Stop => seq![CallModel::Stop],
        CommandModel::SetVolume(v) => seq![CallModel::SetVolume(v)],
        CommandModel::Seek(t) => seq![CallModel::TrySeek(t)],
    }
}

/// The sink after one command.
pub open spec fn command_next(st: SinkModel, cmd: CommandModel, decode_ok: bool) -> SinkModel {
    match cmd {
        CommandModel::Play(_) => if !decode_ok {
            st
        } else {
            SinkModel { queued: 1, paused: false, volume: st.volume }
        },
        CommandModel::Pause => SinkModel { paused: true, ..st },
        CommandModel::Resume => SinkModel { paused: false, ..st },
        CommandModel::Stop => SinkModel { queued: 0, ..st },
        CommandModel::SetVolume(v) => SinkModel { volume: v, ..st },
        CommandModel::Seek(_) => st,
    }
}

/// Execute one command against the worker's sink state; returns the calls
/// for the driver to perform, in order. `decode_ok` reports whether opening
/// and decoding the source succeeded, for a play command.
pub fn apply_command(st: &mut SinkState, cmd: &AudioCommand, decode_ok: bool) -> (calls: Vec<
    SinkCall,
>)
    ensures
        call_views(calls@) == command_calls(old(st)@, cmd@, decode_ok),
        final(st)@ == command_next(old(st)@, cmd@, decode_ok),
{
    broadcast use lemma_call_views_len, lemma_call_views_index;

    let mut calls: Vec<SinkCall> = Vec::new();
    match cmd {
        AudioCommand::Play(p) => {
            if decode_ok {
                if st.queued > 0 {
                    calls.push(SinkCall::Stop);
                }
                calls.push(SinkCall::Append(crate::text::copy_bytes(p)));
                calls.push(SinkCall::Play);
                st.queued = 1;
                st.paused = false;
            }
        },
        AudioCommand::Pause => {
            calls.push(SinkCall::Pause);
            st.paused = true;
        },
        AudioCommand::Resume => {
            calls.push(SinkCall::Play);
            st.paused = false;
        },
        AudioCommand::Stop => {
            calls.push(SinkCall::Stop);
            st.queued = 0;
        },
        AudioCommand::SetVolume(v) => {
            calls.push(SinkCall::SetVolume(*v));
            st.volume = *v;
        },
        AudioCommand::Seek(t) => {
            calls.push(SinkCall::TrySeek(*t));
        },
    }
    proof {
        assert(call_views(calls@) =~= command_calls(old(st)@, cmd@, decode_ok));
    }
    calls
}

/// The trace a run of commands drives into the sink: each command's calls,
/// in submission order, one command at a time.
pub open spec fn worker_trace(st: SinkModel, cmds: Seq<CommandModel>, oks: Seq<bool>) -> Seq<
    CallModel,
>
    decreases cmds.len(),
{
    if cmds.len() == 0 {
        Seq::empty()
    } else {
        command_calls(st, cmds[0], oks[0]) + worker_trace(
            command_next(st, cmds[0], oks[0]),
            cmds.skip(1),
            oks.skip(1),
        )
    }
}

/// The sink after a run of commands.
pub open spec fn worker_final(st: SinkModel, cmds: Seq<CommandModel>, oks: Seq<bool>) -> SinkModel
    decreases cmds.len(),
{
    if cmds.len() == 0 {
        st
    } else {
        worker_final(command_next(st, cmds[0], oks[0]), cmds.skip(1), oks.skip(1))
    }
}

/// First-in, first-out, never interleaved: the trace of two batches run
/// back to back is the first batch's trace followed by the second's, with
/// the second starting from where the first left the sink. No call of a
/// later command ever stands before a call of an earlier one.
pub proof fn lemma_worker_trace_fifo(
    st: SinkModel,
    cmds1: Seq<CommandModel>,
    oks1: Seq<bool>,
    cmds2: Seq<CommandModel>,
    oks2: Seq<bool>,
)
    requires
        cmds1.len() == oks1.len(),
    ensures
        worker_trace(st, cmds1 + cmds2, oks1 + oks2) == worker_trace(st, cmds1, oks1)
            + worker_trace(worker_final(st, cmds1, oks1), cmds2, oks2),
        worker_final(st, cmds1 + cmds2, oks1 + oks2) == worker_final(
            worker_final(st, cmds1, oks1),
            cmds2,
            oks2,
        ),
    decreases cmds1.len(),
{
    if cmds1.len() == 0 {
        assert(cmds1 + cmds2 =~= cmds2);
        assert(oks1 + oks2 =~= oks2);
    } else {
        let st1 = command_next(st, cmds1[0], oks1[0]);
        lemma_worker_trace_fifo(st1, cmds1.skip(1), oks1.skip(1), cmds2, oks2);
        assert((cmds1 + cmds2).skip(1) =~= cmds1.skip(1) + cmds2);
        assert((oks1 + oks2).skip(1) =~= oks1.skip(1) + oks2);
        assert((cmds1 + cmds2)[0] == cmds1[0]);
        assert((oks1 + oks2)[0] == oks1[0]);
        assert(worker_trace(st, cmds1 + cmds2, oks1 + oks2) =~= worker_trace(st, cmds1, oks1)
            + worker_trace(worker_final(st, cmds1, oks1), cmds2, oks2));
    }
}

/// Run the worker loop over a batch of commands drawn from the queue in
/// order. `oks[k]` reports whether the `k`-th command's source decoded, for
/// play commands. The calls observed by the sink are exactly the batch's
/// trace: submission order, one command at a time.
pub fn run_worker(start: SinkState, cmds: &Vec<AudioCommand>, oks: &Vec<bool>) -> (r: (
    Vec<SinkCall>,
    SinkState,
))
    requires
        oks@.len() == cmds@.len(),
    ensures
        call_views(r.0@) == worker_trace(start@, command_views(cmds@), oks@),
        r.1@ == worker_final(start@, command_views(cmds@), oks@),
{
    broadcast use lemma_call_views_len, lemma_call_views_index;
    broadcast use lemma_command_views_len, lemma_command_views_index;

    let ghost cs = command_views(cmds@);
    let mut st = start;
    let mut out: Vec<SinkCall> = Vec::new();
    let n = cmds.len();
    let mut i: usize = 0;
    proof {
        assert(cs.skip(0) =~= cs);
        assert(oks@.skip(0) =~= oks@);
    }
    while i < n
        invariant
            i <= n,
            n == cmds@.len() == oks@.len(),
            cs == command_views(cmds@),
            worker_trace(start@, cs, oks@) == call_views(out@) + worker_trace(
                st@,
                cs.skip(i as int),
                oks@.skip(i as int),
            ),
            worker_final(start@, cs, oks@) == worker_final(
                st@,
                cs.skip(i as int),
                oks@.skip(i as int),
            ),
        decreases n - i,
    {
        proof {
            assert(cs.skip(i as int)[0] == cs[i as int]);
            assert(oks@.skip(i as int)[0] == oks@[i as int]);
            assert(cs.skip(i as int).skip(1) =~= cs.skip(i as int + 1));
            assert(oks@.skip(i as int).skip(1) =~= oks@.skip(i as int + 1));
        }
        let mut calls = apply_command(&mut st, &cmds[i], oks[i]);
        let ghost prev = out@;
        let ghost batch = calls@;
        out.append(&mut calls);
        proof {
            assert(call_views(out@) =~= call_views(prev) + call_views(batch));
            assert(call_views(out@) + worker_trace(
                st@,
                cs.skip(i as int + 1),
                oks@.skip(i as int + 1),
            ) =~= worker_trace(start@, cs, oks@));
        }
        i = i + 1;
    }
    proof {
        assert(cs.skip(n as int) =~= Seq::<CommandModel>::empty());
        assert(call_views(out@) =~= worker_trace(start@, cs, oks@));
    }
    (out, st)
}

/// The ordered conduit into the worker: a first-in, first-out queue of
/// commands. The cross-thread channel that carries it is plumbing outside;
/// this is the order it must keep.
pub struct WorkerChannel {
    items: Vec<AudioCommand>,
}

impl View for WorkerChannel {
    type V = Seq<CommandModel>;

    closed spec fn view(&self) -> Seq<CommandModel> {
        command_views(self.items@)
    }
}

impl WorkerChannel {
    /// An empty queue.
    pub fn new() -> (r: WorkerChannel)
        ensures
            r@ == Seq::<CommandModel>::empty(),
    {
        let r = WorkerChannel { items: Vec::new() };
        proof {
            assert(r@ =~= Seq::<CommandModel>::empty());
        }
        r
    }

    /// How many commands wait.
    pub fn len(&self) -> (n: usize)
        ensures
            n == self@.len(),
    {
        broadcast use lemma_command_views_len;

        self.items.len()
    }

    /// Enqueue a command at the back.
    pub fn send(&mut self, cmd: AudioCommand)
        ensures
            final(self)@ == old(self)@ + seq![cmd@],
    {
        broadcast use lemma_command_views_len, lemma_command_views_index;

        let ghost prev = self.items@;
        self.items.push(cmd);
        proof {
            assert(command_views(self.items@) =~= command_views(prev) + seq![self.items@[
                prev.len() as int
            ]@]);
        }
    }

    /// Dequeue the oldest command; the queue is strictly first-in,
    /// first-out.
    pub fn recv(&mut self) -> (r: Option<AudioCommand>)
        ensures
            old(self)@.len() == 0 ==> r is None && final(self)@ == old(self)@,
            old(self)@.len() > 0 ==> {
                &&& r matches Some(c) && c@ == old(self)@[0]
                &&& final(self)@ == old(self)@.skip(1)
            },
    {
        broadcast use lemma_command_views_len, lemma_command_views_index;

        if self.items.len() == 0 {
            return None;
        }
        let c = self.items.remove(0);
        proof {
            assert(command_views(self.items@) =~= command_views(old(self).items@).skip(1));
        }
        Some(c)
    }
}

} // verus!
