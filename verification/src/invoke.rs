//! The external-process bridge: building the argument vector of a helper
//! invocation, resolving an interpreter and a script from ordered candidate
//! lists, and mapping the child's exit status and captured output to a
//! structured result.
//!
//! Spawning itself is plain I/O and stays outside the library; callers probe
//! the candidate paths, hand in which exist, spawn exactly what the returned
//! plan says, and feed the captured output back in. Everything decided here
//! is proved: when a spawn plan exists, what it runs, and what result each
//! exit maps to.

use vstd::prelude::*;
use crate::json::{JsonRecord, record_bytes, sp_record, parse_record};
use crate::text::{copy_bytes, trimmed, views_of};

verus! {

/// A request to the external helper: an operation name, positional
/// operands, and optional structured options appended as one serialized
/// JSON argument. Immutable once constructed.
pub struct TaskRequest {
    pub action: Vec<u8>,
    pub operands: Vec<Vec<u8>>,
    pub options: Option<JsonRecord>,
}

impl TaskRequest {
    /// The embedded options, if any, can stand on the wire.
    pub open spec fn wf(&self) -> bool {
        match self.options {
            Some(o) => o.wf(),
            None => true,
        }
    }

    /// The positional argument vector this request stands for.
    pub open spec fn args_model(&self) -> Seq<Seq<u8>> {
        let base = seq![self.action@] + views_of(self.operands@);
        match self.options {
            Some(o) => base + seq![record_bytes(o@)],
            None => base,
        }
    }

    /// Build the positional arguments: the action, the operands in order,
    /// then the serialized options when present.
    pub fn build_args(&self) -> (r: Vec<Vec<u8>>)
        ensures
            views_of(r@) == self.args_model(),
    {
        broadcast use crate::text::lemma_views_of_len, crate::text::lemma_views_of_index;

        let mut out: Vec<Vec<u8>> = Vec::new();
        out.push(copy_bytes(&self.action));
        let n = self.operands.len();
        let mut i: usize = 0;
        while i < n
            invariant
                i <= n,
                n == self.operands.len(),
                out@.len() == i + 1,
                out@[0]@ == self.action@,
                forall|k: int| 0 <= k < i ==> out@[k + 1]@ == #[trigger] self.operands@[k]@,
            decreases n - i,
        {
            let entry = copy_bytes(&self.operands[i]);
            out.push(entry);
            i = i + 1;
        }
        match &self.options {
            Some(o) => {
                let encoded = crate::json::serialize_record(o);
                out.push(encoded);
                proof {
                    assert(views_of(out@) =~= self.args_model());
                }
            },
            None => {
                proof {
                    assert(views_of(out@) =~= self.args_model());
                }
            },
        }
        out
    }
}

/// Index of the first existing candidate, if any.
pub open spec fn first_present(p: Seq<bool>) -> Option<int>
    decreases p.len(),
{
    if p.len() == 0 {
        None
    } else if p[0] {
        Some(0)
    } else {
        match first_present(p.skip(1)) {
            Some(i) => Some(i + 1),
            None => None,
        }
    }
}

/// The first index at which `p` holds is what `first_present` returns.
pub proof fn lemma_first_present_at(p: Seq<bool>, k: int)
    requires
        0 <= k < p.len(),
        p[k],
        forall|m: int| 0 <= m < k ==> !p[m],
    ensures
        first_present(p) == Some(k),
    decreases p.len(),
{
    if k > 0 {
        lemma_first_present_at(p.skip(1), k - 1);
    }
}

/// What a found index means: it is in range, it holds, and nothing before
/// it does.
pub proof fn lemma_first_present_found(p: Seq<bool>)
    requires
        first_present(p) is Some,
    ensures
        ({
            let k = first_present(p)->Some_0;
            &&& 0 <= k < p.len()
            &&& p[k]
            &&& forall|m: int| 0 <= m < k ==> !p[m]
        }),
    decreases p.len(),
{
    if p.len() > 0 && !p[0] {
        lemma_first_present_found(p.skip(1));
        let k1 = first_present(p.skip(1))->Some_0;
        assert(p[k1 + 1] == p.skip(1)[k1]);
        assert(forall|m: int| 0 <= m < k1 + 1 ==> !p[m]) by {
            assert(forall|m: int| 1 <= m < k1 + 1 ==> p[m] == p.skip(1)[m - 1]);
        }
    }
}

/// Where `p` holds nowhere, `first_present` finds nothing.
pub proof fn lemma_first_present_none(p: Seq<bool>)
    requires
        forall|m: int| 0 <= m < p.len() ==> !p[m],
    ensures
        first_present(p) is None,
    decreases p.len(),
{
    if p.len() > 0 {
        lemma_first_present_none(p.skip(1));
    }
}

/// Resolve the interpreter: the first candidate that exists, else the bare
/// fallback name left to the system search path. `present[i]` says whether
/// `candidates[i]` exists; the caller probed the filesystem.
pub fn get_python_executable(candidates: &Vec<Vec<u8>>, present: &Vec<bool>, fallback: &Vec<u8>)
    -> (r: Vec<u8>)
    requires
        candidates.len() == present.len(),
    ensures
        match first_present(present@) {
            Some(i) => r@ == candidates@[i]@,
            None => r@ == fallback@,
        },
{
    let n = candidates.len();
    let mut i: usize = 0;
    while i < n
        invariant
            i <= n,
            n == candidates.len() == present.len(),
            forall|m: int| 0 <= m < i ==> !present@[m],
        decreases n - i,
    {
        if present[i] {
            proof {
                lemma_first_present_at(present@, i as int);
            }
            return copy_bytes(&candidates[i]);
        }
        i = i + 1;
    }
    proof {
        lemma_first_present_none(present@);
    }
    copy_bytes(fallback)
}

/// Resolve the helper script: the first candidate that exists, else nothing.
pub fn resolve_script(candidates: &Vec<Vec<u8>>, present: &Vec<bool>) -> (r: Option<Vec<u8>>)
    requires
        candidates.len() == present.len(),
    ensures
        match first_present(present@) {
            Some(i) => r matches Some(p) && p@ == candidates@[i]@,
            None => r is None,
        },
{
    let n = candidates.len();
    let mut i: usize = 0;
    while i < n
        invariant
            i <= n,
            n == candidates.len() == present.len(),
            forall|m: int| 0 <= m < i ==> !present@[m],
        decreases n - i,
    {
        if present[i] {
            proof {
                lemma_first_present_at(present@, i as int);
            }
            return Some(copy_bytes(&candidates[i]));
        }
        i = i + 1;
    }
    proof {
        lemma_first_present_none(present@);
    }
    None
}

/// Why an invocation failed.
#[derive(Debug, Clone, PartialEq, Eq)]
pub enum InvokeError {
    /// No interpreter or script could be resolved, or the system refused to
    /// spawn: no child process was created.
    SpawnFailure,
    /// The child ran and exited with a failure status; the bytes are its
    /// standard error followed by a newline and its standard output.
    ExecutionFailure(Vec<u8>),
    /// The child exited successfully but its output was not one record of
    /// the result schema; the bytes are that raw output.
    ParseFailure(Vec<u8>),
}

/// Exactly what to spawn: a program and its full argument vector.
#[derive(Debug, Clone, PartialEq, Eq)]
pub struct SpawnPlan {
    pub program: Vec<u8>,
    pub args: Vec<Vec<u8>>,
}

/// Whether a spawn plan exists for the given probe results: some script
/// candidate exists, and either some interpreter candidate exists or the
/// bare fallback resolves on the search path.
pub open spec fn spawn_possible(
    interp_present: Seq<bool>,
    fallback_resolvable: bool,
    script_present: Seq<bool>,
) -> bool {
    (first_present(interp_present) is Some || fallback_resolvable) && first_present(
        script_present,
    ) is Some
}

/// Resolve a request into a spawn plan, or fail before any child process
/// exists. The plan runs the resolved interpreter on the resolved script
/// followed by the request's arguments.
pub fn resolve_spawn(
    req: &TaskRequest,
    interp_candidates: &Vec<Vec<u8>>,
    interp_present: &Vec<bool>,
    interp_fallback: &Vec<u8>,
    fallback_resolvable: bool,
    script_candidates: &Vec<Vec<u8>>,
    script_present: &Vec<bool>,
) -> (r: Result<SpawnPlan, InvokeError>)
    requires
        interp_candidates.len() == interp_present.len(),
        script_candidates.len() == script_present.len(),
    ensures
        r is Ok <==> spawn_possible(interp_present@, fallback_resolvable, script_present@),
        r matches Ok(plan) ==> {
            &&& plan.program@ == match first_present(interp_present@) {
                Some(i) => interp_candidates@[i]@,
                None => interp_fallback@,
            }
            &&& views_of(plan.args@) == seq![
                script_candidates@[first_present(script_present@)->Some_0]@,
            ] + req.args_model()
        },
        r matches Err(e) ==> e is SpawnFailure,
{
    broadcast use crate::text::lemma_views_of_len, crate::text::lemma_views_of_index;

    let script = match resolve_script(script_candidates, script_present) {
        Some(s) => s,
        None => {
            return Err(InvokeError::SpawnFailure);
        },
    };
    if first_present_exists(interp_present) || fallback_resolvable {
        let program = get_python_executable(interp_candidates, interp_present, interp_fallback);
        let mut args: Vec<Vec<u8>> = Vec::new();
        args.push(script);
        let mut rest = req.build_args();
        args.append(&mut rest);
        proof {
            assert(views_of(args@) =~= seq![
                script_candidates@[first_present(script_present@)->Some_0]@,
            ] + req.args_model());
        }
        Ok(SpawnPlan { program, args })
    } else {
        Err(InvokeError::SpawnFailure)
    }
}

/// Whether any candidate exists.
fn first_present_exists(present: &Vec<bool>) -> (r: bool)
    ensures
        r == (first_present(present@) is Some),
{
    let n = present.len();
    let mut i: usize = 0;
    while i < n
        invariant
            i <= n,
            n == present.len(),
            forall|m: int| 0 <= m < i ==> !present@[m],
        decreases n - i,
    {
        if present[i] {
            proof {
                lemma_first_present_at(present@, i as int);
            }
            return true;
        }
        i = i + 1;
    }
    proof {
        lemma_first_present_none(present@);
    }
    false
}

/// The structured outcome of one helper invocation that ran to exit.
/// Produced exactly once per call. The payload is a flat record of scalar
/// members; an action whose schema nests documents does not fit it.
#[derive(Debug, Clone, PartialEq, Eq)]
pub struct TaskResult {
    pub success: bool,
    pub payload: Option<JsonRecord>,
    pub error: Option<Vec<u8>>,
}

/// The error bytes reported when the child exited with a failure status:
/// its standard error, a newline, then its standard output.
pub open spec fn exec_failure_note(stderr: Seq<u8>, stdout: Seq<u8>) -> Seq<u8> {
    stderr + seq![crate::text::NEWLINE] + stdout
}

/// The bytes `"parse failure: "` that open a parse-failure report.
pub open spec fn parse_failure_mark() -> Seq<u8> {
    seq![
        0x70u8, 0x61u8, 0x72u8, 0x73u8, 0x65u8, 0x20u8, 0x66u8, 0x61u8, 0x69u8, 0x6cu8, 0x75u8,
        0x72u8, 0x65u8, 0x3au8, 0x20u8,
    ]
}

/// The error bytes reported when the child's output was no record of the
/// result schema: the mark, then the raw output.
pub open spec fn parse_failure_note(stdout: Seq<u8>) -> Seq<u8> {
    parse_failure_mark() + stdout
}

/// Map an exited child to a result. A successful exit whose output, shorn
/// of surrounding whitespace, is one record of the result schema succeeds
/// with that record as payload; a successful exit with any other output is
/// a parse failure carrying the raw output; a failing exit carries its
/// error and output streams.
///
/// The result schema is the flat record wire format of this crate: scalar
/// members only. A success document with array or object members, or with
/// a unicode escape above `007F` in a string, is outside it and is
/// reported as a parse failure — callers whose actions answer with nested
/// documents must read the raw bytes from that failure themselves.
pub fn interpret_exit(status_ok: bool, stdout: &Vec<u8>, stderr: &Vec<u8>) -> (r: TaskResult)
    ensures
        status_ok && sp_record(trimmed(stdout@)) is Some ==> {
            &&& r.success
            &&& r.payload matches Some(p) && p@ == sp_record(trimmed(stdout@))->Some_0
            &&& r.error is None
        },
        status_ok && sp_record(trimmed(stdout@)) is None ==> {
            &&& !r.success
            &&& r.payload is None
            &&& r.error matches Some(e) && e@ == parse_failure_note(stdout@)
        },
        !status_ok ==> {
            &&& !r.success
            &&& r.payload is None
            &&& r.error matches Some(e) && e@ == exec_failure_note(stderr@, stdout@)
        },
{
    if status_ok {
        let cleaned = crate::text::trim_bytes(stdout.as_slice());
        match parse_record(cleaned.as_slice()) {
            Some(rec) => TaskResult { success: true, payload: Some(rec), error: None },
            None => {
                let mut e: Vec<u8> = Vec::new();
                e.push(0x70);
                e.push(0x61);
                e.push(0x72);
                e.push(0x73);
                e.push(0x65);
                e.push(0x20);
                e.push(0x66);
                e.push(0x61);
                e.push(0x69);
                e.push(0x6c);
                e.push(0x75);
                e.push(0x72);
                e.push(0x65);
                e.push(0x3a);
                e.push(0x20);
                let mut raw = copy_bytes(stdout);
                e.append(&mut raw);
                proof {
                    assert(e@ =~= parse_failure_note(stdout@));
                }
                TaskResult { success: false, payload: None, error: Some(e) }
            },
        }
    } else {
        let mut e = copy_bytes(stderr);
        e.push(crate::text::NEWLINE);
        let mut tail = copy_bytes(stdout);
        e.append(&mut tail);
        proof {
            assert(e@ =~= exec_failure_note(stderr@, stdout@));
        }
        TaskResult { success: false, payload: None, error: Some(e) }
    }
}

/// Round trip through the helper protocol: when the helper writes the
/// canonical bytes of a well-formed record — however much whitespace
/// surrounds them — and exits successfully, the interpreted result succeeds
/// and its payload is that record.
pub proof fn lemma_interpret_round_trip(
    m: Seq<crate::json::FieldModel>,
    stdout: Seq<u8>,
    r: TaskResult,
)
    requires
        crate::json::model_wf(m),
        trimmed(stdout) == record_bytes(m),
        r.success ==> (r.payload matches Some(p) && p@ == sp_record(trimmed(stdout))->Some_0),
        sp_record(trimmed(stdout)) is Some ==> r.success,
    ensures
        r.success,
        r.payload matches Some(p) && p@ == m,
{
    crate::json::lemma_record_round_trip(m);
}

} // verus!
