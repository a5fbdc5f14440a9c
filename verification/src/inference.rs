//! Decisions around the `llama-server` processes that serve loaded models:
//! which accelerator to use, where the server binary is, the command line a
//! model is started with, the port each model gets, readiness polling, and
//! the payloads of a streamed completion.

use vstd::prelude::*;
use vstd::string::StringExecFns;
use crate::auth::{trimmed, trim_chars};
use crate::metrics::str_eq;
use crate::paths::{split_on, split_chars};
use crate::strutil::{chars_of, decimal, decode_lossy, push_decimal, string_from_chars, string_views, utf8_lossy};

use crate::assoc::{
    first_value, keys_unique, lemma_first_value_at, lemma_first_value_push, lemma_first_value_remove,
    lemma_first_value_some, lemma_first_value_update,
};

verus! {

/// Hardware the inference server runs on.
#[derive(Debug, Clone, Copy, PartialEq, Eq, Structural)]
pub enum AcceleratorType {
    CUDA,
    ROCm,
    Metal,
    Vulkan,
    CPU,
}

/// Reply of a completion request.
#[derive(Debug, Clone)]
pub struct CompletionResponse {
    pub content: String,
    pub tokens_used: Option<i32>,
}

/// The accelerator chosen from what the machine shows, in order of
/// preference: `nvidia-smi` runs, ROCm is installed, the system is macOS,
/// `vulkaninfo` runs; otherwise the CPU.
pub open spec fn preferred_accelerator(nvidia_smi_ok: bool, rocm_installed: bool, on_macos: bool, vulkaninfo_ok: bool) -> AcceleratorType {
    if nvidia_smi_ok {
        AcceleratorType::CUDA
    } else if rocm_installed {
        AcceleratorType::ROCm
    } else if on_macos {
        AcceleratorType::Metal
    } else if vulkaninfo_ok {
        AcceleratorType::Vulkan
    } else {
        AcceleratorType::CPU
    }
}

/// Picks the accelerator from the results of the machine probes.
pub fn accelerator_from_probes(nvidia_smi_ok: bool, rocm_installed: bool, on_macos: bool, vulkaninfo_ok: bool) -> (a: AcceleratorType)
    ensures
        a == preferred_accelerator(nvidia_smi_ok, rocm_installed, on_macos, vulkaninfo_ok),
{
    if nvidia_smi_ok {
        AcceleratorType::CUDA
    } else if rocm_installed {
        AcceleratorType::ROCm
    } else if on_macos {
        AcceleratorType::Metal
    } else if vulkaninfo_ok {
        AcceleratorType::Vulkan
    } else {
        AcceleratorType::CPU
    }
}

/// The fallback server path for an accelerator: `./llama-server-` and the
/// accelerator's name in lower case.
pub open spec fn fallback_server_path(a: AcceleratorType) -> Seq<char> {
    match a {
        AcceleratorType::CUDA => "./llama-server-cuda"@,
        AcceleratorType::ROCm => "./llama-server-rocm"@,
        AcceleratorType::Metal => "./llama-server-metal"@,
        AcceleratorType::Vulkan => "./llama-server-vulkan"@,
        AcceleratorType::CPU => "./llama-server-cpu"@,
    }
}

/// The server path used when no installed server is found.
pub fn fallback_llama_server(a: AcceleratorType) -> (p: String)
    ensures
        p@ == fallback_server_path(a),
{
    match a {
        AcceleratorType::CUDA => "./llama-server-cuda".to_owned(),
        AcceleratorType::ROCm => "./llama-server-rocm".to_owned(),
        AcceleratorType::Metal => "./llama-server-metal".to_owned(),
        AcceleratorType::Vulkan => "./llama-server-vulkan".to_owned(),
        AcceleratorType::CPU => "./llama-server-cpu".to_owned(),
    }
}

/// Places searched for an installed server, in order, before the
/// fallback; `~` stands for the home directory.
pub fn common_llama_server_paths() -> (v: Vec<&'static str>)
    ensures
        v@.len() == 5,
        v@[0]@ == "/usr/local/bin/llama-server"@,
        v@[1]@ == "/usr/bin/llama-server"@,
        v@[2]@ == "./llama-server"@,
        v@[3]@ == "./bin/llama-server"@,
        v@[4]@ == "~/.local/bin/llama-server"@,
{
    let mut v: Vec<&'static str> = Vec::new();
    v.push("/usr/local/bin/llama-server");
    v.push("/usr/bin/llama-server");
    v.push("./llama-server");
    v.push("./bin/llama-server");
    v.push("~/.local/bin/llama-server");
    v
}

/// The server binary: what `which llama-server` printed, trimmed, when it
/// succeeded with a non-empty answer; else the first installed common
/// path; else the fallback for the accelerator.
pub open spec fn chosen_server_path(which_stdout: Option<Seq<u8>>, first_installed: Option<Seq<char>>, a: AcceleratorType) -> Seq<char> {
    if which_stdout is Some && trimmed(utf8_lossy(which_stdout->Some_0)).len() > 0 {
        trimmed(utf8_lossy(which_stdout->Some_0))
    } else if first_installed is Some {
        first_installed->Some_0
    } else {
        fallback_server_path(a)
    }
}

/// Chooses the server binary. `which_stdout` is the output of a successful
/// `which llama-server`, `first_installed` the first common path that
/// exists.
pub fn choose_llama_server(which_stdout: Option<&[u8]>, first_installed: Option<&str>, a: AcceleratorType) -> (p: String)
    ensures
        p@ == chosen_server_path(
            match which_stdout { Some(b) => Some(b@), None => None },
            match first_installed { Some(s) => Some(s@), None => None },
            a,
        ),
{
    if let Some(bytes) = which_stdout {
        let text = decode_lossy(bytes);
        let cs = chars_of(text.as_str());
        let t = trim_chars(&cs);
        if t.len() > 0 {
            return string_from_chars(t.as_slice());
        }
    }
    match first_installed {
        Some(path) => path.to_owned(),
        None => fallback_llama_server(a),
    }
}

/// Decimal text of a number.
pub fn decimal_string(n: u128) -> (s: String)
    ensures
        s@ == decimal(n as nat),
{
    let mut s = String::new();
    push_decimal(&mut s, n);
    s
}

/// The command-line arguments a model's server is started with; GPU
/// layers are passed only with an accelerator and a positive count.
pub open spec fn server_args(model_path: Seq<char>, port: u16, n_ctx: u32, n_gpu_layers: u32, n_threads: u32, a: AcceleratorType) -> Seq<Seq<char>> {
    let base = seq![
        "--model"@, model_path,
        "--port"@, decimal(port as nat),
        "--ctx-size"@, decimal(n_ctx as nat),
        "--threads"@, decimal(n_threads as nat)
    ];
    if a != AcceleratorType::CPU && n_gpu_layers > 0 {
        base + seq!["--n-gpu-layers"@, decimal(n_gpu_layers as nat)]
    } else {
        base
    }
}

/// Builds the server's command-line arguments.
pub fn llama_server_args(model_path: &str, port: u16, n_ctx: u32, n_gpu_layers: u32, n_threads: u32, a: AcceleratorType) -> (v: Vec<String>)
    ensures
        string_views(v@) == server_args(model_path@, port, n_ctx, n_gpu_layers, n_threads, a),
{
    let mut v: Vec<String> = Vec::new();
    v.push("--model".to_owned());
    v.push(model_path.to_owned());
    v.push("--port".to_owned());
    v.push(decimal_string(port as u128));
    v.push("--ctx-size".to_owned());
    v.push(decimal_string(n_ctx as u128));
    v.push("--threads".to_owned());
    v.push(decimal_string(n_threads as u128));
    if a != AcceleratorType::CPU && n_gpu_layers > 0 {
        v.push("--n-gpu-layers".to_owned());
        v.push(decimal_string(n_gpu_layers as u128));
    }
    assert(string_views(v@) =~= server_args(model_path@, port, n_ctx, n_gpu_layers, n_threads, a));
    v
}

/// Number of readiness polls before giving up on a starting server.
pub const HEALTH_ATTEMPTS: u32 = 30;

/// Pause between readiness polls, in milliseconds.
pub const HEALTH_POLL_MILLIS: u64 = 500;

/// What one readiness poll of a starting server saw.
#[derive(Debug, Clone, Copy, PartialEq, Eq, Structural)]
pub enum HealthOutcome {
    /// The server answered with a success status.
    Ready,
    /// The server answered with another status.
    NotReady,
    /// The server could not be reached.
    Unreachable,
}

/// What to do after a readiness poll.
#[derive(Debug, Clone, Copy, PartialEq, Eq, Structural)]
pub enum HealthAction {
    /// Stop polling and register the model.
    Proceed,
    /// Wait and poll again.
    Retry,
    /// Stop the server and report that it never became ready.
    GiveUp,
}

/// The next step after poll number `attempt` (counted from 1): a ready
/// server is registered; after the last poll an unreachable server is
/// given up on, while one that answered with another status is registered
/// anyway; otherwise polling goes on.
pub open spec fn health_next(attempt: u32, outcome: HealthOutcome) -> HealthAction {
    match outcome {
        HealthOutcome::Ready => HealthAction::Proceed,
        HealthOutcome::NotReady => if attempt >= HEALTH_ATTEMPTS { HealthAction::Proceed } else { HealthAction::Retry },
        HealthOutcome::Unreachable => if attempt == HEALTH_ATTEMPTS { HealthAction::GiveUp } else { HealthAction::Retry },
    }
}

/// Decides the step after a readiness poll.
pub fn health_step(attempt: u32, outcome: HealthOutcome) -> (r: HealthAction)
    requires
        1 <= attempt <= HEALTH_ATTEMPTS,
    ensures
        r == health_next(attempt, outcome),
{
    match outcome {
        HealthOutcome::Ready => HealthAction::Proceed,
        HealthOutcome::NotReady => if attempt >= HEALTH_ATTEMPTS { HealthAction::Proceed } else { HealthAction::Retry },
        HealthOutcome::Unreachable => if attempt == HEALTH_ATTEMPTS { HealthAction::GiveUp } else { HealthAction::Retry },
    }
}

/// The port of the first entry for `id`.
pub open spec fn port_lookup(entries: Seq<(Seq<char>, u16)>, id: Seq<char>) -> Option<u16> {
    first_value(entries, id)
}


proof fn lemma_lookup_found(entries: Seq<(Seq<char>, u16)>, id: Seq<char>, i: int)
    requires
        keys_unique(entries),
        0 <= i < entries.len(),
        entries[i].0 == id,
    ensures
        port_lookup(entries, id) == Some(entries[i].1),
{
    lemma_first_value_at(entries, id, i);
}

/// Models and ports of table entries.
spec fn entry_ports(v: Seq<(String, u16)>) -> Seq<(Seq<char>, u16)> {
    v.map_values(|e: (String, u16)| (e.0@, e.1))
}

/// Which model is served on which port.
pub struct ProcessTable {
    entries: Vec<(String, u16)>,
}

impl ProcessTable {
    /// The served models with their ports, in order of registration.
    pub closed spec fn ports(&self) -> Seq<(Seq<char>, u16)> {
        entry_ports(self.entries@)
    }

    /// No model is registered twice.
    #[verifier::type_invariant]
    spec fn wf(&self) -> bool {
        keys_unique(self.ports())
    }

    /// A table with no model.
    pub fn new() -> (t: Self)
        ensures
            t.ports().len() == 0,
    {
        let entries: Vec<(String, u16)> = Vec::new();
        assert(entry_ports(entries@) =~= Seq::<(Seq<char>, u16)>::empty());
        ProcessTable { entries }
    }

    /// Number of served models.
    pub fn len(&self) -> (n: usize)
        ensures
            n == self.ports().len(),
    {
        self.entries.len()
    }

    fn position(&self, id: &str) -> (r: Option<usize>)
        ensures
            r matches Some(i) ==> i < self.ports().len() && self.ports()[i as int].0 == id@
                && forall|k: int| 0 <= k < i ==> self.ports()[k].0 != id@,
            r is None ==> forall|k: int| 0 <= k < self.ports().len() ==> self.ports()[k].0 != id@,
    {
        let n = self.entries.len();
        let mut i: usize = 0;
        while i < n
            invariant
                n == self.entries@.len(),
                i <= n,
                forall|k: int| 0 <= k < i ==> self.ports()[k].0 != id@,
            decreases n - i,
        {
            if str_eq(self.entries[i].0.as_str(), id) {
                return Some(i);
            }
            i = i + 1;
        }
        None
    }

    /// Whether a model is served.
    pub fn contains(&self, id: &str) -> (b: bool)
        ensures
            b == port_lookup(self.ports(), id@) is Some,
    {
        match self.position(id) {
            Some(i) => {
                proof { lemma_first_value_at(self.ports(), id@, i as int); }
                true
            },
            None => {
                proof { lemma_first_value_at(self.ports(), id@, self.ports().len() as int); }
                false
            },
        }
    }

    /// The port a model is served on; an unserved model is an error
    /// `Model <id> not loaded`.
    pub fn port_of(&self, id: &str) -> (r: Result<u16, String>)
        ensures
            r matches Ok(p) ==> port_lookup(self.ports(), id@) == Some(p),
            r matches Err(m) ==> port_lookup(self.ports(), id@) is None && m@ == "Model "@ + id@ + " not loaded"@,
    {
        match self.position(id) {
            Some(i) => {
                proof { lemma_first_value_at(self.ports(), id@, i as int); }
                Ok(self.entries[i].1)
            },
            None => {
                proof { lemma_first_value_at(self.ports(), id@, self.ports().len() as int); }
                let mut m = "Model ".to_owned();
                m.append(id);
                m.append(" not loaded");
                Err(m)
            },
        }
    }

    /// Records that a model is served on `port`, replacing an earlier port.
    pub fn register(&mut self, id: &str, port: u16)
        ensures
            port_lookup(final(self).ports(), id@) == Some(port),
            forall|other: Seq<char>| other != id@ ==> #[trigger] port_lookup(final(self).ports(), other)
                == port_lookup(old(self).ports(), other),
            final(self).ports().len() == old(self).ports().len() + if port_lookup(old(self).ports(), id@) is Some { 0int } else { 1int },
    {
        proof {
            use_type_invariant(&*self);
        }
        let ghost before = self.ports();
        let pos = self.position(id);
        let mut entries: Vec<(String, u16)> = Vec::new();
        std::mem::swap(&mut entries, &mut self.entries);
        match pos {
            Some(i) => {
                proof { lemma_first_value_at(before, id@, i as int); }
                entries.set(i, (id.to_owned(), port));
                proof {
                    assert(entry_ports(entries@) =~= before.update(i as int, (id@, port)));
                    assert forall|a: int, b: int| 0 <= a < b < entry_ports(entries@).len() implies entry_ports(entries@)[a].0 != entry_ports(entries@)[b].0 by {
                        if a != i && b != i {
                            assert(before[a].0 != before[b].0);
                        }
                    }
                    lemma_lookup_found(entry_ports(entries@), id@, i as int);
                    assert forall|other: Seq<char>| other != id@ implies #[trigger] port_lookup(entry_ports(entries@), other)
                        == port_lookup(before, other) by {
                        lemma_first_value_update(before, i as int, (id@, port), other);
                    }
                }
                self.entries = entries;
            },
            None => {
                proof { lemma_first_value_at(before, id@, before.len() as int); }
                entries.push((id.to_owned(), port));
                proof {
                    assert(entry_ports(entries@) =~= before.push((id@, port)));
                    lemma_lookup_found(entry_ports(entries@), id@, before.len() as int);
                    assert forall|other: Seq<char>| other != id@ implies #[trigger] port_lookup(entry_ports(entries@), other)
                        == port_lookup(before, other) by {
                        lemma_first_value_push(before, (id@, port), other);
                    }
                }
                self.entries = entries;
            },
        }
    }

    /// Forgets a served model and gives back its port; an unserved model is
    /// an error `Model <id> not found` and changes nothing.
    pub fn remove(&mut self, id: &str) -> (r: Result<u16, String>)
        ensures
            r matches Ok(p) ==> port_lookup(old(self).ports(), id@) == Some(p)
                && final(self).ports().len() == old(self).ports().len() - 1,
            r matches Err(m) ==> port_lookup(old(self).ports(), id@) is None && m@ == "Model "@ + id@ + " not found"@
                && final(self).ports() == old(self).ports(),
            port_lookup(final(self).ports(), id@) is None,
            forall|other: Seq<char>| other != id@ ==> #[trigger] port_lookup(final(self).ports(), other)
                == port_lookup(old(self).ports(), other),
    {
        proof {
            use_type_invariant(&*self);
        }
        let ghost before = self.ports();
        let pos = self.position(id);
        let mut entries: Vec<(String, u16)> = Vec::new();
        std::mem::swap(&mut entries, &mut self.entries);
        match pos {
            Some(i) => {
                proof { lemma_first_value_at(before, id@, i as int); }
                let e = entries.remove(i);
                proof {
                    assert(entry_ports(entries@) =~= before.remove(i as int));
                    assert forall|a: int, b: int| 0 <= a < b < entry_ports(entries@).len() implies entry_ports(entries@)[a].0 != entry_ports(entries@)[b].0 by {
                        let a2 = if a < i { a } else { a + 1 };
                        let b2 = if b < i { b } else { b + 1 };
                        assert(entry_ports(entries@)[a] == before[a2]);
                        assert(entry_ports(entries@)[b] == before[b2]);
                    }
                    assert forall|k: int| 0 <= k < entry_ports(entries@).len() implies entry_ports(entries@)[k].0 != id@ by {
                        let k2 = if k < i { k } else { k + 1 };
                        assert(entry_ports(entries@)[k] == before[k2]);
                    }
                    lemma_first_value_at(entry_ports(entries@), id@, entry_ports(entries@).len() as int);
                    assert forall|other: Seq<char>| other != id@ implies #[trigger] port_lookup(entry_ports(entries@), other)
                        == port_lookup(before, other) by {
                        lemma_first_value_remove(before, i as int, other);
                    }
                }
                self.entries = entries;
                Ok(e.1)
            },
            None => {
                proof { lemma_first_value_at(before, id@, before.len() as int); }
                self.entries = entries;
                let mut m = "Model ".to_owned();
                m.append(id);
                m.append(" not found");
                Err(m)
            },
        }
    }
}

/// Registering a model makes its port readable, and removing it makes it
/// unreadable again, while the ports of other models stay as they were.
pub proof fn port_table_law(entries: Seq<(Seq<char>, u16)>, id: Seq<char>, port: u16, other: Seq<char>)
    requires
        keys_unique(entries),
        port_lookup(entries, id) is None,
        other != id,
    ensures
        port_lookup(entries.push((id, port)), id) == Some(port),
        port_lookup(entries.push((id, port)), other) == port_lookup(entries, other),
        port_lookup(entries.push((id, port)).remove(entries.len() as int), id) is None,
        port_lookup(entries.push((id, port)).remove(entries.len() as int), other) == port_lookup(entries, other),
{
    let p = entries.push((id, port));
    assert forall|k: int| 0 <= k < entries.len() implies entries[k].0 != id by {
        if entries[k].0 == id {
            lemma_first_value_some(entries, id, k);
        }
    }
    lemma_first_value_at(p, id, entries.len() as int);
    lemma_first_value_push(entries, (id, port), other);
    assert(p.remove(entries.len() as int) =~= entries);
}

/// The highest port in the table, or -1 for an empty table.
pub open spec fn max_port(entries: Seq<(Seq<char>, u16)>) -> int
    decreases entries.len(),
{
    if entries.len() == 0 {
        -1
    } else {
        let m = max_port(entries.drop_last());
        if entries.last().1 as int > m { entries.last().1 as int } else { m }
    }
}

/// The port for a new server: `base_port`, or the port after the highest
/// one in use when that is higher; none when that would pass `u16::MAX`.
pub open spec fn free_port_of(entries: Seq<(Seq<char>, u16)>, base_port: u16) -> Option<u16> {
    let p = if max_port(entries) + 1 > base_port as int { max_port(entries) + 1 } else { base_port as int };
    if p <= u16::MAX { Some(p as u16) } else { None }
}

/// No port in the table is above `max_port`.
proof fn lemma_max_port(entries: Seq<(Seq<char>, u16)>)
    ensures
        forall|i: int| 0 <= i < entries.len() ==> entries[i].1 as int <= max_port(entries),
        max_port(entries) <= u16::MAX,
        max_port(entries) >= -1,
    decreases entries.len(),
{
    if entries.len() > 0 {
        lemma_max_port(entries.drop_last());
        assert forall|i: int| 0 <= i < entries.len() implies entries[i].1 as int <= max_port(entries) by {
            if i < entries.len() - 1 {
                assert(entries[i] == entries.drop_last()[i]);
            }
        }
    }
}

/// A port that `free_port_of` gives is held by no entry of the table.
pub proof fn free_port_law(entries: Seq<(Seq<char>, u16)>, base_port: u16)
    ensures
        free_port_of(entries, base_port) matches Some(p) ==> p >= base_port
            && forall|i: int| 0 <= i < entries.len() ==> #[trigger] entries[i].1 != p,
{
    lemma_max_port(entries);
}

impl ProcessTable {
    /// The port a new server gets: `base_port`, or the port after the
    /// highest one in use when that is higher (so no served model's port
    /// is reused); `None` when no such port fits in a `u16`.
    pub fn free_port(&self, base_port: u16) -> (r: Option<u16>)
        ensures
            r == free_port_of(self.ports(), base_port),
    {
        let n = self.entries.len();
        let mut m: u32 = 0;
        let mut any = false;
        let mut i: usize = 0;
        while i < n
            invariant
                n == self.entries@.len(),
                i <= n,
                any == (i > 0),
                max_port(self.ports().take(i as int)) == if any { m as int } else { -1 },
                m <= u16::MAX,
            decreases n - i,
        {
            proof {
                assert(self.ports().take(i + 1).drop_last() =~= self.ports().take(i as int));
                assert(self.ports().take(i + 1).last() == self.ports()[i as int]);
                assert(self.ports()[i as int].1 == self.entries@[i as int].1);
            }
            let p = self.entries[i].1 as u32;
            if !any || p > m {
                m = p;
            }
            any = true;
            i = i + 1;
        }
        proof {
            assert(self.ports().take(n as int) =~= self.ports());
        }
        let candidate: u32 = if any && m + 1 > base_port as u32 { m + 1 } else { base_port as u32 };
        if candidate <= 65535 {
            Some(candidate as u16)
        } else {
            None
        }
    }
}

/// What loading a model amounts to.
pub enum StartPlan {
    /// The model is already served; nothing is done.
    AlreadyLoaded,
    /// A server is started on `port` with `args`.
    Start { port: u16, args: Vec<String> },
}

/// Plans the start of a model's server. A model already served needs
/// nothing; a missing model file is an error `Model file not found:
/// <path>`; otherwise the server gets the next port after `base_port`
/// (one per served model) and its command line.
pub fn plan_model_start(
    table: &ProcessTable,
    model_id: &str,
    model_path: &str,
    model_file_exists: bool,
    base_port: u16,
    n_ctx: u32,
    n_gpu_layers: u32,
    n_threads: u32,
    a: AcceleratorType,
) -> (r: Result<StartPlan, String>)
    requires
        port_lookup(table.ports(), model_id@) is None && model_file_exists
            ==> free_port_of(table.ports(), base_port) is Some,
    ensures
        port_lookup(table.ports(), model_id@) is Some ==> r matches Ok(StartPlan::AlreadyLoaded),
        port_lookup(table.ports(), model_id@) is None && !model_file_exists ==> (r matches Err(m)
            && m@ == "Model file not found: "@ + model_path@),
        port_lookup(table.ports(), model_id@) is None && model_file_exists ==> (r matches Ok(StartPlan::Start { port, args })
            && Some(port) == free_port_of(table.ports(), base_port)
            && port >= base_port
            && (forall|i: int| 0 <= i < table.ports().len() ==> #[trigger] table.ports()[i].1 != port)
            && string_views(args@) == server_args(model_path@, port, n_ctx, n_gpu_layers, n_threads, a)),
{
    if table.contains(model_id) {
        return Ok(StartPlan::AlreadyLoaded);
    }
    if !model_file_exists {
        let mut m = "Model file not found: ".to_owned();
        m.append(model_path);
        return Err(m);
    }
    let port = table.free_port(base_port).unwrap();
    proof {
        free_port_law(table.ports(), base_port);
    }
    let args = llama_server_args(model_path, port, n_ctx, n_gpu_layers, n_threads, a);
    Ok(StartPlan::Start { port, args })
}

/// A line without one trailing carriage return.
pub open spec fn strip_cr(line: Seq<char>) -> Seq<char> {
    if line.len() > 0 && line.last() == '\r' {
        line.drop_last()
    } else {
        line
    }
}

/// The lines of a text as `str::lines` yields them: split at `\n`, a
/// carriage return before a `\n` removed, no empty line after a final `\n`.
pub open spec fn text_lines(s: Seq<char>) -> Seq<Seq<char>> {
    let parts = split_on(s, '\n');
    let count = if parts.last().len() == 0 { parts.len() - 1 } else { parts.len() as int };
    Seq::new(count as nat, |i: int| if i < parts.len() - 1 { strip_cr(parts[i]) } else { parts[i] })
}

/// The marker that starts a server-sent data line.
pub open spec fn data_marker() -> Seq<char> {
    seq!['d', 'a', 't', 'a', ':', ' ']
}

/// The payloads of the data lines among `lines`, in order: each line that
/// starts with `data: `, without that marker.
pub open spec fn data_payloads(lines: Seq<Seq<char>>) -> Seq<Seq<char>>
    decreases lines.len(),
{
    if lines.len() == 0 {
        Seq::empty()
    } else {
        let rest = data_payloads(lines.drop_last());
        let l = lines.last();
        if l.len() >= 6 && l.take(6) == data_marker() {
            rest.push(l.skip(6))
        } else {
            rest
        }
    }
}

fn starts_with_data_marker(l: &Vec<char>) -> (b: bool)
    ensures
        b == (l@.len() >= 6 && l@.take(6) == data_marker()),
{
    if l.len() < 6 {
        return false;
    }
    let b = l[0] == 'd' && l[1] == 'a' && l[2] == 't' && l[3] == 'a' && l[4] == ':' && l[5] == ' ';
    proof {
        if b {
            assert(l@.take(6) =~= data_marker());
        } else {
            assert(l@.take(6)[0] == l@[0] && l@.take(6)[1] == l@[1] && l@.take(6)[2] == l@[2]);
            assert(l@.take(6)[3] == l@[3] && l@.take(6)[4] == l@[4] && l@.take(6)[5] == l@[5]);
        }
    }
    b
}

/// The payloads of the `data: ` lines in one received piece of a
/// server-sent event stream, in order.
pub fn sse_data_payloads(text: &str) -> (r: Vec<String>)
    ensures
        string_views(r@) == data_payloads(text_lines(text@)),
{
    let cs = chars_of(text);
    let parts = split_chars(&cs, '\n');
    let ghost pv = parts@.map_values(|v: Vec<char>| v@);
    let ghost lines = text_lines(text@);
    proof {
        crate::paths::lemma_split_on(text@, '\n');
    }
    let n = parts.len();
    let count: usize = if parts[n - 1].len() == 0 { n - 1 } else { n };
    assert(lines.len() == count);
    let mut r: Vec<String> = Vec::new();
    let mut i: usize = 0;
    while i < count
        invariant
            pv == split_on(text@, '\n'),
            pv == parts@.map_values(|v: Vec<char>| v@),
            pv.len() == n,
            n >= 1,
            parts@.len() == n,
            count <= n,
            lines == text_lines(text@),
            lines.len() == count,
            i <= count,
            string_views(r@) == data_payloads(lines.take(i as int)),
        decreases count - i,
    {
        let ghost before = r@;
        let part = &parts[i];
        assert(part@ == pv[i as int]);
        let mut line: Vec<char> = Vec::new();
        let mut k: usize = 0;
        let len = part.len();
        let cut: usize = if i + 1 < n && len > 0 && part[len - 1] == '\r' { len - 1 } else { len };
        while k < cut
            invariant
                cut <= len,
                len == part@.len(),
                k <= cut,
                line@ == part@.take(k as int),
            decreases cut - k,
        {
            line.push(part[k]);
            assert(line@ =~= part@.take(k + 1));
            k = k + 1;
        }
        assert(line@ == lines[i as int]) by {
            if i + 1 < n {
                if len > 0 && part@.last() == '\r' {
                    assert(part@.take(cut as int) =~= part@.drop_last());
                } else {
                    assert(part@.take(cut as int) =~= part@);
                }
            } else {
                assert(part@.take(cut as int) =~= part@);
            }
        }
        proof {
            assert(lines.take(i + 1).drop_last() =~= lines.take(i as int));
            assert(lines.take(i + 1).last() == lines[i as int]);
        }
        if starts_with_data_marker(&line) {
            let mut payload: Vec<char> = Vec::new();
            let mut j: usize = 6;
            while j < line.len()
                invariant
                    6 <= j <= line@.len(),
                    payload@ == line@.subrange(6, j as int),
                decreases line@.len() - j,
            {
                payload.push(line[j]);
                assert(payload@ =~= line@.subrange(6, j + 1));
                j = j + 1;
            }
            assert(payload@ =~= line@.skip(6));
            let ps = string_from_chars(payload.as_slice());
            r.push(ps);
            proof {
                lemma_string_views_push(before, ps);
            }
        }
        i = i + 1;
    }
    assert(lines.take(count as int) =~= lines);
    r
}

proof fn lemma_string_views_push(s: Seq<String>, x: String)
    ensures
        string_views(s.push(x)) == string_views(s).push(x@),
{
    assert(string_views(s.push(x)) =~= string_views(s).push(x@));
}

} // verus!
