//! The supervision loop's decisions: how the statistics tool is invoked,
//! when a crashed tool is restarted and when the loop gives up, and what an
//! interrupt does to the tool that is running.
use vstd::prelude::*;
use vstd::string::StringExecFns;

verus! {

/// The address the metrics endpoint binds to when none is given.
pub open spec fn default_bind_address() -> Seq<char> {
    "127.0.0.1:13337"@
}

/// The address to bind the metrics endpoint to: the one given, else the default.
pub fn bind_address(given: Option<String>) -> (r: String)
    ensures
        r@ == match given {
            Some(b) => b@,
            None => default_bind_address(),
        },
{
    match given {
        Some(b) => b,
        None => "127.0.0.1:13337".to_owned(),
    }
}

/// The arguments of every invocation of the statistics tool, program name first.
pub open spec fn base_args() -> Seq<Seq<char>> {
    seq![
        "beegfs-ctl"@,
        "--serverstats"@,
        "--nodetype=storage"@,
        "--history=1"@,
        "--logEnabled"@,
    ]
}

/// The full argument list, with the configuration file override if one is given.
pub open spec fn tool_args(config_file: Option<Seq<char>>) -> Seq<Seq<char>> {
    match config_file {
        Some(p) => base_args().push("--cfgFile="@ + p),
        None => base_args(),
    }
}

/// The arguments to start the tool with, or `None` where a configuration
/// file is given that does not exist.
pub open spec fn spawn_plan(config_file: Option<Seq<char>>, config_is_file: bool) -> Option<
    Seq<Seq<char>>,
> {
    if config_file is Some && !config_is_file {
        None
    } else {
        Some(tool_args(config_file))
    }
}

/// The texts of a list of strings.
pub open spec fn texts(v: Seq<String>) -> Seq<Seq<char>> {
    v.map_values(|s: String| s@)
}

/// Why the statistics tool could not be started.
#[derive(Debug, PartialEq, Eq)]
pub enum SpawnError {
    /// The configuration file that was given does not exist.
    ConfigNotFound(String),
}

/// The argument list to start the statistics tool with (program name
/// first), or `ConfigNotFound` where a configuration file is given and
/// `config_is_file` says it does not exist; the tool must then not be started.
pub fn spawn_args(config_file: Option<&str>, config_is_file: bool) -> (r: Result<
    Vec<String>,
    SpawnError,
>)
    ensures
        match config_file {
            Some(p) if !config_is_file => r matches Err(SpawnError::ConfigNotFound(e)) && e@
                == p@,
            Some(p) => r matches Ok(v) && texts(v@) == tool_args(Some(p@)),
            None => r matches Ok(v) && texts(v@) == tool_args(None),
        },
        match spawn_plan(
            match config_file {
                Some(p) => Some(p@),
                None => None,
            },
            config_is_file,
        ) {
            Some(a) => r matches Ok(v) && texts(v@) == a,
            None => r is Err,
        },
{
    if let Some(p) = config_file {
        if !config_is_file {
            return Err(SpawnError::ConfigNotFound(p.to_owned()));
        }
    }
    let mut args: Vec<String> = Vec::new();
    args.push("beegfs-ctl".to_owned());
    args.push("--serverstats".to_owned());
    args.push("--nodetype=storage".to_owned());
    args.push("--history=1".to_owned());
    args.push("--logEnabled".to_owned());
    assert(texts(args@) =~= base_args());
    match config_file {
        Some(p) => {
            let opt = "--cfgFile=".to_owned().concat(p);
            args.push(opt);
            assert(texts(args@) =~= tool_args(Some(p@)));
        },
        None => {},
    }
    Ok(args)
}

/// The restart policy's state, as mathematical values.
pub struct RestartState {
    /// Terminations of the tool so far.
    pub crashes: nat,
    /// The most terminations tolerated.
    pub limit: int,
    /// The loop has given up.
    pub given_up: bool,
}

/// The state before the tool first runs.
pub open spec fn start_state(limit: int) -> RestartState {
    RestartState { crashes: 0, limit, given_up: false }
}

/// The state after one more termination of the tool. Once the loop has given
/// up, nothing changes.
pub open spec fn after_termination(s: RestartState) -> RestartState {
    if s.given_up {
        s
    } else {
        RestartState { crashes: s.crashes + 1, limit: s.limit, given_up: s.crashes + 1 > s.limit }
    }
}

/// The state after `k` more terminations.
pub open spec fn after_terminations(s: RestartState, k: nat) -> RestartState
    decreases k,
{
    if k == 0 {
        s
    } else {
        after_termination(after_terminations(s, (k - 1) as nat))
    }
}

/// How many terminations make the loop give up under `limit`: the first
/// count that exceeds it.
pub open spec fn give_up_count(limit: int) -> nat {
    if limit < 0 {
        1
    } else {
        (limit + 1) as nat
    }
}

/// Every termination adds exactly one to the count until the count first
/// exceeds the limit; at that termination the loop gives up, and it stays
/// given up.
pub proof fn lemma_gives_up_past_limit(limit: int, k: nat)
    ensures
        k < give_up_count(limit) ==> after_terminations(start_state(limit), k) == (RestartState {
            crashes: k,
            limit,
            given_up: false,
        }),
        k >= give_up_count(limit) ==> after_terminations(start_state(limit), k) == (RestartState {
            crashes: give_up_count(limit),
            limit,
            given_up: true,
        }),
    decreases k,
{
    if k > 0 {
        lemma_gives_up_past_limit(limit, (k - 1) as nat);
    }
}

/// With a configuration file that does not exist, no attempt yields an
/// argument list, so the tool is never started; each attempt counts as a
/// termination, and the loop gives up at the first attempt past the limit.
pub proof fn lemma_missing_config_exhausts_limit(config_file: Seq<char>, limit: int)
    ensures
        spawn_plan(Some(config_file), false) == None::<Seq<Seq<char>>>,
        forall|k: nat|
            k < give_up_count(limit) ==> !(#[trigger] after_terminations(
                start_state(limit),
                k,
            )).given_up,
        after_terminations(start_state(limit), give_up_count(limit)).given_up,
{
    assert forall|k: nat| k < give_up_count(limit) implies !(#[trigger] after_terminations(
        start_state(limit),
        k,
    )).given_up by {
        lemma_gives_up_past_limit(limit, k);
    }
    lemma_gives_up_past_limit(limit, give_up_count(limit));
}

/// What the loop does after the tool has terminated.
#[derive(Clone, Copy, Debug, PartialEq, Eq, Structural)]
pub enum Verdict {
    /// Sleep the backoff interval and start the tool again.
    Restart,
    /// Stop with a failure that names the limit.
    GiveUp(i32),
}

/// The restart policy: counts the tool's terminations (a failed start, an
/// end of its output, a read error alike) and gives up the first time the
/// count exceeds the limit.
pub struct RestartPolicy {
    crash_count: u64,
    restart_limit: i32,
    given_up: bool,
}

impl View for RestartPolicy {
    type V = RestartState;

    closed spec fn view(&self) -> RestartState {
        RestartState {
            crashes: self.crash_count as nat,
            limit: self.restart_limit as int,
            given_up: self.given_up,
        }
    }
}

impl RestartPolicy {
    #[verifier::type_invariant]
    spec fn bounded(&self) -> bool {
        &&& self.crash_count <= give_up_count(self.restart_limit as int)
        &&& !self.given_up ==> self.crash_count < give_up_count(self.restart_limit as int)
    }

    /// A policy that tolerates `restart_limit` terminations.
    pub fn new(restart_limit: i32) -> (r: RestartPolicy)
        ensures
            r@ == start_state(restart_limit as int),
    {
        RestartPolicy { crash_count: 0, restart_limit, given_up: false }
    }

    /// Records one termination of the tool and says what to do next.
    pub fn record_termination(&mut self) -> (v: Verdict)
        ensures
            final(self)@ == after_termination(old(self)@),
            v == if final(self)@.given_up {
                Verdict::GiveUp(old(self)@.limit as i32)
            } else {
                Verdict::Restart
            },
    {
        proof {
            use_type_invariant(&*self);
        }
        if !self.given_up {
            let count = self.crash_count + 1;
            let over = count as i64 > self.restart_limit as i64;
            *self = RestartPolicy {
                crash_count: count,
                restart_limit: self.restart_limit,
                given_up: over,
            };
        }
        if self.given_up {
            Verdict::GiveUp(self.restart_limit)
        } else {
            Verdict::Restart
        }
    }

    /// Terminations recorded so far.
    pub fn crash_count(&self) -> (r: u64)
        ensures
            r == self@.crashes,
    {
        self.crash_count
    }

    /// The most terminations tolerated.
    pub fn restart_limit(&self) -> (r: i32)
        ensures
            r == self@.limit,
    {
        self.restart_limit
    }

    /// The policy has given up.
    pub fn has_given_up(&self) -> (r: bool)
        ensures
            r == self@.given_up,
    {
        self.given_up
    }
}

/// What an interrupt does, given the process id of the tool that runs, if any.
#[derive(Clone, Copy, Debug, PartialEq, Eq, Structural)]
pub enum InterruptAction {
    /// No tool runs: nothing to stop.
    Ignore,
    /// Send the tool with this process id a termination signal, then exit
    /// with a failure status.
    TerminateChild(u32),
}

/// Decides what an interrupt does.
pub fn on_interrupt(running: Option<u32>) -> (r: InterruptAction)
    ensures
        r == match running {
            Some(pid) => InterruptAction::TerminateChild(pid),
            None => InterruptAction::Ignore,
        },
{
    match running {
        Some(pid) => InterruptAction::TerminateChild(pid),
        None => InterruptAction::Ignore,
    }
}

} // verus!
