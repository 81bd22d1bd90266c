//! The supervisor's readiness decision for plugins it has just started: from
//! what the Core reports of each plugin and what is known of its process, a
//! plugin is ready, still starting, or failed. Polling and processes stay
//! outside.
use vstd::prelude::*;
use crate::text::text_eq;

verus! {

/// What the Core reports of one configured plugin.
#[derive(Clone, Debug)]
pub struct PluginPresence {
    pub id: String,
    pub connected: bool,
    /// The `state` of the plugin's latest report, if it reported one.
    pub report_state: Option<String>,
}

/// What the supervisor knows of one plugin process.
#[derive(Clone, Debug)]
pub struct ProcessState {
    pub id: String,
    pub running: bool,
    /// Whether the last exit was a success, once the process has exited.
    pub last_success: Option<bool>,
    pub last_exit: Option<String>,
}

/// Why started plugins are not coming up. Positions index the awaited plugins.
#[derive(Clone, Copy, Debug, PartialEq, Eq)]
pub enum ReadinessError {
    /// The Core's status does not list a configured plugin.
    MissingPlugin { plugin: usize },
    /// The plugin reported that its initialization failed.
    InitializationFailed { plugin: usize },
    /// The process ended before it connected, without finishing successfully.
    ExitedEarly { plugin: usize },
}

/// The Core's report of plugin `id`: the first entry with that id.
pub open spec fn presence_of(core: Seq<PluginPresence>, id: Seq<char>) -> Option<PluginPresence>
    decreases core.len(),
{
    if core.len() == 0 {
        None
    } else if core[0].id@ == id {
        Some(core[0])
    } else {
        presence_of(core.drop_first(), id)
    }
}

/// The process of plugin `id`: the first entry with that id.
pub open spec fn process_of(ps: Seq<ProcessState>, id: Seq<char>) -> Option<ProcessState>
    decreases ps.len(),
{
    if ps.len() == 0 {
        None
    } else if ps[0].id@ == id {
        Some(ps[0])
    } else {
        process_of(ps.drop_first(), id)
    }
}

/// Whether a report state is `s`.
pub open spec fn reported(state: Option<String>, s: Seq<char>) -> bool {
    state matches Some(t) && t@ == s
}

/// Whether the plugin at position `i` of `ids` is still starting (`Ok(true)`),
/// ready (`Ok(false)`) or failed. A plugin that reported failure has failed; a
/// connected plugin is ready; a plugin whose process exited is ready only when
/// it succeeded and reported that it stopped or completed.
pub open spec fn plugin_verdict(core: Seq<PluginPresence>, ps: Seq<ProcessState>, ids: Seq<String>, i: int) -> Result<
    bool,
    ReadinessError,
> {
    let id = ids[i]@;
    match presence_of(core, id) {
        None => Err(ReadinessError::MissingPlugin { plugin: i as usize }),
        Some(p) => if reported(p.report_state, "failed"@) {
            Err(ReadinessError::InitializationFailed { plugin: i as usize })
        } else if p.connected {
            Ok(false)
        } else {
            let m = process_of(ps, id)->0;
            if !m.running {
                if m.last_success == Some(true) && (reported(p.report_state, "stopped"@) || reported(
                    p.report_state,
                    "completed"@,
                )) {
                    Ok(false)
                } else {
                    Err(ReadinessError::ExitedEarly { plugin: i as usize })
                }
            } else {
                Ok(true)
            }
        },
    }
}

/// The verdicts of the plugins from position `i` on: the first failure, else
/// the positions of the plugins still starting.
pub open spec fn readiness_from(core: Seq<PluginPresence>, ps: Seq<ProcessState>, ids: Seq<String>, i: int) -> Result<
    Seq<usize>,
    ReadinessError,
>
    decreases ids.len() - i,
{
    if i < 0 || i >= ids.len() {
        Ok(Seq::empty())
    } else {
        match plugin_verdict(core, ps, ids, i) {
            Err(e) => Err(e),
            Ok(waiting) => match readiness_from(core, ps, ids, i + 1) {
                Err(e) => Err(e),
                Ok(rest) => Ok(if waiting { seq![i as usize] + rest } else { rest }),
            },
        }
    }
}

/// The first report of plugin `id`, copied.
fn find_presence(core: &Vec<PluginPresence>, id: &str) -> (r: Option<usize>)
    ensures
        match presence_of(core@, id@) {
            Some(p) => r matches Some(k) && k < core@.len() && core@[k as int] == p,
            None => r is None,
        },
{
    let mut i: usize = 0;
    assert(core@.skip(0) =~= core@);
    while i < core.len()
        invariant
            i <= core@.len(),
            presence_of(core@, id@) == presence_of(core@.skip(i as int), id@),
        decreases core@.len() - i,
    {
        let ghost rest = core@.skip(i as int);
        assert(rest[0] == core@[i as int]);
        if text_eq(core[i].id.as_str(), id) {
            return Some(i);
        }
        assert(rest.drop_first() =~= core@.skip(i + 1));
        i += 1;
    }
    assert(core@.skip(i as int).len() == 0);
    None
}

/// The first process entry of plugin `id`.
fn find_process(ps: &Vec<ProcessState>, id: &str) -> (r: Option<usize>)
    ensures
        match process_of(ps@, id@) {
            Some(p) => r matches Some(k) && k < ps@.len() && ps@[k as int] == p,
            None => r is None,
        },
{
    let mut i: usize = 0;
    assert(ps@.skip(0) =~= ps@);
    while i < ps.len()
        invariant
            i <= ps@.len(),
            process_of(ps@, id@) == process_of(ps@.skip(i as int), id@),
        decreases ps@.len() - i,
    {
        let ghost rest = ps@.skip(i as int);
        assert(rest[0] == ps@[i as int]);
        if text_eq(ps[i].id.as_str(), id) {
            return Some(i);
        }
        assert(rest.drop_first() =~= ps@.skip(i + 1));
        i += 1;
    }
    assert(ps@.skip(i as int).len() == 0);
    None
}

/// Whether an optional text is `s`.
fn is_state(state: &Option<String>, s: &str) -> (b: bool)
    ensures
        b == reported(*state, s@),
{
    match state {
        Some(t) => text_eq(t.as_str(), s),
        None => false,
    }
}

/// One plugin's verdict.
fn verdict(core: &Vec<PluginPresence>, ps: &Vec<ProcessState>, ids: &Vec<String>, i: usize) -> (r: Result<
    bool,
    ReadinessError,
>)
    requires
        i < ids@.len(),
        process_of(ps@, ids@[i as int]@) is Some,
    ensures
        r == plugin_verdict(core@, ps@, ids@, i as int),
{
    proof {
        reveal_strlit("failed");
        reveal_strlit("stopped");
        reveal_strlit("completed");
    }
    let id = ids[i].as_str();
    let k = match find_presence(core, id) {
        None => {
            return Err(ReadinessError::MissingPlugin { plugin: i });
        },
        Some(k) => k,
    };
    let p = &core[k];
    if is_state(&p.report_state, "failed") {
        return Err(ReadinessError::InitializationFailed { plugin: i });
    }
    if p.connected {
        return Ok(false);
    }
    let j = match find_process(ps, id) {
        Some(j) => j,
        None => {
            return Ok(true);
        },
    };
    let m = &ps[j];
    if !m.running {
        if m.last_success == Some(true) && (is_state(&p.report_state, "stopped") || is_state(
            &p.report_state,
            "completed",
        )) {
            return Ok(false);
        }
        return Err(ReadinessError::ExitedEarly { plugin: i });
    }
    Ok(true)
}

/// Which of the awaited plugins `ids` are still starting, by position, or the
/// first that failed. Every awaited plugin is one whose process is known.
pub fn readiness(core: &Vec<PluginPresence>, ps: &Vec<ProcessState>, ids: &Vec<String>) -> (r: Result<
    Vec<usize>,
    ReadinessError,
>)
    requires
        forall|i: int| 0 <= i < ids@.len() ==> process_of(ps@, (#[trigger] ids@[i])@) is Some,
    ensures
        match r {
            Ok(v) => readiness_from(core@, ps@, ids@, 0) == Ok::<Seq<usize>, ReadinessError>(v@),
            Err(e) => readiness_from(core@, ps@, ids@, 0) == Err::<Seq<usize>, ReadinessError>(e),
        },
{
    let mut verdicts: Vec<bool> = Vec::new();
    let mut i: usize = 0;
    while i < ids.len()
        invariant
            i <= ids@.len(),
            forall|j: int| 0 <= j < ids@.len() ==> process_of(ps@, (#[trigger] ids@[j])@) is Some,
            verdicts@.len() == i,
            forall|j: int| 0 <= j < i ==> plugin_verdict(core@, ps@, ids@, j) == Ok::<bool, ReadinessError>(#[trigger] verdicts@[j]),
        decreases ids@.len() - i,
    {
        let v = verdict(core, ps, ids, i);
        match v {
            Err(e) => {
                proof {
                    assert forall|j: int| 0 <= j < i implies (#[trigger] plugin_verdict(core@, ps@, ids@, j)) is Ok by {
                        assert(plugin_verdict(core@, ps@, ids@, j) == Ok::<bool, ReadinessError>(verdicts@[j]));
                    }
                    lemma_first_failure(core@, ps@, ids@, 0, i as int);
                }
                return Err(e);
            },
            Ok(w) => verdicts.push(w),
        }
        i += 1;
    }
    let mut waiting: Vec<usize> = Vec::new();
    let mut k: usize = ids.len();
    proof {
        lemma_all_ready(core@, ps@, ids@, ids@.len() as int);
    }
    while k > 0
        invariant
            k <= ids@.len(),
            verdicts@.len() == ids@.len(),
            forall|j: int| 0 <= j < ids@.len() ==> plugin_verdict(core@, ps@, ids@, j) == Ok::<bool, ReadinessError>(#[trigger] verdicts@[j]),
            readiness_from(core@, ps@, ids@, k as int) == Ok::<Seq<usize>, ReadinessError>(waiting@),
        decreases k,
    {
        k -= 1;
        let ghost before = waiting@;
        assert(plugin_verdict(core@, ps@, ids@, k as int) == Ok::<bool, ReadinessError>(verdicts@[k as int]));
        if verdicts[k] {
            waiting.insert(0, k);
            assert(waiting@ =~= seq![k] + before);
        }
    }
    Ok(waiting)
}

/// When every plugin before `i` is fine and the one at `i` fails, the whole
/// verdict from `start` is that failure.
proof fn lemma_first_failure(core: Seq<PluginPresence>, ps: Seq<ProcessState>, ids: Seq<String>, start: int, i: int)
    requires
        0 <= start <= i < ids.len(),
        forall|j: int| start <= j < i ==> (#[trigger] plugin_verdict(core, ps, ids, j)) is Ok,
        plugin_verdict(core, ps, ids, i) is Err,
    ensures
        readiness_from(core, ps, ids, start) == Err::<Seq<usize>, ReadinessError>(plugin_verdict(core, ps, ids, i)->Err_0),
    decreases i - start,
{
    if start < i {
        lemma_first_failure(core, ps, ids, start + 1, i);
        assert(plugin_verdict(core, ps, ids, start) is Ok);
    }
}

/// Past the last plugin nothing is waiting.
proof fn lemma_all_ready(core: Seq<PluginPresence>, ps: Seq<ProcessState>, ids: Seq<String>, i: int)
    requires
        i == ids.len(),
    ensures
        readiness_from(core, ps, ids, i) == Ok::<Seq<usize>, ReadinessError>(Seq::empty()),
{
}


/// Why the supervisor refuses to start from a configuration.
#[derive(Clone, Copy, Debug, PartialEq, Eq)]
pub enum StartupRefusal {
    /// The configuration file holds more than 1 MiB.
    ConfigTooLarge,
    /// A plugin identity is reserved (begins with `__`) or repeats an earlier one.
    PluginIdentity { plugin: usize },
}

impl StartupRefusal {
    /// What the refusal says; `ids` are the configured plugin identities.
    pub open spec fn spec_message(self, ids: Seq<Seq<char>>) -> Seq<char> {
        match self {
            StartupRefusal::ConfigTooLarge => "configuration exceeds 1 MiB"@,
            StartupRefusal::PluginIdentity { plugin } => "duplicate or reserved plugin identity: "@ + ids[plugin as int],
        }
    }

    /// The refusal's message; `ids` are the configured plugin identities.
    pub fn message(&self, ids: &Vec<String>) -> (m: String)
        requires
            self matches StartupRefusal::PluginIdentity { plugin } ==> plugin < ids@.len(),
        ensures
            m@ == self.spec_message(id_texts(ids@)),
    {
        match self {
            StartupRefusal::ConfigTooLarge => "configuration exceeds 1 MiB".to_owned(),
            StartupRefusal::PluginIdentity { plugin } => {
                let mut m = "duplicate or reserved plugin identity: ".to_owned();
                crate::text::append_str(&mut m, ids[*plugin].as_str());
                m
            },
        }
    }
}

/// The configured plugin identities as texts.
pub open spec fn id_texts(ids: Seq<String>) -> Seq<Seq<char>> {
    ids.map_values(|s: String| s@)
}

/// A reserved identity: one that begins with `__`.
pub open spec fn reserved_id(id: Seq<char>) -> bool {
    id.len() >= 2 && id[0] == '_' && id[1] == '_'
}

/// Plugin `i`'s identity is reserved or repeats an earlier plugin's.
pub open spec fn identity_refused(ids: Seq<Seq<char>>, i: int) -> bool {
    reserved_id(ids[i]) || exists|j: int| 0 <= j < i && ids[j] == ids[i]
}

/// A configuration file of `len` bytes may be read: at most 1 MiB.
pub fn config_size_ok(len: usize) -> (r: Result<(), StartupRefusal>)
    ensures
        r is Ok <==> len <= crate::limits::MAX_WIRE,
        r is Err ==> r == Err::<(), StartupRefusal>(StartupRefusal::ConfigTooLarge),
{
    if len > crate::limits::MAX_WIRE {
        Err(StartupRefusal::ConfigTooLarge)
    } else {
        Ok(())
    }
}

/// Whether `id` begins with `__`.
fn is_reserved(id: &str) -> (b: bool)
    ensures
        b == reserved_id(id@),
{
    id.unicode_len() >= 2 && id.get_char(0) == '_' && id.get_char(1) == '_'
}

/// Checks the plugin identities in order, as the supervisor hands out their
/// tokens: the first that is reserved or repeats an earlier one is refused.
pub fn check_plugin_identities(ids: &Vec<String>) -> (r: Result<(), StartupRefusal>)
    ensures
        match r {
            Ok(()) => forall|i: int| 0 <= i < ids@.len() ==> !identity_refused(id_texts(ids@), i),
            Err(StartupRefusal::PluginIdentity { plugin }) => plugin < ids@.len()
                && identity_refused(id_texts(ids@), plugin as int)
                && forall|i: int| 0 <= i < plugin ==> !identity_refused(id_texts(ids@), i),
            Err(_) => false,
        },
{
    let ghost v = id_texts(ids@);
    let mut i: usize = 0;
    while i < ids.len()
        invariant
            i <= ids@.len(),
            v == id_texts(ids@),
            forall|a: int| 0 <= a < i ==> !identity_refused(v, a),
        decreases ids@.len() - i,
    {
        assert(v[i as int] == ids@[i as int]@);
        if is_reserved(ids[i].as_str()) {
            return Err(StartupRefusal::PluginIdentity { plugin: i });
        }
        let mut j: usize = 0;
        while j < i
            invariant
                j <= i < ids@.len(),
                v == id_texts(ids@),
                forall|b: int| 0 <= b < j ==> v[b] != v[i as int],
                forall|a: int| 0 <= a < i ==> !identity_refused(v, a),
                !reserved_id(v[i as int]),
            decreases i - j,
        {
            assert(v[j as int] == ids@[j as int]@);
            if text_eq(ids[j].as_str(), ids[i].as_str()) {
                assert(v[j as int] == v[i as int]);
                assert(identity_refused(v, i as int));
                return Err(StartupRefusal::PluginIdentity { plugin: i });
            }
            j += 1;
        }
        assert(!identity_refused(v, i as int));
        i += 1;
    }
    Ok(())
}

} // verus!
