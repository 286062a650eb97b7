//! The agent registry of the runtime that hosts the scheduler and the
//! memory store: agents keyed by id, with a lifecycle state, per-agent
//! metrics and aggregate counters. The count of active agents is the
//! number of registered agents.

use vstd::prelude::*;

verus! {

/// Failures reported by the runtime.
#[derive(Debug)]
pub enum RuntimeError {
    AgentNotFound(String),
    MemoryError(String),
    ExecutionError(String),
    ResourceLimit(String),
}

/// Limits and switches of a runtime instance.
#[derive(Debug, Clone, Copy)]
pub struct RuntimeConfig {
    pub max_agents: usize,
    pub memory_limit: usize,
    pub timeout_ms: u64,
    pub enable_metrics: bool,
}

/// Per-agent counters.
#[derive(Debug, Clone, Copy)]
pub struct AgentMetrics {
    pub memory_usage: usize,
    pub uptime_ms: u64,
    pub request_count: u64,
}

/// Aggregate counters of a runtime.
#[derive(Debug, Clone, Copy)]
pub struct RuntimeMetrics {
    pub total_memory_usage: usize,
    pub active_agents: usize,
    pub total_requests: u64,
}

/// Lifecycle state of an agent.
#[derive(Debug, Clone, Copy, PartialEq, Eq, Structural)]
pub enum AgentState {
    Idle,
    Running,
    Paused,
    Error,
}

/// A registered agent.
#[derive(Debug)]
pub struct AgentInstance {
    pub id: String,
    pub state: AgentState,
    pub metrics: AgentMetrics,
}

/// Index `i` is the first agent of `s` with id `id`.
pub open spec fn first_agent(s: Seq<AgentInstance>, id: Seq<char>, i: int) -> bool {
    &&& 0 <= i < s.len()
    &&& s[i].id@ == id
    &&& forall|j: int| 0 <= j < i ==> (#[trigger] s[j]).id@ != id
}

/// No agent of `s` has id `id`.
pub open spec fn no_agent(s: Seq<AgentInstance>, id: Seq<char>) -> bool {
    forall|j: int| 0 <= j < s.len() ==> (#[trigger] s[j]).id@ != id
}

/// A newly registered agent.
pub open spec fn fresh_agent(id: String) -> AgentInstance {
    AgentInstance {
        id,
        state: AgentState::Idle,
        metrics: AgentMetrics { memory_usage: 0, uptime_ms: 0, request_count: 0 },
    }
}

/// `after` is `before` in state `state`, all else kept.
pub open spec fn in_state(before: AgentInstance, after: AgentInstance, state: AgentState) -> bool {
    after.id == before.id && after.metrics == before.metrics && after.state == state
}

fn agent_position(s: &Vec<AgentInstance>, id: &String) -> (r: Option<usize>)
    ensures
        r matches Some(i) ==> first_agent(s@, id@, i as int),
        r is None ==> no_agent(s@, id@),
{
    let mut i: usize = 0;
    while i < s.len()
        invariant
            i <= s@.len(),
            forall|j: int| 0 <= j < i ==> (#[trigger] s@[j]).id@ != id@,
        decreases s@.len() - i,
    {
        if s[i].id == *id {
            return Some(i);
        }
        i = i + 1;
    }
    None
}

/// Registered agents, in order of registration, and aggregate counters.
pub struct RuntimeEngine {
    config: RuntimeConfig,
    agents: Vec<AgentInstance>,
    metrics: RuntimeMetrics,
}

impl RuntimeEngine {
    /// The registered agents, in order of registration.
    pub closed spec fn agents(&self) -> Seq<AgentInstance> {
        self.agents@
    }

    pub closed spec fn settings(&self) -> RuntimeConfig {
        self.config
    }

    pub closed spec fn counters(&self) -> RuntimeMetrics {
        self.metrics
    }

    pub closed spec fn wf(&self) -> bool {
        &&& self.agents@.len() <= self.config.max_agents
        &&& self.metrics.active_agents == self.agents@.len()
    }

    /// What a well-formed registry guarantees its callers: the count of
    /// active agents is the number of registered agents, which stays within
    /// `max_agents`.
    pub proof fn lemma_wf_facts(&self)
        requires
            self.wf(),
        ensures
            self.counters().active_agents == self.agents().len(),
            self.agents().len() <= self.settings().max_agents,
    {
    }

    pub fn new(config: RuntimeConfig) -> (r: RuntimeEngine)
        ensures
            r.wf(),
            r.settings() == config,
            r.agents() == Seq::<AgentInstance>::empty(),
            r.counters() == (RuntimeMetrics { total_memory_usage: 0, active_agents: 0, total_requests: 0 }),
    {
        RuntimeEngine {
            config,
            agents: Vec::new(),
            metrics: RuntimeMetrics { total_memory_usage: 0, active_agents: 0, total_requests: 0 },
        }
    }

    /// Registers a new idle agent under `id`, replacing one already there;
    /// refused once the registry holds `max_agents` agents.
    pub fn register_agent(&mut self, id: String) -> (r: Result<(), RuntimeError>)
        requires
            old(self).wf(),
        ensures
            final(self).wf(),
            final(self).counters().active_agents == final(self).agents().len(),
            final(self).settings() == old(self).settings(),
            final(self).counters().total_requests == old(self).counters().total_requests,
            old(self).agents().len() >= old(self).settings().max_agents ==> (r matches Err(
                RuntimeError::ResourceLimit(_),
            )) && final(self).agents() == old(self).agents(),
            old(self).agents().len() < old(self).settings().max_agents && no_agent(
                old(self).agents(),
                id@,
            ) ==> r is Ok && final(self).agents() == old(self).agents().push(fresh_agent(id)),
            forall|i: int|
                old(self).agents().len() < old(self).settings().max_agents && first_agent(
                    old(self).agents(),
                    id@,
                    i,
                ) ==> r is Ok && final(self).agents() == old(self).agents().update(
                    i,
                    fresh_agent(old(self).agents()[i].id),
                ),
    {
        if self.agents.len() >= self.config.max_agents {
            return Err(RuntimeError::ResourceLimit("Maximum number of agents reached".to_owned()));
        }
        let metrics = AgentMetrics { memory_usage: 0, uptime_ms: 0, request_count: 0 };
        match agent_position(&self.agents, &id) {
            Some(i) => {
                let old_agent = self.agents.remove(i);
                self.agents.insert(
                    i,
                    AgentInstance { id: old_agent.id, state: AgentState::Idle, metrics },
                );
                assert(self.agents@ =~= old(self).agents@.update(
                    i as int,
                    fresh_agent(old(self).agents@[i as int].id),
                ));
            },
            None => {
                self.agents.push(AgentInstance { id, state: AgentState::Idle, metrics });
                self.metrics.active_agents = self.metrics.active_agents + 1;
            },
        }
        Ok(())
    }

    /// Hands `task` to the agent `agent_id` and counts the request; the
    /// agent echoes the task back.
    pub fn execute_task(&mut self, agent_id: &str, task: Vec<u8>) -> (r: Result<
        Vec<u8>,
        RuntimeError,
    >)
        requires
            old(self).wf(),
        ensures
            final(self).wf(),
            final(self).settings() == old(self).settings(),
            final(self).agents() == old(self).agents(),
            !no_agent(old(self).agents(), agent_id@) ==> (r matches Ok(out) && out@ == task@)
                && final(self).counters() == (RuntimeMetrics {
                total_requests: old(self).counters().total_requests.saturating_add(1),
                ..old(self).counters()
            }),
            no_agent(old(self).agents(), agent_id@) ==> (r matches Err(
                RuntimeError::AgentNotFound(m),
            ) && m@ == agent_id@) && final(self).counters() == old(self).counters(),
    {
        let key = agent_id.to_owned();
        match agent_position(&self.agents, &key) {
            Some(_) => {
                self.metrics.total_requests = self.metrics.total_requests.saturating_add(1);
                Ok(task)
            },
            None => Err(RuntimeError::AgentNotFound(key)),
        }
    }

    /// The metrics of the agent `agent_id`.
    pub fn get_agent_metrics(&self, agent_id: &str) -> (r: Result<AgentMetrics, RuntimeError>)
        ensures
            forall|i: int|
                first_agent(self.agents(), agent_id@, i) ==> r == Ok::<AgentMetrics, RuntimeError>(
                    self.agents()[i].metrics,
                ),
            no_agent(self.agents(), agent_id@) ==> (r matches Err(RuntimeError::AgentNotFound(m))
                && m@ == agent_id@),
    {
        let key = agent_id.to_owned();
        match agent_position(&self.agents, &key) {
            Some(i) => Ok(self.agents[i].metrics),
            None => Err(RuntimeError::AgentNotFound(key)),
        }
    }

    pub fn get_runtime_metrics(&self) -> (r: RuntimeMetrics)
        ensures
            r == self.counters(),
    {
        self.metrics
    }

    /// Removes the agent `agent_id` from the registry.
    pub fn shutdown_agent(&mut self, agent_id: &str) -> (r: Result<(), RuntimeError>)
        requires
            old(self).wf(),
        ensures
            final(self).wf(),
            final(self).counters().active_agents == final(self).agents().len(),
            final(self).settings() == old(self).settings(),
            final(self).counters().total_requests == old(self).counters().total_requests,
            forall|i: int|
                first_agent(old(self).agents(), agent_id@, i) ==> r is Ok && final(self).agents()
                    == old(self).agents().remove(i),
            no_agent(old(self).agents(), agent_id@) ==> (r matches Err(
                RuntimeError::AgentNotFound(m),
            ) && m@ == agent_id@) && final(self).agents() == old(self).agents(),
    {
        let key = agent_id.to_owned();
        match agent_position(&self.agents, &key) {
            Some(i) => {
                self.agents.remove(i);
                self.metrics.active_agents = self.metrics.active_agents - 1;
                Ok(())
            },
            None => Err(RuntimeError::AgentNotFound(key)),
        }
    }

    fn set_state(&mut self, agent_id: &str, state: AgentState) -> (r: Result<(), RuntimeError>)
        requires
            old(self).wf(),
        ensures
            final(self).wf(),
            final(self).settings() == old(self).settings(),
            final(self).counters() == old(self).counters(),
            forall|i: int|
                first_agent(old(self).agents(), agent_id@, i) ==> r is Ok && final(self).agents().len()
                    == old(self).agents().len() && (forall|j: int|
                    0 <= j < old(self).agents().len() && j != i ==> #[trigger] final(self).agents()[j]
                        == old(self).agents()[j]) && in_state(
                    old(self).agents()[i],
                    final(self).agents()[i],
                    state,
                ),
            no_agent(old(self).agents(), agent_id@) ==> (r matches Err(
                RuntimeError::AgentNotFound(m),
            ) && m@ == agent_id@) && final(self).agents() == old(self).agents(),
    {
        let key = agent_id.to_owned();
        match agent_position(&self.agents, &key) {
            Some(i) => {
                let mut agent = self.agents.remove(i);
                agent.state = state;
                self.agents.insert(i, agent);
                Ok(())
            },
            None => Err(RuntimeError::AgentNotFound(key)),
        }
    }

    /// Puts the agent `agent_id` in the paused state.
    pub fn pause_agent(&mut self, agent_id: &str) -> (r: Result<(), RuntimeError>)
        requires
            old(self).wf(),
        ensures
            final(self).wf(),
            final(self).settings() == old(self).settings(),
            final(self).counters() == old(self).counters(),
            forall|i: int|
                first_agent(old(self).agents(), agent_id@, i) ==> r is Ok && final(self).agents().len()
                    == old(self).agents().len() && (forall|j: int|
                    0 <= j < old(self).agents().len() && j != i ==> #[trigger] final(self).agents()[j]
                        == old(self).agents()[j]) && in_state(
                    old(self).agents()[i],
                    final(self).agents()[i],
                    AgentState::Paused,
                ),
            no_agent(old(self).agents(), agent_id@) ==> (r matches Err(
                RuntimeError::AgentNotFound(m),
            ) && m@ == agent_id@) && final(self).agents() == old(self).agents(),
    {
        self.set_state(agent_id, AgentState::Paused)
    }

    /// Puts the agent `agent_id` in the running state.
    pub fn resume_agent(&mut self, agent_id: &str) -> (r: Result<(), RuntimeError>)
        requires
            old(self).wf(),
        ensures
            final(self).wf(),
            final(self).settings() == old(self).settings(),
            final(self).counters() == old(self).counters(),
            forall|i: int|
                first_agent(old(self).agents(), agent_id@, i) ==> r is Ok && final(self).agents().len()
                    == old(self).agents().len() && (forall|j: int|
                    0 <= j < old(self).agents().len() && j != i ==> #[trigger] final(self).agents()[j]
                        == old(self).agents()[j]) && in_state(
                    old(self).agents()[i],
                    final(self).agents()[i],
                    AgentState::Running,
                ),
            no_agent(old(self).agents(), agent_id@) ==> (r matches Err(
                RuntimeError::AgentNotFound(m),
            ) && m@ == agent_id@) && final(self).agents() == old(self).agents(),
    {
        self.set_state(agent_id, AgentState::Running)
    }

    /// The lifecycle state of the agent `agent_id`.
    pub fn get_agent_state(&self, agent_id: &str) -> (r: Result<AgentState, RuntimeError>)
        ensures
            forall|i: int|
                first_agent(self.agents(), agent_id@, i) ==> r == Ok::<AgentState, RuntimeError>(
                    self.agents()[i].state,
                ),
            no_agent(self.agents(), agent_id@) ==> (r matches Err(RuntimeError::AgentNotFound(m))
                && m@ == agent_id@),
    {
        let key = agent_id.to_owned();
        match agent_position(&self.agents, &key) {
            Some(i) => Ok(self.agents[i].state),
            None => Err(RuntimeError::AgentNotFound(key)),
        }
    }

    pub fn get_agent_count(&self) -> (r: usize)
        ensures
            r == self.agents().len(),
    {
        self.agents.len()
    }
}

} // verus!
