//! Agent and authentication registries.
//!
//! The networking collaborator authenticates clients; these registries are
//! the explicitly passed context the handlers consult: which authentication
//! id a client has, and which agent entity an authentication id controls.

use vstd::prelude::*;

use crate::assoc::{assoc_has_key, assoc_map, assoc_unique, lemma_assoc_at, lemma_assoc_push, lemma_assoc_update};
use crate::entity::Entity;

verus! {

/// Client id to authentication id.
pub struct AuthManager {
    auths: Vec<(u64, u64)>,
}

impl View for AuthManager {
    type V = Map<u64, u64>;

    closed spec fn view(&self) -> Map<u64, u64> {
        assoc_map(self.auths@)
    }
}

impl AuthManager {
    /// Each client id is registered at most once.
    pub closed spec fn wf(self) -> bool {
        assoc_unique(self.auths@)
    }

    /// An empty registry.
    pub fn new() -> (r: AuthManager)
        ensures
            r.wf(),
            r@ == Map::<u64, u64>::empty(),
    {
        let r = AuthManager { auths: Vec::new() };
        proof {
            assert(r@ =~= Map::<u64, u64>::empty());
        }
        r
    }

    /// Register (or replace) a client's authentication id.
    pub fn insert_auth(&mut self, client: u64, auth: u64)
        requires
            old(self).wf(),
        ensures
            final(self).wf(),
            final(self)@ == old(self)@.insert(client, auth),
    {
        let found = find_u64_key(&self.auths, client);
        match found {
            Some(i) => {
                proof {
                    lemma_assoc_update(self.auths@, i as int, auth);
                }
                self.auths[i] = (client, auth);
            },
            None => {
                proof {
                    lemma_assoc_push(self.auths@, client, auth);
                }
                self.auths.push((client, auth));
            },
        }
    }

    /// The authentication id of a client, if it is registered.
    pub fn get_auth_id(&self, client: u64) -> (r: Option<u64>)
        requires
            self.wf(),
        ensures
            r == if self@.contains_key(client) {
                Some(self@[client])
            } else {
                None::<u64>
            },
    {
        let found = find_u64_key(&self.auths, client);
        match found {
            Some(i) => {
                proof {
                    lemma_assoc_at(self.auths@, i as int);
                }
                Some(self.auths[i].1)
            },
            None => None,
        }
    }
}

/// Authentication id to the agent entity it controls.
pub struct AgentManager {
    agents: Vec<(u64, Entity)>,
}

impl View for AgentManager {
    type V = Map<u64, Entity>;

    closed spec fn view(&self) -> Map<u64, Entity> {
        assoc_map(self.agents@)
    }
}

impl AgentManager {
    /// Each authentication id controls at most one agent.
    pub closed spec fn wf(self) -> bool {
        assoc_unique(self.agents@)
    }

    /// An empty registry.
    pub fn new() -> (r: AgentManager)
        ensures
            r.wf(),
            r@ == Map::<u64, Entity>::empty(),
    {
        let r = AgentManager { agents: Vec::new() };
        proof {
            assert(r@ =~= Map::<u64, Entity>::empty());
        }
        r
    }

    /// Register (or replace) the agent of an authentication id.
    pub fn insert(&mut self, auth: u64, agent: Entity)
        requires
            old(self).wf(),
        ensures
            final(self).wf(),
            final(self)@ == old(self)@.insert(auth, agent),
    {
        let found = find_agent_key(&self.agents, auth);
        match found {
            Some(i) => {
                proof {
                    lemma_assoc_update(self.agents@, i as int, agent);
                }
                self.agents[i] = (auth, agent);
            },
            None => {
                proof {
                    lemma_assoc_push(self.agents@, auth, agent);
                }
                self.agents.push((auth, agent));
            },
        }
    }

    /// The agent entity a client controls: its authentication id's agent.
    pub fn agent_from_client_id(&self, client: u64, auth_manager: &AuthManager) -> (r: Option<
        Entity,
    >)
        requires
            self.wf(),
            auth_manager.wf(),
        ensures
            r == if auth_manager@.contains_key(client) && self@.contains_key(
                auth_manager@[client],
            ) {
                Some(self@[auth_manager@[client]])
            } else {
                None::<Entity>
            },
    {
        let auth = match auth_manager.get_auth_id(client) {
            Some(a) => a,
            None => {
                return None;
            },
        };
        let found = find_agent_key(&self.agents, auth);
        match found {
            Some(i) => {
                proof {
                    lemma_assoc_at(self.agents@, i as int);
                }
                Some(self.agents[i].1)
            },
            None => None,
        }
    }
}

/// First index keyed by the client id, if any.
fn find_u64_key(v: &Vec<(u64, u64)>, k: u64) -> (r: Option<usize>)
    ensures
        match r {
            Some(i) => i < v@.len() && v@[i as int].0 == k,
            None => !assoc_has_key(v@, k),
        },
{
    let n = v.len();
    let mut i: usize = 0;
    while i < n
        invariant
            n == v.len(),
            i <= n,
            forall|j: int| 0 <= j < i ==> (#[trigger] v@[j]).0 != k,
        decreases n - i,
    {
        if v[i].0 == k {
            return Some(i);
        }
        i += 1;
    }
    None
}

/// First index keyed by the authentication id, if any.
fn find_agent_key(v: &Vec<(u64, Entity)>, k: u64) -> (r: Option<usize>)
    ensures
        match r {
            Some(i) => i < v@.len() && v@[i as int].0 == k,
            None => !assoc_has_key(v@, k),
        },
{
    let n = v.len();
    let mut i: usize = 0;
    while i < n
        invariant
            n == v.len(),
            i <= n,
            forall|j: int| 0 <= j < i ==> (#[trigger] v@[j]).0 != k,
        decreases n - i,
    {
        if v[i].0 == k {
            return Some(i);
        }
        i += 1;
    }
    None
}

} // verus!
