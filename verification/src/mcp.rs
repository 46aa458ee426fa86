//! MCP tool calls: the arguments of the three tools and the engine
//! requests they become.

use vstd::prelude::*;

use crate::model::DEFAULT_TENANT;

verus! {

/// Default number of memories that `memory_resonate` returns.
pub const DEFAULT_RESONATE_BUDGET: u32 = 8;

/// Arguments of `memory_weave`.
#[derive(Debug, Clone, PartialEq)]
pub struct WeaveArgs {
    /// The fact to keep: one self-contained sentence, no secrets.
    pub fact: String,
    /// Owner of the memory (project or user slug); the server's default
    /// owner when absent.
    pub owner: Option<String>,
    /// Topic tag that helps related memories link.
    pub task: Option<String>,
}

/// Arguments of `memory_resonate`.
#[derive(Debug, Clone, PartialEq)]
pub struct ResonateArgs {
    /// Question or keywords.
    pub query: String,
    /// Owner of the memories; the server's default owner when absent.
    pub owner: Option<String>,
    /// Most memories returned (8 when absent).
    pub budget: Option<u32>,
    /// Spreading depth: 0 returns direct hits only; engine default when
    /// absent.
    pub max_hops: Option<u32>,
}

/// Arguments of `memory_get`.
#[derive(Debug, Clone, Copy, PartialEq, Eq, Structural)]
pub struct GetArgs {
    /// Node id (first column of `memory_resonate`).
    pub node_id: u64,
}

/// A weave request for the engine.
#[derive(Debug, Clone, PartialEq)]
pub struct WeaveCall {
    pub tenant_id: String,
    pub owner_id: String,
    pub raw_event: String,
    pub task: Option<String>,
}

/// A resonate request for the engine.
#[derive(Debug, Clone, PartialEq)]
pub struct ResonateCall {
    pub tenant_id: String,
    pub owner_id: String,
    pub query: String,
    pub max_hops: Option<u32>,
    pub budget: u32,
}

/// The MCP server's identity: the tenant it acts for and the owner used
/// when a call names none.
#[derive(Debug, Clone, PartialEq)]
pub struct NylonMcp {
    pub tenant: String,
    pub default_owner: String,
}

pub open spec fn or_default(o: Option<String>, d: Seq<char>) -> Seq<char> {
    match o {
        Some(s) => s@,
        None => d,
    }
}

fn string_or(o: Option<String>, d: &String) -> (r: String)
    ensures
        r@ == or_default(o, d@),
{
    match o {
        Some(s) => s,
        None => d.clone(),
    }
}

impl NylonMcp {
    /// The server for a configured tenant and owner, each `"default"` when
    /// not configured.
    pub fn new(tenant: Option<String>, owner: Option<String>) -> (r: NylonMcp)
        ensures
            r.tenant@ == or_default(tenant, DEFAULT_TENANT@),
            r.default_owner@ == or_default(owner, DEFAULT_TENANT@),
    {
        let d = DEFAULT_TENANT.to_owned();
        NylonMcp { tenant: string_or(tenant, &d), default_owner: string_or(owner, &d) }
    }

    /// The weave request of a `memory_weave` call.
    pub fn weave_call(&self, args: WeaveArgs) -> (r: WeaveCall)
        ensures
            r.tenant_id@ == self.tenant@,
            r.owner_id@ == or_default(args.owner, self.default_owner@),
            r.raw_event@ == args.fact@,
            r.task == args.task,
    {
        WeaveCall {
            tenant_id: self.tenant.clone(),
            owner_id: string_or(args.owner, &self.default_owner),
            raw_event: args.fact,
            task: args.task,
        }
    }

    /// The resonate request of a `memory_resonate` call.
    pub fn resonate_call(&self, args: ResonateArgs) -> (r: ResonateCall)
        ensures
            r.tenant_id@ == self.tenant@,
            r.owner_id@ == or_default(args.owner, self.default_owner@),
            r.query@ == args.query@,
            r.max_hops == args.max_hops,
            r.budget == match args.budget {
                Some(b) => b,
                None => DEFAULT_RESONATE_BUDGET,
            },
    {
        ResonateCall {
            tenant_id: self.tenant.clone(),
            owner_id: string_or(args.owner, &self.default_owner),
            query: args.query,
            max_hops: args.max_hops,
            budget: match args.budget {
                Some(b) => b,
                None => DEFAULT_RESONATE_BUDGET,
            },
        }
    }

    /// The tenant and node id of a `memory_get` call.
    pub fn get_call(&self, args: GetArgs) -> (r: (String, u64))
        ensures
            r.0@ == self.tenant@,
            r.1 == args.node_id,
    {
        (self.tenant.clone(), args.node_id)
    }
}

} // verus!
