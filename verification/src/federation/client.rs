//! Calls to other nodes of the federation.

use crate::keyed::KeyedMap;
use crate::serve_cache::share;
use crate::text::{decimal, push_decimal};
use std::sync::Arc;
use vstd::prelude::*;
use vstd::string::*;

verus! {

/// How long a call to another node may take, in milliseconds.
pub const DEFAULT_TIMEOUT_MS: u64 = 5_000;

/// The port on which nodes listen.
pub const DEFAULT_REMOTE_PORT: u16 = 8011;

/// The address of a node.
pub open spec fn node_url(ip: Seq<char>, port: u16) -> Seq<char> {
    "http://"@ + ip + ":"@ + decimal(port as nat)
}

/// The address of a tool of a node.
pub open spec fn tool_url(base: Seq<char>, tool: Seq<char>) -> Seq<char> {
    base + "/federate/"@ + tool
}

/// What came back of a call to another node.
#[derive(Debug, Clone)]
pub enum FederatedReply {
    /// The call could not be sent, with the cause.
    Unsent(String),
    /// The answer could not be read, with the cause.
    Unread(String),
    /// The answer, with its status.
    Answer { success: bool, status: String, body: String },
}

/// A node of the federation.
#[derive(Debug)]
pub struct RemoteServeClient {
    pub base: String,
}

impl RemoteServeClient {
    /// The node at an address.
    pub fn new(ip: &str, port: u16) -> (r: Self)
        ensures
            r.base@ == node_url(ip@, port),
    {
        let mut base = "http://".to_owned();
        base.append(ip);
        base.append(":");
        push_decimal(&mut base, port as u64);
        proof {
            assert(base@ =~= node_url(ip@, port));
        }
        RemoteServeClient { base }
    }

    /// The address of the node.
    pub fn base_url(&self) -> (r: &str)
        ensures
            r@ == self.base@,
    {
        self.base.as_str()
    }

    /// The address to which a call of a tool is sent.
    pub fn federate_url(&self, tool: &str) -> (r: String)
        ensures
            r@ == tool_url(self.base@, tool@),
    {
        let mut url = self.base.clone();
        url.append("/federate/");
        url.append(tool);
        url
    }

    /// What a call of a tool gives, given what came back: the body where the status says that
    /// all went well.
    pub fn call_federated(&self, tool: &str, reply: FederatedReply) -> (r: Result<String, String>)
        ensures
            match reply {
                FederatedReply::Unsent(cause) => r is Err && r->Err_0@ == "HTTP-запрос к "@
                    + tool_url(self.base@, tool@) + " упал: "@ + cause@,
                FederatedReply::Unread(cause) => r is Err && r->Err_0@
                    == "Не удалось прочитать тело ответа от "@ + tool_url(self.base@, tool@)
                    + ": "@ + cause@,
                FederatedReply::Answer { success, status, body } => if success {
                    r == Ok::<String, String>(body)
                } else {
                    r is Err && r->Err_0@ == tool_url(self.base@, tool@) + " вернул статус "@
                        + status@ + ": "@ + body@
                },
            },
    {
        let url = self.federate_url(tool);
        match reply {
            FederatedReply::Unsent(cause) => {
                let mut message = "HTTP-запрос к ".to_owned();
                message.append(url.as_str());
                message.append(" упал: ");
                message.append(cause.as_str());
                Err(message)
            },
            FederatedReply::Unread(cause) => {
                let mut message = "Не удалось прочитать тело ответа от ".to_owned();
                message.append(url.as_str());
                message.append(": ");
                message.append(cause.as_str());
                Err(message)
            },
            FederatedReply::Answer { success, status, body } => {
                if success {
                    return Ok(body);
                }
                let mut message = url;
                message.append(" вернул статус ");
                message.append(status.as_str());
                message.append(": ");
                message.append(body.as_str());
                Err(message)
            },
        }
    }
}

/// The nodes that were called, one for each address.
pub struct RemoteClientPool {
    pub clients: KeyedMap<String, Arc<RemoteServeClient>>,
    pub default_port: u16,
}

impl RemoteClientPool {
    /// Whether no address is held twice, and each node is at its address.
    pub open spec fn wf(self) -> bool {
        &&& self.clients.wf()
        &&& forall|ip: Seq<char>| #[trigger]
            self.clients@.dom().contains(ip) ==> self.clients@[ip].base@ == node_url(
                ip,
                self.default_port,
            )
    }

    /// No node was called yet.
    pub fn new(default_port: u16) -> (r: Self)
        ensures
            r.wf(),
            r.default_port == default_port,
            r.clients@ == Map::<Seq<char>, Arc<RemoteServeClient>>::empty(),
    {
        RemoteClientPool { clients: KeyedMap::new(), default_port }
    }

    /// No node was called yet; all of them listen on the usual port.
    pub fn with_defaults() -> (r: Self)
        ensures
            r.wf(),
            r.default_port == DEFAULT_REMOTE_PORT,
            r.clients@ == Map::<Seq<char>, Arc<RemoteServeClient>>::empty(),
    {
        Self::new(DEFAULT_REMOTE_PORT)
    }

    /// The node at an address: the one that was called before, or a new one.
    pub fn get_or_create(&mut self, ip: &str) -> (r: Arc<RemoteServeClient>)
        requires
            old(self).wf(),
        ensures
            final(self).wf(),
            final(self).default_port == old(self).default_port,
            final(self).clients@ == old(self).clients@.insert(ip@, r),
            old(self).clients@.dom().contains(ip@) ==> r == old(self).clients@[ip@],
            r.base@ == node_url(ip@, old(self).default_port),
    {
        let key = ip.to_owned();
        if let Some(client) = self.clients.get(&key) {
            let r = share(client);
            proof {
                assert(self.clients@.insert(ip@, r) =~= self.clients@);
            }
            return r;
        }
        let client = Arc::new(RemoteServeClient::new(ip, self.default_port));
        let r = share(&client);
        self.clients.insert(key, client);
        r
    }
}

} // verus!
