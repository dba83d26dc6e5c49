//! The decisions of the desktop shell that runs the platform's service as a
//! child process: when the service may be started and stopped, and which
//! arguments each helper program is run with. The shell itself spawns and
//! kills; it holds the child and hands this module the state.

use crate::command::init::texts;
use vstd::prelude::*;
use vstd::string::StringExecFns;

verus! {

/// What the shell knows of the service.
#[derive(Clone, Copy, Debug, PartialEq, Eq, Structural)]
pub struct ServiceState {
    /// Whether the service runs.
    pub running: bool,
    /// Whether it was last started with a bootstrap node to relay through.
    pub with_relay: bool,
}

/// Why the service is not started.
#[derive(Clone, Copy, Debug, PartialEq, Eq, Structural)]
pub enum ServiceError {
    /// It runs already.
    AlreadyRunning,
}

impl ServiceError {
    /// The message that goes with the error.
    pub fn message(&self) -> (text: &'static str)
        ensures
            text@ == "Service is already running"@,
    {
        "Service is already running"
    }
}

/// The arguments that the service is started with: `service http`, and the
/// bootstrap node behind `--bootstrap-node` if there is one.
pub open spec fn service_args(bootstrap_node: Option<&str>) -> Seq<Seq<char>> {
    match bootstrap_node {
        Some(node) => seq!["service"@, "http"@, "--bootstrap-node"@, node@],
        None => seq!["service"@, "http"@],
    }
}

impl ServiceState {
    /// The state before the service was ever started.
    pub fn new() -> (state: ServiceState)
        ensures
            state == (ServiceState { running: false, with_relay: false }),
    {
        ServiceState { running: false, with_relay: false }
    }

    /// Decides on a request to start the service. Where it runs already the
    /// request is refused and nothing changes. Otherwise the service counts
    /// as running, with a relay if a bootstrap node was given, and the
    /// arguments to spawn it with are returned.
    pub fn start_mega_service(&mut self, bootstrap_node: Option<&str>) -> (spawn: Result<
        Vec<String>,
        ServiceError,
    >)
        ensures
            match spawn {
                Err(error) => old(self).running && error == ServiceError::AlreadyRunning
                    && *final(self) == *old(self),
                Ok(args) => !old(self).running && final(self).running && final(self).with_relay
                    == bootstrap_node.is_some() && texts(args@) == service_args(bootstrap_node),
            },
    {
        if self.running {
            return Err(ServiceError::AlreadyRunning);
        }
        let mut args: Vec<String> = Vec::new();
        args.push(String::from_str("service"));
        args.push(String::from_str("http"));
        match bootstrap_node {
            Some(node) => {
                self.with_relay = true;
                args.push(String::from_str("--bootstrap-node"));
                args.push(String::from_str(node));
            },
            None => {
                self.with_relay = false;
            },
        }
        self.running = true;
        proof {
            assert(texts(args@) =~= service_args(bootstrap_node));
        }
        Ok(args)
    }

    /// Decides on a request to stop the service, and tells whether there is
    /// a child to kill. Afterwards the service counts as stopped.
    pub fn stop_mega_service(&mut self) -> (kill: bool)
        ensures
            kill == old(self).running,
            !final(self).running,
            final(self).with_relay == old(self).with_relay,
    {
        let kill: bool = self.running;
        self.running = false;
        kill
    }

    /// Decides on a request to start the service anew: whether there is a
    /// child to kill first, and the arguments to spawn the new one with.
    pub fn restart_mega_service(&mut self, bootstrap_node: Option<&str>) -> (steps: (
        bool,
        Vec<String>,
    ))
        ensures
            steps.0 == old(self).running,
            final(self).running,
            final(self).with_relay == bootstrap_node.is_some(),
            texts(steps.1@) == service_args(bootstrap_node),
    {
        let kill: bool = self.stop_mega_service();
        match self.start_mega_service(bootstrap_node) {
            Ok(args) => (kill, args),
            Err(_) => {
                proof {
                    assert(false);
                }
                (kill, Vec::new())
            },
        }
    }

    /// Whether the service runs, and whether with a relay.
    pub fn mega_service_status(&self) -> (status: (bool, bool))
        ensures
            status == (self.running, self.with_relay),
    {
        (self.running, self.with_relay)
    }
}

/// The arguments with which the repository at `repo_url` is cloned into
/// `target_dir`.
pub fn clone_repository(repo_url: &str, target_dir: &str) -> (args: Vec<String>)
    ensures
        texts(args@) == seq!["clone"@, repo_url@, target_dir@],
{
    let mut args: Vec<String> = Vec::new();
    args.push(String::from_str("clone"));
    args.push(String::from_str(repo_url));
    args.push(String::from_str(target_dir));
    proof {
        assert(texts(args@) =~= seq!["clone"@, repo_url@, target_dir@]);
    }
    args
}

/// The two argument lists with which the remote of a cloned repository is
/// pointed at the local service: the first removes `origin`, the second
/// adds it again under the address of the repository `name`.
pub fn change_remote_url(name: &str) -> (steps: (Vec<String>, Vec<String>))
    ensures
        texts(steps.0@) == seq!["remote"@, "remove"@, "origin"@],
        texts(steps.1@) == seq![
            "remote"@,
            "add"@,
            "origin"@,
            "http://localhost:8000/third-part/"@ + name@,
        ],
{
    let mut remove: Vec<String> = Vec::new();
    remove.push(String::from_str("remote"));
    remove.push(String::from_str("remove"));
    remove.push(String::from_str("origin"));
    let mut add: Vec<String> = Vec::new();
    add.push(String::from_str("remote"));
    add.push(String::from_str("add"));
    add.push(String::from_str("origin"));
    add.push(String::from_str("http://localhost:8000/third-part/").concat(name));
    proof {
        assert(texts(remove@) =~= seq!["remote"@, "remove"@, "origin"@]);
        assert(texts(add@) =~= seq![
            "remote"@,
            "add"@,
            "origin"@,
            "http://localhost:8000/third-part/"@ + name@,
        ]);
    }
    (remove, add)
}

/// The arguments with which the cloned repository is pushed to its new
/// remote.
pub fn push_to_new_remote() -> (args: Vec<String>)
    ensures
        texts(args@) == seq!["push"@, "origin"@, "master"@],
{
    let mut args: Vec<String> = Vec::new();
    args.push(String::from_str("push"));
    args.push(String::from_str("origin"));
    args.push(String::from_str("master"));
    proof {
        assert(texts(args@) =~= seq!["push"@, "origin"@, "master"@]);
    }
    args
}

} // verus!
