//! A WireGuard interface: its configuration files and the `ip` and `wg`
//! commands that create, configure and remove it.

use vstd::prelude::*;
use crate::config::{path_join, join_path};
use crate::text::{push_decimal, decimal, texts};

verus! {

/// The directory of WireGuard configuration files.
pub open spec fn wg_config_dir() -> Seq<char> {
    "/etc/wireguard"@
}

/// A WireGuard interface by name, with the path of its configuration file.
pub struct WgInterface {
    name: String,
    config_path: String,
}

/// A program to run and its arguments.
#[derive(Debug, Clone)]
pub struct Command {
    pub program: String,
    pub args: Vec<String>,
}

fn owned(s: &str) -> (r: String)
    ensures
        r@ == s@,
{
    s.to_owned()
}

fn command(program: &str, args: Vec<String>) -> (c: Command)
    ensures
        c.program@ == program@,
        c.args@ == args@,
{
    Command { program: owned(program), args }
}

impl WgInterface {
    /// The interface's name.
    pub closed spec fn spec_name(&self) -> Seq<char> {
        self.name@
    }

    /// The path of its wg-quick style configuration file.
    pub closed spec fn spec_config_path(&self) -> Seq<char> {
        self.config_path@
    }

    /// The interface `name`, configured in `/etc/wireguard/<name>.conf`.
    pub fn new(name: &str) -> (w: WgInterface)
        ensures
            w.spec_name() == name@,
            w.spec_config_path() == path_join(wg_config_dir(), name@ + ".conf"@),
    {
        let mut file = owned(name);
        file.append(".conf");
        let config_path = join_path("/etc/wireguard", file.as_str());
        WgInterface { name: owned(name), config_path }
    }

    /// The interface's name.
    pub fn name(&self) -> (r: &str)
        ensures
            r@ == self.spec_name(),
    {
        self.name.as_str()
    }

    /// The path of its wg-quick style configuration file.
    pub fn config_path(&self) -> (r: &str)
        ensures
            r@ == self.spec_config_path(),
    {
        self.config_path.as_str()
    }

    /// The path of the configuration that `wg setconf` reads:
    /// `/etc/wireguard/<name>.wg.conf`.
    pub fn setconf_path(&self) -> (p: String)
        ensures
            p@ == path_join(wg_config_dir(), self.spec_name() + ".wg.conf"@),
    {
        let mut file = self.name.clone();
        file.append(".wg.conf");
        join_path("/etc/wireguard", file.as_str())
    }

    /// The wg-quick style configuration written for reference.
    pub fn interface_config(our_ip: &str, private_key: &str, listen_port: u16) -> (t: String)
        ensures
            t@ == "[Interface]\nPrivateKey = "@ + private_key@ + "\nAddress = "@ + our_ip@ + "/16\nListenPort = "@
                + decimal(listen_port as nat) + "\n"@,
    {
        let mut t = owned("[Interface]\nPrivateKey = ");
        t.append(private_key);
        t.append("\nAddress = ");
        t.append(our_ip);
        t.append("/16\nListenPort = ");
        push_decimal(&mut t, listen_port as u64);
        t.append("\n");
        t
    }

    /// The configuration `wg setconf` reads: the same without the address.
    pub fn setconf_config(private_key: &str, listen_port: u16) -> (t: String)
        ensures
            t@ == "[Interface]\nPrivateKey = "@ + private_key@ + "\nListenPort = "@ + decimal(listen_port as nat) + "\n"@,
    {
        let mut t = owned("[Interface]\nPrivateKey = ");
        t.append(private_key);
        t.append("\nListenPort = ");
        push_decimal(&mut t, listen_port as u64);
        t.append("\n");
        t
    }

    /// `ip link add <name> type wireguard`
    pub fn link_add_command(&self) -> (c: Command)
        ensures
            c.program@ == "ip"@,
            texts(c.args@) == seq!["link"@, "add"@, self.spec_name(), "type"@, "wireguard"@],
    {
        let mut a: Vec<String> = Vec::new();
        a.push(owned("link"));
        a.push(owned("add"));
        a.push(self.name.clone());
        a.push(owned("type"));
        a.push(owned("wireguard"));
        assert(texts(a@) =~= seq!["link"@, "add"@, self.spec_name(), "type"@, "wireguard"@]);
        command("ip", a)
    }

    /// `wg setconf <name> <setconf path>`
    pub fn setconf_command(&self) -> (c: Command)
        ensures
            c.program@ == "wg"@,
            texts(c.args@) == seq!["setconf"@, self.spec_name(), path_join(wg_config_dir(), self.spec_name() + ".wg.conf"@)],
    {
        let mut a: Vec<String> = Vec::new();
        a.push(owned("setconf"));
        a.push(self.name.clone());
        a.push(self.setconf_path());
        assert(texts(a@) =~= seq!["setconf"@, self.spec_name(), path_join(wg_config_dir(), self.spec_name() + ".wg.conf"@)]);
        command("wg", a)
    }

    /// `ip address add <our_ip>/16 dev <name>`
    pub fn address_add_command(&self, our_ip: &str) -> (c: Command)
        ensures
            c.program@ == "ip"@,
            texts(c.args@) == seq!["address"@, "add"@, our_ip@ + "/16"@, "dev"@, self.spec_name()],
    {
        let mut a: Vec<String> = Vec::new();
        a.push(owned("address"));
        a.push(owned("add"));
        let mut cidr = owned(our_ip);
        cidr.append("/16");
        a.push(cidr);
        a.push(owned("dev"));
        a.push(self.name.clone());
        assert(texts(a@) =~= seq!["address"@, "add"@, our_ip@ + "/16"@, "dev"@, self.spec_name()]);
        command("ip", a)
    }

    /// `ip link set mtu 1420 up dev <name>`
    pub fn link_up_command(&self) -> (c: Command)
        ensures
            c.program@ == "ip"@,
            texts(c.args@) == seq!["link"@, "set"@, "mtu"@, "1420"@, "up"@, "dev"@, self.spec_name()],
    {
        let mut a: Vec<String> = Vec::new();
        a.push(owned("link"));
        a.push(owned("set"));
        a.push(owned("mtu"));
        a.push(owned("1420"));
        a.push(owned("up"));
        a.push(owned("dev"));
        a.push(self.name.clone());
        assert(texts(a@) =~= seq!["link"@, "set"@, "mtu"@, "1420"@, "up"@, "dev"@, self.spec_name()]);
        command("ip", a)
    }

    /// `wg set <name> peer <public_key> allowed-ips <allowed_ip>`, followed by
    /// `endpoint <endpoint>` where one is given.
    pub fn add_peer_command(&self, public_key: &str, allowed_ip: &str, endpoint: Option<&str>) -> (c: Command)
        ensures
            c.program@ == "wg"@,
            texts(c.args@) == seq!["set"@, self.spec_name(), "peer"@, public_key@, "allowed-ips"@, allowed_ip@] + match endpoint {
                Some(ep) => seq!["endpoint"@, ep@],
                None => Seq::<Seq<char>>::empty(),
            },
    {
        let mut a: Vec<String> = Vec::new();
        a.push(owned("set"));
        a.push(self.name.clone());
        a.push(owned("peer"));
        a.push(owned(public_key));
        a.push(owned("allowed-ips"));
        a.push(owned(allowed_ip));
        match endpoint {
            Some(ep) => {
                a.push(owned("endpoint"));
                a.push(owned(ep));
                assert(texts(a@) =~= seq!["set"@, self.spec_name(), "peer"@, public_key@, "allowed-ips"@, allowed_ip@] + seq!["endpoint"@, ep@]);
            },
            None => {
                assert(texts(a@) =~= seq!["set"@, self.spec_name(), "peer"@, public_key@, "allowed-ips"@, allowed_ip@] + Seq::<Seq<char>>::empty());
            },
        }
        command("wg", a)
    }

    /// `wg set <name> peer <public_key> remove`
    pub fn remove_peer_command(&self, public_key: &str) -> (c: Command)
        ensures
            c.program@ == "wg"@,
            texts(c.args@) == seq!["set"@, self.spec_name(), "peer"@, public_key@, "remove"@],
    {
        let mut a: Vec<String> = Vec::new();
        a.push(owned("set"));
        a.push(self.name.clone());
        a.push(owned("peer"));
        a.push(owned(public_key));
        a.push(owned("remove"));
        assert(texts(a@) =~= seq!["set"@, self.spec_name(), "peer"@, public_key@, "remove"@]);
        command("wg", a)
    }

    /// `ip link delete dev <name>`
    pub fn delete_command(&self) -> (c: Command)
        ensures
            c.program@ == "ip"@,
            texts(c.args@) == seq!["link"@, "delete"@, "dev"@, self.spec_name()],
    {
        let mut a: Vec<String> = Vec::new();
        a.push(owned("link"));
        a.push(owned("delete"));
        a.push(owned("dev"));
        a.push(self.name.clone());
        assert(texts(a@) =~= seq!["link"@, "delete"@, "dev"@, self.spec_name()]);
        command("ip", a)
    }
}


/// The commands that bring an interface up, in order.
#[derive(Debug, Clone, Copy, PartialEq, Eq)]
pub enum SetupStep {
    /// `ip link add`
    CreateLink,
    /// `wg setconf`
    Configure,
    /// `ip address add`
    AssignAddress,
    /// `ip link set ... up`
    BringUp,
}

/// What follows a setup command.
#[derive(Debug, Clone, Copy, PartialEq, Eq)]
pub enum SetupOutcome {
    /// Run this command next.
    Next(SetupStep),
    /// The interface is up.
    Up,
    /// Setup failed; with `clean_up`, the half-made interface is deleted first.
    Failed { clean_up: bool },
}

/// The outcome after `step` ran and did or did not succeed: the steps run
/// in order; a failure to create the link ends setup, a later failure
/// deletes the link before setup ends.
pub open spec fn spec_setup_after(step: SetupStep, succeeded: bool) -> SetupOutcome {
    if !succeeded {
        SetupOutcome::Failed { clean_up: step != SetupStep::CreateLink }
    } else {
        match step {
            SetupStep::CreateLink => SetupOutcome::Next(SetupStep::Configure),
            SetupStep::Configure => SetupOutcome::Next(SetupStep::AssignAddress),
            SetupStep::AssignAddress => SetupOutcome::Next(SetupStep::BringUp),
            SetupStep::BringUp => SetupOutcome::Up,
        }
    }
}

/// Decides what follows a setup command, as [`spec_setup_after`] says.
pub fn setup_after(step: SetupStep, succeeded: bool) -> (o: SetupOutcome)
    ensures
        o == spec_setup_after(step, succeeded),
{
    if !succeeded {
        let clean_up = match step {
            SetupStep::CreateLink => false,
            _ => true,
        };
        return SetupOutcome::Failed { clean_up };
    }
    match step {
        SetupStep::CreateLink => SetupOutcome::Next(SetupStep::Configure),
        SetupStep::Configure => SetupOutcome::Next(SetupStep::AssignAddress),
        SetupStep::AssignAddress => SetupOutcome::Next(SetupStep::BringUp),
        SetupStep::BringUp => SetupOutcome::Up,
    }
}

impl WgInterface {
    /// The command of a setup step for an interface with address `our_ip`.
    pub fn setup_command(&self, step: SetupStep, our_ip: &str) -> (c: Command)
        ensures
            c.program@ == (if step == SetupStep::CreateLink || step == SetupStep::AssignAddress || step == SetupStep::BringUp { "ip"@ } else { "wg"@ }),
            texts(c.args@) == match step {
                SetupStep::CreateLink => seq!["link"@, "add"@, self.spec_name(), "type"@, "wireguard"@],
                SetupStep::Configure => seq!["setconf"@, self.spec_name(), path_join(wg_config_dir(), self.spec_name() + ".wg.conf"@)],
                SetupStep::AssignAddress => seq!["address"@, "add"@, our_ip@ + "/16"@, "dev"@, self.spec_name()],
                SetupStep::BringUp => seq!["link"@, "set"@, "mtu"@, "1420"@, "up"@, "dev"@, self.spec_name()],
            },
    {
        match step {
            SetupStep::CreateLink => self.link_add_command(),
            SetupStep::Configure => self.setconf_command(),
            SetupStep::AssignAddress => self.address_add_command(our_ip),
            SetupStep::BringUp => self.link_up_command(),
        }
    }
}


/// Setup cleans up after itself: a step reached by the success of another
/// runs once the link exists, and its failure deletes the half-made
/// interface; only the first step, which creates the link, fails with
/// nothing to delete.
pub proof fn lemma_setup_failure_cleans_up(step: SetupStep, next: SetupStep)
    ensures
        spec_setup_after(step, true) == SetupOutcome::Next(next) ==>
            spec_setup_after(next, false) == (SetupOutcome::Failed { clean_up: true }),
        spec_setup_after(SetupStep::CreateLink, false) == (SetupOutcome::Failed { clean_up: false }),
        spec_setup_after(step, false) is Failed,
{
}

/// Setup runs the four steps in order: from creating the link, four
/// successes bring the interface up, and no step is reached twice.
pub proof fn lemma_setup_order()
    ensures
        ({
            let s1 = spec_setup_after(SetupStep::CreateLink, true);
            let s2 = spec_setup_after(SetupStep::Configure, true);
            let s3 = spec_setup_after(SetupStep::AssignAddress, true);
            let s4 = spec_setup_after(SetupStep::BringUp, true);
            &&& s1 == SetupOutcome::Next(SetupStep::Configure)
            &&& s2 == SetupOutcome::Next(SetupStep::AssignAddress)
            &&& s3 == SetupOutcome::Next(SetupStep::BringUp)
            &&& s4 == SetupOutcome::Up
        }),
        forall|step: SetupStep| spec_setup_after(step, true) != SetupOutcome::Next(SetupStep::CreateLink),
{
}

} // verus!
