//! Session settings that both ends read: which physics back end the client
//! uses and, for the remote one, the compression level of the session.
use vstd::prelude::*;
use vstd::string::StringExecFns;

verus! {

/// Where the client's physics runs.
#[derive(Debug, Clone, PartialEq, Eq)]
pub enum PhysicsPlugin {
    /// In the client's own process.
    Default,
    /// On a remote server, optionally with compressed traffic.
    Server { compress: Option<u32>, address: String },
}

/// The scene's enclosure.
#[derive(Debug, Clone, Copy, PartialEq, Eq, Structural)]
pub enum Room {
    Open,
    Closed,
}

/// The decimal digit `d`.
pub open spec fn digit_char(d: nat) -> char {
    seq!['0', '1', '2', '3', '4', '5', '6', '7', '8', '9'][d as int]
}

/// The decimal digits of `n`, without leading zeros.
pub open spec fn decimal(n: nat) -> Seq<char>
    decreases n,
{
    if n < 10 {
        seq![digit_char(n)]
    } else {
        decimal(n / 10).push(digit_char(n % 10))
    }
}

/// Relies on std's ToString for u64: the decimal digits of the number.
#[verifier::external_body]
fn decimal_string(n: u64) -> (r: String)
    ensures
        r@ == decimal(n as nat),
{
    n.to_string()
}

impl PhysicsPlugin {
    /// The compression level of the session, if its traffic is compressed.
    pub fn compression(&self) -> (r: Option<u32>)
        ensures
            r == match self {
                PhysicsPlugin::Default => None,
                PhysicsPlugin::Server { compress, .. } => *compress,
            },
    {
        match self {
            PhysicsPlugin::Default => None,
            PhysicsPlugin::Server { compress, .. } => *compress,
        }
    }

    pub open spec fn spec_label(&self) -> Seq<char> {
        match self {
            PhysicsPlugin::Default => "default"@,
            PhysicsPlugin::Server { compress: None, .. } => "server_none"@,
            PhysicsPlugin::Server { compress: Some(c), .. } => "server_"@ + decimal(*c as nat),
        }
    }

    /// A short name of the setting: `default`, `server_none`, or `server_`
    /// followed by the level.
    pub fn label(&self) -> (r: String)
        ensures
            r@ == self.spec_label(),
    {
        match self {
            PhysicsPlugin::Default => String::from_str("default"),
            PhysicsPlugin::Server { compress: None, .. } => String::from_str("server_none"),
            PhysicsPlugin::Server { compress: Some(c), .. } => {
                let mut s = String::from_str("server_");
                let d = decimal_string(*c as u64);
                s.append(d.as_str());
                s
            },
        }
    }
}

/// The name of a benchmark run: back end, object count and shape, joined
/// by underscores.
pub fn run_label(plugin: &PhysicsPlugin, num_object: usize, shape: &str) -> (r: String)
    ensures
        r@ == plugin.spec_label() + "_"@ + decimal(num_object as nat) + "_"@ + shape@,
{
    let mut s = plugin.label();
    s.append("_");
    let d = decimal_string(num_object as u64);
    s.append(d.as_str());
    s.append("_");
    s.append(shape);
    s
}

} // verus!
