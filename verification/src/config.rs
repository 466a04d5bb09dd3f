//! The mixer's identity towards the control server.

use uuid::Uuid;
use vstd::prelude::*;

verus! {

/// The mode the mixer registers in, and the node id it registers under, as
/// the 128-bit number of its UUID.
#[derive(Clone, Debug)]
pub struct Config {
    pub mode: String,
    pub node: u128,
}

/// The UUID numbered `id` is a random one (version 4, variant RFC 4122): its
/// version nibble is 4 and its two variant bits are `10`.
pub open spec fn is_random_uuid(id: u128) -> bool {
    &&& (id >> 76u128) & 0xfu128 == 4
    &&& (id >> 62u128) & 0x3u128 == 2
}

/// `uuid::Uuid::new_v4`, taken as its number (`Uuid::as_u128`): a fresh
/// random UUID. Its value is random; what holds of every value is that
/// `new_v4` sets the version nibble to 4 and the variant bits to `10`.
#[verifier::external_body]
fn random_node_id() -> (id: u128)
    ensures
        is_random_uuid(id),
{
    Uuid::new_v4().as_u128()
}

impl Config {
    /// The mixer's configuration: mode `audioMixer`, and a fresh random
    /// (version 4) node id.
    pub fn init() -> (c: Config)
        ensures
            c.mode@ == "audioMixer"@,
            is_random_uuid(c.node),
    {
        let mode = String::from_str("audioMixer");
        let node = random_node_id();
        Config { mode, node }
    }
}

} // verus!
