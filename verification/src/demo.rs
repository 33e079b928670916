//! A small out-of-order example: `run` comes first but uses everything
//! after it, and `ping` and `pong` call each other.

use vstd::prelude::*;

use std::collections::HashMap;

verus! {

/// The parity of `n`: what `ping` returns.
pub open spec fn ping_spec(n: nat) -> nat {
    n % 2
}

/// `run` scales the configured value and adds `ping(3)`.
pub fn run(c: Config) -> (r: u32)
    requires
        c.value * 10 + 1 <= u32::MAX,
    ensures
        r == c.value * 10 + 1,
{
    Helper::new().apply(c.value) + ping(3)
}

pub const SCALE: u32 = 10;

pub struct Helper {
    cache: HashMap<u32, u32>,
}

impl Helper {
    /// The values cached so far.
    pub closed spec fn cached(&self) -> Map<u32, u32> {
        self.cache@
    }

    pub fn new() -> (h: Helper)
        ensures
            h.cached() == Map::<u32, u32>::empty(),
    {
        Helper { cache: HashMap::new() }
    }

    pub fn apply(&self, v: u32) -> (r: u32)
        requires
            v * SCALE <= u32::MAX,
        ensures
            r == v * SCALE,
    {
        v * SCALE
    }
}

pub struct Config {
    pub value: u32,
}

/// 0 for even `n`, 1 for odd.
pub fn ping(n: u32) -> (r: u32)
    ensures
        r == ping_spec(n as nat),
    decreases n,
{
    if n == 0 {
        0
    } else {
        pong(n - 1)
    }
}

/// 1 for even `n`, 0 for odd.
pub fn pong(n: u32) -> (r: u32)
    ensures
        r == 1 - ping_spec(n as nat),
    decreases n,
{
    if n == 0 {
        1
    } else {
        ping(n - 1)
    }
}

} // verus!
