//! The parts of a game server's configuration that hold no float.
use vstd::prelude::*;

verus! {

/// How a game server runs: alone, or as a node of a cluster.
#[derive(Clone, Copy, Debug, PartialEq, Eq, Structural)]
pub enum Mode {
    Single,
    Cluster,
}

/// The application section: the mode to run in.
#[derive(Clone, Copy, Debug)]
pub struct App {
    pub mode: Mode,
}

/// Where the registry center listens.
#[derive(Debug)]
pub struct Registry {
    pub addr: String,
    pub port: u16,
}

/// The overload test: fill the world with this many users at start.
#[derive(Clone, Copy, Debug)]
pub struct OverloadTest {
    pub enable: bool,
    pub max_user_count: u32,
}

/// A second test switch.
#[derive(Clone, Copy, Debug)]
pub struct AnotherTest {
    pub enable: bool,
}

/// The test section.
#[derive(Clone, Copy, Debug)]
pub struct Test {
    pub overload_test: OverloadTest,
    pub another_test: AnotherTest,
}

} // verus!
