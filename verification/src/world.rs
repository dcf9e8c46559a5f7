//! The named world a session serves, and where its files live on disk.

use vstd::prelude::*;
use vstd::string::StringExecFns;

verus! {

/// The directory under which each world keeps its files.
pub const WORLDS_DIR: &'static str = "/opt/wurstmineberg/world/";

/// One Minecraft world, identified by its name.
#[derive(Debug)]
pub struct World {
    pub name: String,
}

impl World {
    pub fn new(name: String) -> (w: World)
        ensures
            w.name@ == name@,
    {
        World { name }
    }

    /// The directory holding this world's files.
    pub fn dir(&self) -> (r: String)
        ensures
            r@ == WORLDS_DIR@ + self.name@,
    {
        let mut r = WORLDS_DIR.to_owned();
        r.append(self.name.as_str());
        r
    }
}

impl Default for World {
    /// The main world.
    fn default() -> (w: Self)
        ensures
            w.name@ == "wurstmineberg"@,
    {
        World { name: "wurstmineberg".to_owned() }
    }
}

} // verus!
