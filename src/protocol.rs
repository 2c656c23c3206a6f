use vstd::prelude::*;
use vstd::string::StringExecFns;

verus! {

/// The name of the spacetime protocol of an application.
#[derive(Debug, Clone, PartialEq, Eq)]
pub struct SpaceTimeProtocolName(pub String);

impl SpaceTimeProtocolName {
    /// `/<app_name>/spacetime/1.0.0`.
    pub fn new(app_name: &str) -> (r: Self)
        ensures
            r.0@ == "/"@ + app_name@ + "/spacetime/1.0.0"@,
    {
        let s = String::from_str("/");
        let s = s.concat(app_name);
        let s = s.concat("/spacetime/1.0.0");
        SpaceTimeProtocolName(s)
    }

    pub fn as_str(&self) -> (r: &str)
        ensures
            r@ == self.0@,
    {
        self.0.as_str()
    }
}

} // verus!
