use vstd::prelude::*;

use crate::rules::rule::Rule;
use crate::rules::RatchetRule;

verus! {

/// Current version of the configuration format.
pub const CONFIG_VERSION: u8 = 1;

/// The configuration of one run: a format version and the named rules
/// to enforce. It is immutable for the duration of the run.
pub struct RatchetConfig {
    pub version: u8,
    pub rules: Vec<(String, RatchetRule)>,
}

/// Every configured rule's patterns compile.
pub open spec fn config_wf(rules: Seq<(String, RatchetRule)>) -> bool {
    forall|i: int| 0 <= i < rules.len() ==> (#[trigger] rules[i]).1.wf()
}

impl RatchetConfig {
    /// An empty configuration at the current format version.
    pub fn new() -> (r: RatchetConfig)
        ensures
            r.version == CONFIG_VERSION,
            r.rules@.len() == 0,
    {
        RatchetConfig { version: CONFIG_VERSION, rules: Vec::new() }
    }

    /// Checks that every pattern of every configured rule compiles. A
    /// configuration failing this is rejected before any scanning.
    pub fn validate(&self) -> (r: bool)
        ensures
            r == config_wf(self.rules@),
    {
        let n: usize = self.rules.len();
        let mut i: usize = 0;
        while i < n
            invariant
                n == self.rules@.len(),
                i <= n,
                forall|t: int| 0 <= t < i ==> (#[trigger] self.rules@[t]).1.wf(),
            decreases n - i,
        {
            let e = &self.rules[i];
            if !e.1.validate() {
                return false;
            }
            i = i + 1;
        }
        true
    }
}

} // verus!
