use vstd::prelude::*;

verus! {

/// What the service is configured with.
#[derive(Clone, Debug)]
pub struct Config {
    /// The origins from which cross-origin requests are allowed.
    pub cors_origins: Vec<String>,
    /// The key sent with each request to the feed, if any.
    pub tfl_api_key: Option<String>,
}

impl Config {
    /// Whether cross-origin requests from `origin` are allowed: it is one of the
    /// configured origins.
    pub fn allows_origin(&self, origin: &String) -> (r: bool)
        ensures
            r == exists|i: int|
                0 <= i < self.cors_origins@.len() && #[trigger] self.cors_origins@[i]@ == origin@,
    {
        let mut i: usize = 0;
        while i < self.cors_origins.len()
            invariant
                i <= self.cors_origins@.len(),
                forall|m: int| 0 <= m < i ==> #[trigger] self.cors_origins@[m]@ != origin@,
            decreases self.cors_origins@.len() - i,
        {
            if self.cors_origins[i] == *origin {
                return true;
            }
            i += 1;
        }
        false
    }
}

} // verus!
