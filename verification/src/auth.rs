//! API-key checking. The key set comes from the caller (the host loads it
//! from its environment); with no keys configured every request passes.

use crate::text;
use vstd::prelude::*;

verus! {

pub struct AuthConfig {
    api_keys: Vec<String>,
    require_auth: bool,
}

impl AuthConfig {
    /// The configured keys, as character sequences.
    pub closed spec fn keys(&self) -> Seq<Seq<char>> {
        self.api_keys@.map_values(|s: String| s@)
    }

    /// Whether requests must carry a key.
    pub closed spec fn enabled(&self) -> bool {
        self.require_auth
    }

    /// A configuration from the given keys: authentication is required
    /// exactly when at least one key is configured.
    pub fn from_keys(api_keys: Vec<String>) -> (r: Self)
        ensures
            r.keys() == api_keys@.map_values(|s: String| s@),
            r.enabled() == (api_keys@.len() > 0),
    {
        let require_auth = api_keys.len() > 0;
        AuthConfig { api_keys, require_auth }
    }

    /// Whether authentication is required.
    pub fn is_enabled(&self) -> (r: bool)
        ensures
            r == self.enabled(),
    {
        self.require_auth
    }

    /// A key passes when authentication is off, or when it is one of the
    /// configured keys.
    pub fn validate_key(&self, key: &str) -> (r: bool)
        ensures
            r == (!self.enabled() || self.keys().contains(key@)),
    {
        if !self.require_auth {
            return true;
        }
        let kc = text::to_chars(key);
        let mut i: usize = 0;
        while i < self.api_keys.len()
            invariant
                i <= self.api_keys@.len(),
                kc@ == key@,
                forall|j: int| 0 <= j < i ==> (#[trigger] self.api_keys@[j])@ != key@,
            decreases self.api_keys@.len() - i,
        {
            let cand = text::to_chars(self.api_keys[i].as_str());
            if text::eq_chars(&cand, &kc) {
                proof {
                    assert(self.keys()[i as int] == key@);
                }
                return true;
            }
            i = i + 1;
        }
        proof {
            assert forall|j: int| 0 <= j < self.keys().len() implies self.keys()[j] != key@ by {
                assert(self.keys()[j] == self.api_keys@[j]@);
            }
        }
        false
    }
}

} // verus!
