//! The proxy's settings.
use vstd::prelude::*;

use crate::text::decimal_string;

verus! {

/// One upstream service.
#[derive(Debug)]
pub struct Service {
    pub addr: String,
    pub port: u16,
}

/// The proxy's settings.
#[derive(Debug)]
pub struct Opts {
    pub port: u16,
    pub addr: String,
    pub cache_dir: String,
    pub cache_ttl_mins: u16,
    pub workers: u16,
    pub failure_delay: u64,
    pub failure_retries: u16,
    pub services: Vec<Service>,
}

/// Settings that cannot be used.
#[derive(Debug, Clone, Copy, PartialEq, Eq, Structural)]
pub enum OptsError {
    /// `workers` is 0.
    NoWorkers,
    /// `cache_ttl_mins` is 0.
    NoCacheTtl,
}

impl Opts {
    /// Checks the settings that must be positive.
    pub fn validate(&self) -> (r: Result<(), OptsError>)
        ensures
            r == (if self.workers < 1 {
                Err(OptsError::NoWorkers)
            } else if self.cache_ttl_mins < 1 {
                Err(OptsError::NoCacheTtl)
            } else {
                Ok(())
            }),
    {
        if self.workers < 1 {
            Err(OptsError::NoWorkers)
        } else if self.cache_ttl_mins < 1 {
            Err(OptsError::NoCacheTtl)
        } else {
            Ok(())
        }
    }

    /// The TTL of new cache entries, in seconds.
    pub fn cache_ttl_secs(&self) -> (r: u64)
        ensures
            r == self.cache_ttl_mins * 60,
    {
        self.cache_ttl_mins as u64 * 60
    }
}

impl Service {
    /// The service as `addr:port`, the value of the `host` header sent to it.
    pub fn host(&self) -> (r: String)
        ensures
            r@ == self.addr@ + seq![':'] + crate::text::decimal_text(self.port as nat),
    {
        proof {
            reveal_strlit(":");
        }
        let mut out = String::from_str(self.addr.as_str());
        out.append(":");
        let p = decimal_string(self.port as u64);
        out.append(p.as_str());
        assert(":"@ =~= seq![':']);
        out
    }
}

} // verus!
