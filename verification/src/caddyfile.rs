//! The single-text form of caddy configuration: each project contributes
//! a piece of Caddyfile, and the pieces are joined in order.

use vstd::prelude::*;
use crate::services::LoadConfigError;
use crate::vars::{spec_substitute, SubstFault, Value};

verus! {

/// A project's piece of Caddyfile.
#[derive(Debug)]
pub struct Caddy {
    pub config: String,
}

/// The pieces gathered so far (none before the first).
#[derive(Debug)]
pub struct CaddyBuilder {
    pub config: Option<String>,
}

/// The Caddyfile to write out, as blocks per host.
#[derive(Debug)]
pub struct GenCaddy {
    pub hostnames: Vec<(String, String)>,
}

impl Default for CaddyBuilder {
    fn default() -> (r: CaddyBuilder)
        ensures
            r.config is None,
    {
        CaddyBuilder { config: None }
    }
}

impl Caddy {
    /// A project's piece with variables substituted into it.
    pub fn from_raw(config: String, vars: &Value) -> (r: Result<Caddy, LoadConfigError>)
        ensures
            match r {
                Ok(c) => spec_substitute(vars@, config@) == Ok::<Seq<char>, SubstFault>(c.config@),
                Err(e) => spec_substitute(vars@, config@) matches Err(f)
                    && e matches LoadConfigError::SubstitutionError(se) && se@ == f,
            },
    {
        match vars.eval(config.as_str()) {
            Ok(c) => Ok(Caddy { config: c }),
            Err(e) => Err(LoadConfigError::SubstitutionError(e)),
        }
    }
}

impl CaddyBuilder {
    /// Appends a project's piece to those gathered; this never fails.
    pub fn add(&mut self, other: &Caddy) -> (r: Result<(), LoadConfigError>)
        ensures
            r is Ok,
            final(self).config matches Some(c) && c@ == match old(self).config {
                Some(cur) => cur@ + other.config@,
                None => other.config@,
            },
    {
        match &mut self.config {
            Some(cur) => {
                cur.append(other.config.as_str());
            },
            None => {
                self.config = Some(other.config.clone());
            },
        }
        Ok(())
    }

    /// The text of the Caddyfile, when any piece was gathered.
    pub fn build(&self) -> (r: Option<String>)
        ensures
            r == self.config,
    {
        match &self.config {
            Some(c) => Some(c.clone()),
            None => None,
        }
    }
}

/// One host's block.
pub open spec fn host_block_spec(host: Seq<char>, config: Seq<char>) -> Seq<char> {
    host + " {\n"@ + config + "\n}"@
}

/// The Caddyfile: the hosts' blocks in order.
pub open spec fn host_blocks_spec(hs: Seq<(String, String)>) -> Seq<char>
    decreases hs.len(),
{
    if hs.len() == 0 {
        Seq::empty()
    } else {
        host_blocks_spec(hs.drop_last()) + host_block_spec(hs.last().0@, hs.last().1@)
    }
}

impl GenCaddy {
    /// Whether there is no host to configure.
    pub fn is_empty(&self) -> (r: bool)
        ensures
            r == (self.hostnames@.len() == 0),
    {
        self.hostnames.len() == 0
    }

    /// The text of the Caddyfile (see `host_blocks_spec`).
    pub fn caddyfile(&self) -> (r: String)
        ensures
            r@ == host_blocks_spec(self.hostnames@),
    {
        let mut r = String::new();
        let mut i: usize = 0;
        while i < self.hostnames.len()
            invariant
                i <= self.hostnames@.len(),
                r@ == host_blocks_spec(self.hostnames@.take(i as int)),
            decreases self.hostnames.len() - i,
        {
            proof {
                let hs = self.hostnames@;
                assert(hs.take(i + 1).drop_last() =~= hs.take(i as int));
                assert(hs.take(i + 1).last() == hs[i as int]);
            }
            r.append(self.hostnames[i].0.as_str());
            r.append(" {\n");
            r.append(self.hostnames[i].1.as_str());
            r.append("\n}");
            i = i + 1;
        }
        assert(self.hostnames@.take(self.hostnames@.len() as int) =~= self.hostnames@);
        r
    }
}

} // verus!
