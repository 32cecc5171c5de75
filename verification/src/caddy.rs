//! Caddy configuration that projects declare per host name, gathered over
//! all projects into one Caddyfile.

use vstd::prelude::*;
use crate::bind::text_map;
use crate::keyed::{find_entry, key_index, keys_of, lemma_key_index, lemma_key_index_push, table_get, table_insert};
use crate::loading::{pair_keys, pair_values, subst_list_spec, substitute_vars_dict};
use crate::services::LoadConfigError;
use crate::vars::{SubstFault, Value};

verus! {

/// A project's caddy configuration: a block of configuration per host.
#[derive(Debug)]
pub struct Caddy {
    pub hostnames: Vec<(String, String)>,
}

/// Caddy configuration gathered over projects.
#[derive(Debug)]
pub struct CaddyBuilder {
    pub hostnames: Vec<(String, String)>,
}

/// The Caddyfile to write out.
#[derive(Debug)]
pub struct GenCaddy {
    pub hostnames: Vec<(String, String)>,
}

impl CaddyBuilder {
    /// Every host appears once in the gathered table.
    pub open spec fn wf(&self) -> bool {
        keys_of(self.hostnames@).no_duplicates()
    }
}

impl Default for CaddyBuilder {
    fn default() -> (r: CaddyBuilder)
        ensures
            r.hostnames@.len() == 0,
            r.wf(),
    {
        CaddyBuilder { hostnames: Vec::new() }
    }
}

/// A project's blocks gathered one by one, in order: a block for a host
/// already gathered is appended to that host's configuration.
pub open spec fn caddy_add_spec(cur: Map<Seq<char>, Seq<char>>, hs: Seq<(String, String)>) -> Map<
    Seq<char>,
    Seq<char>,
>
    decreases hs.len(),
{
    if hs.len() == 0 {
        cur
    } else {
        let m = caddy_add_spec(cur, hs.drop_last());
        let h = hs.last().0@;
        let c = hs.last().1@;
        if m.contains_key(h) {
            m.insert(h, m[h] + c)
        } else {
            m.insert(h, c)
        }
    }
}

/// The blocks of `hs` for host `h`, joined in order.
pub open spec fn joined_blocks(hs: Seq<(String, String)>, h: Seq<char>) -> Seq<char>
    decreases hs.len(),
{
    if hs.len() == 0 {
        Seq::empty()
    } else {
        joined_blocks(hs.drop_last(), h) + if hs.last().0@ == h {
            hs.last().1@
        } else {
            Seq::<char>::empty()
        }
    }
}

/// Gathering a project's blocks gives the union of the hosts, and each
/// host's configuration is what was gathered for it followed by the
/// project's blocks for it, in order.
pub proof fn lemma_caddy_add_union(cur: Map<Seq<char>, Seq<char>>, hs: Seq<(String, String)>)
    ensures
        caddy_add_spec(cur, hs).dom() == cur.dom() + hs.map_values(|e: (String, String)| e.0@).to_set(),
        forall|h: Seq<char>| #[trigger] caddy_add_spec(cur, hs).contains_key(h) ==> caddy_add_spec(cur, hs)[h] == (if cur.contains_key(h) {
            cur[h]
        } else {
            Seq::<char>::empty()
        }) + joined_blocks(hs, h),
    decreases hs.len(),
{
    let keys = hs.map_values(|e: (String, String)| e.0@);
    if hs.len() == 0 {
        assert(keys.to_set() =~= Set::<Seq<char>>::empty());
        assert(cur.dom() + keys.to_set() =~= cur.dom());
        assert forall|h: Seq<char>| #[trigger] caddy_add_spec(cur, hs).contains_key(h) implies caddy_add_spec(cur, hs)[h] == (if cur.contains_key(h) {
            cur[h]
        } else {
            Seq::<char>::empty()
        }) + joined_blocks(hs, h) by {
            assert(cur[h] + Seq::<char>::empty() =~= cur[h]);
        }
    } else {
        let init = hs.drop_last();
        lemma_caddy_add_union(cur, init);
        let ikeys = init.map_values(|e: (String, String)| e.0@);
        let c = hs.last().0@;
        assert(keys =~= ikeys.push(c));
        assert(keys.to_set() =~= ikeys.to_set().insert(c)) by {
            assert forall|q: Seq<char>| keys.contains(q) <==> (q == c || ikeys.contains(q)) by {
                if keys.contains(q) {
                    let j: int = choose|j: int| 0 <= j < keys.len() && keys[j] == q;
                    if j < ikeys.len() {
                        assert(ikeys[j] == q);
                    }
                }
                if ikeys.contains(q) {
                    let j: int = choose|j: int| 0 <= j < ikeys.len() && ikeys[j] == q;
                    assert(keys[j] == q);
                }
                if q == c {
                    assert(keys[keys.len() - 1] == q);
                }
            }
        }
        let m = caddy_add_spec(cur, init);
        assert(caddy_add_spec(cur, hs).dom() =~= m.dom().insert(c));
        assert forall|h: Seq<char>| #[trigger] caddy_add_spec(cur, hs).contains_key(h) implies caddy_add_spec(cur, hs)[h] == (if cur.contains_key(h) {
            cur[h]
        } else {
            Seq::<char>::empty()
        }) + joined_blocks(hs, h) by {
            let base = if cur.contains_key(h) { cur[h] } else { Seq::<char>::empty() };
            if h == c {
                if m.contains_key(h) {
                    assert(base + joined_blocks(init, h) + hs.last().1@ =~= base + (joined_blocks(init, h) + hs.last().1@));
                } else {
                    assert(!cur.contains_key(h));
                    assert(!ikeys.to_set().contains(h));
                    assert(joined_blocks(init, h) =~= Seq::<char>::empty()) by {
                        lemma_joined_absent(init, h);
                    }
                    assert(base + (joined_blocks(init, h) + hs.last().1@) =~= hs.last().1@);
                }
            } else {
                assert(joined_blocks(init, h) + Seq::<char>::empty() =~= joined_blocks(init, h));
            }
        }
    }
}

/// With each host once, the blocks joined for a host are its own block.
proof fn lemma_joined_distinct(hs: Seq<(String, String)>, h: Seq<char>)
    requires
        keys_of(hs).no_duplicates(),
    ensures
        joined_blocks(hs, h) == match table_get(hs, h) {
            Some(c) => c@,
            None => Seq::<char>::empty(),
        },
    decreases hs.len(),
{
    if hs.len() > 0 {
        let init = hs.drop_last();
        let ks = keys_of(hs);
        let iks = keys_of(init);
        assert(ks =~= iks.push(hs.last().0@));
        assert(iks.no_duplicates()) by {
            assert forall|a: int, b: int| 0 <= a < b < iks.len() implies iks[a] != iks[b] by {
                assert(ks[a] == iks[a] && ks[b] == iks[b]);
            }
        }
        lemma_joined_distinct(init, h);
        lemma_key_index_push(iks, hs.last().0@, h);
        lemma_key_index(iks, h);
        if hs.last().0@ == h {
            assert(!iks.contains(h)) by {
                if iks.contains(h) {
                    let j: int = choose|j: int| 0 <= j < iks.len() && iks[j] == h;
                    assert(ks[j] == ks[ks.len() - 1]);
                }
            }
            assert(!init.map_values(|e: (String, String)| e.0@).contains(h)) by {
                assert(init.map_values(|e: (String, String)| e.0@) =~= iks);
            }
            lemma_joined_absent(init, h);
            assert(Seq::<char>::empty() + hs.last().1@ =~= hs.last().1@);
        } else {
            assert(joined_blocks(init, h) + Seq::<char>::empty() =~= joined_blocks(init, h));
            if key_index(iks, h) >= 0 {
                assert(hs[key_index(iks, h)] == init[key_index(iks, h)]);
            }
        }
    }
}

/// Gathering a project's blocks, where the project names each host once:
/// a host's configuration is what was gathered for it followed by the
/// project's block for it.
pub proof fn lemma_caddy_add_hosts(cur: Map<Seq<char>, Seq<char>>, other: Caddy)
    requires
        other.wf(),
    ensures
        forall|h: Seq<char>| #[trigger] caddy_add_spec(cur, other.hostnames@).contains_key(h)
            ==> caddy_add_spec(cur, other.hostnames@)[h] == (if cur.contains_key(h) {
                cur[h]
            } else {
                Seq::<char>::empty()
            }) + match table_get(other.hostnames@, h) {
                Some(c) => c@,
                None => Seq::<char>::empty(),
            },
{
    lemma_caddy_add_union(cur, other.hostnames@);
    assert forall|h: Seq<char>| #[trigger] caddy_add_spec(cur, other.hostnames@).contains_key(h)
        implies caddy_add_spec(cur, other.hostnames@)[h] == (if cur.contains_key(h) {
            cur[h]
        } else {
            Seq::<char>::empty()
        }) + match table_get(other.hostnames@, h) {
            Some(c) => c@,
            None => Seq::<char>::empty(),
        } by {
        lemma_joined_distinct(other.hostnames@, h);
    }
}

proof fn lemma_joined_absent(hs: Seq<(String, String)>, h: Seq<char>)
    requires
        !hs.map_values(|e: (String, String)| e.0@).contains(h),
    ensures
        joined_blocks(hs, h) == Seq::<char>::empty(),
    decreases hs.len(),
{
    if hs.len() > 0 {
        let init = hs.drop_last();
        let ik = init.map_values(|e: (String, String)| e.0@);
        let k = hs.map_values(|e: (String, String)| e.0@);
        assert(!ik.contains(h)) by {
            if ik.contains(h) {
                let j: int = choose|j: int| 0 <= j < ik.len() && ik[j] == h;
                assert(k[j] == h);
            }
        }
        lemma_joined_absent(init, h);
        assert(hs.map_values(|e: (String, String)| e.0@)[hs.len() - 1] == hs.last().0@);
        assert(Seq::<char>::empty() + Seq::<char>::empty() =~= Seq::<char>::empty());
    }
}

impl Caddy {
    /// Each host appears once.
    pub open spec fn wf(&self) -> bool {
        keys_of(self.hostnames@).no_duplicates()
    }

    /// A project's configuration with variables substituted into each
    /// block (the first substitution that fails decides the error).
    pub fn from_raw(hostnames: Vec<(String, String)>, vars: &Value) -> (r: Result<Caddy, LoadConfigError>)
        ensures
            keys_of(hostnames@).no_duplicates() ==> (r matches Ok(c) ==> c.wf()),
            match r {
                Ok(c) => pair_keys(c.hostnames@) == pair_keys(hostnames@)
                    && subst_list_spec(vars@, pair_values(hostnames@)) == Ok::<Seq<Seq<char>>, SubstFault>(
                        pair_values(c.hostnames@),
                    ),
                Err(e) => subst_list_spec(vars@, pair_values(hostnames@)) matches Err(f)
                    && e matches LoadConfigError::SubstitutionError(se) && se@ == f,
            },
    {
        let ghost hk = keys_of(hostnames@);
        assert(hk =~= pair_keys(hostnames@));
        match substitute_vars_dict(vars, hostnames) {
            Ok(h) => {
                assert(keys_of(h@) =~= pair_keys(h@));
                Ok(Caddy { hostnames: h })
            },
            Err(e) => Err(e),
        }
    }
}

impl CaddyBuilder {
    /// Gathers a project's configuration (see `caddy_add_spec`); this
    /// never fails.
    pub fn add(&mut self, other: &Caddy) -> (r: Result<(), LoadConfigError>)
        ensures
            r is Ok,
            text_map(final(self).hostnames@) == caddy_add_spec(text_map(old(self).hostnames@), other.hostnames@),
            old(self).wf() ==> final(self).wf(),
    {
        let ghost m0 = text_map(self.hostnames@);
        let mut i: usize = 0;
        assert(other.hostnames@.take(0) =~= Seq::<(String, String)>::empty());
        while i < other.hostnames.len()
            invariant
                i <= other.hostnames@.len(),
                m0 == text_map(old(self).hostnames@),
                text_map(self.hostnames@) == caddy_add_spec(m0, other.hostnames@.take(i as int)),
                old(self).wf() ==> self.wf(),
            decreases other.hostnames.len() - i,
        {
            let ghost hs = other.hostnames@;
            proof {
                assert(hs.take(i + 1).drop_last() =~= hs.take(i as int));
                assert(hs.take(i + 1).last() == hs[i as int]);
            }
            let host = &other.hostnames[i].0;
            let config = &other.hostnames[i].1;
            let ghost before = self.hostnames@;
            let value = match find_entry(&self.hostnames, host.as_str()) {
                Some(j) => {
                    let mut cur = self.hostnames[j].1.clone();
                    cur.append(config.as_str());
                    cur
                },
                None => config.clone(),
            };
            table_insert(&mut self.hostnames, host.clone(), value);
            assert(text_map(self.hostnames@) =~= text_map(before).insert(host@, value@));
            i = i + 1;
        }
        assert(other.hostnames@.take(other.hostnames@.len() as int) =~= other.hostnames@);
        Ok(())
    }

    /// The Caddyfile to write out.
    pub fn build(self) -> (r: GenCaddy)
        ensures
            r.hostnames == self.hostnames,
    {
        GenCaddy { hostnames: self.hostnames }
    }
}

/// One host's block in the Caddyfile.
pub open spec fn caddy_block_spec(host: Seq<char>, config: Seq<char>) -> Seq<char> {
    "\n"@ + host + " {\n"@ + config + "\n}\n"@
}

/// The Caddyfile: the hosts' blocks in order.
pub open spec fn caddyfile_spec(hs: Seq<(String, String)>) -> Seq<char>
    decreases hs.len(),
{
    if hs.len() == 0 {
        Seq::empty()
    } else {
        caddyfile_spec(hs.drop_last()) + caddy_block_spec(hs.last().0@, hs.last().1@)
    }
}

impl GenCaddy {
    /// Whether there is no host to configure.
    pub fn is_empty(&self) -> (r: bool)
        ensures
            r == (self.hostnames@.len() == 0),
    {
        self.hostnames.len() == 0
    }

    /// The text of the Caddyfile (see `caddyfile_spec`).
    pub fn caddyfile(&self) -> (r: String)
        ensures
            r@ == caddyfile_spec(self.hostnames@),
    {
        let mut r = String::new();
        let mut i: usize = 0;
        while i < self.hostnames.len()
            invariant
                i <= self.hostnames@.len(),
                r@ == caddyfile_spec(self.hostnames@.take(i as int)),
            decreases self.hostnames.len() - i,
        {
            proof {
                let hs = self.hostnames@;
                assert(hs.take(i + 1).drop_last() =~= hs.take(i as int));
                assert(hs.take(i + 1).last() == hs[i as int]);
            }
            r.append("\n");
            r.append(self.hostnames[i].0.as_str());
            r.append(" {\n");
            r.append(self.hostnames[i].1.as_str());
            r.append("\n}\n");
            i = i + 1;
        }
        assert(self.hostnames@.take(self.hostnames@.len() as int) =~= self.hostnames@);
        r
    }
}

} // verus!
