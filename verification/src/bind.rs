//! DNS zones that projects declare, gathered over all projects into one
//! bind9 configuration, and the text of that configuration.

use vstd::prelude::*;
use crate::keyed::{
    lemma_key_index, lemma_keys_of_update,
    clone_string_pairs, clone_strings, contains_str, find_entry, key_index, keys_of, table_get,
    table_insert, str_eq,
};
use crate::matched::text_set;
use crate::text::str_to_string;

verus! {

broadcast use vstd::seq_lib::group_seq_properties;

/// A zone as a project declares it.
#[derive(Debug)]
pub struct Zone {
    pub ip: String,
    pub nameservers: Vec<(String, String)>,
    pub cnames: Vec<String>,
}

/// The zones a project declares.
#[derive(Debug)]
pub struct Bind {
    pub zones: Vec<(String, Zone)>,
}

/// A zone gathered over projects.
#[derive(Debug)]
pub struct ZoneBuilder {
    pub ip: Option<String>,
    pub nameservers: Vec<(String, String)>,
    pub cnames: Vec<String>,
}

/// Zones gathered over projects.
#[derive(Debug)]
pub struct BindBuilder {
    pub zones: Vec<(String, ZoneBuilder)>,
}

/// A zone to write out.
#[derive(Debug)]
pub struct GenZone {
    pub ip: Option<String>,
    pub nameservers: Vec<(String, String)>,
    pub cnames: Vec<String>,
}

/// The zones to write out.
#[derive(Debug)]
pub struct GenBind {
    pub zones: Vec<(String, GenZone)>,
}

/// Why zones of two projects could not be gathered.
#[derive(Debug)]
pub enum BindError {
    /// The zone's address differs from the one gathered (gathered, new).
    ZoneIpMismatch(String, String),
    /// A nameserver's address differs from the one gathered (new,
    /// gathered).
    NameserverIpMismatch(String, String),
    /// A name is declared twice.
    CnameExists(String),
}

/// Why zones could not be gathered, as plain values.
pub enum BindFault {
    ZoneIp(Seq<char>, Seq<char>),
    NameserverIp(Seq<char>, Seq<char>),
    Cname(Seq<char>),
}

impl View for BindError {
    type V = BindFault;

    open spec fn view(&self) -> BindFault {
        match self {
            BindError::ZoneIpMismatch(a, b) => BindFault::ZoneIp(a@, b@),
            BindError::NameserverIpMismatch(a, b) => BindFault::NameserverIp(a@, b@),
            BindError::CnameExists(n) => BindFault::Cname(n@),
        }
    }
}

/// A table from text to text as a map (first entry of a key counts).
pub open spec fn text_map(es: Seq<(String, String)>) -> Map<Seq<char>, Seq<char>> {
    Map::new(|k: Seq<char>| table_get(es, k) is Some, |k: Seq<char>| table_get(es, k)->0@)
}

/// A gathered zone as plain values.
pub struct ZoneModel {
    pub ip: Option<Seq<char>>,
    pub nameservers: Map<Seq<char>, Seq<char>>,
    pub cnames: Set<Seq<char>>,
}

/// The plain values of a gathered zone.
pub open spec fn zone_builder_view(z: ZoneBuilder) -> ZoneModel {
    ZoneModel {
        ip: match z.ip {
            Some(i) => Some(i@),
            None => None,
        },
        nameservers: text_map(z.nameservers@),
        cnames: text_set(z.cnames@),
    }
}

/// Nameservers added one by one, in order; one already gathered with
/// another address is an error.
pub open spec fn nameservers_fold(cur: Map<Seq<char>, Seq<char>>, ns: Seq<(String, String)>) -> Result<
    Map<Seq<char>, Seq<char>>,
    BindFault,
>
    decreases ns.len(),
{
    if ns.len() == 0 {
        Ok(cur)
    } else {
        match nameservers_fold(cur, ns.drop_last()) {
            Err(e) => Err(e),
            Ok(m) => {
                let n = ns.last().0@;
                let ip = ns.last().1@;
                if m.contains_key(n) && m[n] != ip {
                    Err(BindFault::NameserverIp(ip, m[n]))
                } else {
                    Ok(m.insert(n, ip))
                }
            },
        }
    }
}

/// Names added one by one, in order; one already present is an error.
pub open spec fn cnames_fold(cur: Set<Seq<char>>, cs: Seq<String>) -> Result<Set<Seq<char>>, BindFault>
    decreases cs.len(),
{
    if cs.len() == 0 {
        Ok(cur)
    } else {
        match cnames_fold(cur, cs.drop_last()) {
            Err(e) => Err(e),
            Ok(s) => {
                let c = cs.last()@;
                if s.contains(c) {
                    Err(BindFault::Cname(c))
                } else {
                    Ok(s.insert(c))
                }
            },
        }
    }
}

/// Whether nameservers can be gathered onto `cur`: every one agrees on
/// its address with `cur` and with every other entry of the same name.
pub open spec fn nameservers_agree(cur: Map<Seq<char>, Seq<char>>, ns: Seq<(String, String)>) -> bool {
    &&& forall|j: int| 0 <= j < ns.len() && cur.contains_key(#[trigger] ns[j].0@) ==> cur[ns[j].0@] == ns[j].1@
    &&& forall|i: int, j: int| 0 <= i < j < ns.len() && #[trigger] ns[i].0@ == #[trigger] ns[j].0@ ==> ns[i].1@ == ns[j].1@
}

/// Gathering nameservers succeeds exactly when they agree (see
/// `nameservers_agree`); the result then holds what `cur` held and every
/// gathered nameserver with its address, and nothing else.
pub proof fn lemma_nameservers_union(cur: Map<Seq<char>, Seq<char>>, ns: Seq<(String, String)>)
    ensures
        nameservers_fold(cur, ns) is Ok <==> nameservers_agree(cur, ns),
        nameservers_fold(cur, ns) matches Ok(m) ==> {
            &&& m.dom() == cur.dom() + ns.map_values(|e: (String, String)| e.0@).to_set()
            &&& forall|k: Seq<char>| #[trigger] cur.contains_key(k) ==> m[k] == cur[k]
            &&& forall|j: int| 0 <= j < ns.len() ==> m[#[trigger] ns[j].0@] == ns[j].1@
        },
    decreases ns.len(),
{
    let keys = ns.map_values(|e: (String, String)| e.0@);
    if ns.len() == 0 {
        assert(keys.to_set() =~= Set::<Seq<char>>::empty());
        assert(cur.dom() + keys.to_set() =~= cur.dom());
    } else {
        let init = ns.drop_last();
        let last = ns.last();
        lemma_nameservers_union(cur, init);
        let ikeys = init.map_values(|e: (String, String)| e.0@);
        assert(keys =~= ikeys.push(last.0@));
        assert(keys.to_set() =~= ikeys.to_set().insert(last.0@)) by {
            assert forall|q: Seq<char>| keys.contains(q) <==> (q == last.0@ || ikeys.contains(q)) by {
                if keys.contains(q) {
                    let j: int = choose|j: int| 0 <= j < keys.len() && keys[j] == q;
                    if j < ikeys.len() {
                        assert(ikeys[j] == q);
                    }
                }
                if ikeys.contains(q) {
                    let j: int = choose|j: int| 0 <= j < ikeys.len() && ikeys[j] == q;
                    assert(keys[j] == q);
                }
                if q == last.0@ {
                    assert(keys[keys.len() - 1] == q);
                }
            }
        }
        assert forall|j: int| 0 <= j < init.len() implies #[trigger] init[j] == ns[j] by {}
        match nameservers_fold(cur, init) {
            Ok(m) => {
                let n = last.0@;
                let ip = last.1@;
                if m.contains_key(n) && m[n] != ip {
                    // The conflict comes from `cur` or from an earlier entry.
                    if cur.contains_key(n) {
                        if !ikeys.to_set().contains(n) {
                            assert(m[n] == cur[n]);
                        } else {
                            let j: int = choose|j: int| 0 <= j < ikeys.len() && ikeys[j] == n;
                            assert(init[j].0@ == n);
                            assert(m[init[j].0@] == init[j].1@);
                        }
                        assert(!nameservers_agree(cur, ns)) by {
                            if nameservers_agree(cur, ns) {
                                assert(ns[ns.len() - 1].0@ == n);
                                if ikeys.to_set().contains(n) {
                                    let j: int = choose|j: int| 0 <= j < ikeys.len() && ikeys[j] == n;
                                    assert(ns[j].0@ == ns[ns.len() - 1].0@);
                                }
                            }
                        }
                    } else {
                        assert(ikeys.to_set().contains(n));
                        let j: int = choose|j: int| 0 <= j < ikeys.len() && ikeys[j] == n;
                        assert(init[j].0@ == n);
                        assert(m[init[j].0@] == init[j].1@);
                        assert(ns[j].0@ == ns[ns.len() - 1].0@);
                    }
                } else {
                    let m2 = m.insert(n, ip);
                    assert(m2.dom() =~= cur.dom() + keys.to_set());
                    assert(nameservers_agree(cur, init) ==> nameservers_agree(cur, ns)) by {
                        if nameservers_agree(cur, init) {
                            assert forall|i: int, j: int| 0 <= i < j < ns.len() && #[trigger] ns[i].0@ == #[trigger] ns[j].0@
                                implies ns[i].1@ == ns[j].1@ by {
                                if j == ns.len() - 1 {
                                    assert(init[i].0@ == n);
                                    assert(ikeys[i] == init[i].0@);
                                    assert(ikeys.to_set().contains(n));
                                    assert(m[init[i].0@] == init[i].1@);
                                } else {
                                    assert(init[i] == ns[i] && init[j] == ns[j]);
                                }
                            }
                            assert forall|j: int| 0 <= j < ns.len() && cur.contains_key(#[trigger] ns[j].0@) implies cur[ns[j].0@] == ns[j].1@ by {
                                if j == ns.len() - 1 {
                                    if m.contains_key(n) {
                                        assert(m[n] == cur[n]);
                                    }
                                } else {
                                    assert(init[j] == ns[j]);
                                }
                            }
                        }
                    }
                    assert forall|k: Seq<char>| #[trigger] cur.contains_key(k) implies m2[k] == cur[k] by {
                        if k == n {
                            assert(m.contains_key(n));
                        }
                    }
                    assert forall|j: int| 0 <= j < ns.len() implies m2[#[trigger] ns[j].0@] == ns[j].1@ by {
                        if j < ns.len() - 1 && ns[j].0@ != n {
                            assert(init[j] == ns[j]);
                        } else if j < ns.len() - 1 {
                            assert(init[j] == ns[j]);
                            assert(ikeys[j] == init[j].0@);
                            assert(ikeys.to_set().contains(n));
                            assert(m.contains_key(n));
                        }
                    }
                }
            },
            Err(_) => {
                assert(!nameservers_agree(cur, ns)) by {
                    if nameservers_agree(cur, ns) {
                        assert(nameservers_agree(cur, init)) by {
                            assert forall|i: int, j: int| 0 <= i < j < init.len() && #[trigger] init[i].0@ == #[trigger] init[j].0@
                                implies init[i].1@ == init[j].1@ by {
                                assert(init[i] == ns[i] && init[j] == ns[j]);
                            }
                            assert forall|j: int| 0 <= j < init.len() && cur.contains_key(#[trigger] init[j].0@) implies cur[init[j].0@] == init[j].1@ by {
                                assert(init[j] == ns[j]);
                            }
                        }
                    }
                }
            },
        }
    }
}

/// Whether names can be gathered onto `cur`: none is there already and
/// none comes twice.
pub open spec fn cnames_fresh(cur: Set<Seq<char>>, cs: Seq<String>) -> bool {
    &&& forall|j: int| 0 <= j < cs.len() ==> !cur.contains(#[trigger] cs[j]@)
    &&& forall|i: int, j: int| 0 <= i < j < cs.len() ==> #[trigger] cs[i]@ != #[trigger] cs[j]@
}

/// Gathering names succeeds exactly when they are fresh (see
/// `cnames_fresh`), and then gives the union.
pub proof fn lemma_cnames_union(cur: Set<Seq<char>>, cs: Seq<String>)
    ensures
        cnames_fold(cur, cs) is Ok <==> cnames_fresh(cur, cs),
        cnames_fold(cur, cs) matches Ok(s) ==> s == cur + text_set(cs),
    decreases cs.len(),
{
    if cs.len() == 0 {
        assert(text_set(cs) =~= Set::<Seq<char>>::empty());
        assert(cur + text_set(cs) =~= cur);
    } else {
        let init = cs.drop_last();
        let c = cs.last()@;
        lemma_cnames_union(cur, init);
        let v = cs.map_values(|s: String| s@);
        let iv = init.map_values(|s: String| s@);
        assert(v =~= iv.push(c));
        assert(text_set(cs) =~= text_set(init).insert(c)) by {
            assert forall|q: Seq<char>| v.contains(q) <==> (q == c || iv.contains(q)) by {
                if v.contains(q) {
                    let j: int = choose|j: int| 0 <= j < v.len() && v[j] == q;
                    if j < iv.len() {
                        assert(iv[j] == q);
                    }
                }
                if iv.contains(q) {
                    let j: int = choose|j: int| 0 <= j < iv.len() && iv[j] == q;
                    assert(v[j] == q);
                }
                if q == c {
                    assert(v[v.len() - 1] == q);
                }
            }
        }
        assert forall|j: int| 0 <= j < init.len() implies #[trigger] init[j] == cs[j] by {}
        if cnames_fresh(cur, cs) {
            assert(cnames_fresh(cur, init)) by {
                assert forall|i: int, j: int| 0 <= i < j < init.len() implies #[trigger] init[i]@ != #[trigger] init[j]@ by {
                    assert(init[i] == cs[i] && init[j] == cs[j]);
                }
                assert forall|j: int| 0 <= j < init.len() implies !cur.contains(#[trigger] init[j]@) by {
                    assert(init[j] == cs[j]);
                }
            }
            assert(!text_set(init).contains(c)) by {
                if iv.contains(c) {
                    let j: int = choose|j: int| 0 <= j < iv.len() && iv[j] == c;
                    assert(cs[j]@ != cs[cs.len() - 1]@);
                }
            }
            assert(!cur.contains(cs[cs.len() - 1]@));
        } else if cnames_fold(cur, init) is Ok {
            let s0 = cnames_fold(cur, init)->Ok_0;
            if !s0.contains(c) {
                // Then the names so far were fresh and `c` is new, so all are.
                assert(cnames_fresh(cur, cs)) by {
                    assert forall|i: int, j: int| 0 <= i < j < cs.len() implies #[trigger] cs[i]@ != #[trigger] cs[j]@ by {
                        if j == cs.len() - 1 {
                            assert(iv[i] == cs[i]@);
                        } else {
                            assert(init[i] == cs[i] && init[j] == cs[j]);
                        }
                    }
                    assert forall|j: int| 0 <= j < cs.len() implies !cur.contains(#[trigger] cs[j]@) by {
                        if j < cs.len() - 1 {
                            assert(init[j] == cs[j]);
                        }
                    }
                }
            }
        }
    }
}

/// A zone gathered into a gathered zone: the addresses must agree, then
/// the nameservers and then the names are added.
pub open spec fn zone_add_spec(b: ZoneModel, z: Zone) -> Result<ZoneModel, BindFault> {
    if b.ip matches Some(i) && i != z.ip@ {
        Err(BindFault::ZoneIp(b.ip->0, z.ip@))
    } else {
        match nameservers_fold(b.nameservers, z.nameservers@) {
            Err(e) => Err(e),
            Ok(ns) => match cnames_fold(b.cnames, z.cnames@) {
                Err(e) => Err(e),
                Ok(cs) => Ok(ZoneModel { ip: Some(z.ip@), nameservers: ns, cnames: cs }),
            },
        }
    }
}

/// Nameservers added one by one, in order, until one is already
/// gathered with another address: what is gathered at that point, and
/// the conflict, if one was met.
pub open spec fn nameservers_steps(cur: Map<Seq<char>, Seq<char>>, ns: Seq<(String, String)>) -> (
    Map<Seq<char>, Seq<char>>,
    Option<BindFault>,
)
    decreases ns.len(),
{
    if ns.len() == 0 {
        (cur, None)
    } else {
        let (m, f) = nameservers_steps(cur, ns.drop_last());
        if f is Some {
            (m, f)
        } else {
            let n = ns.last().0@;
            let ip = ns.last().1@;
            if m.contains_key(n) && m[n] != ip {
                (m, Some(BindFault::NameserverIp(ip, m[n])))
            } else {
                (m.insert(n, ip), None)
            }
        }
    }
}

/// Names added one by one, in order, until one is already present: what
/// is gathered at that point, and the name met twice, if any.
pub open spec fn cnames_steps(cur: Set<Seq<char>>, cs: Seq<String>) -> (Set<Seq<char>>, Option<BindFault>)
    decreases cs.len(),
{
    if cs.len() == 0 {
        (cur, None)
    } else {
        let (s, f) = cnames_steps(cur, cs.drop_last());
        if f is Some {
            (s, f)
        } else {
            let c = cs.last()@;
            if s.contains(c) {
                (s, Some(BindFault::Cname(c)))
            } else {
                (s.insert(c), None)
            }
        }
    }
}

/// What a gathered zone holds after a zone is added to it, whether or not
/// the adding fails: nothing changes on an address conflict; otherwise
/// the address is recorded, the nameservers are added up to a conflict,
/// and then, if none was met, the names up to one met twice.
pub open spec fn zone_add_state(b: ZoneModel, z: Zone) -> ZoneModel {
    if b.ip matches Some(i) && i != z.ip@ {
        b
    } else {
        let (ns, f) = nameservers_steps(b.nameservers, z.nameservers@);
        if f is Some {
            ZoneModel { ip: Some(z.ip@), nameservers: ns, cnames: b.cnames }
        } else {
            ZoneModel { ip: Some(z.ip@), nameservers: ns, cnames: cnames_steps(b.cnames, z.cnames@).0 }
        }
    }
}

/// `nameservers_fold` is the outcome of `nameservers_steps`.
proof fn lemma_nameservers_steps(cur: Map<Seq<char>, Seq<char>>, ns: Seq<(String, String)>)
    ensures
        nameservers_fold(cur, ns) == match nameservers_steps(cur, ns) {
            (m, None) => Ok::<Map<Seq<char>, Seq<char>>, BindFault>(m),
            (_, Some(f)) => Err(f),
        },
    decreases ns.len(),
{
    if ns.len() > 0 {
        lemma_nameservers_steps(cur, ns.drop_last());
    }
}

/// `cnames_fold` is the outcome of `cnames_steps`.
proof fn lemma_cnames_steps(cur: Set<Seq<char>>, cs: Seq<String>)
    ensures
        cnames_fold(cur, cs) == match cnames_steps(cur, cs) {
            (s, None) => Ok::<Set<Seq<char>>, BindFault>(s),
            (_, Some(f)) => Err(f),
        },
    decreases cs.len(),
{
    if cs.len() > 0 {
        lemma_cnames_steps(cur, cs.drop_last());
    }
}

proof fn lemma_nameservers_steps_stop(cur: Map<Seq<char>, Seq<char>>, ns: Seq<(String, String)>, n: int)
    requires
        0 <= n <= ns.len(),
        nameservers_steps(cur, ns.take(n)).1 is Some,
    ensures
        nameservers_steps(cur, ns) == nameservers_steps(cur, ns.take(n)),
    decreases ns.len() - n,
{
    if n < ns.len() {
        assert(ns.take(n + 1).drop_last() =~= ns.take(n));
        lemma_nameservers_steps_stop(cur, ns, n + 1);
    } else {
        assert(ns.take(n) =~= ns);
    }
}

proof fn lemma_cnames_steps_stop(cur: Set<Seq<char>>, cs: Seq<String>, n: int)
    requires
        0 <= n <= cs.len(),
        cnames_steps(cur, cs.take(n)).1 is Some,
    ensures
        cnames_steps(cur, cs) == cnames_steps(cur, cs.take(n)),
    decreases cs.len() - n,
{
    if n < cs.len() {
        assert(cs.take(n + 1).drop_last() =~= cs.take(n));
        lemma_cnames_steps_stop(cur, cs, n + 1);
    } else {
        assert(cs.take(n) =~= cs);
    }
}

fn clone_opt_string(s: &Option<String>) -> (r: Option<String>)
    ensures
        r == *s,
{
    match s {
        Some(v) => Some(v.clone()),
        None => None,
    }
}

impl ZoneBuilder {
    /// An empty gathered zone.
    pub fn new() -> (r: ZoneBuilder)
        ensures
            r.ip is None,
            r.nameservers@.len() == 0,
            r.cnames@.len() == 0,
            r.wf(),
    {
        let r = ZoneBuilder { ip: None, nameservers: Vec::new(), cnames: Vec::new() };
        assert(r.cnames@.map_values(|s: String| s@) =~= Seq::<Seq<char>>::empty());
        r
    }

    /// Every nameserver and every name appears once in the gathered zone.
    pub open spec fn wf(&self) -> bool {
        &&& keys_of(self.nameservers@).no_duplicates()
        &&& self.cnames@.map_values(|s: String| s@).no_duplicates()
    }

    /// Gathers a project's zone (see `zone_add_spec`). What is gathered
    /// before a conflict stays gathered (see `zone_add_state`).
    pub fn add(&mut self, zone: &Zone) -> (r: Result<(), BindError>)
        ensures
            old(self).wf() ==> final(self).wf(),
            zone_builder_view(*final(self)) == zone_add_state(zone_builder_view(*old(self)), *zone),
            match r {
                Ok(()) => zone_add_spec(zone_builder_view(*old(self)), *zone) == Ok::<ZoneModel, BindFault>(
                    zone_builder_view(*final(self)),
                ),
                Err(e) => zone_add_spec(zone_builder_view(*old(self)), *zone) == Err::<ZoneModel, BindFault>(e@),
            },
    {
        let ghost b0 = zone_builder_view(*self);
        proof {
            lemma_nameservers_steps(b0.nameservers, zone.nameservers@);
            lemma_cnames_steps(b0.cnames, zone.cnames@);
        }
        match &self.ip {
            Some(ip) => {
                if !str_eq(ip.as_str(), zone.ip.as_str()) {
                    return Err(BindError::ZoneIpMismatch(ip.clone(), zone.ip.clone()));
                }
            },
            None => {
                self.ip = Some(zone.ip.clone());
            },
        }
        assert(zone_builder_view(*self).ip == Some(zone.ip@));
        let ghost zs = zone.nameservers@;
        let mut i: usize = 0;
        assert(zs.take(0) =~= Seq::<(String, String)>::empty());
        while i < zone.nameservers.len()
            invariant
                i <= zs.len(),
                zs == zone.nameservers@,
                b0 == zone_builder_view(*old(self)),
                !(b0.ip matches Some(x) && x != zone.ip@),
                nameservers_fold(b0.nameservers, zs) == match nameservers_steps(b0.nameservers, zs) {
                    (m, None) => Ok::<Map<Seq<char>, Seq<char>>, BindFault>(m),
                    (_, Some(f)) => Err(f),
                },
                cnames_fold(b0.cnames, zone.cnames@) == match cnames_steps(b0.cnames, zone.cnames@) {
                    (c, None) => Ok::<Set<Seq<char>>, BindFault>(c),
                    (_, Some(f)) => Err(f),
                },
                zone_builder_view(*self).ip == Some(zone.ip@),
                text_set(self.cnames@) == b0.cnames,
                self.cnames@ == old(self).cnames@,
                old(self).wf() ==> self.wf(),
                nameservers_steps(b0.nameservers, zs.take(i as int)) == (text_map(self.nameservers@), None::<BindFault>),
            decreases zone.nameservers.len() - i,
        {
            proof {
                assert(zs.take(i + 1).drop_last() =~= zs.take(i as int));
                assert(zs.take(i + 1).last() == zs[i as int]);
            }
            let name = &zone.nameservers[i].0;
            let ip = &zone.nameservers[i].1;
            match find_entry(&self.nameservers, name.as_str()) {
                Some(j) => {
                    if !str_eq(self.nameservers[j].1.as_str(), ip.as_str()) {
                        let e = BindError::NameserverIpMismatch(ip.clone(), self.nameservers[j].1.clone());
                        proof {
                            assert(text_map(self.nameservers@).contains_key(name@));
                            assert(text_map(self.nameservers@)[name@] == self.nameservers@[j as int].1@);
                            lemma_nameservers_steps_stop(b0.nameservers, zs, i + 1);
                        }
                        return Err(e);
                    }
                },
                None => {},
            }
            let ghost before = self.nameservers@;
            table_insert(&mut self.nameservers, name.clone(), ip.clone());
            assert(text_map(self.nameservers@) =~= text_map(before).insert(name@, ip@));
            i = i + 1;
        }
        assert(zs.take(zs.len() as int) =~= zs);
        let ghost zc = zone.cnames@;
        let mut k: usize = 0;
        assert(zc.take(0) =~= Seq::<String>::empty());
        while k < zone.cnames.len()
            invariant
                k <= zc.len(),
                zc == zone.cnames@,
                b0 == zone_builder_view(*old(self)),
                !(b0.ip matches Some(x) && x != zone.ip@),
                nameservers_fold(b0.nameservers, zone.nameservers@) == Ok::<Map<Seq<char>, Seq<char>>, BindFault>(
                    text_map(self.nameservers@),
                ),
                nameservers_steps(b0.nameservers, zone.nameservers@) == (text_map(self.nameservers@), None::<BindFault>),
                cnames_fold(b0.cnames, zc) == match cnames_steps(b0.cnames, zc) {
                    (c, None) => Ok::<Set<Seq<char>>, BindFault>(c),
                    (_, Some(f)) => Err(f),
                },
                zone_builder_view(*self).ip == Some(zone.ip@),
                cnames_steps(b0.cnames, zc.take(k as int)) == (text_set(self.cnames@), None::<BindFault>),
                old(self).wf() ==> self.wf(),
            decreases zone.cnames.len() - k,
        {
            proof {
                assert(zc.take(k + 1).drop_last() =~= zc.take(k as int));
                assert(zc.take(k + 1).last() == zc[k as int]);
            }
            let name = &zone.cnames[k];
            if contains_str(&self.cnames, name.as_str()) {
                proof {
                    assert(text_set(self.cnames@).contains(name@));
                    lemma_cnames_steps_stop(b0.cnames, zc, k + 1);
                }
                return Err(BindError::CnameExists(name.clone()));
            }
            let ghost before = self.cnames@;
            self.cnames.push(name.clone());
            proof {
                let bs = before.map_values(|s: String| s@);
                assert(self.cnames@.map_values(|s: String| s@) =~= bs.push(name@));
                bs.lemma_push_to_set_commute(name@);
                assert(text_set(self.cnames@) == text_set(before).insert(name@));
                assert(!bs.contains(name@)) by {
                    if bs.contains(name@) {
                        assert(bs.to_set().contains(name@));
                    }
                }
                if bs.no_duplicates() {
                    let ns = bs.push(name@);
                    assert forall|a: int, b: int| 0 <= a < b < ns.len() implies ns[a] != ns[b] by {
                        if b == bs.len() {
                            assert(ns[a] == bs[a]);
                        } else {
                            assert(ns[a] == bs[a] && ns[b] == bs[b]);
                        }
                    }
                }
            }
            k = k + 1;
        }
        assert(zc.take(zc.len() as int) =~= zc);
        Ok(())
    }

    /// The zone to write out.
    pub fn build(self) -> (r: GenZone)
        ensures
            r.ip == self.ip,
            r.nameservers == self.nameservers,
            r.cnames == self.cnames,
    {
        GenZone { ip: self.ip, nameservers: self.nameservers, cnames: self.cnames }
    }
}

/// Gathered zones by name, as plain values.
pub open spec fn bind_view(zs: Seq<(String, ZoneBuilder)>) -> Map<Seq<char>, ZoneModel> {
    Map::new(
        |k: Seq<char>| table_get(zs, k) is Some,
        |k: Seq<char>| zone_builder_view(table_get(zs, k)->0),
    )
}

/// The plain values of a zone to write out.
pub open spec fn gen_zone_view(z: GenZone) -> ZoneModel {
    ZoneModel {
        ip: match z.ip {
            Some(i) => Some(i@),
            None => None,
        },
        nameservers: text_map(z.nameservers@),
        cnames: text_set(z.cnames@),
    }
}

/// Zones to write out by name, as plain values.
pub open spec fn gen_bind_view(zs: Seq<(String, GenZone)>) -> Map<Seq<char>, ZoneModel> {
    Map::new(
        |k: Seq<char>| table_get(zs, k) is Some,
        |k: Seq<char>| gen_zone_view(table_get(zs, k)->0),
    )
}

/// A zone with nothing gathered.
pub open spec fn empty_zone() -> ZoneModel {
    ZoneModel { ip: None, nameservers: Map::empty(), cnames: Set::empty() }
}

/// A project's zones gathered one by one, in order, each into the zone
/// of its name (an empty one when the name is new).
pub open spec fn bind_add_spec(cur: Map<Seq<char>, ZoneModel>, zones: Seq<(String, Zone)>) -> Result<
    Map<Seq<char>, ZoneModel>,
    BindFault,
>
    decreases zones.len(),
{
    if zones.len() == 0 {
        Ok(cur)
    } else {
        match bind_add_spec(cur, zones.drop_last()) {
            Err(e) => Err(e),
            Ok(m) => {
                let name = zones.last().0@;
                let base = if m.contains_key(name) {
                    m[name]
                } else {
                    empty_zone()
                };
                match zone_add_spec(base, zones.last().1) {
                    Err(e) => Err(e),
                    Ok(z) => Ok(m.insert(name, z)),
                }
            },
        }
    }
}

/// Gathering a zone succeeds exactly when its address agrees with the
/// one gathered, its nameservers agree and its names are fresh; the
/// result has the zone's address, and the union of the nameservers and
/// of the names.
pub proof fn lemma_zone_add(b: ZoneModel, z: Zone)
    ensures
        zone_add_spec(b, z) is Ok <==> (b.ip is None || b.ip == Some(z.ip@))
            && nameservers_agree(b.nameservers, z.nameservers@) && cnames_fresh(b.cnames, z.cnames@),
        zone_add_spec(b, z) matches Ok(r) ==> {
            &&& r.ip == Some(z.ip@)
            &&& r.cnames == b.cnames + text_set(z.cnames@)
            &&& r.nameservers.dom() == b.nameservers.dom() + z.nameservers@.map_values(|e: (String, String)| e.0@).to_set()
            &&& forall|k: Seq<char>| #[trigger] b.nameservers.contains_key(k) ==> r.nameservers[k] == b.nameservers[k]
        },
{
    lemma_nameservers_union(b.nameservers, z.nameservers@);
    lemma_cnames_union(b.cnames, z.cnames@);
}

/// The names of a project's zones.
pub open spec fn zone_names(zones: Seq<(String, Zone)>) -> Set<Seq<char>> {
    zones.map_values(|e: (String, Zone)| e.0@).to_set()
}

/// Gathering a project's zones keeps the zones gathered before and adds
/// those of the project: the names of the result are the union.
pub proof fn lemma_bind_add_names(cur: Map<Seq<char>, ZoneModel>, zones: Seq<(String, Zone)>)
    ensures
        bind_add_spec(cur, zones) matches Ok(m) ==> m.dom() == cur.dom() + zone_names(zones),
    decreases zones.len(),
{
    if zones.len() == 0 {
        assert(zone_names(zones) =~= Set::<Seq<char>>::empty());
        assert(cur.dom() + zone_names(zones) =~= cur.dom());
    } else {
        let init = zones.drop_last();
        lemma_bind_add_names(cur, init);
        let v = zones.map_values(|e: (String, Zone)| e.0@);
        let iv = init.map_values(|e: (String, Zone)| e.0@);
        let c = zones.last().0@;
        assert(v =~= iv.push(c));
        assert(zone_names(zones) =~= zone_names(init).insert(c)) by {
            assert forall|q: Seq<char>| v.contains(q) <==> (q == c || iv.contains(q)) by {
                if v.contains(q) {
                    let j: int = choose|j: int| 0 <= j < v.len() && v[j] == q;
                    if j < iv.len() {
                        assert(iv[j] == q);
                    }
                }
                if iv.contains(q) {
                    let j: int = choose|j: int| 0 <= j < iv.len() && iv[j] == q;
                    assert(v[j] == q);
                }
                if q == c {
                    assert(v[v.len() - 1] == q);
                }
            }
        }
        if let Ok(m) = bind_add_spec(cur, zones) {
            let m0 = bind_add_spec(cur, init)->Ok_0;
            assert(m.dom() =~= m0.dom().insert(c));
        }
    }
}

/// The zones of a list named `k`, in order.
pub open spec fn named_zones(zones: Seq<(String, Zone)>, k: Seq<char>) -> Seq<Zone>
    decreases zones.len(),
{
    if zones.len() == 0 {
        Seq::empty()
    } else if zones.last().0@ == k {
        named_zones(zones.drop_last(), k).push(zones.last().1)
    } else {
        named_zones(zones.drop_last(), k)
    }
}

/// Zones gathered one by one, in order, into the gathered zone `b`.
pub open spec fn zones_fold(b: ZoneModel, zs: Seq<Zone>) -> Result<ZoneModel, BindFault>
    decreases zs.len(),
{
    if zs.len() == 0 {
        Ok(b)
    } else {
        match zones_fold(b, zs.drop_last()) {
            Err(e) => Err(e),
            Ok(m) => zone_add_spec(m, zs.last()),
        }
    }
}

/// What is gathered for zone `k` before: its gathered zone, or an empty
/// one.
pub open spec fn zone_base(cur: Map<Seq<char>, ZoneModel>, k: Seq<char>) -> ZoneModel {
    if cur.contains_key(k) {
        cur[k]
    } else {
        empty_zone()
    }
}

/// Gathering a project's zones, over all zones at once: it succeeds
/// exactly when, for every name, the project's zones of that name (a name
/// may come more than once) gather one after the other onto what was
/// gathered for it (see `zones_fold` and `lemma_zone_add`); each such zone
/// then holds that result, and every other zone stays as it was.
pub proof fn lemma_bind_add_by_name(cur: Map<Seq<char>, ZoneModel>, zones: Seq<(String, Zone)>)
    ensures
        bind_add_spec(cur, zones) is Ok <==> forall|k: Seq<char>| #[trigger] zones_fold(zone_base(cur, k), named_zones(zones, k)) is Ok,
        bind_add_spec(cur, zones) matches Ok(m) ==> forall|k: Seq<char>| #[trigger] m.contains_key(k) || zone_names(zones).contains(k) || cur.contains_key(k)
            ==> (if zone_names(zones).contains(k) {
                m.contains_key(k) && Ok::<ZoneModel, BindFault>(m[k]) == zones_fold(zone_base(cur, k), named_zones(zones, k))
            } else {
                m.contains_key(k) == cur.contains_key(k) && m[k] == cur[k]
            }),
    decreases zones.len(),
{
    lemma_bind_add_names(cur, zones);
    if zones.len() == 0 {
        assert(zone_names(zones) =~= Set::<Seq<char>>::empty());
    } else {
        let init = zones.drop_last();
        let n = zones.last().0@;
        let z = zones.last().1;
        lemma_bind_add_by_name(cur, init);
        lemma_bind_add_names(cur, init);
        let v = zones.map_values(|e: (String, Zone)| e.0@);
        let iv = init.map_values(|e: (String, Zone)| e.0@);
        assert(v =~= iv.push(n));
        assert(zone_names(zones) =~= zone_names(init).insert(n)) by {
            assert forall|q: Seq<char>| v.contains(q) <==> (q == n || iv.contains(q)) by {
                if v.contains(q) {
                    let j: int = choose|j: int| 0 <= j < v.len() && v[j] == q;
                    if j < iv.len() {
                        assert(iv[j] == q);
                    }
                }
                if iv.contains(q) {
                    let j: int = choose|j: int| 0 <= j < iv.len() && iv[j] == q;
                    assert(v[j] == q);
                }
                if q == n {
                    assert(v[v.len() - 1] == q);
                }
            }
        }
        assert forall|k: Seq<char>| k != n implies #[trigger] named_zones(zones, k) == named_zones(init, k) by {}
        assert(named_zones(zones, n) == named_zones(init, n).push(z));
        assert(named_zones(init, n).push(z).drop_last() =~= named_zones(init, n));
        // Zones not named before keep what was gathered for them.
        assert forall|k: Seq<char>| !zone_names(init).contains(k) implies #[trigger] named_zones(init, k) == Seq::<Zone>::empty() by {
            lemma_named_zones_absent(init, k);
        }
        match bind_add_spec(cur, init) {
            Ok(m0) => {
                let b = if m0.contains_key(n) { m0[n] } else { empty_zone() };
                assert(zones_fold(zone_base(cur, n), named_zones(init, n)) == Ok::<ZoneModel, BindFault>(b)) by {
                    if !zone_names(init).contains(n) {
                        assert(named_zones(init, n) == Seq::<Zone>::empty());
                        if cur.contains_key(n) {
                            assert(m0.contains_key(n));
                        } else {
                            assert(!m0.contains_key(n));
                        }
                    }
                }
                assert(zones_fold(zone_base(cur, n), named_zones(zones, n)) == zone_add_spec(b, z));
                if bind_add_spec(cur, zones) is Ok {
                    assert forall|k: Seq<char>| #[trigger] zones_fold(zone_base(cur, k), named_zones(zones, k)) is Ok by {
                        if k != n {
                            assert(zones_fold(zone_base(cur, k), named_zones(init, k)) is Ok);
                        }
                    }
                } else {
                    assert(zones_fold(zone_base(cur, n), named_zones(zones, n)) is Err);
                }
            },
            Err(_) => {
                let k0 = choose|k: Seq<char>| !(#[trigger] zones_fold(zone_base(cur, k), named_zones(init, k)) is Ok);
                if k0 == n {
                    assert(zones_fold(zone_base(cur, n), named_zones(zones, n)) is Err);
                } else {
                    assert(zones_fold(zone_base(cur, k0), named_zones(zones, k0)) is Err);
                }
            },
        }
    }
}

/// A name that comes once gathers its one zone (see `lemma_zone_add`).
pub proof fn lemma_zones_fold_one(b: ZoneModel, z: Zone)
    ensures
        zones_fold(b, seq![z]) == zone_add_spec(b, z),
{
    let zs = seq![z];
    assert(zs.drop_last() =~= Seq::<Zone>::empty());
    assert(zones_fold(b, zs.drop_last()) == Ok::<ZoneModel, BindFault>(b));
    assert(zs.last() == z);
}

proof fn lemma_named_zones_absent(zones: Seq<(String, Zone)>, k: Seq<char>)
    requires
        !zone_names(zones).contains(k),
    ensures
        named_zones(zones, k) == Seq::<Zone>::empty(),
    decreases zones.len(),
{
    if zones.len() > 0 {
        let init = zones.drop_last();
        let v = zones.map_values(|e: (String, Zone)| e.0@);
        let iv = init.map_values(|e: (String, Zone)| e.0@);
        assert(v[v.len() - 1] == zones.last().0@);
        assert(!zone_names(init).contains(k)) by {
            if iv.contains(k) {
                let j: int = choose|j: int| 0 <= j < iv.len() && iv[j] == k;
                assert(v[j] == k);
            }
        }
        lemma_named_zones_absent(init, k);
    }
}

/// A project's zones gathered one by one, in order, until one conflicts:
/// what is gathered at that point, and the conflict, if one was met. A
/// zone already gathered keeps what was added to it before its conflict;
/// a new zone that conflicts with itself is not gathered.
pub open spec fn bind_steps(cur: Map<Seq<char>, ZoneModel>, zones: Seq<(String, Zone)>) -> (
    Map<Seq<char>, ZoneModel>,
    Option<BindFault>,
)
    decreases zones.len(),
{
    if zones.len() == 0 {
        (cur, None)
    } else {
        let (m, f) = bind_steps(cur, zones.drop_last());
        if f is Some {
            (m, f)
        } else {
            let name = zones.last().0@;
            let z = zones.last().1;
            if m.contains_key(name) {
                (
                    m.insert(name, zone_add_state(m[name], z)),
                    match zone_add_spec(m[name], z) {
                        Ok(_) => None,
                        Err(e) => Some(e),
                    },
                )
            } else {
                match zone_add_spec(empty_zone(), z) {
                    Ok(zm) => (m.insert(name, zm), None),
                    Err(e) => (m, Some(e)),
                }
            }
        }
    }
}

/// What adding a zone gives is what it leaves gathered, when it succeeds.
proof fn lemma_zone_add_state(b: ZoneModel, z: Zone)
    ensures
        zone_add_spec(b, z) matches Ok(zm) ==> zm == zone_add_state(b, z),
{
    lemma_nameservers_steps(b.nameservers, z.nameservers@);
    lemma_cnames_steps(b.cnames, z.cnames@);
}

/// `bind_add_spec` is the outcome of `bind_steps`.
proof fn lemma_bind_steps(cur: Map<Seq<char>, ZoneModel>, zones: Seq<(String, Zone)>)
    ensures
        bind_add_spec(cur, zones) == match bind_steps(cur, zones) {
            (m, None) => Ok::<Map<Seq<char>, ZoneModel>, BindFault>(m),
            (_, Some(f)) => Err(f),
        },
    decreases zones.len(),
{
    if zones.len() > 0 {
        lemma_bind_steps(cur, zones.drop_last());
        let (m, f) = bind_steps(cur, zones.drop_last());
        if f is None {
            let name = zones.last().0@;
            if m.contains_key(name) {
                lemma_zone_add_state(m[name], zones.last().1);
            }
        }
    }
}

proof fn lemma_bind_steps_stop(cur: Map<Seq<char>, ZoneModel>, zs: Seq<(String, Zone)>, n: int)
    requires
        0 <= n <= zs.len(),
        bind_steps(cur, zs.take(n)).1 is Some,
    ensures
        bind_steps(cur, zs) == bind_steps(cur, zs.take(n)),
    decreases zs.len() - n,
{
    if n < zs.len() {
        assert(zs.take(n + 1).drop_last() =~= zs.take(n));
        lemma_bind_steps_stop(cur, zs, n + 1);
    } else {
        assert(zs.take(n) =~= zs);
    }
}

/// The gathered zone of entry `j`, lent out for writing.
fn zone_builder_at<'a>(zones: &'a mut Vec<(String, ZoneBuilder)>, j: usize) -> (r: &'a mut ZoneBuilder)
    requires
        j < old(zones)@.len(),
    ensures
        *r == old(zones)@[j as int].1,
        final(zones)@ == old(zones)@.update(j as int, (old(zones)@[j as int].0, *final(r))),
{
    &mut zones[j].1
}

/// Writing entry `j` of a table keeps its key, so every other key reads
/// as before.
proof fn lemma_table_get_update(es: Seq<(String, ZoneBuilder)>, j: int, z: ZoneBuilder, key: Seq<char>)
    requires
        0 <= j < es.len(),
    ensures
        table_get(es.update(j, (es[j].0, z)), key) == if key_index(keys_of(es), key) == j {
            Some(z)
        } else {
            table_get(es, key)
        },
{
    lemma_keys_of_update(es, j, (es[j].0, z));
    assert(keys_of(es).update(j, es[j].0@) =~= keys_of(es));
    lemma_key_index(keys_of(es), key);
}

impl BindBuilder {
    /// Every zone appears once, and every gathered zone is well formed
    /// (see `ZoneBuilder::wf`).
    pub open spec fn wf(&self) -> bool {
        &&& keys_of(self.zones@).no_duplicates()
        &&& forall|k: Seq<char>| #[trigger] table_get(self.zones@, k) matches Some(z) ==> z.wf()
    }

    /// Gathered zones to start from.
    pub fn new(zones: Vec<(String, ZoneBuilder)>) -> (r: Self)
        ensures
            r.zones == zones,
    {
        Self { zones }
    }

    /// Gathers a project's zones (see `bind_add_spec`). What is gathered
    /// before a conflict stays gathered (see `bind_steps`).
    pub fn add(&mut self, bind: &Bind) -> (r: Result<(), BindError>)
        ensures
            old(self).wf() ==> final(self).wf(),
            bind_view(final(self).zones@) == bind_steps(bind_view(old(self).zones@), bind.zones@).0,
            match r {
                Ok(()) => bind_add_spec(bind_view(old(self).zones@), bind.zones@) == Ok::<
                    Map<Seq<char>, ZoneModel>,
                    BindFault,
                >(bind_view(final(self).zones@)),
                Err(e) => bind_add_spec(bind_view(old(self).zones@), bind.zones@) == Err::<
                    Map<Seq<char>, ZoneModel>,
                    BindFault,
                >(e@),
            },
    {
        let ghost m0 = bind_view(self.zones@);
        let ghost zs = bind.zones@;
        proof {
            lemma_bind_steps(m0, zs);
        }
        let mut i: usize = 0;
        assert(zs.take(0) =~= Seq::<(String, Zone)>::empty());
        while i < bind.zones.len()
            invariant
                i <= zs.len(),
                zs == bind.zones@,
                m0 == bind_view(old(self).zones@),
                bind_add_spec(m0, zs) == match bind_steps(m0, zs) {
                    (m, None) => Ok::<Map<Seq<char>, ZoneModel>, BindFault>(m),
                    (_, Some(f)) => Err(f),
                },
                bind_steps(m0, zs.take(i as int)) == (bind_view(self.zones@), None::<BindFault>),
                old(self).wf() ==> self.wf(),
            decreases bind.zones.len() - i,
        {
            proof {
                assert(zs.take(i + 1).drop_last() =~= zs.take(i as int));
                assert(zs.take(i + 1).last() == zs[i as int]);
            }
            let name = &bind.zones[i].0;
            let zone = &bind.zones[i].1;
            let ghost before = self.zones@;
            let ghost mv = bind_view(before);
            proof {
                lemma_key_index(keys_of(before), name@);
            }
            match find_entry(&self.zones, name.as_str()) {
                Some(j) => {
                    assert(mv.contains_key(name@) && mv[name@] == zone_builder_view(before[j as int].1));
                    let ghost wf0 = self.wf();
                    proof {
                        if wf0 {
                            assert(table_get(before, name@) == Some(before[j as int].1));
                        }
                    }
                    let zb = zone_builder_at(&mut self.zones, j);
                    let res = zb.add(zone);
                    proof {
                        if wf0 {
                            assert forall|k: Seq<char>| #[trigger] table_get(self.zones@, k) is Some implies table_get(self.zones@, k)->0.wf() by {
                                lemma_table_get_update(before, j as int, self.zones@[j as int].1, k);
                                assert(self.zones@ == before.update(j as int, (before[j as int].0, self.zones@[j as int].1)));
                            }
                            lemma_keys_of_update(before, j as int, self.zones@[j as int]);
                            assert(keys_of(self.zones@) =~= keys_of(before));
                        }
                    }
                    proof {
                        lemma_keys_of_update(before, j as int, self.zones@[j as int]);
                        assert(keys_of(self.zones@) =~= keys_of(before));
                        assert(bind_view(self.zones@) =~= mv.insert(name@, zone_builder_view(self.zones@[j as int].1))) by {
                            assert forall|k: Seq<char>| #[trigger] bind_view(self.zones@).contains_key(k) implies bind_view(self.zones@)[k]
                                == mv.insert(name@, zone_builder_view(self.zones@[j as int].1))[k] by {
                                lemma_key_index(keys_of(before), k);
                            }
                        }
                    }
                    match res {
                        Ok(()) => {},
                        Err(e) => {
                            proof {
                                lemma_bind_steps_stop(m0, zs, i + 1);
                            }
                            return Err(e);
                        },
                    }
                },
                None => {
                    assert(!mv.contains_key(name@));
                    let mut zb = ZoneBuilder::new();
                    proof {
                        assert(text_map(Seq::<(String, String)>::empty()) =~= Map::empty());
                        lemma_empty_text_set();
                    }
                    match zb.add(zone) {
                        Ok(()) => {},
                        Err(e) => {
                            proof {
                                lemma_bind_steps_stop(m0, zs, i + 1);
                            }
                            return Err(e);
                        },
                    }
                    let ghost zv = zone_builder_view(zb);
                    table_insert(&mut self.zones, name.clone(), zb);
                    proof {
                        if old(self).wf() {
                            assert forall|k: Seq<char>| #[trigger] table_get(self.zones@, k) is Some implies table_get(self.zones@, k)->0.wf() by {
                                if k != name@ {
                                    assert(table_get(self.zones@, k) == table_get(before, k));
                                }
                            }
                        }
                    }
                    assert(bind_view(self.zones@) =~= mv.insert(name@, zv));
                },
            }
            i = i + 1;
        }
        assert(zs.take(zs.len() as int) =~= zs);
        Ok(())
    }

    /// The zones to write out, in the same order.
    pub fn build(self) -> (r: GenBind)
        ensures
            gen_bind_view(r.zones@) == bind_view(self.zones@),
            r.zones@.len() == self.zones@.len(),
            forall|i: int| 0 <= i < r.zones@.len() ==> #[trigger] r.zones@[i].0 == self.zones@[i].0
                && r.zones@[i].1.ip == self.zones@[i].1.ip
                && r.zones@[i].1.nameservers@ == self.zones@[i].1.nameservers@
                && r.zones@[i].1.cnames@ == self.zones@[i].1.cnames@,
    {
        let mut out: Vec<(String, GenZone)> = Vec::new();
        let mut i: usize = 0;
        while i < self.zones.len()
            invariant
                i <= self.zones@.len(),
                out@.len() == i,
                forall|j: int| 0 <= j < i ==> #[trigger] out@[j].0 == self.zones@[j].0
                    && out@[j].1.ip == self.zones@[j].1.ip
                    && out@[j].1.nameservers@ == self.zones@[j].1.nameservers@
                    && out@[j].1.cnames@ == self.zones@[j].1.cnames@,
            decreases self.zones.len() - i,
        {
            let z = &self.zones[i].1;
            out.push((
                self.zones[i].0.clone(),
                GenZone {
                    ip: clone_opt_string(&z.ip),
                    nameservers: clone_string_pairs(&z.nameservers),
                    cnames: clone_strings(&z.cnames),
                },
            ));
            assert(out@[i as int].0 == self.zones@[i as int].0);
            i = i + 1;
        }
        proof {
            let a = out@;
            let b = self.zones@;
            assert(keys_of(a) =~= keys_of(b));
            assert forall|k: Seq<char>| #[trigger] gen_bind_view(a).contains_key(k) == bind_view(b).contains_key(k) by {}
            assert forall|k: Seq<char>| gen_bind_view(a).contains_key(k) implies #[trigger] gen_bind_view(a)[k] == bind_view(b)[k] by {
                crate::keyed::lemma_key_index(keys_of(a), k);
                let idx = key_index(keys_of(a), k);
                assert(a[idx].0 == b[idx].0);
            }
            assert(gen_bind_view(a) =~= bind_view(b));
        }
        GenBind { zones: out }
    }
}

/// An empty list as a set is empty.
proof fn lemma_empty_text_set()
    ensures
        text_set(Seq::<String>::empty()) == Set::<Seq<char>>::empty(),
{
    assert(text_set(Seq::<String>::empty()) =~= Set::<Seq<char>>::empty());
}

/// The Dockerfile of the generated bind9 image.
pub const BIND_DOCKERFILE: &'static str = "\nFROM ubuntu/bind9:latest\n\nCOPY ./named.conf.local /etc/bind/named.conf.local\nCOPY ./named.conf.options /etc/bind/named.conf.options\nCOPY ./db.* /etc/bind/\n";

/// The generated `named.conf.options`.
pub const NAMED_CONF_OPTIONS: &'static str = "\noptions {\n\tdirectory \"/var/cache/bind\";\n\n\t// If there is a firewall between you and nameservers you want\n\t// to talk to, you may need to fix the firewall to allow multiple\n\t// ports to talk.  See http://www.kb.cert.org/vuls/id/800113\n\n\t// If your ISP provided one or more IP addresses for stable \n\t// nameservers, you probably want to use them as forwarders.  \n\t// Uncomment the following block, and insert the addresses replacing \n\t// the all-0's placeholder.\n    allow-query { any; };\n\n    recursion yes;\n\tforwarders {\n\t\t8.8.8.8;\n        8.8.4.4;\n        1.1.1.1;\n\t};\n\n\t//========================================================================\n\t// If BIND logs error messages about the root key being expired,\n\t// you will need to update your keys.  See https://www.isc.org/bind-keys\n\t//========================================================================\n\tdnssec-validation auto;\n\n\tauth-nxdomain no;    # conform to RFC1035\n\tlisten-on-v6 { any; };\n};\n";

/// `named.conf.local` around its zone declarations.
pub open spec fn named_conf_local_spec(zones: Seq<Seq<char>>) -> Seq<char> {
    "\n//\n// Do any local configuration here\n//\n\n// Consider adding the 1918 zones here, if they are not used in your\n// organization\n//include \"/etc/bind/zones.rfc1918\";\n"@ + zone_decls_spec(zones) + "\n"@
}

/// The declaration of one zone in `named.conf.local`.
pub open spec fn zone_decl_spec(zone: Seq<char>) -> Seq<char> {
    "\nzone \""@ + zone + "\" {\n        type master;\n        file \"/etc/bind/db."@ + zone + "\";\n};\n"@
}

/// The declarations of zones, in order.
pub open spec fn zone_decls_spec(zones: Seq<Seq<char>>) -> Seq<char>
    decreases zones.len(),
{
    if zones.len() == 0 {
        Seq::empty()
    } else {
        zone_decls_spec(zones.drop_last()) + zone_decl_spec(zones.last())
    }
}

/// A nameserver record of a zone.
pub open spec fn ns_record_spec(nameserver: Seq<char>, zone: Seq<char>) -> Seq<char> {
    "\n@         IN    NS      "@ + nameserver + "."@ + zone + ".\n"@
}

/// An address record.
pub open spec fn a_record_spec(name: Seq<char>, ip: Seq<char>) -> Seq<char> {
    "\n"@ + name + "       IN    A       "@ + ip + "\n"@
}

/// An alias record of a subdomain of a zone.
pub open spec fn cname_record_spec(subdomain: Seq<char>, zone: Seq<char>) -> Seq<char> {
    "\n"@ + subdomain + "."@ + zone + ".       IN    CNAME       "@ + zone + ".\n"@
}

/// The zone file around its records.
pub open spec fn db_zone_spec(zone: Seq<char>, records: Seq<char>) -> Seq<char> {
    "\n$TTL    10800\n@       IN      SOA     "@ + zone + ". root."@ + zone + ". (\n                              7         ; Serial\n                          10800         ; Refresh\n                           3600         ; Retry\n                        1209600         ; Expire\n                           3600 )       ; Negative Cache TTL\n;\n"@ + records + "\n"@
}

/// Nameserver records, in order.
pub open spec fn ns_records_spec(ns: Seq<(String, String)>, zone: Seq<char>) -> Seq<char>
    decreases ns.len(),
{
    if ns.len() == 0 {
        Seq::empty()
    } else {
        ns_records_spec(ns.drop_last(), zone) + ns_record_spec(ns.last().0@, zone)
    }
}

/// Address records of nameservers, in order.
pub open spec fn a_records_spec(ns: Seq<(String, String)>) -> Seq<char>
    decreases ns.len(),
{
    if ns.len() == 0 {
        Seq::empty()
    } else {
        a_records_spec(ns.drop_last()) + a_record_spec(ns.last().0@, ns.last().1@)
    }
}

/// Alias records, in order.
pub open spec fn cname_records_spec(cs: Seq<String>, zone: Seq<char>) -> Seq<char>
    decreases cs.len(),
{
    if cs.len() == 0 {
        Seq::empty()
    } else {
        cname_records_spec(cs.drop_last(), zone) + cname_record_spec(cs.last()@, zone)
    }
}

/// The records of a zone: its nameservers, the zone's own address, the
/// nameservers' addresses and the aliases.
pub open spec fn zone_records_spec(z: GenZone, zone: Seq<char>) -> Seq<char> {
    ns_records_spec(z.nameservers@, zone) + match z.ip {
        Some(ip) => a_record_spec("@"@, ip@),
        None => Seq::empty(),
    } + a_records_spec(z.nameservers@) + cname_records_spec(z.cnames@, zone)
}

/// Whether `t` occurs in `s` as a run of consecutive characters.
pub open spec fn has_segment(s: Seq<char>, t: Seq<char>) -> bool {
    exists|i: int| 0 <= i && i + t.len() <= s.len() && #[trigger] s.subrange(i, i + t.len()) == t
}

proof fn lemma_segment_within(p: Seq<char>, s: Seq<char>, q: Seq<char>, t: Seq<char>)
    requires
        has_segment(s, t),
    ensures
        has_segment(p + s + q, t),
{
    let i: int = choose|i: int| 0 <= i && i + t.len() <= s.len() && #[trigger] s.subrange(i, i + t.len()) == t;
    let w = p + s + q;
    assert(w.subrange(p.len() + i, p.len() + i + t.len()) =~= s.subrange(i, i + t.len()));
}

/// The nameserver records of a zone hold one `NS` record
/// `@ IN NS <nameserver>.<zone>.` for every nameserver, each exactly as
/// bind9 reads it, and nothing else: their length is the sum of those
/// records' lengths.
pub proof fn lemma_ns_records(ns: Seq<(String, String)>, zone: Seq<char>)
    ensures
        forall|j: int| 0 <= j < ns.len() ==> has_segment(
            ns_records_spec(ns, zone),
            "\n@         IN    NS      "@ + (#[trigger] ns[j]).0@ + "."@ + zone + ".\n"@,
        ),
        ns_records_spec(ns, zone).len() == ns_lengths(ns, zone),
    decreases ns.len(),
{
    if ns.len() > 0 {
        let init = ns.drop_last();
        lemma_ns_records(init, zone);
        let a = ns_records_spec(init, zone);
        let b = "\n@         IN    NS      "@ + ns.last().0@ + "."@ + zone + ".\n"@;
        assert(ns_records_spec(ns, zone) == a + b);
        assert forall|j: int| 0 <= j < ns.len() implies has_segment(
            ns_records_spec(ns, zone),
            "\n@         IN    NS      "@ + (#[trigger] ns[j]).0@ + "."@ + zone + ".\n"@,
        ) by {
            if j < init.len() {
                assert(init[j] == ns[j]);
                lemma_segment_within(Seq::empty(), a, b, "\n@         IN    NS      "@ + init[j].0@ + "."@ + zone + ".\n"@);
                assert(Seq::<char>::empty() + a + b =~= a + b);
            } else {
                assert((a + b).subrange(a.len() as int, (a.len() + b.len()) as int) =~= b);
            }
        }
    }
}

/// The total length of one `NS` record per nameserver.
pub open spec fn ns_lengths(ns: Seq<(String, String)>, zone: Seq<char>) -> nat
    decreases ns.len(),
{
    if ns.len() == 0 {
        0
    } else {
        ns_lengths(ns.drop_last(), zone) + ("\n@         IN    NS      "@ + ns.last().0@ + "."@ + zone + ".\n"@).len()
    }
}

/// The zone file of a zone holds an `NS` record for every one of its
/// nameservers (see `lemma_ns_records`).
pub proof fn lemma_zone_file_ns(z: GenZone, zone: Seq<char>)
    ensures
        forall|j: int| 0 <= j < z.nameservers@.len() ==> has_segment(
            db_zone_spec(zone, zone_records_spec(z, zone)),
            "\n@         IN    NS      "@ + (#[trigger] z.nameservers@[j]).0@ + "."@ + zone + ".\n"@,
        ),
{
    lemma_ns_records(z.nameservers@, zone);
    let ns = ns_records_spec(z.nameservers@, zone);
    let rest = match z.ip {
        Some(ip) => a_record_spec("@"@, ip@),
        None => Seq::empty(),
    } + a_records_spec(z.nameservers@) + cname_records_spec(z.cnames@, zone);
    let head = "\n$TTL    10800\n@       IN      SOA     "@ + zone + ". root."@ + zone + ". (\n                              7         ; Serial\n                          10800         ; Refresh\n                           3600         ; Retry\n                        1209600         ; Expire\n                           3600 )       ; Negative Cache TTL\n;\n"@;
    assert(db_zone_spec(zone, zone_records_spec(z, zone)) =~= head + ns + (rest + "\n"@));
    assert forall|j: int| 0 <= j < z.nameservers@.len() implies has_segment(
        db_zone_spec(zone, zone_records_spec(z, zone)),
        "\n@         IN    NS      "@ + (#[trigger] z.nameservers@[j]).0@ + "."@ + zone + ".\n"@,
    ) by {
        lemma_segment_within(head, ns, rest + "\n"@, "\n@         IN    NS      "@ + z.nameservers@[j].0@ + "."@ + zone + ".\n"@);
    }
}

impl GenBind {
    /// Whether there is no zone to write out.
    pub fn is_empty(&self) -> (r: bool)
        ensures
            r == (self.zones@.len() == 0),
    {
        self.zones.len() == 0
    }

    /// The Dockerfile of the bind9 image.
    pub fn get_dockerfile(&self) -> (r: String)
        ensures
            r@ == BIND_DOCKERFILE@,
    {
        str_to_string(BIND_DOCKERFILE)
    }

    /// The `named.conf.options` file.
    pub fn get_named_conf_options(&self) -> (r: String)
        ensures
            r@ == NAMED_CONF_OPTIONS@,
    {
        str_to_string(NAMED_CONF_OPTIONS)
    }

    /// The `named.conf.local` file, declaring each zone in order.
    pub fn get_named_conf_local(&self) -> (r: String)
        ensures
            r@ == named_conf_local_spec(keys_of(self.zones@)),
    {
        let mut zones = String::new();
        let mut i: usize = 0;
        while i < self.zones.len()
            invariant
                i <= self.zones@.len(),
                zones@ == zone_decls_spec(keys_of(self.zones@).take(i as int)),
            decreases self.zones.len() - i,
        {
            let decl = self.get_named_conf_local_zone(self.zones[i].0.as_str());
            proof {
                let ks = keys_of(self.zones@);
                assert(ks.take(i + 1).drop_last() =~= ks.take(i as int));
                assert(ks.take(i + 1).last() == self.zones@[i as int].0@);
            }
            zones.append(decl.as_str());
            i = i + 1;
        }
        assert(keys_of(self.zones@).take(self.zones@.len() as int) =~= keys_of(self.zones@));
        let mut r = String::new();
        r.append("\n//\n// Do any local configuration here\n//\n\n// Consider adding the 1918 zones here, if they are not used in your\n// organization\n//include \"/etc/bind/zones.rfc1918\";\n");
        r.append(zones.as_str());
        r.append("\n");
        r
    }

    /// The declaration of one zone in `named.conf.local`.
    pub fn get_named_conf_local_zone(&self, zone: &str) -> (r: String)
        ensures
            r@ == zone_decl_spec(zone@),
    {
        let mut r = String::new();
        r.append("\nzone \"");
        r.append(zone);
        r.append("\" {\n        type master;\n        file \"/etc/bind/db.");
        r.append(zone);
        r.append("\";\n};\n");
        r
    }
}

impl GenZone {
    /// The zone file of zone `zone` (see `zone_records_spec`).
    pub fn get_db_zone(&self, zone: &str) -> (r: String)
        ensures
            r@ == db_zone_spec(zone@, zone_records_spec(*self, zone@)),
    {
        let mut ns = String::new();
        let mut a = String::new();
        let mut i: usize = 0;
        while i < self.nameservers.len()
            invariant
                i <= self.nameservers@.len(),
                ns@ == ns_records_spec(self.nameservers@.take(i as int), zone@),
                a@ == a_records_spec(self.nameservers@.take(i as int)),
            decreases self.nameservers.len() - i,
        {
            proof {
                let t = self.nameservers@;
                assert(t.take(i + 1).drop_last() =~= t.take(i as int));
                assert(t.take(i + 1).last() == t[i as int]);
            }
            let name = self.nameservers[i].0.as_str();
            let ip = self.nameservers[i].1.as_str();
            ns.append("\n@         IN    NS      ");
            ns.append(name);
            ns.append(".");
            ns.append(zone);
            ns.append(".\n");
            a.append("\n");
            a.append(name);
            a.append("       IN    A       ");
            a.append(ip);
            a.append("\n");
            i = i + 1;
        }
        assert(self.nameservers@.take(self.nameservers@.len() as int) =~= self.nameservers@);
        let mut cs = String::new();
        let mut k: usize = 0;
        while k < self.cnames.len()
            invariant
                k <= self.cnames@.len(),
                cs@ == cname_records_spec(self.cnames@.take(k as int), zone@),
            decreases self.cnames.len() - k,
        {
            proof {
                let t = self.cnames@;
                assert(t.take(k + 1).drop_last() =~= t.take(k as int));
                assert(t.take(k + 1).last() == t[k as int]);
            }
            let sub = self.cnames[k].as_str();
            cs.append("\n");
            cs.append(sub);
            cs.append(".");
            cs.append(zone);
            cs.append(".       IN    CNAME       ");
            cs.append(zone);
            cs.append(".\n");
            k = k + 1;
        }
        assert(self.cnames@.take(self.cnames@.len() as int) =~= self.cnames@);
        let mut records = String::new();
        records.append(ns.as_str());
        match &self.ip {
            Some(ip) => {
                records.append("\n");
                records.append("@");
                records.append("       IN    A       ");
                records.append(ip.as_str());
                records.append("\n");
            },
            None => {},
        }
        records.append(a.as_str());
        records.append(cs.as_str());
        let mut r = String::new();
        r.append("\n$TTL    10800\n@       IN      SOA     ");
        r.append(zone);
        r.append(". root.");
        r.append(zone);
        r.append(". (\n                              7         ; Serial\n                          10800         ; Refresh\n                           3600         ; Retry\n                        1209600         ; Expire\n                           3600 )       ; Negative Cache TTL\n;\n");
        r.append(records.as_str());
        r.append("\n");
        r
    }
}

} // verus!
