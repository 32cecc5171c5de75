//! Services of a project (containers built and run by the runner) and the
//! pipeline steps that deploy them.

use vstd::prelude::*;
use crate::keyed::{clone_string_pairs, clone_strings, find_entry, key_index, keys_of, str_eq};
use crate::pipeline::{
    BuildImageConfig, BuildImageConfigSource, BuildImageConfigSourcePath, Job, PortMapping,
    RunContainerConfig, Step, StopContainerConfig,
};
use crate::text::{parse_unsigned, parse_unsigned_spec, split_chars, split_spec, pieces_view, lemma_split_nonempty, str_chars, str_to_string, string_from_chars, IntParseError};
use crate::vars::SubstitutionError;

verus! {

/// Why a piece of configuration could not be loaded.
#[derive(Debug)]
pub enum LoadConfigError {
    /// Substituting variables into a value failed.
    SubstitutionError(SubstitutionError),
    /// A port mapping is not `[host:]host_port:container_port[/proto]`.
    InvalidPortMapping(String),
    /// A port number is not a number in `0..=65535`.
    InvalidPort(IntParseError),
    /// A value the loading needs was not provided (its name).
    MissingContext(String),
    /// A field does not hold a value of the expected form.
    InvalidValue(String),
    /// A file pattern (given first) is not a regular expression, with the
    /// error that compiling it gave.
    InvalidPattern(String, regex::Error),
    /// A field is missing that the other fields call for (its name).
    MissingField(String),
    /// A field is not allowed beside the others (its name).
    Disallowed(String),
}

/// A network declared by a project.
#[derive(Debug)]
pub struct Network {
    pub global: bool,
}

/// A volume declared by a project.
#[derive(Debug)]
pub struct Volume {
    pub global: bool,
}

/// Where a service's image is built from.
#[derive(Debug)]
pub struct Build {
    pub path: String,
    pub dockerfile: Option<String>,
}

/// A service: an image, maybe built from sources, run as a container.
#[derive(Debug)]
pub struct Service {
    pub container: String,
    pub build: Option<Build>,
    pub image: String,
    pub volumes: Vec<(String, String)>,
    pub networks: Vec<String>,
    pub ports: Vec<PortMapping>,
    pub command: Option<Vec<String>>,
    pub restart: String,
    pub env: Vec<(String, String)>,
}

/// The services, networks and volumes of a project.
#[derive(Debug)]
pub struct Services {
    pub services: Vec<(String, Service)>,
    pub networks: Vec<(String, Network)>,
    pub volumes: Vec<(String, Volume)>,
}

/// File name of a project's services configuration.
pub const SERVICES_CONFIG: &'static str = "services.yaml";

impl Default for Services {
    fn default() -> (r: Services)
        ensures
            r.services@.len() == 0,
            r.networks@.len() == 0,
            r.volumes@.len() == 0,
    {
        Services { services: Vec::new(), networks: Vec::new(), volumes: Vec::new() }
    }
}

fn clone_opt_string(s: &Option<String>) -> (r: Option<String>)
    ensures
        r == *s,
{
    match s {
        Some(v) => Some(v.clone()),
        None => None,
    }
}

fn clone_opt_strings(s: &Option<Vec<String>>) -> (r: Option<Vec<String>>)
    ensures
        match *s {
            Some(v) => r is Some && r->0@ == v@,
            None => r is None,
        },
{
    match s {
        Some(v) => Some(clone_strings(v)),
        None => None,
    }
}

/// A copy of a port mapping.
pub fn clone_port(p: &PortMapping) -> (r: PortMapping)
    ensures
        r == *p,
{
    PortMapping {
        container_port: p.container_port,
        proto: p.proto.clone(),
        host_port: p.host_port,
        host: clone_opt_string(&p.host),
    }
}

fn clone_ports(ps: &Vec<PortMapping>) -> (r: Vec<PortMapping>)
    ensures
        r@ == ps@,
{
    let mut r: Vec<PortMapping> = Vec::new();
    for i in 0..ps.len()
        invariant
            r@ == ps@.take(i as int),
    {
        r.push(clone_port(&ps[i]));
        assert(r@ =~= ps@.take(i + 1));
    }
    assert(ps@.take(ps@.len() as int) =~= ps@);
    r
}

impl Services {
    /// The first service registered under `service`.
    pub fn get(&self, service: &str) -> (r: Option<&Service>)
        ensures
            match r {
                Some(s) => {
                    let i = key_index(keys_of(self.services@), service@);
                    i >= 0 && *s == self.services@[i].1
                },
                None => key_index(keys_of(self.services@), service@) == -1,
            },
    {
        match find_entry(&self.services, service) {
            Some(i) => Some(&self.services[i].1),
            None => None,
        }
    }
}

/// Whether `c` is how service `s`'s image is built: tagged by the
/// service's image name with no tag, from its build directory and
/// dockerfile when it has a build section, else with no source.
pub open spec fn build_config_of(s: Service, c: BuildImageConfig) -> bool {
    &&& c.image == s.image
    &&& c.tag is None
    &&& match s.build {
        Some(b) => c.source matches Some(src) && src.dockerfile == b.dockerfile
            && src.path == BuildImageConfigSourcePath::Directory(b.path),
        None => c.source is None,
    }
}

/// Whether `c` is how service `s`'s container is run: named after the
/// service's image, running the image named after the container, with the
/// service's ports, command, restart policy, environment, volumes and
/// networks.
pub open spec fn run_config_of(s: Service, c: RunContainerConfig) -> bool {
    &&& c.name == s.image
    &&& c.image == s.container
    &&& c.ports@ == s.ports@
    &&& match s.command {
        Some(x) => c.command matches Some(rc) && rc@ == x@,
        None => c.command is None,
    }
    &&& c.restart_policy == s.restart
    &&& c.env@ == s.env@
    &&& c.volumes@ == s.volumes@
    &&& c.networks@ == s.networks@
}

impl Service {
    /// How to build the service's image: tagged by the service's image
    /// name, from its build directory when it has one.
    pub fn get_build_config(&self) -> (r: Option<BuildImageConfig>)
        ensures
            r matches Some(c) && build_config_of(*self, c),
    {
        let source = match &self.build {
            Some(build) => Some(BuildImageConfigSource {
                dockerfile: clone_opt_string(&build.dockerfile),
                path: BuildImageConfigSourcePath::Directory(build.path.clone()),
            }),
            None => None,
        };
        Some(BuildImageConfig { image: self.image.clone(), tag: None, source })
    }

    /// How to run the service's container. The container is named after
    /// the service's image and runs the image named after the container,
    /// with the service's ports, command, restart policy, environment,
    /// volumes and networks.
    pub fn get_run_config(&self) -> (r: Option<RunContainerConfig>)
        ensures
            r matches Some(c) && run_config_of(*self, c),
    {
        Some(RunContainerConfig {
            name: self.image.clone(),
            image: self.container.clone(),
            ports: clone_ports(&self.ports),
            command: clone_opt_strings(&self.command),
            restart_policy: self.restart.clone(),
            env: clone_string_pairs(&self.env),
            volumes: clone_string_pairs(&self.volumes),
            networks: clone_strings(&self.networks),
        })
    }

    /// How to stop the service's container.
    pub fn get_stop_config(&self) -> (r: Option<StopContainerConfig>)
        ensures
            r is Some,
            r->0.name == self.container,
    {
        Some(StopContainerConfig { name: self.container.clone() })
    }

    /// A job that builds the image, stops the running container and runs
    /// the new one, in that order.
    pub fn get_deploy_job(&self) -> (r: Option<Job>)
        ensures
            r is Some,
            r->0.enabled,
            r->0.needs@.len() == 0,
            r->0.stage is None,
            r->0.steps@.len() == 3,
            r->0.steps@[0] matches Step::BuildImage(b) && build_config_of(*self, b),
            r->0.steps@[1] matches Step::StopContainer(s) && s.name == self.container,
            r->0.steps@[2] matches Step::RunContainer(c) && run_config_of(*self, c),
    {
        let build_config = match self.get_build_config() {
            Some(c) => c,
            None => { return None; },
        };
        let run_config = match self.get_run_config() {
            Some(c) => c,
            None => { return None; },
        };
        let stop_config = match self.get_stop_config() {
            Some(c) => c,
            None => { return None; },
        };
        let steps = vec![
            Step::BuildImage(build_config),
            Step::StopContainer(stop_config),
            Step::RunContainer(run_config),
        ];
        Some(Job { enabled: true, needs: Vec::new(), steps, stage: None })
    }
}

/// A port mapping as plain values.
pub struct PortSpec {
    pub container_port: u16,
    pub proto: Seq<char>,
    pub host_port: u16,
    pub host: Option<Seq<char>>,
}

/// Why a port mapping could not be read.
pub enum PortFault {
    Invalid(Seq<char>),
    Port(IntParseError),
}

/// Reads a number in `0..=65535` (as `str::parse::<u16>`).
pub open spec fn port_number(s: Seq<char>) -> Result<u16, PortFault> {
    match parse_unsigned_spec(s, 65535) {
        Ok(v) => Ok(v as u16),
        Err(e) => Err(PortFault::Port(e)),
    }
}

/// Reads `[host:]host_port:container_port[/proto]`; the protocol is `tcp`
/// when not given, and the host port is read before the container port.
pub open spec fn port_mapping_spec(p: Seq<char>) -> Result<PortSpec, PortFault> {
    let by_slash = split_spec(p, '/');
    if by_slash.len() != 1 && by_slash.len() != 2 {
        Err(PortFault::Invalid(p))
    } else {
        let proto = if by_slash.len() == 2 {
            by_slash[1]
        } else {
            "tcp"@
        };
        let by_colon = split_spec(by_slash[0], ':');
        if by_colon.len() != 2 && by_colon.len() != 3 {
            Err(PortFault::Invalid(p))
        } else {
            let k: int = by_colon.len() - 2;
            match port_number(by_colon[k]) {
                Err(e) => Err(e),
                Ok(host_port) => match port_number(by_colon[k + 1]) {
                    Err(e) => Err(e),
                    Ok(container_port) => Ok(
                        PortSpec {
                            container_port,
                            proto,
                            host_port,
                            host: if k == 1 {
                                Some(by_colon[0])
                            } else {
                                None
                            },
                        },
                    ),
                },
            }
        }
    }
}

/// A text without `sep` is one piece.
proof fn lemma_split_whole(s: Seq<char>, sep: char)
    requires
        !s.contains(sep),
    ensures
        split_spec(s, sep) == seq![s],
    decreases s.len(),
{
    if s.len() > 0 {
        let init = s.drop_last();
        assert(!init.contains(sep)) by {
            if init.contains(sep) {
                let j: int = choose|j: int| 0 <= j < init.len() && init[j] == sep;
                assert(s[j] == sep);
            }
        }
        lemma_split_whole(init, sep);
        assert(s[s.len() - 1] != sep);
        assert(init.push(s.last()) =~= s);
    } else {
        assert(s =~= Seq::<char>::empty());
    }
}

/// Splitting at a separator splits each side apart.
proof fn lemma_split_join(x: Seq<char>, sep: char, y: Seq<char>)
    ensures
        split_spec(x + seq![sep] + y, sep) == split_spec(x, sep) + split_spec(y, sep),
    decreases y.len(),
{
    let w = x + seq![sep] + y;
    lemma_split_nonempty(x, sep);
    if y.len() == 0 {
        assert(w.drop_last() =~= x);
        assert(split_spec(x, sep).push(Seq::<char>::empty()) =~= split_spec(x, sep) + seq![Seq::<char>::empty()]);
    } else {
        let y0 = y.drop_last();
        lemma_split_join(x, sep, y0);
        lemma_split_nonempty(y0, sep);
        assert(w.drop_last() =~= x + seq![sep] + y0);
        assert(w.last() == y.last());
        let a = split_spec(x, sep);
        let b = split_spec(y0, sep);
        if y.last() == sep {
            assert((a + b).push(Seq::<char>::empty()) =~= a + b.push(Seq::<char>::empty()));
        } else {
            assert((a + b).update((a + b).len() - 1, (a + b).last().push(y.last())) =~= a + b.update(b.len() - 1, b.last().push(y.last())));
        }
    }
}

/// A mapping written `host:host_port:container_port` publishes the
/// container port on that host address, with protocol `tcp`; it reads
/// exactly when both ports are numbers in `0..=65535`.
pub proof fn lemma_port_mapping_with_host(h: Seq<char>, a: Seq<char>, b: Seq<char>)
    requires
        !h.contains(':') && !h.contains('/'),
        !a.contains(':') && !a.contains('/'),
        !b.contains(':') && !b.contains('/'),
    ensures
        port_mapping_spec(h + seq![':'] + a + seq![':'] + b) is Ok <==> (port_number(a) is Ok && port_number(b) is Ok),
        port_mapping_spec(h + seq![':'] + a + seq![':'] + b) matches Ok(m) ==> {
            &&& m.host == Some(h)
            &&& m.proto == "tcp"@
            &&& port_number(a) == Ok::<u16, PortFault>(m.host_port)
            &&& port_number(b) == Ok::<u16, PortFault>(m.container_port)
        },
{
    let p = h + seq![':'] + a + seq![':'] + b;
    assert(!p.contains('/')) by {
        if p.contains('/') {
            let j: int = choose|j: int| 0 <= j < p.len() && p[j] == '/';
            if j < h.len() {
                assert(h[j] == '/');
            } else if j == h.len() {
            } else if j < h.len() + 1 + a.len() {
                assert(a[j - h.len() - 1] == '/');
            } else if j == h.len() + 1 + a.len() {
            } else {
                assert(b[j - h.len() - 2 - a.len()] == '/');
            }
        }
    }
    lemma_split_whole(p, '/');
    lemma_split_join(h + seq![':'] + a, ':', b);
    lemma_split_join(h, ':', a);
    lemma_split_whole(h, ':');
    lemma_split_whole(a, ':');
    lemma_split_whole(b, ':');
    assert(split_spec(p, ':') =~= seq![h, a, b]);
}

/// Writing a protocol after a mapping changes only its protocol: whether
/// it reads, its host address and its ports stay the same.
pub proof fn lemma_port_mapping_proto(x: Seq<char>, w: Seq<char>)
    requires
        !x.contains('/'),
        !w.contains('/'),
    ensures
        port_mapping_spec(x + seq!['/'] + w) is Ok <==> port_mapping_spec(x) is Ok,
        port_mapping_spec(x + seq!['/'] + w) matches Ok(m) ==> {
            &&& m.proto == w
            &&& m.host == port_mapping_spec(x)->Ok_0.host
            &&& m.host_port == port_mapping_spec(x)->Ok_0.host_port
            &&& m.container_port == port_mapping_spec(x)->Ok_0.container_port
        },
{
    lemma_split_join(x, '/', w);
    lemma_split_whole(x, '/');
    lemma_split_whole(w, '/');
    assert(split_spec(x + seq!['/'] + w, '/') =~= seq![x, w]);
}

/// Reads a list of port mappings; the first one that fails decides the
/// error.
pub open spec fn port_mappings_spec(ps: Seq<Seq<char>>) -> Result<Seq<PortSpec>, PortFault>
    decreases ps.len(),
{
    if ps.len() == 0 {
        Ok(Seq::empty())
    } else {
        match port_mappings_spec(ps.drop_last()) {
            Err(e) => Err(e),
            Ok(r) => match port_mapping_spec(ps.last()) {
                Err(e) => Err(e),
                Ok(m) => Ok(r.push(m)),
            },
        }
    }
}

/// The plain values of a port mapping.
pub open spec fn port_view(p: PortMapping) -> PortSpec {
    PortSpec {
        container_port: p.container_port,
        proto: p.proto@,
        host_port: p.host_port,
        host: match p.host {
            Some(h) => Some(h@),
            None => None,
        },
    }
}

/// The fault a loading error stands for, when it is about ports.
pub open spec fn port_fault_of(e: LoadConfigError) -> Option<PortFault> {
    match e {
        LoadConfigError::InvalidPortMapping(s) => Some(PortFault::Invalid(s@)),
        LoadConfigError::InvalidPort(k) => Some(PortFault::Port(k)),
        _ => None,
    }
}

fn parse_port(cs: &Vec<char>) -> (r: Result<u16, LoadConfigError>)
    ensures
        match r {
            Ok(v) => port_number(cs@) == Ok::<u16, PortFault>(v),
            Err(e) => port_number(cs@) matches Err(f) && port_fault_of(e) == Some(f),
        },
{
    match parse_unsigned(cs, 65535) {
        Ok(v) => Ok(v as u16),
        Err(e) => Err(LoadConfigError::InvalidPort(e)),
    }
}

/// Reads one port mapping, as `port_mapping_spec`.
pub fn parse_one_port_mapping(port: &String) -> (r: Result<PortMapping, LoadConfigError>)
    ensures
        match r {
            Ok(m) => port_mapping_spec(port@) == Ok::<PortSpec, PortFault>(port_view(m)),
            Err(e) => port_mapping_spec(port@) matches Err(f) && port_fault_of(e) == Some(f),
        },
{
    let cs = str_chars(port.as_str());
    let by_slash = split_chars(&cs, '/');
    proof {
        lemma_split_nonempty(cs@, '/');
        assert(pieces_view(by_slash@)[0] == by_slash@[0]@);
    }
    if by_slash.len() != 1 && by_slash.len() != 2 {
        return Err(LoadConfigError::InvalidPortMapping(port.clone()));
    }
    let proto: String = if by_slash.len() == 2 {
        assert(pieces_view(by_slash@)[1] == by_slash@[1]@);
        string_from_chars(&by_slash[1])
    } else {
        str_to_string("tcp")
    };
    let by_colon = split_chars(&by_slash[0], ':');
    if by_colon.len() != 2 && by_colon.len() != 3 {
        return Err(LoadConfigError::InvalidPortMapping(port.clone()));
    }
    let k: usize = by_colon.len() - 2;
    proof {
        lemma_split_nonempty(by_slash@[0]@, ':');
        assert(pieces_view(by_colon@)[k as int] == by_colon@[k as int]@);
        assert(pieces_view(by_colon@)[k + 1] == by_colon@[k + 1]@);
        assert(pieces_view(by_colon@)[0] == by_colon@[0]@);
    }
    let host_port = match parse_port(&by_colon[k]) {
        Ok(v) => v,
        Err(e) => { return Err(e); },
    };
    let container_port = match parse_port(&by_colon[k + 1]) {
        Ok(v) => v,
        Err(e) => { return Err(e); },
    };
    let host = if k == 1 {
        Some(string_from_chars(&by_colon[0]))
    } else {
        None
    };
    let m = PortMapping { container_port, proto, host_port, host };
    proof {
        reveal_strlit("tcp");
    }
    Ok(m)
}

/// Reads the port mappings of a service, as `port_mappings_spec`.
pub fn parse_port_mapping(ports: Vec<String>) -> (r: Result<Vec<PortMapping>, LoadConfigError>)
    ensures
        match r {
            Ok(ms) => port_mappings_spec(ports@.map_values(|p: String| p@)) == Ok::<
                Seq<PortSpec>,
                PortFault,
            >(ms@.map_values(|m: PortMapping| port_view(m))),
            Err(e) => port_mappings_spec(ports@.map_values(|p: String| p@)) matches Err(f)
                && port_fault_of(e) == Some(f),
        },
{
    let ghost ps = ports@.map_values(|p: String| p@);
    let mut res: Vec<PortMapping> = Vec::new();
    let mut i: usize = 0;
    assert(ps.take(0) =~= Seq::<Seq<char>>::empty());
    assert(res@.map_values(|m: PortMapping| port_view(m)) =~= Seq::<PortSpec>::empty());
    while i < ports.len()
        invariant
            i <= ports@.len(),
            ps == ports@.map_values(|p: String| p@),
            port_mappings_spec(ps.take(i as int)) == Ok::<Seq<PortSpec>, PortFault>(
                res@.map_values(|m: PortMapping| port_view(m)),
            ),
        decreases ports.len() - i,
    {
        proof {
            assert(ps.take(i + 1).drop_last() =~= ps.take(i as int));
            assert(ps.take(i + 1).last() == ports@[i as int]@);
        }
        match parse_one_port_mapping(&ports[i]) {
            Ok(m) => {
                let ghost before = res@.map_values(|m: PortMapping| port_view(m));
                res.push(m);
                assert(res@.map_values(|m: PortMapping| port_view(m)) =~= before.push(port_view(m)));
            },
            Err(e) => {
                proof {
                    lemma_port_mappings_prefix_err(ps, i as int + 1);
                }
                return Err(e);
            },
        }
        i = i + 1;
    }
    assert(ps.take(ports@.len() as int) =~= ps);
    Ok(res)
}

/// An error met on a prefix of the list is the error of the whole list.
pub proof fn lemma_port_mappings_prefix_err(ps: Seq<Seq<char>>, n: int)
    requires
        0 <= n <= ps.len(),
        port_mappings_spec(ps.take(n)) is Err,
    ensures
        port_mappings_spec(ps) == port_mappings_spec(ps.take(n)),
    decreases ps.len() - n,
{
    if n < ps.len() {
        assert(ps.take(n + 1).drop_last() =~= ps.take(n));
        lemma_port_mappings_prefix_err(ps, n + 1);
    } else {
        assert(ps.take(n) =~= ps);
    }
}

/// `{project}_{service}`: a name scoped under a project.
pub open spec fn scoped_name(project: Seq<char>, service: Seq<char>) -> Seq<char> {
    project + "_"@ + service
}

fn scoped(project: &str, service: &str) -> (r: String)
    ensures
        r@ == scoped_name(project@, service@),
{
    let mut r = str_to_string(project);
    r.append("_");
    r.append(service);
    proof {
        reveal_strlit("_");
    }
    r
}

/// The image a service runs: the one given; else, for a global service,
/// the service's name; else the service's name scoped under its project.
/// Fails when a name it needs is not known.
pub fn get_image_name(
    project_id: Option<&str>,
    service_id: Option<&str>,
    image: Option<String>,
    global: bool,
) -> (r: Result<String, LoadConfigError>)
    ensures
        match image {
            Some(i) => r matches Ok(n) && n == i,
            None => if global {
                match service_id {
                    Some(s) => r matches Ok(n) && n@ == s@,
                    None => r matches Err(LoadConfigError::MissingContext(_)),
                }
            } else {
                match (project_id, service_id) {
                    (Some(p), Some(s)) => r matches Ok(n) && n@ == scoped_name(p@, s@),
                    _ => r matches Err(LoadConfigError::MissingContext(_)),
                }
            },
        },
{
    match image {
        Some(image) => Ok(image),
        None => {
            if global {
                match service_id {
                    Some(s) => Ok(str_to_string(s)),
                    None => Err(LoadConfigError::MissingContext(str_to_string("service_id"))),
                }
            } else {
                match project_id {
                    Some(p) => match service_id {
                        Some(s) => Ok(scoped(p, s)),
                        None => Err(LoadConfigError::MissingContext(str_to_string("service_id"))),
                    },
                    None => Err(LoadConfigError::MissingContext(str_to_string("project_id"))),
                }
            }
        },
    }
}

/// The container a service runs in: for a global service, the service's
/// name; else the service's name scoped under its project. Fails when a
/// name it needs is not known.
pub fn get_container_name(
    project_id: Option<&str>,
    service_id: Option<&str>,
    global: bool,
) -> (r: Result<String, LoadConfigError>)
    ensures
        if global {
            match service_id {
                Some(s) => r matches Ok(n) && n@ == s@,
                None => r matches Err(LoadConfigError::MissingContext(_)),
            }
        } else {
            match (project_id, service_id) {
                (Some(p), Some(s)) => r matches Ok(n) && n@ == scoped_name(p@, s@),
                _ => r matches Err(LoadConfigError::MissingContext(_)),
            }
        },
{
    get_image_name(project_id, service_id, None, global)
}

} // verus!
