//! The internal project that the runner generates for itself: a bind9
//! service and a pipeline that reloads caddy, when projects declare DNS
//! zones or caddy configuration.

use vstd::prelude::*;
use crate::bind::{bind_add_spec, bind_view, gen_bind_view, text_map, Bind, BindBuilder, BindError, BindFault, GenBind, ZoneModel};
use crate::caddy::{caddy_add_spec, Caddy, CaddyBuilder, GenCaddy};

verus! {

/// Which parts of the internal project are needed.
#[derive(Debug, Clone, Copy, PartialEq, Eq)]
pub struct GenProject {
    pub caddy: bool,
    pub bind: bool,
}

/// The bind9 service entry of the generated `services.yaml`.
pub const BIND_SERVICE: &'static str = "\n  microci-bind9-configured:\n    build:\n      path: ${config.internal.path}/bind9\n    ports:\n      - 3053:53/udp\n    restart: always\n    global: true\n";
/// `services.yaml` without services.
pub const NO_SERVICES: &'static str = "\nservices: {}\n";
/// The head of `services.yaml` with services.
pub const SERVICES_HEAD: &'static str = "\nservices:\n";
/// The head of the generated `actions.yaml`.
pub const ACTIONS_HEAD: &'static str = "\nactions:\n  __restart__:\n    - on: call\n";
/// The head of the service actions of the restart action.
pub const ACTIONS_SERVICES: &'static str = "\n      services:\n";
/// The head of the pipelines of the restart action.
pub const ACTIONS_PIPELINES: &'static str = "\n      run_pipelines:\n";
/// The service action that deploys bind9.
pub const BIND_DEPLOY: &'static str = "microci-bind9-configured: deploy";
/// The pipeline that reloads caddy.
pub const CADDY_RELOAD: &'static str = "caddy_reload_pipeline";
/// The caddy reload entry of the generated `pipelines.yaml`.
pub const CADDY_PIPELINE_ENTRY: &'static str = "\n  caddy_reload_pipeline:\n    path: caddy_reload_pipeline.yaml\n \n";
/// `pipelines.yaml` without pipelines.
pub const NO_PIPELINES: &'static str = "\npipelines: {}\n";
/// The head of `pipelines.yaml` with pipelines.
pub const PIPELINES_HEAD: &'static str = "\npipelines:\n";
/// The pipeline that reloads caddy.
pub const CADDY_RELOAD_PIPELINE: &'static str = "\njobs:\n  run_script:\n    steps:\n      - script: |\n          cd caddy\n          caddy reload\nlinks:\n  'caddy': ${config.internal.path}/caddy\n";

/// The generated `services.yaml`.
pub open spec fn services_config_spec(g: GenProject) -> Seq<char> {
    if g.bind {
        SERVICES_HEAD@ + BIND_SERVICE@
    } else {
        NO_SERVICES@
    }
}

/// An item of a list of service actions.
pub open spec fn service_item_spec(s: Seq<char>) -> Seq<char> {
    "\n        "@ + s + "\n"@
}

/// An item of a list of pipelines.
pub open spec fn pipeline_item_spec(p: Seq<char>) -> Seq<char> {
    "\n        - "@ + p + "\n"@
}

/// The generated `actions.yaml`: a restart action, called by hand, that
/// deploys bind9 and reloads caddy as needed.
pub open spec fn actions_config_spec(g: GenProject) -> Seq<char> {
    ACTIONS_HEAD@ + (if g.bind {
        ACTIONS_SERVICES@ + service_item_spec(BIND_DEPLOY@)
    } else {
        Seq::empty()
    }) + (if g.caddy {
        ACTIONS_PIPELINES@ + pipeline_item_spec(CADDY_RELOAD@)
    } else {
        Seq::empty()
    })
}

/// The generated `pipelines.yaml`.
pub open spec fn pipelines_config_spec(g: GenProject) -> Seq<char> {
    if g.caddy {
        PIPELINES_HEAD@ + CADDY_PIPELINE_ENTRY@
    } else {
        NO_PIPELINES@
    }
}

impl GenProject {
    /// Whether no part is needed.
    pub fn is_empty(&self) -> (r: bool)
        ensures
            r == (!self.caddy && !self.bind),
    {
        !self.caddy && !self.bind
    }

    /// The text of `services.yaml`.
    pub fn services_config(&self) -> (r: String)
        ensures
            r@ == services_config_spec(*self),
    {
        let mut r = String::new();
        if self.bind {
            r.append(SERVICES_HEAD);
            r.append(BIND_SERVICE);
        } else {
            r.append(NO_SERVICES);
        }
        r
    }

    /// The text of `actions.yaml`.
    pub fn actions_config(&self) -> (r: String)
        ensures
            r@ == actions_config_spec(*self),
    {
        let mut r = String::new();
        r.append(ACTIONS_HEAD);
        if self.bind {
            r.append(ACTIONS_SERVICES);
            r.append("\n        ");
            r.append(BIND_DEPLOY);
            r.append("\n");
        }
        if self.caddy {
            r.append(ACTIONS_PIPELINES);
            r.append("\n        - ");
            r.append(CADDY_RELOAD);
            r.append("\n");
        }
        r
    }

    /// The text of `pipelines.yaml`.
    pub fn pipelines_config(&self) -> (r: String)
        ensures
            r@ == pipelines_config_spec(*self),
    {
        let mut r = String::new();
        if self.caddy {
            r.append(PIPELINES_HEAD);
            r.append(CADDY_PIPELINE_ENTRY);
        } else {
            r.append(NO_PIPELINES);
        }
        r
    }

    /// The text of the caddy reload pipeline, written beside
    /// `pipelines.yaml` when caddy is needed.
    pub fn caddy_reload_pipeline(&self) -> (r: Option<String>)
        ensures
            match r {
                Some(t) => self.caddy && t@ == CADDY_RELOAD_PIPELINE@,
                None => !self.caddy,
            },
    {
        if self.caddy {
            Some(crate::text::str_to_string(CADDY_RELOAD_PIPELINE))
        } else {
            None
        }
    }
}

/// The caddy configuration of projects gathered in order (see
/// `caddy_add_spec`).
pub open spec fn gathered_caddy(ps: Seq<(Option<Caddy>, Option<Bind>)>) -> Map<Seq<char>, Seq<char>>
    decreases ps.len(),
{
    if ps.len() == 0 {
        Map::empty()
    } else {
        let m = gathered_caddy(ps.drop_last());
        match ps.last().0 {
            Some(c) => caddy_add_spec(m, c.hostnames@),
            None => m,
        }
    }
}

/// The zones of projects gathered in order (see `bind_add_spec`); the
/// first conflict decides the error.
pub open spec fn gathered_bind(ps: Seq<(Option<Caddy>, Option<Bind>)>) -> Result<Map<Seq<char>, ZoneModel>, BindFault>
    decreases ps.len(),
{
    if ps.len() == 0 {
        Ok(Map::empty())
    } else {
        match gathered_bind(ps.drop_last()) {
            Err(e) => Err(e),
            Ok(m) => match ps.last().1 {
                Some(b) => bind_add_spec(m, b.zones@),
                None => Ok(m),
            },
        }
    }
}

proof fn lemma_gathered_bind_err(ps: Seq<(Option<Caddy>, Option<Bind>)>, n: int)
    requires
        0 <= n <= ps.len(),
        gathered_bind(ps.take(n)) is Err,
    ensures
        gathered_bind(ps) == gathered_bind(ps.take(n)),
    decreases ps.len() - n,
{
    if n < ps.len() {
        assert(ps.take(n + 1).drop_last() =~= ps.take(n));
        lemma_gathered_bind_err(ps, n + 1);
    } else {
        assert(ps.take(n) =~= ps);
    }
}

/// The internal project made out of all projects: the Caddyfile and the
/// zones to write out, and which parts of the project are needed.
#[derive(Debug)]
pub struct InternalPlan {
    pub caddy: GenCaddy,
    pub bind: GenBind,
    pub project: GenProject,
}

/// Gathers every project's caddy configuration and zones, in order, and
/// decides which parts of the internal project are needed: caddy where a
/// host has configuration, bind where a zone is declared. The first zone
/// conflict decides the error.
pub fn plan_internal_project(projects: &Vec<(Option<Caddy>, Option<Bind>)>) -> (r: Result<InternalPlan, BindError>)
    ensures
        match gathered_bind(projects@) {
            Ok(zones) => r matches Ok(plan)
                && text_map(plan.caddy.hostnames@) == gathered_caddy(projects@)
                && gen_bind_view(plan.bind.zones@) == zones
                && plan.project == (GenProject {
                    caddy: plan.caddy.hostnames@.len() > 0,
                    bind: plan.bind.zones@.len() > 0,
                }),
            Err(f) => r matches Err(e) && e@ == f,
        },
{
    let mut caddy = CaddyBuilder::default();
    let mut bind = BindBuilder::new(Vec::new());
    let ghost ps = projects@;
    proof {
        assert(text_map(caddy.hostnames@) =~= Map::<Seq<char>, Seq<char>>::empty());
        assert(bind_view(bind.zones@) =~= Map::<Seq<char>, ZoneModel>::empty());
        assert(ps.take(0) =~= Seq::<(Option<Caddy>, Option<Bind>)>::empty());
    }
    let mut i: usize = 0;
    while i < projects.len()
        invariant
            i <= ps.len(),
            ps == projects@,
            text_map(caddy.hostnames@) == gathered_caddy(ps.take(i as int)),
            gathered_bind(ps.take(i as int)) == Ok::<Map<Seq<char>, ZoneModel>, BindFault>(bind_view(bind.zones@)),
        decreases projects.len() - i,
    {
        proof {
            assert(ps.take(i + 1).drop_last() =~= ps.take(i as int));
            assert(ps.take(i + 1).last() == ps[i as int]);
        }
        if let Some(c) = &projects[i].0 {
            let _ = caddy.add(c);
        }
        if let Some(b) = &projects[i].1 {
            match bind.add(b) {
                Ok(()) => {},
                Err(e) => {
                    proof {
                        lemma_gathered_bind_err(ps, i + 1);
                    }
                    return Err(e);
                },
            }
        }
        i = i + 1;
    }
    proof {
        assert(ps.take(i as int) =~= ps);
    }
    let gen_caddy = caddy.build();
    let gen_bind = bind.build();
    let project = GenProject { caddy: !gen_caddy.is_empty(), bind: !gen_bind.is_empty() };
    Ok(InternalPlan { caddy: gen_caddy, bind: gen_bind, project })
}

} // verus!
