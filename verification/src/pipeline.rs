//! The pipeline description that the runner hands to a worker: jobs made
//! of steps (build an image, run or stop a container, run a script, ...).
//! Maps keyed by text are tables of entries (see `keyed`).

use vstd::prelude::*;

verus! {

/// One step of a job.
#[derive(Debug)]
pub enum Step {
    RunContainer(RunContainerConfig),
    BuildImage(BuildImageConfig),
    RunShell(RunShellConfig),
    StopContainer(StopContainerConfig),
    Request(RequestConfig),
    Parallel(ParallelConfig),
    ServiceLogs(ServiceLogsConfig),
}

/// A stage of a pipeline and what to do when runs of it overlap.
#[derive(Debug, Clone)]
pub struct Stage {
    pub overlap_strategy: OverlapStrategy,
    pub repos: Option<StageRepos>,
}

/// Which repositories a stage locks.
#[derive(Debug, Clone)]
pub enum StageRepos {
    Exact(Vec<(String, RepoLockStrategy)>),
    All(RepoLockStrategy),
}

#[derive(Debug, Clone, Copy, PartialEq, Eq)]
pub enum RepoLockStrategy {
    Lock,
    Unlock,
}

#[derive(Debug, Clone, Copy, PartialEq, Eq)]
pub enum OverlapStrategy {
    /// Keep running pipelines simultaneously.
    Ignore,
    /// Interrupt the running pipeline.
    Displace,
    /// Wait for the running pipeline to pass this stage.
    Wait,
}

/// A job: steps run in order once the jobs it needs have finished.
#[derive(Debug)]
pub struct Job {
    pub enabled: bool,
    pub needs: Vec<String>,
    pub steps: Vec<Step>,
    pub stage: Option<String>,
}

/// Steps run at the same time.
#[derive(Debug)]
pub struct ParallelConfig {
    pub steps: Vec<Step>,
}

/// A published port: `host:host_port` to `container_port/proto`.
#[derive(Debug, Clone)]
pub struct PortMapping {
    pub container_port: u16,
    pub proto: String,
    pub host_port: u16,
    pub host: Option<String>,
}

#[derive(Debug)]
pub struct RunContainerConfig {
    pub name: String,
    pub image: String,
    pub networks: Vec<String>,
    pub volumes: Vec<(String, String)>,
    pub command: Option<Vec<String>>,
    pub ports: Vec<PortMapping>,
    pub restart_policy: String,
    pub env: Vec<(String, String)>,
}

#[derive(Debug)]
pub struct ServiceLogsConfig {
    pub container: String,
    pub follow: bool,
    pub tail: Option<usize>,
}

#[derive(Debug)]
pub struct StopContainerConfig {
    pub name: String,
}

#[derive(Debug)]
pub struct BuildImagePullConfig {
    pub image: String,
    pub tag: Option<String>,
}

#[derive(Debug)]
pub struct BuildImageConfig {
    pub image: String,
    pub tag: Option<String>,
    pub source: Option<BuildImageConfigSource>,
}

#[derive(Debug)]
pub struct BuildImageConfigSource {
    pub dockerfile: Option<String>,
    pub path: BuildImageConfigSourcePath,
}

#[derive(Debug)]
pub enum BuildImageConfigSourcePath {
    Directory(String),
    Tar(String),
}

#[derive(Debug)]
pub struct RunShellConfig {
    pub script: String,
    pub docker_image: Option<String>,
    pub interpreter: Option<Vec<String>>,
    pub volumes: Vec<(String, String)>,
    pub networks: Vec<String>,
    pub env: Vec<(String, String)>,
}

#[derive(Debug)]
pub struct RequestConfig {
    pub url: String,
    pub method: RequestMethod,
    pub body: Option<String>,
}

#[derive(Debug, Clone, Copy, PartialEq, Eq)]
pub enum RequestMethod {
    Post,
    Get,
}

} // verus!
