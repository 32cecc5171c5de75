//! Requests, responses and messages exchanged with the runner's HTTP and
//! websocket API.

use vstd::prelude::*;

verus! {

#[derive(Debug, Clone)]
pub struct EmptyResponse {}

#[derive(Debug, Clone)]
pub struct ErrorResponse {
    pub message: String,
}

#[derive(Debug, Clone)]
pub struct ListReposQuery {
    pub project_id: String,
}

#[derive(Debug, Clone)]
pub struct ReposListResponse {
    pub repos: Vec<Repo>,
}

#[derive(Debug, Clone)]
pub struct Repo {
    pub id: String,
}

#[derive(Debug, Clone)]
pub struct ActionsListResponse {
    pub actions: Vec<Action>,
}

#[derive(Debug, Clone)]
pub struct Action {
    pub id: String,
}

#[derive(Debug, Clone)]
pub struct ServicesListResponse {
    pub services: Vec<Service>,
}

#[derive(Debug, Clone)]
pub struct Service {
    pub id: String,
    pub status: ServiceStatus,
}

#[derive(Debug, Clone, Copy, PartialEq, Eq)]
pub enum ServiceStatus {
    Running,
    Starting,
    NotRunning,
    Dead,
    Exited,
    Restarting,
    Unknown,
}

#[derive(Debug, Clone)]
pub struct ContinueReponse {
    pub run_id: String,
}

/// Progress of a repository update.
#[derive(Debug, Clone)]
pub enum UpdateRepoMessage {
    PullingRepo,
    RepoPulled { changed_files: Vec<String> },
    WholeRepoUpdated,
    FailedToPull { err: String },
    NoSuchRepo,
}

/// Progress of cloning the repositories that are missing.
#[derive(Debug, Clone)]
pub enum CloneMissingRepos {
    Begin,
    ClonningRepo { repo_id: String },
    RepoCloned { repo_id: String },
    Finish,
}

#[derive(Debug, Clone)]
pub struct CallRequest {
    pub project_id: String,
    pub trigger_id: String,
    pub dry_run: Option<bool>,
}

#[derive(Debug, Clone)]
pub struct ServiceCommandRequest {
    pub project_id: String,
    pub services: Vec<String>,
    pub command: ServiceCommand,
}

#[derive(Debug, Clone, Copy, PartialEq, Eq)]
pub enum ServiceCommand {
    Stop,
    Start { build: bool },
    Restart { build: bool },
}

#[derive(Debug, Clone)]
pub struct UploadResponse {
    pub artifact: String,
}

#[derive(Debug, Clone)]
pub struct ListActionsQuery {
    pub project_id: String,
}

#[derive(Debug, Clone)]
pub struct ListPipelinesQuery {
    pub project_id: String,
}

#[derive(Debug, Clone)]
pub struct ListServicesQuery {
    pub project_id: String,
}

#[derive(Debug, Clone)]
pub struct ServiceLogsQuery {
    pub project_id: String,
}

#[derive(Debug, Clone)]
pub struct ServiceLogsBody {
    pub services: Vec<String>,
    pub follow: bool,
    pub tail: Option<usize>,
}

#[derive(Debug, Clone)]
pub struct UpdateRepoBody {
    pub project_id: String,
    pub repo_id: String,
    pub artifact_id: Option<String>,
    pub dry_run: Option<bool>,
    pub update_only: Option<bool>,
}

#[derive(Debug, Clone)]
pub struct ListRunsRequestQuery {
    pub project_id: Option<String>,
    pub pipeline_id: Option<String>,
}

#[derive(Debug, Clone)]
pub struct RunsLogsRequestQuery {
    pub run: String,
    pub project: String,
    pub pipeline: String,
}

#[derive(Debug, Clone)]
pub struct RunsCancelRequestBody {
    pub run: String,
    pub project: String,
    pub pipeline: String,
}

#[derive(Debug, Clone)]
pub enum RunStatus {
    Running,
    Finished(RunFinishedStatus),
}

#[derive(Debug, Clone)]
pub enum RunFinishedStatus {
    Success,
    Error { message: String },
}

#[derive(Debug, Clone)]
pub struct Job {
    pub status: JobStatus,
}

#[derive(Debug, Clone)]
pub enum JobStatus {
    Pending,
    Running { step: usize },
    Finished { error: Option<String> },
    Skipped,
}

#[derive(Debug, Clone, Copy, PartialEq, Eq)]
pub enum LogType {
    Regular,
    Error,
    Warning,
}

/// A text frame sent to a websocket client.
pub struct WsMessage {
    message: String,
}

impl WsMessage {
    /// The text the message carries.
    pub closed spec fn spec_text(&self) -> Seq<char> {
        self.message@
    }

    /// A text message.
    pub fn text(message: String) -> (r: WsMessage)
        ensures
            r.spec_text() == message@,
    {
        WsMessage { message }
    }

    /// The text of the message.
    pub fn to_string(&self) -> (r: String)
        ensures
            r@ == self.spec_text(),
    {
        self.message.clone()
    }
}

} // verus!
