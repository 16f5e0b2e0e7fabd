//! Claiming a NameMC profile: the request from the interface, the settings
//! the Minecraft client runs with, and the answer.
use vstd::prelude::*;
use crate::mc::client::ClaimConfig;

verus! {

/// A progress line shown while a claim runs.
pub struct ClaimStatusPayload {
    pub message: String,
}

/// The Minecraft profile that claims.
pub struct ClaimProfile {
    pub name: String,
    pub id: String,
}

/// A claim as the interface asks for it.
pub struct ClaimRequest {
    pub bearer_token: String,
    pub profile: ClaimProfile,
    pub server: Option<String>,
    pub port: Option<u16>,
}

/// How a claim ended: the profile link on success, the reason otherwise.
pub struct ClaimResult {
    pub success: bool,
    pub url: Option<String>,
    pub error: Option<String>,
}

/// The server a claim joins when the request names none.
pub open spec fn default_server() -> Seq<char> {
    "blockmania.com"@
}

/// The client settings for a claim: the request's token and profile, its
/// server and port, "blockmania.com" and 25565 where it gives none.
pub fn claim_config(request: &ClaimRequest) -> (cfg: ClaimConfig)
    ensures
        cfg.bearer_token@ == request.bearer_token@,
        cfg.username@ == request.profile.name@,
        cfg.uuid@ == request.profile.id@,
        cfg.server@ == match request.server {
            Some(s) => s@,
            None => default_server(),
        },
        cfg.port == match request.port {
            Some(p) => p,
            None => 25565u16,
        },
{
    let server = match &request.server {
        Some(s) => String::from_str(s.as_str()),
        None => String::from_str("blockmania.com"),
    };
    let port = match request.port {
        Some(p) => p,
        None => 25565,
    };
    ClaimConfig {
        bearer_token: String::from_str(request.bearer_token.as_str()),
        username: String::from_str(request.profile.name.as_str()),
        uuid: String::from_str(request.profile.id.as_str()),
        server,
        port,
    }
}

/// The answer when a claim is already running.
pub fn claim_busy() -> (r: ClaimResult)
    ensures
        !r.success,
        r.url is None,
        r.error matches Some(e) && e@ == "A claim is already in progress"@,
{
    ClaimResult { success: false, url: None, error: Some(String::from_str("A claim is already in progress")) }
}

/// The answer for a finished claim: the link on success, the error otherwise.
pub fn claim_result(outcome: Result<String, String>) -> (r: ClaimResult)
    ensures
        match outcome {
            Ok(url) => r.success && r.url == Some(url) && r.error is None,
            Err(e) => !r.success && r.url is None && r.error == Some(e),
        },
{
    match outcome {
        Ok(url) => ClaimResult { success: true, url: Some(url), error: None },
        Err(e) => ClaimResult { success: false, url: None, error: Some(e) },
    }
}

/// A progress line for the interface.
pub fn status_payload(message: &str) -> (p: ClaimStatusPayload)
    ensures
        p.message@ == message@,
{
    ClaimStatusPayload { message: String::from_str(message) }
}

} // verus!
