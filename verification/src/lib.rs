//! Core of a line-delimited JSON chat client: the wire-protocol packet
//! codec, the connection lifecycle state machine, and the dispatch rules
//! the read and write loops follow. The process around it owns the socket
//! and the screen; everything here is values to values.
use vstd::prelude::*;

pub mod arc_mutex_signal;
mod channel_name;
pub mod client;
pub mod ident;
pub mod json;
pub mod packet;
pub mod packet_builder;

pub use channel_name::{get_channel_name, match_join_status};

verus! {

#[verifier::external_type_specification]
#[verifier::external_body]
pub struct ExProjectDirs(directories::ProjectDirs);

/// Relies on directories::ProjectDirs::from with this application's
/// qualifier, organization and name; `None` when the platform offers no
/// home directory.
#[verifier::external_body]
fn project_dirs() -> (r: Option<directories::ProjectDirs>)
{
    directories::ProjectDirs::from("", "jonsetzky", "Neighbor Chat")
}

/// Relies on directories::ProjectDirs::data_dir: the platform's data
/// directory for the application.
#[verifier::external_body]
fn project_data_dir(d: &directories::ProjectDirs) -> (r: String)
{
    d.data_dir().to_string_lossy().into_owned()
}

/// The application's data directory, or `None` when the platform gives
/// the process no home.
pub fn data_dir() -> Option<String> {
    match project_dirs() {
        Some(d) => Some(project_data_dir(&d)),
        None => None,
    }
}

} // verus!
