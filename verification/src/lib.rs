//! Verified core of per-application audio capture: source selection, application
//! ownership of processes, the capture supervisor's decisions and the clocked mixer.
mod text;
pub mod source;
pub mod paths;
pub mod order;
pub mod discovery;
pub mod snapshot;
pub mod supervisor;
pub mod mixer;
