//! Bundles a single-page frontend into a tar archive and serves it from memory.
//!
//! The archive is resolved into a path-to-bytes mapping, each file becomes a
//! GET route (plus a directory-style route for every `index.html`), and the
//! response for a file carries its bytes and a content type chosen from its
//! extension.
use vstd::prelude::*;

pub mod config;
pub mod frontend;
pub mod responder;
pub mod server;

pub use config::{BaryAppAttr, Config};
pub use frontend::{ArchiveEntry, Frontend, FrontendError, FrontendFile, FrontendMap, TarFrontend};
pub use responder::{StaticResponse, VFResponder, VecHandler};
pub use server::{PlannedRoute, RouteGroup, Server};
