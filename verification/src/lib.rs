//! A registry manager's verified core: the latency-probing subsystem that
//! races HTTP probes against every configured registry mirror, assigns
//! completion-order ranks, sorts outcomes by latency, and renders a ranked
//! report; plus the registry catalog and the `.npmrc` registry-line grammar
//! that the surrounding command-line shell consumes.

pub mod cli;
pub mod decimal;
pub mod npmrc;
pub mod registries;
pub mod report;
pub mod text;
