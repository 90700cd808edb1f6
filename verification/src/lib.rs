//! Trade copying: events of a master account become commands for the accounts
//! that follow it.
//!
//! - [`model`], [`protocol`]: events, commands and acknowledgements, and the
//!   lines that carry them.
//! - [`routing`], [`steps`], [`digest`]: the rules that make commands of events,
//!   the steps that volumes come in, and the names of commands.
//! - [`config`], [`launcher`]: the settings, and the terminals that they start.
//! - [`journal`], [`runtime`], [`server`]: what is recorded, what is done for
//!   each frame, and the connections of clients.
//! - [`venues`]: accounts that are reached by cTrader's Open API and by MetaApi.
//! - [`client`], [`bridge`], [`ui`]: the other ends, and the control page.
//! - [`natural`], [`double`], [`decimal`]: binary numbers of double precision,
//!   with their arithmetic and their decimal texts.
//! - [`text`], [`table`], [`json`], [`clock`]: what the others are made of.

pub mod bridge;
pub mod client;
pub mod clock;
pub mod config;
pub mod decimal;
pub mod digest;
pub mod double;
pub mod journal;
pub mod json;
pub mod launcher;
pub mod model;
pub mod natural;
pub mod protocol;
pub mod routing;
pub mod runtime;
pub mod server;
pub mod steps;
pub mod table;
pub mod text;
pub mod ui;
pub mod venues;
