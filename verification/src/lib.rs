//! A verified routing core for large-language-model requests.
//!
//! A router picks the model that serves a request: from a judge's verdict on the task, from a
//! cost-ascending capability ladder with confidence zones, from a field of a user-defined verdict,
//! or by escalating once enough verdicts on cheaper replies ask for it. This crate holds what is
//! decided and computed; its host calls the models, reads the clock and writes the logs.
//!
//! * [`router`] builds routes out of [`capability`], [`zones`], [`custom`] with [`selector`], and
//!   [`escalation`].
//! * [`messages`], [`request`] and [`judge`] select what a judge is shown and ask it.
//! * [`thompson`] keeps the bandit arms; [`routing_log`] and [`transcript`] make log records, and
//!   [`lines`] reads them back.
//! * [`binary64`] computes with doubles as bit patterns, [`json`] and [`headers`] name what JSON
//!   values and HTTP headers hold, and [`tables`] and [`text`] are small containers and predicates.

pub mod binary64;
pub mod capability;
pub mod classification;
pub mod clock;
pub mod custom;
pub mod error;
pub mod escalation;
pub mod headers;
pub mod json;
pub mod judge;
pub mod lines;
pub mod messages;
pub mod model;
pub mod request;
pub mod router;
pub mod routing_log;
pub mod selector;
pub mod settings;
pub mod tables;
pub mod text;
pub mod thompson;
pub mod transcript;
pub mod zones;
