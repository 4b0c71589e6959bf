//! Collects market data from exchanges into a catalog.
//!
//! The configuration (`config`) says what is collected from which exchange and
//! is grouped into plans (`plans`). The actor (`actor`) turns the plans into
//! requests and subscriptions at the data clients, which `adapters` sets up.
//! What is recorded into the live part of the catalog is converted as soon as
//! its file is closed (`conversion`, `conversion_pass`). What holds of the parts
//! together, and what each of them is for, stands in the modules of laws:
//! `config_laws`, `actor_laws`, `subscription_laws`, `listing_laws`,
//! `collection_laws` and `pass_laws`.

pub mod actor;
pub mod actor_laws;
pub mod adapters;
pub mod collection_laws;
pub mod config;
pub mod config_laws;
pub mod conversion;
pub mod conversion_pass;
pub mod identifiers;
pub mod listing_laws;
pub mod live_tree;
pub mod names;
pub mod ordering;
pub mod pass_laws;
pub mod paths;
pub mod plans;
pub mod results;
pub mod sequences;
pub mod settings;
pub mod subscription_laws;
