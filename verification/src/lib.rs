//! Monitoring for the nodes of a community mesh network: the core that
//! decides, without the web server, the database and the mail transport
//! around it.
//!
//! * [`action`] signs requests to subscribe and unsubscribe, checks the
//!   signature when a request comes back, and applies it to the subscriptions.
//! * [`routes`] carries a signed request through a link and prepares the pages.
//! * [`cron`] brings the node table up to the published node list and works
//!   out whom to tell about nodes that went online or offline.
//! * [`email`] accepts addresses and composes messages.
//! * [`store`] holds the node table and the subscription table.
//! * [`wire`] and [`hmac`] are the bytes and the tags beneath the signatures.

pub mod action;
pub mod config;
pub mod cron;
pub mod email;
pub mod hmac;
pub mod json;
pub mod models;
pub mod routes;
pub mod store;
pub mod util;
pub mod wire;
