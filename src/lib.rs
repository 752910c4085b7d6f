//! Authentication and permission resolution for an administrative backend:
//! the menu hierarchy and its role grants, the permission resolver, menu
//! deletion rules, the login decision, signed identity tokens, and the text
//! form in which tokens travel in request headers.

pub mod auth;
pub mod error;
pub mod model;
pub mod resolver;
pub mod token;
pub mod wire;
