//! Decision logic of a visa service.
pub mod actor;
pub mod admin_apikeys;
pub mod apikey;
pub mod attr_server;
pub mod attribute;
pub mod auth_sweep;
pub mod build_info;
pub mod db;
pub mod error;
pub mod http_util;
pub mod json;
pub mod oidc;
pub mod policy;
pub mod policy_mgr;
pub mod protocol;
pub mod sorted;
pub mod text;
pub mod time;
pub mod trusted_services;
pub mod vsapikey;
