//! A JSON document database: values, queries, updates, caching rules and the
//! request protocol, with every rule proved.

pub mod float;
pub mod text;
pub mod json;
pub mod object;
pub mod path;
pub mod wire;
pub mod value;
pub mod filter;
pub mod sort;
pub mod project;
pub mod update;
pub mod plan;
pub mod keys;
pub mod autoindex;
pub mod request;
pub mod select;
pub mod collection;
pub mod database;
pub mod server;
pub mod scan;
pub mod config;
pub mod backup;
pub mod url;
pub mod findcache;
pub mod client;
pub mod laws;
pub mod querylaws;
pub mod listlaws;
pub mod updatelaws;
pub mod changelaws;
pub mod manylaws;
pub mod storelaws;
pub mod servicelaws;
pub mod clientlaws;
pub mod indexlaws;
pub mod setuplaws;
