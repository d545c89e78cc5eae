//! An agent that watches and instruments game processes on behalf of a host.

pub mod actions;
pub mod arguments;
pub mod assembly;
pub mod backend;
pub mod calls;
pub mod chat_effects;
pub mod clients;
pub mod codec;
pub mod core_hook;
pub mod dispatch;
pub mod diversion;
pub mod effects;
pub mod exports;
pub mod extents;
pub mod feature_error;
pub mod feature_hook;
pub mod feature_template;
pub mod game_login;
pub mod game_process;
pub mod hook;
pub mod inspection;
pub mod instance;
pub mod login_ends;
pub mod machine;
pub mod memory;
pub mod mutation;
pub mod order;
pub mod ordered;
pub mod payload;
pub mod probe;
pub mod process;
pub mod protocol;
pub mod relocation;
pub mod rpc;
pub mod scan;
pub mod search;
pub mod service;
pub mod signature;
pub mod sites;
pub mod steps;
pub mod text;
pub mod threads;
pub mod window_input;
pub mod windows_process;
pub mod x64;
