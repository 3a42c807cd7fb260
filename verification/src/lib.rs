//! A local proxy that lets the coding assistant's command-line client talk to the Cursor agent: the HTTP side
//! that reads Anthropic messages requests, the prompt that the agent is given,
//! the translation of the agent's JSON events into server-sent events or whole
//! messages, and the session that starts that client against the proxy.

pub mod agent;
pub mod http;
pub mod json;
pub mod number;
pub mod prompt;
pub mod session;
pub mod text;
