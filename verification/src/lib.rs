pub mod acp;
pub mod adapter;
pub mod allow_list;
pub mod attachments;
pub mod bot_turns;
pub mod config;
pub mod context_recovery;
pub mod delivery;
pub mod directives;
pub mod display;
pub mod format;
pub mod ingress_audit;
pub mod live_status;
pub mod patterns;
pub mod posts;
pub mod reactions;
pub mod spool;
pub mod stream;
pub mod text;
pub mod time;
pub mod turn;
