//! The settings that the library's rules read, with their documented defaults.

use vstd::prelude::*;

use crate::text::copy_strings;

verus! {

/// How tool calls are rendered.
#[derive(Debug, Clone, Copy, PartialEq, Eq, Structural)]
pub enum ToolDisplay {
    /// Every tool with its complete title.
    Full,
    /// A count summary.
    Compact,
    /// Not at all.
    Hidden,
}

impl Default for ToolDisplay {
    fn default() -> (r: Self)
        ensures
            r == ToolDisplay::Full,
    {
        ToolDisplay::Full
    }
}

/// Outbound attachments.
#[derive(Debug)]
pub struct AttachmentsConfig {
    pub enabled: bool,
    /// Directories from which files may be read; empty means the agent's
    /// working directory only.
    pub allowed_dirs: Vec<String>,
    pub max_bytes: u64,
    pub max_files: usize,
}

impl Clone for AttachmentsConfig {
    fn clone(&self) -> (r: Self)
        ensures
            r.enabled == self.enabled,
            crate::text::texts(r.allowed_dirs@) == crate::text::texts(self.allowed_dirs@),
            r.max_bytes == self.max_bytes,
            r.max_files == self.max_files,
    {
        AttachmentsConfig {
            enabled: self.enabled,
            allowed_dirs: copy_strings(&self.allowed_dirs),
            max_bytes: self.max_bytes,
            max_files: self.max_files,
        }
    }
}

impl Default for AttachmentsConfig {
    fn default() -> (r: Self)
        ensures
            !r.enabled,
            r.allowed_dirs@.len() == 0,
            r.max_bytes == 10 * 1024 * 1024,
            r.max_files == 10,
    {
        AttachmentsConfig {
            enabled: false,
            allowed_dirs: Vec::new(),
            max_bytes: 10 * 1024 * 1024,
            max_files: 10,
        }
    }
}

/// The emoji of each stage of a turn.
#[derive(Debug)]
pub struct ReactionEmojis {
    pub queued: String,
    pub thinking: String,
    pub tool: String,
    pub coding: String,
    pub web: String,
    pub done: String,
    pub error: String,
}

/// The emojis as texts.
#[verifier::ext_equal]
pub struct EmojisView {
    pub queued: Seq<char>,
    pub thinking: Seq<char>,
    pub tool: Seq<char>,
    pub coding: Seq<char>,
    pub web: Seq<char>,
    pub done: Seq<char>,
    pub error: Seq<char>,
}

impl View for ReactionEmojis {
    type V = EmojisView;

    open spec fn view(&self) -> EmojisView {
        EmojisView {
            queued: self.queued@,
            thinking: self.thinking@,
            tool: self.tool@,
            coding: self.coding@,
            web: self.web@,
            done: self.done@,
            error: self.error@,
        }
    }
}

impl Clone for ReactionEmojis {
    fn clone(&self) -> (r: Self)
        ensures
            r@ == self@,
    {
        ReactionEmojis {
            queued: self.queued.clone(),
            thinking: self.thinking.clone(),
            tool: self.tool.clone(),
            coding: self.coding.clone(),
            web: self.web.clone(),
            done: self.done.clone(),
            error: self.error.clone(),
        }
    }
}

/// The emojis where none are configured.
pub open spec fn default_emojis() -> EmojisView {
    EmojisView {
        queued: "👀"@,
        thinking: "🤔"@,
        tool: "🔥"@,
        coding: "👨‍💻"@,
        web: "⚡"@,
        done: "🆗"@,
        error: "😱"@,
    }
}

/// The timing where none is configured.
pub open spec fn default_timing() -> ReactionTiming {
    ReactionTiming {
        debounce_ms: 700,
        stall_soft_ms: 10_000,
        stall_hard_ms: 30_000,
        done_hold_ms: 1_500,
        error_hold_ms: 2_500,
    }
}

impl Default for ReactionEmojis {
    fn default() -> (r: Self)
        ensures
            r@ == default_emojis(),
    {
        ReactionEmojis {
            queued: "👀".to_owned(),
            thinking: "🤔".to_owned(),
            tool: "🔥".to_owned(),
            coding: "👨‍💻".to_owned(),
            web: "⚡".to_owned(),
            done: "🆗".to_owned(),
            error: "😱".to_owned(),
        }
    }
}

/// When reactions change, in milliseconds.
#[derive(Debug, Clone, Copy, PartialEq, Eq, Structural)]
pub struct ReactionTiming {
    pub debounce_ms: u64,
    pub stall_soft_ms: u64,
    pub stall_hard_ms: u64,
    pub done_hold_ms: u64,
    pub error_hold_ms: u64,
}

impl Default for ReactionTiming {
    fn default() -> (r: Self)
        ensures
            r == default_timing(),
    {
        ReactionTiming {
            debounce_ms: 700,
            stall_soft_ms: 10_000,
            stall_hard_ms: 30_000,
            done_hold_ms: 1_500,
            error_hold_ms: 2_500,
        }
    }
}

/// Reaction feedback on messages.
#[derive(Debug)]
pub struct ReactionsConfig {
    pub enabled: bool,
    /// Remove the status reaction some time after the reply.
    pub remove_after_reply: bool,
    pub tool_display: ToolDisplay,
    pub emojis: ReactionEmojis,
    pub timing: ReactionTiming,
}

impl Clone for ReactionsConfig {
    fn clone(&self) -> (r: Self)
        ensures
            r.enabled == self.enabled,
            r.remove_after_reply == self.remove_after_reply,
            r.tool_display == self.tool_display,
            r.emojis@ == self.emojis@,
            r.timing == self.timing,
    {
        ReactionsConfig {
            enabled: self.enabled,
            remove_after_reply: self.remove_after_reply,
            tool_display: self.tool_display,
            emojis: self.emojis.clone(),
            timing: self.timing,
        }
    }
}

impl Default for ReactionsConfig {
    fn default() -> (r: Self)
        ensures
            r.enabled,
            !r.remove_after_reply,
            r.tool_display == ToolDisplay::Full,
            r.emojis@ == default_emojis(),
            r.timing == default_timing(),
    {
        ReactionsConfig {
            enabled: true,
            remove_after_reply: false,
            tool_display: ToolDisplay::Full,
            emojis: ReactionEmojis::default(),
            timing: ReactionTiming::default(),
        }
    }
}

/// A message that is repeated in a channel while turns are running.
#[derive(Debug)]
pub struct ActivityHeartbeatConfig {
    pub enabled: bool,
    pub channel: String,
    pub label: String,
}

impl Clone for ActivityHeartbeatConfig {
    fn clone(&self) -> (r: Self)
        ensures
            r.enabled == self.enabled,
            r.channel@ == self.channel@,
            r.label@ == self.label@,
    {
        ActivityHeartbeatConfig {
            enabled: self.enabled,
            channel: self.channel.clone(),
            label: self.label.clone(),
        }
    }
}

/// Bounds on the context that is recovered for one incoming message.
#[derive(Debug, Clone, Copy, PartialEq, Eq, Structural)]
pub struct ContextRecoveryConfig {
    pub enabled: bool,
    pub history_limit: usize,
    pub link_limit: usize,
    pub link_neighbors: usize,
    pub max_message_chars: usize,
    pub max_total_chars: usize,
    pub settle_delay_ms: u64,
}

impl Default for ContextRecoveryConfig {
    fn default() -> (r: Self)
        ensures
            !r.enabled,
            r.history_limit == 12,
            r.link_limit == 4,
            r.link_neighbors == 2,
            r.max_message_chars == 2_000,
            r.max_total_chars == 12_000,
            r.settle_delay_ms == 250,
    {
        ContextRecoveryConfig {
            enabled: false,
            history_limit: 12,
            link_limit: 4,
            link_neighbors: 2,
            max_message_chars: 2_000,
            max_total_chars: 12_000,
            settle_delay_ms: 250,
        }
    }
}

/// The emojis and delays that the documentation gives.
pub proof fn lemma_documented_defaults()
    ensures
        default_emojis().queued == "👀"@ && default_emojis().thinking == "🤔"@,
        default_emojis().tool == "🔥"@ && default_emojis().coding == "👨‍💻"@,
        default_emojis().web == "⚡"@ && default_emojis().done == "🆗"@,
        default_emojis().error == "😱"@,
        default_timing().debounce_ms == 700 && default_timing().stall_soft_ms == 10_000,
        default_timing().stall_hard_ms == 30_000 && default_timing().done_hold_ms == 1_500,
        default_timing().error_hold_ms == 2_500,
{
}

} // verus!
