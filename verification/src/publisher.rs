//! The publisher's delivery decision. The sink itself is external; what the
//! library decides is whether a notification text is actually delivered or
//! only logged, from an explicit configuration rather than ambient state,
//! so that a dry run can be injected. The orchestration of a cycle never
//! consults this flag, so the ledger evolves identically in both modes.

use vstd::prelude::*;

verus! {

/// Publisher configuration: whether delivery to the sink is enabled. With
/// delivery disabled the process runs dry: every publish becomes a log-only
/// no-op.
pub struct PublisherConfig {
    pub delivery_enabled: bool,
}

/// What the surrounding process must do with one notification text.
pub enum SinkCommand {
    /// Send the text to the external sink.
    Deliver { text: String },
    /// Log the text; nothing reaches the sink.
    LogOnly { text: String },
}

/// Decides the fate of one notification text: the text is passed through
/// unchanged either way, and it is delivered exactly when delivery is
/// enabled — in a dry run no command ever asks for the sink.
pub fn plan_publish(config: &PublisherConfig, text: String) -> (r: SinkCommand)
    ensures
        config.delivery_enabled ==> r == (SinkCommand::Deliver { text }),
        !config.delivery_enabled ==> r == (SinkCommand::LogOnly { text }),
{
    if config.delivery_enabled {
        SinkCommand::Deliver { text }
    } else {
        SinkCommand::LogOnly { text }
    }
}

} // verus!
