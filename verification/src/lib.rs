//! The timing record of a speedrun: attempts, per-segment histories and
//! comparisons, and the passes that bring them back into a consistent state.

pub mod attempt;
pub mod comparison;
pub mod generators;
pub mod import;
pub mod laws;
pub mod named;
pub mod naming;
pub mod reconcile;
pub mod run;
pub mod run_metadata;
pub mod segment;
pub mod segment_history;
pub mod settings;
pub mod text;
pub mod time;

pub use attempt::{AtomicDateTime, Attempt};
pub use comparison::{ComparisonGenerator, ComparisonsIter};
pub use run::Run;
pub use run_metadata::RunMetadata;
pub use segment::{Image, Segment};
pub use segment_history::SegmentHistory;
pub use settings::{SettingValue, SettingsMap, UserSetting, UserSettingKind};
pub use time::{Time, TimeSpan, TimingMethod};
