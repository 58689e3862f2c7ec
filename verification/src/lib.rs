pub mod anonymize;
pub mod dialect;
pub mod matcher;
pub mod pattern;
pub mod render;
pub mod run;

pub use anonymize::{collect_plain_tokens, Anonymizer, TokenCapture, TokenKind};
pub use dialect::{parse_with_detect, DialectKind, Line, LineKind, ParsedConfig};
pub use matcher::MatchAccumulator;
pub use pattern::{CfgcutError, MatchTarget, Pattern};
pub use render::{glob_pattern, line_path, render_output, TokenAccumulator, TokenRecord};
pub use run::{
    fuzz_matcher, fuzz_parse, run, Anonymization, CommentHandling, OutputMode, RunOutput,
    RunRequest, TokenDestination,
};
