pub mod digits;
pub mod engine;
pub mod rules;
pub mod text;

pub use engine::redact;
pub use engine::PatternCompileError;
pub use rules::load_rule_configs;
pub use rules::Rule;
pub use rules::RuleConfig;
