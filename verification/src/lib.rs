pub mod config;
pub mod fingerprint;
pub mod matching;
pub mod ratchet;
pub mod ratchet_file;
pub mod rule_map;
pub mod rules;
pub mod utils;

pub use config::{RatchetConfig, CONFIG_VERSION};
pub use ratchet::{
    is_well_known, process_rules, scan_one, try_process_rules, RatchetError,
};
pub use ratchet_file::{
    compare_rule_maps, RatchetFile, RuleMaps, RATCHET_FILE_VERSION,
};
pub use rule_map::{FileKey, Problem, RuleMap};
pub use rules::regex::RegexRule;
pub use rules::rule::Rule;
pub use rules::todo::TodoRule;
pub use rules::RatchetRule;
pub use utils::{to_normalized_file_contents, to_normalized_path, u64_to_decimal};
