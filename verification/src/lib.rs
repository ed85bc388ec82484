//! A load-order linter and sorter for game mods: a rules-document parser, a
//! boolean expression evaluator over mod presence, and a stable, cycle-checked
//! ordering engine.

pub mod canonical;
pub mod document;
pub mod expressions;
pub mod grammar;
pub mod graph;
pub mod modlist;
pub mod parser;
pub mod rule_parser;
pub mod rule_text;
pub mod rules;
pub mod seqs;
pub mod sorter;
pub mod text;

pub use expressions::{Atomic, Expression, ALL, ANY, DESC, NOT};
pub use modlist::{is_archive_name, sort_names};
pub use parser::{
    get_parser, new_cyberpunk_parser, new_openmw_parser, new_tes3_parser, rules_files,
    ESupportedGame, ParseError, Parser,
};
pub use rule_parser::{parse_rules, read_file_as_list};
pub use rules::{
    get_warnings, Conflict, EOrderRule, ERule, EWarningRule, NearEnd, NearStart, Note, Order,
    Patch, Requires, TParser, TWarningRule,
};
pub use sorter::{
    get_mods_from_rules, get_order_from_rules, stable_topo_sort_inner, topo_sort, CycleError,
};
