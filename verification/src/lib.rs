//! A structural validation engine.
//!
//! A typed value is first turned into a generic tagged tree ([`Value`]);
//! dotted and bracketed path strings are parsed into addressing components
//! ([`FieldName`]); and per-field chains of rules run over the addressed
//! sub-values, collecting failures into a per-field report.

pub mod available;
pub mod boxed;
pub mod field_name;
pub mod lexer;
pub mod message;
pub mod parser;
pub mod rule;
pub mod rule_list;
pub mod string;
pub mod validator;
pub mod value;
pub mod value_map;

pub use boxed::BoxedRule;
pub use boxed::ErasedRule;
pub use boxed::RuleIntoBoxed;
pub use field_name::names_to_string;
pub use field_name::FieldName;
pub use field_name::FieldNames;
pub use message::Message;
pub use message::MessageKind;
pub use parser::parse;
pub use parser::parse_message;
pub use parser::MessageKey;
pub use parser::Parser;
pub use rule::Rule;
pub use rule::RuleShortcut;
pub use rule_list::custom;
pub use rule_list::IntoRuleList;
pub use rule_list::RuleExt;
pub use rule_list::RuleList;
pub use validator::IntoFieldName;
pub use validator::Report;
pub use validator::Validator;
pub use value::Value;
pub use value_map::ValueMap;
