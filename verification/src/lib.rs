//! A dictionary lookup core for a vocabulary-card exporter: a morphological
//! deinflection engine over suffix-rewrite rules, an indexed in-memory
//! dictionary store with transactional bulk import, and a lookup layer that
//! composes the two.

pub mod anki;
pub mod config;
pub mod deinflect;
pub mod dict;
pub mod pinyin;
pub mod strutil;
pub mod text;
