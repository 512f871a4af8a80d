//! Localized, parameterized messages: placeholder-bearing patterns, selector
//! sets that key message variants, and the groups that resolve them.

mod error;
mod key_order;
mod map_model;
mod message;
mod pattern;
mod selector;

pub use error::MessageError;
pub use key_order::{key_less, seq_less};
pub use map_model::{keys_unique, lemma_pairs_to_map, pairs_to_map};
pub use message::{
    fallback_key, group_lines, lemma_insert_then_resolve, lemma_second_equal_key_taken,
    message_text, same_shape, FallbackPolicy, MessageGroup, MessageType, SingleMessage, TextUnit,
};
pub use pattern::{
    lemma_missing_value_fails, lemma_supplied_value_rendered, part_text, part_value, parts_text,
    ph_type_attrs_map, render_parts, MessagePattern, PHTypeAttributes, PatternPart, Placeholder,
    PlaceholderType, TextPart,
};
pub use selector::{
    catch_all_of, lemma_different_pairs_unequal, lemma_same_pairs_equal, lemma_sorted_canonical, other_value, pair_text,
    pairs_text, sorted_keys, PHValsMap,
};
