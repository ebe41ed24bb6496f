//! Compute a deterministic load order for a collection of installed game
//! modifications: display names are grouped by their leading run of
//! non-alphanumeric characters and ordered lexicographically within a group,
//! and the ordered identifiers are packed into the output record together
//! with a fixed acceptance flag.

mod mods;
mod name_order;

pub use mods::ids_of;
pub use mods::insert_sorted;
pub use mods::lemma_insert_sorted_multiset;
pub use mods::lemma_sort_by_name_identity_on_sorted;
pub use mods::lemma_sort_by_name_idempotent;
pub use mods::lemma_sort_by_name_ids;
pub use mods::lemma_sort_by_name_multiset;
pub use mods::lemma_sort_by_name_sorted;
pub use mods::mods_to_game_data_sorted;
pub use mods::sort_by_name;
pub use mods::sorted_by_name;
pub use mods::views_of;
pub use mods::GameData;
pub use mods::Mod;
pub use mods::Source;
pub use mods::Status;
pub use name_order::flip;
pub use name_order::is_alphanum;
pub use name_order::lemma_lex_cmp_equal_iff;
pub use name_order::lemma_lex_cmp_flip;
pub use name_order::lemma_lex_cmp_transitive;
pub use name_order::lemma_name_cmp_antisymmetric;
pub use name_order::lemma_name_cmp_equal_iff;
pub use name_order::lemma_name_cmp_le_transitive;
pub use name_order::lemma_name_cmp_total;
pub use name_order::lemma_name_cmp_transitive;
pub use name_order::lex_cmp;
pub use name_order::modname_cmp;
pub use name_order::name_cmp;
pub use name_order::prefix_len;
pub use name_order::symbol_prefix;
