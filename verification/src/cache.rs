pub mod card_cache;
pub mod matching;
