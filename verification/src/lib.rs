//! A gashapon (capsule-toy) prize-pool engine: a catalog of named prizes with
//! quantities is expanded into a flat pool of slots, shuffled by a seeded
//! pseudo-random generator, and drawn from one slot at a time without
//! replacement, until the pool is exhausted or restored.

pub mod catalog;
pub mod error;
pub mod pool;
pub mod prize;
pub mod utils;

pub use catalog::DrawRate;
pub use catalog::Gashapon;
pub use error::GashaponError;
pub use pool::Prizes;
pub use pool::draw_prize_item;
pub use prize::GashaponItem;
pub use prize::GetPrizeItemId;
pub use prize::PrizeId;
pub use prize::PrizeItem;
