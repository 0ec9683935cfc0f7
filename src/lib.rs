//! Near-duplicate detection and voting for memes posted in a group chat.
//!
//! An image, grayscale and resized by the caller, gets a fine and a coarse
//! perceptual fingerprint (`imghash`), written in hex (`codec`). A new fine
//! fingerprint is scored against the memes of its coarse bucket (`store`,
//! `similarity`) and classed as a duplicate, a similar meme or new
//! (`classify`). Votes on stored memes live in a ledger with at most one
//! vote per voter and meme (`votes`).
pub mod cache;
pub mod callbacks;
pub mod classify;
pub mod codec;
pub mod imghash;
pub mod meme;
pub mod similarity;
pub mod store;
pub mod text;
pub mod votes;
