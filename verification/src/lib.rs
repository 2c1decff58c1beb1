//! Chapter-tracking core: discovery of new episode files under watched
//! directories, classification of filenames into chapter/volume numbers via
//! configured patterns, and reconciliation of a links directory of symlinks
//! that point at unread episodes.

pub mod numbers;
pub mod text;
pub mod paths;
pub mod models;
pub mod msgs;
pub mod pattern;
pub mod discovery;
pub mod adjacency;
pub mod links;
