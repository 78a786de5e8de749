//! The logic of a feed reader for video platforms: the CSV files that keep
//! subscriptions, filters and the watch-later list, the feed list model, and
//! the decisions behind the preference, subscription and filter pages.
pub mod command;
pub mod csv_file_manager;
pub mod feed;
pub mod filter;
pub mod import;
pub mod preferences;
pub mod subscription;
pub mod text;
pub mod utility;
pub mod video_info;
