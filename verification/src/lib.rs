pub mod config;
pub mod crawl;
pub mod dispatch;
pub mod labels;
pub mod reader;
pub mod record;
pub mod repository;
pub mod text;
