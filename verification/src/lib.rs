pub mod catalog;
pub mod download;
pub mod encoding;
pub mod epub;
pub mod fb2;
pub mod formats;
pub mod html_util;
pub mod library;
pub mod markdown;
pub mod models;
pub mod paths;
pub mod pattern;
pub mod text;
pub mod txt;
