pub mod accounts;
pub mod auth;
pub mod claim;
pub mod crypto;
pub mod files;
pub mod image;
pub mod namemc;
pub mod templates;
pub mod update;
