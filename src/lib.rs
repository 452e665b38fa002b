pub mod file_name;
pub mod database;
pub mod build_order;
pub mod outdated;
pub mod custom_makepkg;
pub mod repository;
pub mod version;
pub mod index;
