pub mod outline;
pub mod sidebar;
pub mod navigation;
pub mod wiki;
