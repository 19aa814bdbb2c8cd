//! Verified core of an in-process cosmetics changer: the persisted skin
//! choices, the console's command language, the game-log formatter, the
//! walks over the game's item lists, the lock-badge rows, the steps of
//! applying a choice, the hook-site checks and the injector's text handling.
pub mod console;
pub mod gamelog;
pub mod injector;
pub mod process;
pub mod rows;
pub mod scan;
pub mod skins;
pub mod store;
pub mod text;
pub mod walk;
