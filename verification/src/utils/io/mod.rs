pub mod read;
pub mod read_until;
pub mod write;
pub mod write_all;

pub use self::read::Read;
pub use self::read_until::read_until;
pub use self::write::Write;
pub use self::write_all::write_all;
