//! Reading and writing `newc` cpio archives, with the logic of the `rscpio` tool: listing,
//! stripping and creating archives. Archives are read from and written to byte buffers.

pub mod cli;
pub mod commands;
pub mod cpio;
pub mod create;
pub mod error;
pub mod ext;
pub mod hex;
pub mod iter;
pub mod order;
pub mod sys;
pub mod termio;
pub mod traits;

pub use cpio::{
    trailer_name_cstring, CpioEntry, Header, HEADER_LEN, MAGIC_CRC, MAGIC_NEWC, TRAILER_NAME,
    TRAILER_SIZE,
};
pub use error::{BadMagicError, CustomError, MiniBinError};
pub use iter::CpioIterator;
pub use traits::{MiniBinRead, MiniBinWrite};
