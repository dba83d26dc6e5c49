//! What the commands of the front end decide, apart from what they read and
//! write.

pub mod init;
