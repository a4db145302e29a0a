//! Small verified utilities: number and size parsing, line splitting,
//! quoting, path names, process trees, panic-log rotation and time text.

pub mod text;
pub mod numparse;
pub mod strop;
pub mod procop;
pub mod fileop;
pub mod panicop;
pub mod timeop;
pub mod randop;
pub mod hmacop;
pub mod netop;
