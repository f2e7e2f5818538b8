pub mod access;
pub mod session;
pub mod token;
pub mod requests;
