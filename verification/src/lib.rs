use vstd::prelude::*;

pub mod auth;
pub mod backup;
pub mod config;
pub mod crypto;
pub mod error;
pub mod gallery;
pub mod hex;
pub mod labels;
pub mod map;
pub mod media;
pub mod moments;
pub mod ratelimit;
pub mod text;

verus! {
}
