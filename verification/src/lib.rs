//! Verified core of the Soyel material preview backend.

pub mod text;
pub mod order;
pub mod materials;
pub mod catalog;
pub mod session;
pub mod stream;
pub mod scene;
