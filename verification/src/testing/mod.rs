//! Fixtures for tests against a real `nb`: where it is found, and how an isolated notebook is
//! set up.

pub mod binary;
pub mod fixture;
pub mod home;
pub mod home_laws;
pub mod setup_laws;
