pub mod handles;
