pub mod base64url;
pub mod claims;
pub mod http;
pub mod todo;
pub mod token;
