pub mod addr;
pub mod assoc;
pub mod configure;
pub mod consts;
pub mod error;
pub mod proto;
pub mod text;
