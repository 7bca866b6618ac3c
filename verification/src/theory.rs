//! The mathematics behind induced sorting: the orders on suffixes, where the
//! passes put each position, and why naming and reducing preserve the order.
pub mod count;
pub mod order;
pub mod rank;
pub mod seeds;
pub mod lpass;
pub mod spass;
pub mod lms;
pub mod lmslist;
pub mod nameproof;
pub mod reduce;
pub mod shift;
