//! What the searches and sorts give, in terms of the stored boxes and indices alone.

pub mod distances;
pub mod rankings;
pub mod searches;
pub mod sorts;
pub mod storage;
