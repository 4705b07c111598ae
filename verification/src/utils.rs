pub mod muloop;
pub mod sort;
pub mod stream;
