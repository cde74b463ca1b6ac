pub mod bignat;
pub mod fraction;
pub mod oracle;
pub mod codec;
pub mod laws;
