pub mod decode;
pub mod encode;
pub mod index;
pub mod numeral;
pub mod order;
pub mod props;
pub mod registry;
pub mod render;
pub mod structure;
pub mod value;
pub mod walk;
