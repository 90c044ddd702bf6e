//! Price-oracle submission pipeline: currency symbols and collateral pairs,
//! a query batcher that groups pairs into minimal exchange queries, a
//! canonical byte codec for price records, and a signing step over the
//! encoded payload.

pub mod batch;
pub mod clock;
pub mod codec;
pub mod config;
pub mod errors;
pub mod fetch;
pub mod pair;
pub mod price;
pub mod signer;
pub mod submit;
pub mod symbol;
pub mod text;

pub use batch::Query;
pub use clock::get_unix_timestamp;
pub use config::NodeConfig;
pub use errors::ParseError;
pub use pair::CollateralPair;
pub use price::Price;
pub use symbol::Symbol;
