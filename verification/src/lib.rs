//! Market-data distribution core: an order-statistics tree over scaled
//! integer price keys, bounded sliding windows of candles with rolling
//! indicators per symbol and interval, a symbol-indexed cache, and a
//! publish/subscribe broker with bounded per-subscriber queues.
//!
//! Prices are fixed-point integers in millionths of a unit throughout, so
//! that every quantity the indicators touch is an integer.

mod connection_service;
mod data;
mod decimal;
mod fenwick_tree;
mod parse_json;
mod stock_analysis;
mod stock_information;
mod stock_information_cache;

pub use crate::connection_service::ConnectionService;
pub use crate::connection_service::Subscriber;
pub use crate::connection_service::SubscriptionError;
pub use crate::connection_service::SubscriptionTarget;
pub use crate::data::DecodeError;
pub use crate::data::OHLCModel;
pub use crate::fenwick_tree::FenwickTree;
pub use crate::fenwick_tree::TreeNode;
pub use crate::parse_json::lookup_value;
pub use crate::parse_json::parse_json;
pub use crate::stock_analysis::AnalysisInfo;
pub use crate::stock_information::IntervalBucket;
pub use crate::stock_information::StockInformation;
pub use crate::stock_information_cache::StockInformationCache;
