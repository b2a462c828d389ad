//! Research over recorded market data: a backtester, and the store that its
//! recordings live in.
//!
//! The simulator replays events in the order in which they were received.
//! [`engine`] says what an event, a timer, an intent and a fill do to a run;
//! [`fills`] matches the orders that wait, [`account`] and [`metrics`] keep the
//! books, and [`decision_log`] keeps what was decided, so that [`determinism`]
//! can hold two runs against each other. [`harness`], [`gates`], [`tracker`],
//! [`paper`] and [`observations`] judge strategies by such runs.
//!
//! The store takes recordings from raw logs to tables. [`audit`], [`manifest`]
//! and [`promotion`] say what a recording is worth, [`compactor`], [`migrate`]
//! and [`prune`] move it, the `parquet_*` modules, [`feature_store`],
//! [`observation_store`] and [`ibit_leadlag`] lay out tables,
//! [`materialize`] and [`analytics`] derive from it ([`reproducible`] states that
//! it comes to the same each time), [`cross_venue`] compares venues, and [`historical`] with [`historical_download`] fills the past.
//!
//! Numbers are [`number::Real`]: a pattern of bits that the library orders and
//! compares. It does no arithmetic on them; a function whose result needs some
//! takes the numbers that the caller computed and decides with them. In the
//! same way a function behind file access takes what was read, and says what
//! is to be written.

pub mod account;
pub mod analytics;
pub mod audit;
pub mod calendar;
pub mod cli;
pub mod compactor;
pub mod cross_venue;
pub mod dataset;
pub mod decision_log;
pub mod determinism;
pub mod engine;
pub mod error;
pub mod event;
pub mod feature_store;
pub mod fills;
pub mod fnv;
pub mod gates;
pub mod harness;
pub mod historical;
pub mod historical_download;
pub mod ibit_leadlag;
pub mod layout;
pub mod manifest;
pub mod materialize;
pub mod measure;
pub mod metrics;
pub mod migrate;
pub mod number;
pub mod observation_store;
pub mod observations;
pub mod order;
pub mod ordered;
pub mod paper;
pub mod parquet_options;
pub mod parquet_positions;
pub mod parquet_trades;
pub mod promotion;
pub mod prune;
pub mod reproducible;
pub mod strategy_resolve;
pub mod text;
pub mod tracker;
