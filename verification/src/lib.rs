//! Verified core of the portfolio interface: calendar arithmetic, text
//! and money formatting, decimal analytics of the holdings (MPT, CAPM,
//! realized gains, allocation), the pages' tables, forms and labels, the
//! page cache, the market refresh loop and notifications.

pub mod calendar;
pub mod text;
pub mod parse;
pub mod decimal;
pub mod format;
pub mod mpt;
pub mod capm;
pub mod transaction;
pub mod portfolio;
pub mod holdings;
pub mod dashboard;
pub mod editors;
pub mod settings;
pub mod plan;
pub mod i18n;
pub mod economy;
pub mod calendar_page;
pub mod compare;
pub mod performance;
pub mod performance_chart;
pub mod choices;
pub mod live_number;
pub mod cache;
pub mod market;
pub mod notify;
