//! Reading nginx access logs: parsing log lines by their `log_format`, the
//! dates and times they hold, and summaries of the hits.

use vstd::prelude::*;

pub mod text;
pub mod errors;
pub mod datetime;
pub mod log_line;
pub mod line_parser;
pub mod ua_parser;
pub mod url_tree;
pub mod formater;
pub mod consumers;
pub mod file_reader;
pub mod conf;

pub use conf::Config;
pub use consumers::{Consumers, LineConsumer, ResourceConsumer, StatusConsumer, VisitorsConsumer};
pub use datetime::{unique_year_month, Date, DateTime, ParseDateTimeError, Time};
pub use errors::NgxLaserError;
pub use file_reader::{ErrorReport, LineStep, LogFile};
pub use formater::{DataMap, DataValue, FormatVisitor};
pub use line_parser::{ParseLogError, Parser};
pub use log_line::{LogLine, Method};
pub use text::IntFault;
pub use url_tree::UrlTree;

verus! {
} // verus!
