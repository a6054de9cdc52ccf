//! Verified core of an access-log analyzer.
//!
//! One log line is scanned byte by byte into nine fields (client address,
//! user, timestamp, request line, status code, bytes sent, referer,
//! user agent, forwarded-for chain); each successfully decoded record is
//! folded into frequency tables and traffic totals. The scanner, the record
//! parser and the aggregation tables are specified and proved here; reading
//! input and rendering the report are left to the surrounding program.

pub mod predicates;
pub mod scan;
pub mod line;
pub mod record;
pub mod table;
pub mod agg;
pub mod report;
