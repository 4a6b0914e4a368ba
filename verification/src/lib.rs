//! Verified core of a retail sales analyzer: basket (co-purchase) rules, ABC
//! ranking, RFM segmentation, sales trends, purchase anomalies and customer
//! clusters, computed from rows that the application has read from CSV files.
pub mod order;
pub mod master;
pub mod rows;
pub mod grouping;
pub mod basket;
pub mod abc;
pub mod rfm;
pub mod trend;
pub mod anomaly;
pub mod cluster;
pub mod plugin;
pub mod samples;
