//! Read-only parser for QuickBooks Desktop company files (`.qbw`).
//!
//! The crate works on top of the `opensqlany` page-store reader and
//! covers three layers of the format: recovery of the per-page
//! additive-progression cipher parameter (`bv`), scanning of the SA17
//! system catalogs (SYSTABLE, SYSCOLUMN, SYSINDEX, SYSOBJECT), and the
//! QuickBooks business records (invoice line items and transaction
//! headers). Page-to-table attribution and its validators sit on top.

pub mod attribution_content;
pub mod attribution_schema;
pub mod bv_recovery;
pub mod catalog;
pub mod codec;
pub mod date;
pub mod decode;
pub mod export;
pub mod fkgraph;
pub mod lineitem;
pub mod nullability;
pub mod page_attribution;
pub mod probe;
pub mod sorting;
pub mod store;
pub mod syscolumn;
pub mod sysindex;
pub mod sysobject;
pub mod systable;
pub mod text;
pub mod transaction_header;

pub use bv_recovery::{
    deobfuscate_with_bv, oracle_bv_e_page, recover_bv_any, recover_bv_apage, recover_bv_brute,
    recover_bv_qb_data, APAGE_MAGIC,
};
pub use date::{
    sa_day_to_unix_day, sa_day_to_unix_seconds, unix_day_to_sa_day, DATE_EPOCH_DAYS_BEFORE_UNIX,
    SA_DAY_MAX_PLAUSIBLE, SA_DAY_MIN_PLAUSIBLE,
};
pub use attribution_content::{AttributionAgreement, ContentAttribution, RowSignature, SIG_LEN};
pub use export::iter_lineitems_with_attribution;
pub use fkgraph::{build as build_fk_graph, stats as fk_graph_stats, FkEdge, FkGraphStats};
pub use lineitem::{iter_lineitems, AmountType, LineItem};
pub use page_attribution::PageAttribution;
pub use syscolumn::{
    collect_unique as collect_unique_syscolumns, iter_syscolumns, schema_for,
    scan_page as scan_syscolumn_page, SysColumn, SYSCOLUMN_TAG,
};
pub use systable::{
    collect_unique, iter_systable_entries, scan_page as scan_systable_page, SysTableEntry,
};
pub use transaction_header::{iter_transaction_headers, TransactionHeader};
