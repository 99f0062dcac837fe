//! A flow archive: reading flow messages off a byte stream, batching them into
//! columns, filing the batches by day, and answering questions about them.

pub mod addr;
pub mod archive;
pub mod asn;
pub mod batch;
pub mod calendar;
pub mod clock;
pub mod columns;
pub mod consumer;
pub mod flow;
pub mod flush;
pub mod frames;
pub mod lookup;
pub mod moment;
pub mod notation;
pub mod order;
pub mod partition;
pub mod text;
pub mod varint;
