//! The core of a DNS server: the wire-format codec with name compression,
//! the local override table, the per-query decisions, the recursive
//! resolver as a state machine, and the admission control of the worker pool.
//! Sockets, configuration files and task scheduling are left to the caller.
pub mod error;
pub mod buffer;
pub mod qname;
pub mod types;
pub mod header;
pub mod question;
pub mod record;
pub mod packet;
pub mod copy;
pub mod overrides;
pub mod resolver;
pub mod handler;
pub mod pool;
pub mod laws;

pub use error::BytePacketError;
pub use buffer::{BytePacketBuffer, PACKET_BUFFER_SIZE};
pub use qname::join_labels;
pub use types::{QueryType, ResultCode};
pub use header::DnsHeader;
pub use question::DnsQuestion;
pub use record::{
    DnsRecord, make_a_record, make_aaaa_record, make_mcn_record, write_a_record, write_aaaa_record,
    write_cnns_record, write_mx_record,
};
pub use packet::DnsPacket;
pub use overrides::{DnsServerConfig, LookAtRecord, build_dns_packet, handle_look_at, name_under};
pub use resolver::{DNS_PORT, Frame, ResolveStep, Resolver};
pub use handler::{QueryPlan, build_query, complete_response, decode_packet, encode_packet, plan_query};
pub use pool::{Dispatch, WorkerPool};
