//! A Kademlia-style DHT node core: 160-bit identifier arithmetic, an
//! XOR-metric routing table, the KRPC bencode codec, the transaction
//! multiplexer and the service state machine of the mainline BitTorrent DHT.

pub mod bt_dht;
pub mod bucket;
pub mod id;
pub mod kcodec;
pub mod krpc;
pub mod kservice;
pub mod ktrans;
pub mod node;
pub mod ns;
pub mod nodes_info;
pub mod table;

pub use bt_dht::BtDhtHash;
pub use id::NodeId;
pub use kcodec::KCodec;
pub use krpc::KAddress;
pub use krpc::KError;
pub use krpc::KMessage;
pub use kservice::KService;
pub use kservice::KTransError;
pub use ktrans::KTrans;
pub use node::Node;
pub use node::NodeStatus;
pub use table::Table;
