//! Merging of time-ordered packet captures: the merge tree, the capture
//! format, and the policies that feed the merge.

pub mod buffers;
pub mod input;
pub mod merge_laws;
pub mod merge_order;
pub mod packet_stream;
pub mod pcap;
pub mod s3;
pub mod tournament_tree;
pub mod tree_shape;
pub mod util;
