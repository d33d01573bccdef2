//! Building blocks of the cache: a fixed-capacity arena, the recency list
//! that lives in it, the hash that routing rests on, and the answers of the
//! HTTP gateway.

pub mod doubly_linked_list;
pub mod gen_arena;
pub mod hash;
pub mod http;
