//! Verified building blocks of a network session reassembly bench: link,
//! network and transport parsing, datagram defragmentation, sequence-space
//! reassembly and connection generations.

pub mod addresses;
pub mod analysis;
pub mod analyze;
pub mod arrivals;
pub mod bare;
pub mod builder;
pub mod bytes;
pub mod capture;
pub mod checksum;
pub mod connections;
pub mod cover;
pub mod datagrams;
pub mod decimal;
pub mod defrag;
pub mod demo;
pub mod document;
pub mod engine;
pub mod fixture;
pub mod flows;
pub mod frag;
pub mod fragment;
pub mod frame;
pub mod hash;
pub mod headers;
pub mod hex;
pub mod http;
pub mod ipdefrag;
pub mod ipfrag;
pub mod ipreasm;
pub mod json;
pub mod lifetimes;
pub mod lines;
pub mod model;
pub mod network;
pub mod offsets;
pub mod ordered;
pub mod packet;
pub mod parse;
pub mod pcap;
pub mod phrases;
pub mod reasm;
pub mod refusals;
pub mod sample;
pub mod seq;
pub mod serial;
pub mod server;
pub mod session;
pub mod sorting;
pub mod storage;
pub mod store;
pub mod streams;
pub mod table;
pub mod tcp;
pub mod telling;
pub mod text;
pub mod textmap;
pub mod types;
pub mod wire;
pub mod workbench;
