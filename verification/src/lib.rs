//! Procedural generation of metroidvania-style maps: grid geometry, rooms,
//! room regions with their neighbourhood graph, and the algorithms that
//! carve, merge and connect rooms.

pub mod seq_facts;
pub mod std_wrappers;
pub mod types;
pub mod neighbour_set;
pub mod map_region;
pub mod polygon_builder;
pub mod rng;
pub mod builder_config;
pub mod bsp;
pub mod map_builder;
pub mod merge_rooms;
pub mod bisect_rooms;
pub mod path_queue;
pub mod centers;
pub mod reconnect_rooms;
pub mod room_walks;
pub mod add_doors;
pub mod merge_regions;
pub mod room_decorator;
pub mod connect_regions;


pub mod domain;
pub mod drawing;
