//! Verified core of the Exergon factory game: recipe graphs, tech-tree research,
//! crafting queues, cable networks and routing, content registries and seeds.

pub mod catalog;
pub mod cli;
pub mod inventory;
pub mod job_queue;
pub mod json_patch;
pub mod machine;
pub mod membership;
pub mod network_state;
pub mod components;
pub mod content;
pub mod drone;
pub mod escape;
pub mod orientation;
pub mod overlay;
pub mod planet;
pub mod pod;
pub mod port_layout;
pub mod production;
pub mod dispatch_laws;
pub mod ordering;
pub mod recipe_graph;
pub mod research;
pub mod research_laws;
pub mod routing;
pub mod scenario;
pub mod seed;
pub mod storage;
pub mod strmap;
pub mod tech_path;
pub mod tech_tree;
pub mod text;
