[package]
name = "hierarchical_pathfinding"
version = "0.5.0"
edition = "2021"
publish = false

[dependencies]
hashbrown = "*"
rayon = "*"
