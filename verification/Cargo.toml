[package]
name = "rtree_knn"
version = "0.1.0"
edition = "2021"
publish = false

[dependencies]
rstar = "=0.13.0"
