[package]
name = "read_rpc_server"
version = "0.1.0"
edition = "2021"
publish = false
