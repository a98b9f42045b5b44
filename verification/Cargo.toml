[package]
name = "signal_graph"
version = "0.1.0"
edition = "2021"
publish = false

[dependencies]
arrayvec = "0.7"
ringbuf = "0.2"
hound = "3"
