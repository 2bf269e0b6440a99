[package]
name = "lfu_cache"
version = "0.1.0"
edition = "2021"
publish = false

[dependencies]
cht = "*"
count-min-sketch = "*"
crossbeam-channel = "*"
parking_lot = "*"
