[package]
name = "task_heap"
version = "0.1.0"
edition = "2021"
publish = false

[dependencies]
directories = "*"
rand = "0.8"
sha2 = "0.10"
terminal_size = "*"
textwrap = "0.16"
