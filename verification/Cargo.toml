[package]
name = "nova_luna_solver"
version = "0.1.0"
edition = "2021"
publish = false

[dependencies]
chrono = "*"
clap = { version = "3", features = ["cargo"] }
fltk = "*"
mcts = "*"
num_cpus = "*"
rocket = { version = "*", features = ["json"] }
serde = { version = "*", features = ["derive"] }
serde_json = "*"
yew = "*"
