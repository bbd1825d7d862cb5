[package]
name = "pc_looper"
version = "0.1.0"
edition = "2021"
publish = false

[dependencies]
bitvec = "1"
colored = "2"
process-memory = "0.4"
winapi = { version = "0.3", features = ["tlhelp32", "processthreadsapi", "minwinbase", "minwindef", "handleapi", "winnt"] }
