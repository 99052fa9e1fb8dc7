[package]
name = "ip-config-tool"
version = "0.1.0"
edition = "2021"
publish = false

[dependencies]
vte = "0.13"
serde = { version = "1", features = ["derive"] }
serde_json = "1"
dns-lookup = "2"
winapi = { version = "0.3", features = ["consoleapi", "handleapi", "iphlpapi", "minwindef", "namedpipeapi", "ntdef", "processthreadsapi", "synchapi", "winbase", "wincontypes", "winerror", "winnt"] }
native-windows-gui = { version = "1.0.13" }
native-windows-derive = "1.0.5"
