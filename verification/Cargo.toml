[package]
name = "lethe"
version = "0.8.0"
edition = "2021"
publish = false

[dependencies]
rand = "=0.8.8"
rand_chacha = "=0.3.1"
roaring = "=0.10.12"
anyhow = "=1.0.104"
clap = "=2.34.0"
console = "=0.15.11"
indicatif = "=0.15.0"
prettytable-rs = "=0.8.0"
libc = "=0.2.191"
nix = "=0.26.4"
regex = "=1.13.1"
streaming-iterator = "=0.1.9"
sysfs-class = "=0.1.3"
plist = "1"
serde = { version = "1", features = ["derive"] }
winapi = { version = "=0.3.9", features = ["errhandlingapi", "fileapi", "handleapi", "ioapiset", "minwindef", "ntdef", "processthreadsapi", "securitybaseapi", "setupapi", "winbase", "winioctl", "winnt"] }
widestring = "=1.2.1"

[dev-dependencies]
flate2 = "=1.1.10"
