[package]
name = "chlorophyte"
version = "0.1.0"
edition = "2021"
publish = false

[dependencies]
byteorder = "=1.5.0"
chrono = "=0.4.45"
ctrlc = "=3.5.2"
fastrand = "=2.5.0"
figlet-rs = "=1.0.0"
log = "=0.4.34"
once_cell = "=1.21.4"
pnet_packet = "=0.35.0"
simple_logger = "=5.2.0"
socket2 = { version = "*", features = ["all"] }
