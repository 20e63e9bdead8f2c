[package]
name = "mousecam"
version = "0.1.0"
edition = "2021"
publish = false

[dependencies]
failure = "0.1"
fftw = "*"
image = { version = "*", default-features = false }
minifb = "*"
rusb = "*"
uinput = "*"
