[package]
name = "one_d"
version = "0.1.0"
edition = "2021"
publish = false

[dependencies]
rand = "0.4"
docopt = "0.7"
rustc-serialize = "0.3"
piston = "*"
piston2d-graphics = "*"
pistoncore-glutin_window = "*"
piston2d-opengl_graphics = "*"
