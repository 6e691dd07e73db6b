[package]
name = "libraytracer"
version = "0.1.0"
edition = "2021"
publish = false

[dependencies]
num_cpus = "*"
scoped_threadpool = "*"
nalgebra = "*"
palette = "*"
rand = "*"
image = { version = "*", default-features = false, features = ["png"] }
piston = "*"
piston2d-graphics = "*"
pistoncore-glutin_window = "*"
piston2d-opengl_graphics = "*"
