[package]
name = "blackhole_sim"
version = "0.1.0"
edition = "2021"
publish = false

[dependencies]
nalgebra = "0.33"
bytemuck = { version = "1", features = ["derive"] }
egui = "0.31"
egui-wgpu = "0.31"
egui-winit = "0.31"
wgpu = "24"
winit = "0.30"
pollster = "0.4"
wasm-bindgen = "0.2"
wasm-bindgen-futures = "0.4"
js-sys = "0.3"
web-sys = { version = "0.3", features = ["Window", "Performance", "Document", "Element", "HtmlElement", "HtmlCanvasElement", "CssStyleDeclaration", "Request", "RequestInit", "RequestMode", "Response", "console"] }
