[package]
name = "gwas_viewer"
version = "0.1.0"
edition = "2021"
publish = false

[dependencies]
anyhow = "=1.0.104"
bytemuck = { version = "=1.25.2", features = ["derive"] }
console_error_panic_hook = "=0.1.7"
console_log = "=0.2.2"
crossbeam = "=0.8.5"
egui = "0.13"
egui_winit_platform = "0.9"
epi = "0.13"
instant = "=0.1.13"
js-sys = "=0.3.106"
nalgebra-glm = "=0.21.0"
wasm-bindgen = "=0.2.129"
wasm-bindgen-futures = "=0.4.79"
web-sys = { version = "=0.3.50", features = ["Window", "Request", "RequestInit", "Response", "console", "Document", "Element", "HtmlElement", "HtmlCanvasElement", "Node"] }
wgpu = "=0.8.1"
winit = "=0.25.0"
