[package]
name = "ws_bench"
version = "0.1.0"
edition = "2021"
publish = false

[dependencies]
prost = "=0.14.4"
actix-web = { version = "=4.18.1", default-features = false, features = ["macros"] }
actix-ws = "*"
actix-files = "*"
futures-util = "*"
tokio = { version = "*", features = ["rt-multi-thread", "macros", "time"] }
ratatui = { version = "=0.30.2", default-features = false, features = ["crossterm"] }
crossterm = "*"
eframe = { version = "=0.37.0", default-features = false, features = ["glow", "default_fonts", "x11"] }
egui_plot = "=0.38.0"
log = "*"
gloo-net = { version = "=0.7.0", default-features = false, features = ["websocket"] }
gloo-timers = { version = "*", features = ["futures"] }
wasm-bindgen = "*"
wasm-bindgen-futures = "*"
web-sys = { version = "*", features = ["console", "Window", "Location", "Document", "Element", "HtmlCanvasElement", "HtmlElement"] }
console_error_panic_hook = "*"
