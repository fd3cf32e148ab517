[package]
name = "libreddit"
version = "0.1.0"
edition = "2021"
publish = false

[dependencies]
route-recognizer = "=0.3.1"
percent-encoding = "=2.3.2"
serde_json = "=1.0.154"
cookie = "=0.17.0"
time = "=0.3.55"
futures-lite = "=1.13.0"
once_cell = "=1.21.4"
console_error_panic_hook = "=0.1.7"
js-sys = "=0.3.106"
wasm-bindgen = "=0.2.129"
wasm-bindgen-futures = "=0.4.79"
web-sys = { version = "=0.3.106", features = ["FormData", "Headers", "ReadableStream", "Request", "RequestInit", "RequestRedirect", "Response", "ResponseInit", "Url", "UrlSearchParams", "WorkerGlobalScope"] }
