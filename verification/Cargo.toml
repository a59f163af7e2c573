[package]
name = "fasm_storage"
version = "0.1.0"
edition = "2021"
publish = false

[dependencies]
rand = "0.10"
redb = "2"
tokio = { version = "1", features = ["sync", "rt"] }
tracing = "0.1"
thiserror = "2"
foundationdb = { version = "*", default-features = false, features = ["fdb-7_3", "embedded-fdb-include"] }
js-sys = "0.3"
wasm-bindgen = "0.2"
web-sys = { version = "0.3", features = ["console", "DomException", "Event", "EventTarget", "IdbCursor", "IdbCursorWithValue", "IdbDatabase", "IdbFactory", "IdbObjectStore", "IdbOpenDbRequest", "IdbRequest", "IdbTransaction", "IdbTransactionMode"] }
