[package]
name = "async_redis_session"
version = "0.1.0"
edition = "2021"
publish = false

[dependencies]
async-session = "3"
fred = "6"
futures = "0.3"
