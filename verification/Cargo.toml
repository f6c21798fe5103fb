[package]
name = "pg_ltree"
version = "0.1.0"
edition = "2021"
publish = false

[dependencies]
bytes = "=1.12.1"
tokio-postgres = "=0.7.5"
# tokio-postgres brings these two in. They are named here to hold them to the
# versions that the contracts in src/pg.rs were read from: from postgres-types
# 0.2.3 on, the driver's string encoder writes a version byte of its own for a
# target of type ltree, and a path would then carry two.
postgres-types = "=0.2.2"
postgres-protocol = "=0.6.3"
tokio = { version = "=1.54.1", features = ["macros", "rt-multi-thread"] }
include-postgres-sql = { version = "=0.2.2", features = ["tokio"] }
