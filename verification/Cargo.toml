[package]
name = "crucible_test_context"
version = "0.1.0"
edition = "2021"
publish = false

[dependencies]
litesvm = { version = "0.9", features = ["invocation-inspect-callback", "register-tracing"] }
anchor-lang = "1.0"
spl-token = "9"
solana-account = "3"
solana-clock = "3"
solana-compute-budget = "3"
solana-instruction = "3"
solana-keypair = "3"
solana-message = "3"
solana-program-runtime = "3"
solana-pubkey = "3"
solana-sbpf = "0.13"
solana-signature = "3"
solana-signer = "3"
solana-sysvar = "3"
solana-transaction = "3"
solana-transaction-context = "3"
solana-transaction-error = "3"
addr2line = "0.25"
anyhow = "1"
borsh = "1"
bytemuck = "1"
gimli = "0.32"
object = "0.37"
rustc-demangle = "0.1"
rustc-hash = "2"
serde = { version = "1", features = ["derive"] }
serde_json = "1"
