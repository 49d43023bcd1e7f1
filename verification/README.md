# clash_prism_core

The core of the Prism configuration engine, written in Rust and verified with
Verus. Patches say how a proxy configuration is to change; the engine puts them in
an order that honours their dependencies, applies them, traces what they did, and
writes the result for a proxy core.

| Directory | What it holds |
|-----------|---------------|
| `src/`    | the library; every function is verified against its contract |
| `tests/`  | tests that run the library |
| `app/`    | ordinary Rust around the library: files, signals, requests, serde |

The library works on documents of its own (`value::Document`), whose numbers are
decimals of up to eighteen digits and whose objects keep their members in the order
of their keys. Laws that relate several functions are public proof functions at the
end of the module they belong to. What the standard library and other crates are
trusted to do is stated in `src/outside.rs`, and nowhere else.

What involves the outside world is split: the library decides what is to be done and
gives it out as a step (`output`, `reload`, `store`), and the application performs the
step and reports what came of it.
