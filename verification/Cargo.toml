[package]
name = "sudoku_sat"
version = "0.1.0"
edition = "2021"
publish = false

[dependencies]
logicng = "=0.1.0-alpha.3"
