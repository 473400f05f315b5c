//! Exact solver for boundary-extended tridiagonal linear systems.
//!
//! A system couples `n = m + 2` unknowns: `m` interior rows
//! `a_i*x(i-1) - b_i*x_i + c_i*x(i+1) = -d_i` plus the two boundary
//! equations `x_0 - kappa1*x_1 = mu1` and `x_N - kappa2*x(N-1) = mu2`.
//! The solver is the generalized Thomas forward-sweep/back-substitution,
//! carried out over exact arbitrary-precision rationals, so a computed
//! solution reproduces the right-hand side exactly.
//!
//! One numeric backend is provided, deliberately: exact rationals over
//! arbitrary-precision integers. Pivots are tested against exact zero,
//! with no tolerance; a fixed-precision floating backend would need a
//! tolerance policy of its own and cannot carry the exactness contracts
//! stated here.

pub mod bignum;
pub mod config;
pub mod loader;
pub mod matrix;
pub mod rat;
pub mod tasks;
pub mod theorems;
pub mod tridiagonal_system;
pub mod vector;
pub mod wshandler;
