//! Reconciliation of e-commerce order exports.
//!
//! A raw order export carries one row per purchased item: rows may be
//! duplicated by a re-export, several rows may belong to one order id, and
//! several distinct order ids may be shippable together because they share
//! consignee, address, status and contact. This crate decodes such rows into
//! [`order::Order`] records and runs them through the reconciliation stages
//! in [`opr`]: deduplicate, filter by product number, merge rows of one id,
//! merge matching ids, and flag residual contact collisions.

pub mod cell;
pub mod decode;
pub mod numfmt;
pub mod opr;
pub mod order;
