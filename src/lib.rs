//! A reactive value-propagation core: observable cells that notify their
//! listeners on change, weak handles that can tell whether their target is
//! still alive, and derived expressions that recompute lazily.
//!
//! Everything lives in a `graph::Graph` that the caller owns; there is no
//! process-wide state. Cells, handlers, derived nodes and fields are reached
//! through small handles (`obsv::Observable`, `obsv::ObservablePtr`,
//! `obsv::InvalidationHandler`, `expr::Expression`, `property::Property`)
//! that name an entry of the graph. No handle keeps its entry alive: access
//! through a weak handle first checks that the entry still is, and a cell that
//! died never comes back.
//!
//! Setting a cell to a different value fires each live handler registered on
//! it once; setting it to the value it holds fires none. A derived node
//! registers its handler on every cell it depends on, directly or through
//! other nodes, so a change marks it dirty; reading a dirty node recomputes it
//! from the current values of its operands, and reading a clean node returns
//! its cached value without computing anything.
pub mod bind;
pub mod borrow;
pub mod expr;
pub mod graph;
pub mod listen;
pub mod obsv;
pub mod ops;
pub mod property;
pub mod rcref;
pub mod value;
pub mod weak;
