//! Device-tree source, parsed and cross-referenced.
//!
//! [`dts::parser::tree`] turns source text into a forest of nodes;
//! [`dts::analysis::Analysis`] stores every node of such a forest under its
//! absolute path, resolves labels, merges fragments into the nodes that they
//! reopen, and indexes which node refers to which and which symbols each
//! uses. The views in [`dts::report`] write an analysis out as text.
//!
//! What each function computes is stated over mathematical models of the
//! data ([`dts::view`]): the grammar in [`dts::syntax`], the analysis in
//! [`dts::resolve`], and what follows from them in [`dts::laws`],
//! [`dts::closure`] and [`dts::bounds`].
pub mod dts;
