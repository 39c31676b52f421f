//! TF-IDF vectorisation of tokenised documents into sparse rows, and
//! Frequent-Directions embedding of sparse rows into a few dense columns.
//!
//! The arithmetic is abstract: every numeric kernel is generic over [`scalar::Scalar`],
//! and its contract says which operations are applied to which operands, in which
//! order. The structure around the arithmetic (which term is counted where, which
//! column a term gets, which row of a sketch is overwritten and when the sketch is
//! shrunk) is stated over sequences and maps.

pub mod call_laws;
pub mod counting;
pub mod csr;
pub mod documents;
pub mod embed;
pub mod embed_laws;
pub mod embedding_laws;
pub mod entry_laws;
pub mod fd;
pub mod hashed;
pub mod laws;
pub mod limits;
pub mod linalg;
pub mod matrix;
pub mod mixing_laws;
pub mod order_laws;
pub mod random;
pub mod reproducible;
pub mod row_laws;
pub mod rows;
pub mod scalar;
pub mod setting_laws;
pub mod sketch_laws;
pub mod sparse;
pub mod stacking;
pub mod tables;
pub mod text;
pub mod text_laws;
pub mod tfidf;
pub mod threads;
pub mod timing;
pub mod tokenize;
pub mod vocab;
pub mod weight_laws;
pub mod weights;

