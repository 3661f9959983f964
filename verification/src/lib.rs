//! Private information retrieval from learning with errors.
//!
//! A server holds a database of elements, one in each row of a matrix. A client fetches an element
//! without telling the server which: it sends the unit vector of the row, scaled and hidden behind
//! masks; the server answers with the product of the query and the matrix; and the client takes the
//! masks off and rounds the noise away. All arithmetic is modulo 2^32.
//!
//! * [`api`] holds servers, queries and responses, [`batch`] those for many queries at once.
//! * [`db`] is the database matrix, [`elements`] turns base64 texts into its rows.
//! * [`params`] holds what a server publishes and what a client derives from it.
//! * [`utils`] holds bits, bytes, vectors, matrices and noise, [`arith`] sums and remainders.
//! * [`laws`] states what holds of the scheme as a whole.
//! * [`representation`] states what the values stand for, in plain arithmetic.
//! * [`outside`] holds the calls into other crates, whose behaviour is taken on trust.
pub mod api;
pub mod arith;
pub mod batch;
pub mod db;
pub mod elements;
pub mod errors;
pub mod laws;
pub mod outside;
pub mod params;
pub mod representation;
pub mod utils;
