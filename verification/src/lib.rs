//! A small node editor: nodes with typed input sockets and one output, connected into an
//! acyclic graph and evaluated on demand.
pub mod command;
pub mod consistency;
pub mod editor;
pub mod laws;
pub mod layout;
pub mod template;
pub mod typing;
pub mod value;
