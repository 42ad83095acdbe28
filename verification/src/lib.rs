pub mod addressspace;
pub mod basicblock;
pub mod building;
pub mod exploration;
pub mod graph;
pub mod hex;
pub mod instruction;
pub mod laws;
pub mod predecessors;
pub mod walk;
pub mod x86;
