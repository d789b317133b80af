//! Function-signature recovery over lifted binary code: an abstract domain of
//! value origins, the transfer functions of an interprocedural forward
//! analysis that tracks how incoming values are used, and the location of the
//! implicit arguments of variadic calls.

pub mod domain;
pub mod ir;
pub mod state;
pub mod context;
pub mod arguments;
