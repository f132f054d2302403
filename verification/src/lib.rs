//! A verified template-instantiation engine for a wiki markup dialect.
//!
//! The engine takes a parsed markup tree containing named template invocations
//! and parameter placeholders and resolves them, recursively, into a concrete
//! tree with no unresolved constructs remaining. Expansion works partly on
//! structured trees and partly on their textual serialization, because an
//! expansion can synthesize markup that only re-parsing can discover.

pub mod laws;
pub mod node;
pub mod parse;
pub mod page_context;
pub mod props;
pub mod subst;
pub mod template;
pub mod serialize;
pub mod stdx;
pub mod text;

pub use crate::node::Node;
pub use crate::page_context::PageContext;
pub use crate::template::Error;
pub use crate::template::MemoryLoader;
pub use crate::template::TemplateLoader;
pub use crate::template::TemplateToInstantiate;
pub use crate::template::Templates;
pub use crate::node::NodeView;
pub use crate::node::TemplateParameter;
pub use crate::node::TableCaption;
pub use crate::node::TableCell;
pub use crate::node::TableRow;
