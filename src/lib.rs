//! A small server of templated pages: the request-to-file resolution, the
//! content-type rules and the template substitution, with their contracts.
//! Reading files and speaking HTTP is left to the program around the library.

pub mod content_type;
pub mod request_path;
pub mod resolver;
pub mod server;
pub mod template;
pub mod text;

pub use content_type::{detect_content_type, ContentType};
pub use request_path::{clean_request_path, normalize};
pub use resolver::{Action, LoadError, Lookup, Page};
pub use server::{Reply, Server, INDEX_PATH, TEMPLATE_FILE};
pub use template::{substitute, MARKER};
