//! Extraction of top-level `class` and `def` definitions from Python-like
//! source text, keeping each definition's original text (with everything
//! nested beneath it) as one standalone unit.

pub mod chars;
pub mod code_structures;
pub mod export_code_structures;
pub mod extraction_laws;
pub mod extraction_model;
pub mod harvest;
pub mod lines;
pub mod python_code_parser;

pub use code_structures::CodeStructure;
pub use export_code_structures::{export_file_name, get_module_name, InvalidPathError};
pub use harvest::{harvest_file_name, harvest_segments, Segment};
pub use python_code_parser::{extract_code_structures, parse_python_code, PythonParser};

use vstd::prelude::*;

verus! {

} // verus!
