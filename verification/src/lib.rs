//! A document model for WordprocessingML (DOCX) packages with verified
//! operations: paragraph and run properties, style resolution, list
//! numbering, placeholder replacement, relationships and package paths,
//! a LaTeX subset parser for equations, and HTML/Markdown rendering.
#![allow(non_camel_case_types)]
#![allow(non_snake_case)]

pub mod chars;
pub mod units;
pub mod shared;
pub mod borders;
pub mod properties;
pub mod document;
pub mod text;
pub mod drawing;
pub mod header_footer;
pub mod table;
pub mod error;
pub mod styles;
pub mod numbering;
pub mod style_resolver;
pub mod placeholder;
pub mod opc;
pub mod namespace;
pub mod bookmark;
pub mod theme;
pub mod settings;
pub mod app_properties;
pub mod core_properties;
pub mod shapes;
pub mod chart;
pub mod sdt;
pub mod footnotes;
pub mod layout;
pub mod tool_inputs;
pub mod html_css;
pub mod html;
pub mod markdown;
pub mod math;
pub mod xml;
pub mod xml_read;
pub mod properties_read;
pub mod syntax;
pub mod text_diff;
