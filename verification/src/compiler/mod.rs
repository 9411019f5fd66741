//! Turning a project into the source of a game: naming rules, the code
//! generated for visual scripts, and the choices of a build.

pub mod entities;
pub mod naming;
pub mod script;
pub mod source;
pub mod target;
pub mod text;

pub use entities::generate_entities_code;
pub use naming::package_name;
pub use naming::to_rust_name;
pub use script::compile_node;
pub use script::compile_visual_script;
pub use script::CompiledSystem;
pub use script::CompilerError;
pub use script::VisualScript;
pub use script::VisualScriptConnection;
pub use script::VisualScriptNode;
pub use source::generate_cargo_toml;
pub use source::generate_component_code;
pub use source::list_assets;
pub use source::ProjectAsset;
pub use source::systems_source;
pub use target::BuildResult;
pub use target::BuildTarget;
pub use target::cargo_build_args;
pub use target::GameCompiler;
pub use target::OptimizeLevel;
