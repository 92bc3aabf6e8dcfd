pub mod addressing;
pub mod obfuscation_gen;
pub mod secrets;
pub mod minted;
pub mod edit;
pub mod existing;
pub mod merge;
pub mod document;
pub mod locate;
pub mod emit;
pub mod segments;
pub mod slipmesh_file;
pub mod weight;
pub mod roadwarrior;
pub mod record;
pub mod migrate;
pub mod generate;
pub mod amend;
pub mod shown;
pub mod aimed;
