use vstd::prelude::*;

verus! {

/// What can go wrong while building the missions addon. Each variant carries
/// a human-readable reason.
pub enum BuildError {
    /// A file could not be opened or read.
    Io(String),
    /// Text could not be parsed as a configuration tree or as settings.
    Parse(String),
    /// A required key is absent from the build settings.
    ConfigFieldMissing(String),
    /// An expected part of an already parsed tree is absent.
    MissingField(String),
    /// A template could not be rendered.
    Template(String),
    /// A tree could not be written back to text.
    Serialize(String),
    /// The addon could not be packed.
    Packaging(String),
}

impl BuildError {
    /// The reason carried by this error.
    pub fn message(&self) -> (r: &String)
        ensures
            match self {
                BuildError::Io(m) => r == m,
                BuildError::Parse(m) => r == m,
                BuildError::ConfigFieldMissing(m) => r == m,
                BuildError::MissingField(m) => r == m,
                BuildError::Template(m) => r == m,
                BuildError::Serialize(m) => r == m,
                BuildError::Packaging(m) => r == m,
            },
    {
        match self {
            BuildError::Io(m) => m,
            BuildError::Parse(m) => m,
            BuildError::ConfigFieldMissing(m) => m,
            BuildError::MissingField(m) => m,
            BuildError::Template(m) => m,
            BuildError::Serialize(m) => m,
            BuildError::Packaging(m) => m,
        }
    }
}

} // verus!
