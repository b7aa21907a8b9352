use vstd::prelude::*;

verus! {

/// How the elements of a sequence are keyed when serialised.
#[derive(Clone, Copy, Debug, PartialEq, Eq, Structural)]
pub enum ArrayFormat {
    /// `a[0]=x&a[1]=y`
    Indexed,
    /// `a[]=x&a[]=y`
    EmptyIndexed,
    /// `a=x&a=y`
    Unindexed,
}

/// Configuration for serialization and deserialization behavior.
///
/// `max_depth` bounds the nesting of keys (0 means flat keys only) and
/// `use_form_encoding` selects `application/x-www-form-urlencoded` encoding
/// in place of the laxer query-string encoding.
#[derive(Clone, Copy, Debug)]
pub struct Config {
    /// The maximum depth of nested keys. Default is 5.
    pub max_depth: usize,
    /// Whether square brackets and most punctuation are percent-encoded.
    pub use_form_encoding: bool,
    /// The key format used for the elements of sequences.
    pub array_format: ArrayFormat,
}

impl Config {
    /// The default configuration, as a value.
    pub open spec fn spec_default() -> Config {
        Config { max_depth: 5, use_form_encoding: false, array_format: ArrayFormat::Indexed }
    }

    /// The default configuration: `max_depth` 5, query-string encoding,
    /// indexed sequences.
    pub fn new() -> (c: Config)
        ensures
            c == Config::spec_default(),
    {
        Config { max_depth: 5, use_form_encoding: false, array_format: ArrayFormat::Indexed }
    }

    /// The configuration with another `max_depth`.
    pub fn max_depth(self, max_depth: usize) -> (c: Config)
        ensures
            c == (Config { max_depth, ..self }),
    {
        let mut c = self;
        c.max_depth = max_depth;
        c
    }

    /// The configuration with form encoding switched on or off.
    pub fn use_form_encoding(self, use_form_encoding: bool) -> (c: Config)
        ensures
            c == (Config { use_form_encoding, ..self }),
    {
        let mut c = self;
        c.use_form_encoding = use_form_encoding;
        c
    }
}

impl Default for Config {
    fn default() -> (c: Config)
        ensures
            c == Config::spec_default(),
    {
        Config::new()
    }
}

} // verus!
