//! Settings of the parser and the encoder.
use vstd::prelude::*;

verus! {

/// Settings of the parser.
#[derive(Debug, Clone, Copy)]
pub struct ParserConfig {
    /// The deepest nesting of lists and dictionaries to accept (100 by default).
    pub max_depth: usize,
}

impl Default for ParserConfig {
    fn default() -> (r: ParserConfig)
        ensures
            r.max_depth == 100,
    {
        ParserConfig { max_depth: 100 }
    }
}

impl ParserConfig {
    /// The default settings.
    pub fn new() -> (r: ParserConfig)
        ensures
            r.max_depth == 100,
    {
        ParserConfig { max_depth: 100 }
    }

    /// These settings with the deepest nesting set to `max_depth`.
    pub fn with_max_depth(self, max_depth: usize) -> (r: ParserConfig)
        ensures
            r.max_depth == max_depth,
    {
        let mut c = self;
        c.max_depth = max_depth;
        c
    }
}

/// Settings of the encoder.
#[derive(Debug, Clone, Copy)]
pub struct EncoderConfig {
    /// Whether to write canonical bencode only: sorted keys, no leading zeros (on by default).
    pub enforce_canonical: bool,
    /// Whether to check the order of dictionary keys while writing (on by default).
    pub verify_dict_order: bool,
}

impl Default for EncoderConfig {
    fn default() -> (r: EncoderConfig)
        ensures
            r.enforce_canonical,
            r.verify_dict_order,
    {
        EncoderConfig { enforce_canonical: true, verify_dict_order: true }
    }
}

impl EncoderConfig {
    /// The default settings.
    pub fn new() -> (r: EncoderConfig)
        ensures
            r.enforce_canonical,
            r.verify_dict_order,
    {
        EncoderConfig { enforce_canonical: true, verify_dict_order: true }
    }

    /// These settings with canonical output switched on or off.
    pub fn with_canonical(self, enforce: bool) -> (r: EncoderConfig)
        ensures
            r.enforce_canonical == enforce,
            r.verify_dict_order == self.verify_dict_order,
    {
        let mut c = self;
        c.enforce_canonical = enforce;
        c
    }

    /// These settings with the key order check switched on or off.
    pub fn with_dict_order_verification(self, verify: bool) -> (r: EncoderConfig)
        ensures
            r.verify_dict_order == verify,
            r.enforce_canonical == self.enforce_canonical,
    {
        let mut c = self;
        c.verify_dict_order = verify;
        c
    }
}

} // verus!
