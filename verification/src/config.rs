//! The configured character classes.
//!
//! A configuration names one string of characters per class (uppercase,
//! lowercase, digits, symbols, other symbols) together with a combined
//! default set.  The library only ever reads these strings to assemble a
//! pool; loading them from and storing them to a configuration file is the
//! caller's business.

use vstd::prelude::*;

verus! {

/// One character string per character class.
#[derive(Debug, Clone, PartialEq, Eq)]
pub struct Config {
    pub default_set: String,
    pub uppercase: String,
    pub lowercase: String,
    pub digits: String,
    pub symbols: String,
    pub others: String,
}

impl Default for Config {
    /// The built-in character classes, available independently of any
    /// configuration file.
    fn default() -> (r: Config)
        ensures
            r.default_set@
                == "ABCDEFGHIJKLMNOPQRSTUVWXYZabcdefghijklmnopqrstuvwxyz0123456789"@,
            r.uppercase@ == "ABCDEFGHIJKLMNOPQRSTUVWXYZ"@,
            r.lowercase@ == "abcdefghijklmnopqrstuvwxyz"@,
            r.digits@ == "0123456789"@,
            r.symbols@ == "*&^%$#@!~"@,
            r.others@ == "\u{2655}\u{2656}\u{2657}\u{2658}\u{2659}\u{265A}\u{265B}\u{265C}\u{265D}\u{265E}\u{265F}\u{2660}\u{2661}\u{2662}\u{2663}\u{2664}\u{2665}\u{2666}\u{2667}\u{2669}\u{266A}\u{266B}\u{266C}\u{266D}\u{266E}\u{266F}"@,
    {
        Config {
            default_set: "ABCDEFGHIJKLMNOPQRSTUVWXYZabcdefghijklmnopqrstuvwxyz0123456789"
                .to_owned(),
            uppercase: "ABCDEFGHIJKLMNOPQRSTUVWXYZ".to_owned(),
            lowercase: "abcdefghijklmnopqrstuvwxyz".to_owned(),
            digits: "0123456789".to_owned(),
            symbols: "*&^%$#@!~".to_owned(),
            others: "\u{2655}\u{2656}\u{2657}\u{2658}\u{2659}\u{265A}\u{265B}\u{265C}\u{265D}\u{265E}\u{265F}\u{2660}\u{2661}\u{2662}\u{2663}\u{2664}\u{2665}\u{2666}\u{2667}\u{2669}\u{266A}\u{266B}\u{266C}\u{266D}\u{266E}\u{266F}".to_owned(),
        }
    }
}

impl Config {
    /// The combined default alphabet.
    pub fn default_set(&self) -> (r: &str)
        ensures
            r@ == self.default_set@,
    {
        self.default_set.as_str()
    }

    /// The uppercase class.
    pub fn uppercase(&self) -> (r: &str)
        ensures
            r@ == self.uppercase@,
    {
        self.uppercase.as_str()
    }

    /// The lowercase class.
    pub fn lowercase(&self) -> (r: &str)
        ensures
            r@ == self.lowercase@,
    {
        self.lowercase.as_str()
    }

    /// The digits class.
    pub fn digits(&self) -> (r: &str)
        ensures
            r@ == self.digits@,
    {
        self.digits.as_str()
    }

    /// The symbols class.
    pub fn symbols(&self) -> (r: &str)
        ensures
            r@ == self.symbols@,
    {
        self.symbols.as_str()
    }

    /// The other-symbols class.
    pub fn others(&self) -> (r: &str)
        ensures
            r@ == self.others@,
    {
        self.others.as_str()
    }
}

} // verus!
