use vstd::prelude::*;

verus! {

/// Arrangement of key bindings in a help view
#[derive(Clone, Copy, Debug, PartialEq, Eq, Structural, Hash)]
pub enum HelpMode {
    /// Renders bindings on one line
    Compact,
    /// Renders one aligned binding per line
    Full,
}

/// One key description shown by a help view
#[derive(Debug, PartialEq, Eq)]
pub struct HelpBinding {
    key: String,
    description: String,
    enabled: bool,
}

impl View for HelpBinding {
    type V = (Seq<char>, Seq<char>, bool);

    closed spec fn view(&self) -> (Seq<char>, Seq<char>, bool) {
        (self.key@, self.description@, self.enabled)
    }
}

impl HelpBinding {
    /// Creates an enabled key binding
    pub fn new(key: &str, description: &str) -> (binding: Self)
        ensures
            binding@ == (key@, description@, true),
    {
        HelpBinding { key: key.to_owned(), description: description.to_owned(), enabled: true }
    }

    /// Replaces whether the binding is available
    pub fn enabled(self, enabled: bool) -> (binding: Self)
        ensures
            binding@ == (self@.0, self@.1, enabled),
    {
        HelpBinding { enabled, ..self }
    }

    /// Returns the user-facing key notation
    pub fn key(&self) -> (key: &str)
        ensures
            key@ == self@.0,
    {
        self.key.as_str()
    }

    /// Returns the action description
    pub fn description(&self) -> (description: &str)
        ensures
            description@ == self@.1,
    {
        self.description.as_str()
    }

    /// Reports whether the action is available
    pub fn is_enabled(&self) -> (enabled: bool)
        ensures
            enabled == self@.2,
    {
        self.enabled
    }
}

} // verus!
