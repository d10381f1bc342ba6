use vstd::prelude::*;

use crate::text::{str_byte_len, utf8_len};

verus! {

/// Text, cursor, and optional selection anchor of a controlled text editor
///
/// Both positions are UTF-8 byte offsets no greater than the text length
#[derive(Debug, PartialEq, Eq)]
pub struct TextAreaState {
    value: String,
    cursor: usize,
    selection_anchor: Option<usize>,
}

/// Text, cursor, and selection anchor of an editor as plain values
pub type TextAreaModel = (Seq<char>, nat, Option<nat>);

/// The model of an editor holding `value` with the cursor after its last byte
pub open spec fn at_end_model(value: Seq<char>) -> TextAreaModel {
    (value, utf8_len(value), None)
}

impl View for TextAreaState {
    type V = TextAreaModel;

    closed spec fn view(&self) -> TextAreaModel {
        (
            self.value@,
            self.cursor as nat,
            match self.selection_anchor {
                Some(anchor) => Some(anchor as nat),
                None => None,
            },
        )
    }
}

impl TextAreaState {
    #[verifier::type_invariant]
    spec fn positions_in_text(self) -> bool {
        &&& self.cursor <= utf8_len(self.value@)
        &&& self.selection_anchor matches Some(anchor) ==> anchor <= utf8_len(self.value@)
    }

    /// Creates editor state with the cursor clamped to the text length
    pub fn new(value: &str, cursor: usize) -> (state: Self)
        ensures
            state@ == (
                value@,
                (if cursor < utf8_len(value@) {
                    cursor as nat
                } else {
                    utf8_len(value@)
                }),
                None::<nat>,
            ),
    {
        let length = str_byte_len(value);
        TextAreaState {
            value: value.to_owned(),
            cursor: if cursor < length {
                cursor
            } else {
                length
            },
            selection_anchor: None,
        }
    }

    /// Creates editor state with the cursor after the last byte of `value`
    pub fn at_end(value: &str) -> (state: Self)
        ensures
            state@ == at_end_model(value@),
    {
        let length = str_byte_len(value);
        TextAreaState { value: value.to_owned(), cursor: length, selection_anchor: None }
    }

    /// Anchors a selection at `anchor`, clamped to the text length, keeping the cursor
    pub fn select(self, anchor: usize) -> (state: Self)
        ensures
            state@ == (
                self@.0,
                self@.1,
                Some(
                    if anchor < utf8_len(self@.0) {
                        anchor as nat
                    } else {
                        utf8_len(self@.0)
                    },
                ),
            ),
    {
        proof {
            use_type_invariant(&self);
        }
        let length = str_byte_len(self.value.as_str());
        let anchor = if anchor < length {
            anchor
        } else {
            length
        };
        TextAreaState { value: self.value, cursor: self.cursor, selection_anchor: Some(anchor) }
    }

    /// Returns the edited text
    pub fn value(&self) -> (value: &str)
        ensures
            value@ == self@.0,
    {
        self.value.as_str()
    }

    /// Returns the cursor byte offset
    pub fn cursor(&self) -> (cursor: usize)
        ensures
            cursor == self@.1,
            cursor <= utf8_len(self@.0),
    {
        proof {
            use_type_invariant(self);
        }
        self.cursor
    }

    /// Returns the selection anchor byte offset, if any
    pub fn selection_anchor(&self) -> (anchor: Option<usize>)
        ensures
            anchor matches Some(a) ==> self@.2 == Some(a as nat),
            anchor is None ==> self@.2 is None,
    {
        self.selection_anchor
    }

    /// Returns an equal, separately owned editor state
    pub fn duplicate(&self) -> (copy: Self)
        ensures
            copy@ == self@,
    {
        proof {
            use_type_invariant(self);
        }
        TextAreaState {
            value: self.value.clone(),
            cursor: self.cursor,
            selection_anchor: self.selection_anchor,
        }
    }

    /// Reports whether the editor holds exactly `text`
    pub(crate) fn holds_text(&self, text: &String) -> (same: bool)
        ensures
            same == (self@.0 == text@),
    {
        self.value == *text
    }

    /// Reports whether two editor states hold the same text
    pub fn same_value(&self, other: &TextAreaState) -> (same: bool)
        ensures
            same == (self@.0 == other@.0),
    {
        self.value == other.value
    }
}

impl Clone for TextAreaState {
    fn clone(&self) -> (copy: Self)
        ensures
            copy@ == self@,
    {
        self.duplicate()
    }
}

impl Default for TextAreaState {
    fn default() -> (state: Self)
        ensures
            state@ == at_end_model(Seq::<char>::empty()),
    {
        let state = TextAreaState { value: String::new(), cursor: 0, selection_anchor: None };
        assert(state.value@ =~= Seq::<char>::empty());
        state
    }
}

} // verus!
