use vstd::prelude::*;

verus! {

/// Milliseconds between two polls of the clipboard.
pub const POLL_INTERVAL_MS: u64 = 500;

/// What the polling loop remembers between polls: the last text and the last
/// image path it saw.
pub struct MonitorState {
    last_text: String,
    last_image: String,
}

impl View for MonitorState {
    type V = (Seq<char>, Seq<char>);

    closed spec fn view(&self) -> (Seq<char>, Seq<char>) {
        (self.last_text@, self.last_image@)
    }
}

/// A capture is new when it is not empty and differs from the last one seen.
pub open spec fn is_new_capture(seen: Seq<char>, last: Seq<char>) -> bool {
    seen.len() > 0 && seen != last
}

impl MonitorState {
    /// The state at the start of monitoring: nothing seen yet.
    pub fn new() -> (r: MonitorState)
        ensures
            r@ == (Seq::<char>::empty(), Seq::<char>::empty()),
    {
        MonitorState { last_text: String::new(), last_image: String::new() }
    }

    /// Decides on the text read in one poll: returns the text to store when it
    /// is new, and remembers it; otherwise returns nothing and changes nothing.
    pub fn observe_text(&mut self, text: String) -> (r: Option<String>)
        ensures
            is_new_capture(text@, old(self)@.0) ==> (r matches Some(t) && t@ == text@
                && final(self)@ == (text@, old(self)@.1)),
            !is_new_capture(text@, old(self)@.0) ==> r is None && final(self)@ == old(self)@,
    {
        if text.as_str().unicode_len() > 0 && text != self.last_text {
            let r = text.clone();
            self.last_text = text;
            Some(r)
        } else {
            None
        }
    }

    /// Decides on the image path produced in one poll: returns the path to
    /// store when it is new, and remembers it; otherwise returns nothing and
    /// changes nothing.
    pub fn observe_image(&mut self, path: String) -> (r: Option<String>)
        ensures
            is_new_capture(path@, old(self)@.1) ==> (r matches Some(p) && p@ == path@
                && final(self)@ == (old(self)@.0, path@)),
            !is_new_capture(path@, old(self)@.1) ==> r is None && final(self)@ == old(self)@,
    {
        if path.as_str().unicode_len() > 0 && path != self.last_image {
            let r = path.clone();
            self.last_image = path;
            Some(r)
        } else {
            None
        }
    }
}

} // verus!
