//! State of the widgets that has nothing to do with how they are drawn.
use vstd::prelude::*;

verus! {

/// A check box: the value that it sets, its text, and whether it can be clicked.
pub struct Win95Checkbox<'a> {
    pub checked: &'a mut bool,
    pub text: &'a str,
    pub enabled: bool,
}

impl<'a> Win95Checkbox<'a> {
    /// A box for `checked` that can be clicked.
    pub fn new(checked: &'a mut bool, text: &'a str) -> (r: Self)
        ensures
            *r.checked == *old(checked),
            *final(r.checked) == *final(checked),
            r.text@ == text@,
            r.enabled,
    {
        Win95Checkbox { checked, text, enabled: true }
    }

    /// The box, clickable or not.
    pub fn enabled(self, e: bool) -> (r: Self)
        ensures
            *r.checked == *old(self.checked),
            *final(r.checked) == *final(self.checked),
            r.text == self.text,
            r.enabled == e,
    {
        Win95Checkbox { checked: self.checked, text: self.text, enabled: e }
    }

    /// Clicks the box: the value changes, unless the box cannot be clicked.
    pub fn click(self)
        ensures
            *final(self.checked) == if self.enabled {
                !*old(self.checked)
            } else {
                *old(self.checked)
            },
    {
        if self.enabled {
            *self.checked = !*self.checked;
        }
    }
}

} // verus!
