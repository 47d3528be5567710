//! Terminal styling as an explicit policy value.
//!
//! A `ColorScheme` is built once from a single decision — colors on or
//! off — and is from then on a pure text-in/text-out transform.  The
//! crate never looks at the terminal or the environment itself; a caller
//! that wants auto-detection makes the decision and passes it in.

use vstd::prelude::*;
use vstd::string::StrSliceExecFns;
use vstd::string::StringExecFns;

verus! {

/// Index of the first occurrence of ": " in `t` at or after `i`, or -1.
pub open spec fn first_label_split_from(t: Seq<char>, i: int) -> int
    recommends
        0 <= i,
    decreases t.len() - i when 0 <= i <= t.len()
{
    if i + 1 >= t.len() {
        -1
    } else if t[i] == ':' && t[i + 1] == ' ' {
        i
    } else {
        first_label_split_from(t, i + 1)
    }
}

/// Maps semantic roles of the dump to optional terminal styling.
#[derive(Debug, Clone, Copy)]
pub struct ColorScheme {
    /// Whether styling is applied at all; when false every transform is
    /// the identity.
    pub use_color: bool,
}

impl ColorScheme {
    /// The transform applied to the address column.
    pub open spec fn addr_text(self, t: Seq<char>) -> Seq<char> {
        if self.use_color {
            "\x1b[32m"@ + t + "\x1b[0m"@
        } else {
            t
        }
    }

    /// The transform applied to an annotated byte.
    pub open spec fn annotation_text(self, t: Seq<char>) -> Seq<char> {
        if self.use_color {
            "\x1b[34m"@ + t + "\x1b[0m"@
        } else {
            t
        }
    }

    /// The transform applied to error-marked bytes and error labels.
    pub open spec fn error_text(self, t: Seq<char>) -> Seq<char> {
        if self.use_color {
            "\x1b[31m"@ + t + "\x1b[0m"@
        } else {
            t
        }
    }

    /// The transform applied to a normal label: the name part before the
    /// first ": " in one style, the value part after it in another.
    pub open spec fn label_text(self, t: Seq<char>) -> Seq<char> {
        if !self.use_color {
            t
        } else {
            let i = first_label_split_from(t, 0);
            if i < 0 {
                "\x1b[34m"@ + t + "\x1b[0m"@
            } else {
                "\x1b[35m"@ + t.take(i) + "\x1b[0m"@ + ": "@ + "\x1b[34m"@ + t.skip(i + 2)
                    + "\x1b[0m"@
            }
        }
    }

    /// A scheme with styling switched on or off.
    pub fn new(use_color: bool) -> (r: ColorScheme)
        ensures
            r.use_color == use_color,
    {
        ColorScheme { use_color }
    }

    /// Styles an address.
    pub fn addr(&self, text: &str) -> (r: String)
        ensures
            r@ == self.addr_text(text@),
    {
        if self.use_color {
            let mut s = String::new();
            s.append("\x1b[32m");
            s.append(text);
            s.append("\x1b[0m");
            proof {
                assert(s@ =~= self.addr_text(text@));
            }
            s
        } else {
            text.to_owned()
        }
    }

    /// Styles an annotated byte.
    pub fn annotation(&self, text: &str) -> (r: String)
        ensures
            r@ == self.annotation_text(text@),
    {
        if self.use_color {
            let mut s = String::new();
            s.append("\x1b[34m");
            s.append(text);
            s.append("\x1b[0m");
            proof {
                assert(s@ =~= self.annotation_text(text@));
            }
            s
        } else {
            text.to_owned()
        }
    }

    /// Styles an error-marked byte or an error label.
    pub fn error(&self, text: &str) -> (r: String)
        ensures
            r@ == self.error_text(text@),
    {
        if self.use_color {
            let mut s = String::new();
            s.append("\x1b[31m");
            s.append(text);
            s.append("\x1b[0m");
            proof {
                assert(s@ =~= self.error_text(text@));
            }
            s
        } else {
            text.to_owned()
        }
    }

    /// Styles a normal label, with its name and value parts apart.
    pub fn label(&self, label: &str) -> (r: String)
        ensures
            r@ == self.label_text(label@),
    {
        if !self.use_color {
            return label.to_owned();
        }
        let n = label.unicode_len();
        let mut i: usize = 0;
        let mut found: bool = false;
        while !found && n - i > 1
            invariant
                0 <= i <= n,
                n == label@.len(),
                !found ==> first_label_split_from(label@, 0) == first_label_split_from(
                    label@,
                    i as int,
                ),
                found ==> {
                    &&& i + 1 < n
                    &&& label@[i as int] == ':'
                    &&& label@[i as int + 1] == ' '
                    &&& first_label_split_from(label@, 0) == i
                },
            decreases n - i, (if found { 0int } else { 1int }),
        {
            let c = label.get_char(i);
            let c2 = label.get_char(i + 1);
            if c == ':' && c2 == ' ' {
                found = true;
            } else {
                i = i + 1;
            }
        }
        if found {
            let name = label.substring_char(0, i);
            let value = label.substring_char(i + 2, n);
            let mut s = String::new();
            s.append("\x1b[35m");
            s.append(name);
            s.append("\x1b[0m");
            s.append(": ");
            s.append("\x1b[34m");
            s.append(value);
            s.append("\x1b[0m");
            proof {
                assert(label@.subrange(0, i as int) =~= label@.take(i as int));
                assert(label@.subrange(i as int + 2, n as int) =~= label@.skip(i as int + 2));
                assert(s@ =~= self.label_text(label@));
            }
            s
        } else {
            proof {
                assert(first_label_split_from(label@, 0) < 0);
            }
            let mut s = String::new();
            s.append("\x1b[34m");
            s.append(label);
            s.append("\x1b[0m");
            proof {
                assert(s@ =~= self.label_text(label@));
            }
            s
        }
    }
}

} // verus!
