//! What an operation hands back for one line.

use vstd::prelude::*;
use vstd::string::*;
use vstd::utf8::*;
use crate::split::join;
use crate::split::join_all;
use crate::text::utf8;
use crate::text::utf8_each;

verus! {

/// The result of applying an operation to one line.
#[derive(Debug, PartialEq, Eq)]
pub enum Output {
    /// An ordered list of segments of the line.
    Multiple(Vec<String>),
    /// One resulting string.
    Single(String),
}

/// An [`Output`] as sequences of bytes.
pub enum Segments {
    /// The encodings of the segments, in order.
    Multiple(Seq<Seq<u8>>),
    /// The encoding of the one string.
    Single(Seq<u8>),
}

impl View for Output {
    type V = Segments;

    open spec fn view(&self) -> Segments {
        match self {
            Output::Multiple(v) => Segments::Multiple(utf8_each(v@)),
            Output::Single(s) => Segments::Single(utf8(s@)),
        }
    }
}

/// The text that stands for an output: a single string as it is, a list of
/// segments with a line feed between each two neighbours.
pub open spec fn rendered(o: Segments) -> Seq<u8> {
    match o {
        Segments::Multiple(parts) => join(parts, seq![0x0au8]),
        Segments::Single(text) => text,
    }
}

impl Output {
    /// The text to write for this output.
    pub fn render(&self) -> (r: String)
        ensures
            utf8(r@) == rendered(self@),
    {
        match self {
            Output::Multiple(parts) => {
                let feed: &str = "\n";
                proof {
                    reveal_strlit("\n");
                    assert(feed@ =~= seq!['\n']);
                    is_ascii_chars_encode_utf8(feed@);
                    assert(feed.spec_bytes() =~= seq![0x0au8]);
                }
                join_all(parts, feed)
            },
            Output::Single(text) => text.clone(),
        }
    }
}

} // verus!
