use vstd::prelude::*;
use vstd::string::StringExecFns;

use crate::font::Font;
use crate::font::escape_of;
use crate::font::reset_seq;
use crate::font::wf;

verus! {

/// Append to `buf` a styled fragment: the escape sequence selecting
/// the attributes of `fs`, the content, and a trailing reset. `fs`
/// must name at least one attribute.
pub fn wcs(buf: &mut String, fs: &Vec<Font>, content: &str)
    requires
        fs@.len() >= 1,
    ensures
        final(buf)@ == old(buf)@ + escape_of(fs@) + content@ + reset_seq(),
{
    let ghost b0 = buf@;
    wf(buf, fs);
    buf.append(content);
    buf.append("\x1b[0m");
    proof {
        reveal_strlit("\x1b[0m");
        assert(buf@ =~= b0 + escape_of(fs@) + content@ + reset_seq());
    }
}

/// A styled string as a fresh value: the escape sequence selecting the
/// attributes of `fs`, the content, and a trailing reset. `fs` must
/// name at least one attribute.
pub fn cs(fs: &Vec<Font>, content: &str) -> (r: String)
    requires
        fs@.len() >= 1,
    ensures
        r@ == escape_of(fs@) + content@ + reset_seq(),
{
    let mut s = String::new();
    wcs(&mut s, fs, content);
    proof {
        assert(s@ =~= escape_of(fs@) + content@ + reset_seq());
    }
    s
}

/// Append to `buf` one escape prefix followed by the content values of
/// `parts` concatenated verbatim, and a trailing reset. `fs` must name
/// at least one attribute.
pub fn wcs_parts(buf: &mut String, fs: &Vec<Font>, parts: &Vec<&str>)
    requires
        fs@.len() >= 1,
    ensures
        final(buf)@ == old(buf)@ + escape_of(fs@) + parts.deep_view().flatten() + reset_seq(),
{
    let ghost b0 = buf@;
    wf(buf, fs);
    let ghost dv = parts.deep_view();
    let mut i: usize = 0;
    proof {
        assert(dv.take(0).flatten_alt() =~= Seq::<char>::empty());
        assert(buf@ =~= b0 + escape_of(fs@) + dv.take(0).flatten_alt());
    }
    while i < parts.len()
        invariant
            i <= parts@.len(),
            dv == parts.deep_view(),
            buf@ == b0 + escape_of(fs@) + dv.take(i as int).flatten_alt(),
        decreases parts@.len() - i,
    {
        buf.append(parts[i]);
        proof {
            assert(dv.take(i as int + 1).drop_last() =~= dv.take(i as int));
            assert(dv.take(i as int + 1).last() == dv[i as int]);
            assert(buf@ =~= b0 + escape_of(fs@) + dv.take(i as int + 1).flatten_alt());
        }
        i += 1;
    }
    buf.append("\x1b[0m");
    proof {
        reveal_strlit("\x1b[0m");
        assert(dv.take(dv.len() as int) =~= dv);
        dv.lemma_flatten_and_flatten_alt_are_equivalent();
        assert(buf@ =~= b0 + escape_of(fs@) + dv.flatten() + reset_seq());
    }
}

/// A styled string built from one escape prefix and the content values
/// of `parts` concatenated verbatim, with a trailing reset. `fs` must
/// name at least one attribute.
pub fn cs_parts(fs: &Vec<Font>, parts: &Vec<&str>) -> (r: String)
    requires
        fs@.len() >= 1,
    ensures
        r@ == escape_of(fs@) + parts.deep_view().flatten() + reset_seq(),
{
    let mut s = String::new();
    wcs_parts(&mut s, fs, parts);
    proof {
        assert(s@ =~= escape_of(fs@) + parts.deep_view().flatten() + reset_seq());
    }
    s
}

/// Accumulates styled segments, each an attribute list with its own
/// content, and finalizes once with a single trailing reset, so that
/// only the very end of the built string is force-reset.
pub struct StyledBuilder {
    buf: String,
}

impl View for StyledBuilder {
    type V = Seq<char>;

    closed spec fn view(&self) -> Seq<char> {
        self.buf@
    }
}

impl StyledBuilder {
    /// An empty builder with no segments.
    pub fn new() -> (r: Self)
        ensures
            r@ == Seq::<char>::empty(),
    {
        StyledBuilder { buf: String::new() }
    }

    /// Append one segment: the escape sequence selecting the
    /// attributes of `fs`, then the content, with no reset after it.
    /// `fs` must name at least one attribute.
    pub fn segment(&mut self, fs: &Vec<Font>, content: &str)
        requires
            fs@.len() >= 1,
        ensures
            final(self)@ == old(self)@ + escape_of(fs@) + content@,
    {
        let ghost b0 = self.buf@;
        wf(&mut self.buf, fs);
        self.buf.append(content);
        proof {
            assert(self.buf@ =~= b0 + escape_of(fs@) + content@);
        }
    }

    /// Finish the string: everything accumulated so far, with exactly
    /// one trailing reset appended.
    pub fn finish(self) -> (r: String)
        ensures
            r@ == self@ + reset_seq(),
    {
        let ghost v0 = self.buf@;
        let mut buf = self.buf;
        buf.append("\x1b[0m");
        proof {
            reveal_strlit("\x1b[0m");
            assert(buf@ =~= v0 + reset_seq());
        }
        buf
    }
}

} // verus!
