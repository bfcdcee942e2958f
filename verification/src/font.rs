use vstd::prelude::*;
use vstd::string::StrSliceExecFns;
use vstd::string::StringExecFns;

verus! {

/// One style attribute: an effect, a named foreground or background
/// color, or an RGB color. The `R`-prefixed variants carry a leading
/// reset code (`0;`) so that the attribute replaces whatever styling
/// was active before it.
#[derive(Clone, Copy, PartialEq, Eq, Structural, Debug)]
pub enum Font {
    /// Restore the default rendition.
    Reset,
    /// Bold weight.
    Bold,
    RBold,
    /// Underlined text.
    Underline,
    RUnderline,
    /// Italic text.
    Italic,
    RItalic,
    /// Swap foreground and background colors.
    Reverse,
    RReverse,
    /// Struck-through text.
    Delete,
    RDelete,
    /// Black foreground.
    Black,
    RBlack,
    /// Red foreground.
    Red,
    RRed,
    /// Green foreground.
    Green,
    RGreen,
    /// Yellow foreground.
    Yellow,
    RYellow,
    /// Blue foreground.
    Blue,
    RBlue,
    /// Purple foreground.
    Purple,
    RPurple,
    /// Cyan foreground.
    Cyan,
    RCyan,
    /// Grey foreground.
    Grey,
    RGrey,
    /// Black background.
    BgBlack,
    RBgBlack,
    /// Red background.
    BgRed,
    RBgRed,
    /// Green background.
    BgGreen,
    RBgGreen,
    /// Yellow background.
    BgYellow,
    RBgYellow,
    /// Blue background.
    BgBlue,
    RBgBlue,
    /// Purple background.
    BgPurple,
    RBgPurple,
    /// Cyan background.
    BgCyan,
    RBgCyan,
    /// Grey background.
    BgGrey,
    RBgGrey,
    /// RGB foreground color.
    Color(u8, u8, u8),
    RColor(u8, u8, u8),
    /// RGB background color.
    BgColor(u8, u8, u8),
    RBgColor(u8, u8, u8),
}

/// The decimal digit character for `d` (meaningful for `0 <= d <= 9`).
pub open spec fn digit_char(d: int) -> char {
    if d == 0 {
        '0'
    } else if d == 1 {
        '1'
    } else if d == 2 {
        '2'
    } else if d == 3 {
        '3'
    } else if d == 4 {
        '4'
    } else if d == 5 {
        '5'
    } else if d == 6 {
        '6'
    } else if d == 7 {
        '7'
    } else if d == 8 {
        '8'
    } else {
        '9'
    }
}

/// The decimal representation of `n`, without leading zeros.
pub open spec fn dec_of(n: u8) -> Seq<char> {
    if n < 10 {
        seq![digit_char(n as int)]
    } else if n < 100 {
        seq![digit_char(n as int / 10), digit_char(n as int % 10)]
    } else {
        seq![digit_char(n as int / 100), digit_char((n as int / 10) % 10), digit_char(n as int % 10)]
    }
}

/// The numeric SGR codes that one attribute contributes, in order.
pub open spec fn code_nums(f: Font) -> Seq<u8> {
    match f {
        Font::Reset => seq![0u8],
        Font::Bold => seq![1u8],
        Font::RBold => seq![0u8, 1u8],
        Font::Italic => seq![3u8],
        Font::RItalic => seq![0u8, 3u8],
        Font::Underline => seq![4u8],
        Font::RUnderline => seq![0u8, 4u8],
        Font::Reverse => seq![7u8],
        Font::RReverse => seq![0u8, 7u8],
        Font::Delete => seq![9u8],
        Font::RDelete => seq![0u8, 9u8],
        Font::Black => seq![30u8],
        Font::RBlack => seq![0u8, 30u8],
        Font::Red => seq![31u8],
        Font::RRed => seq![0u8, 31u8],
        Font::Green => seq![32u8],
        Font::RGreen => seq![0u8, 32u8],
        Font::Yellow => seq![33u8],
        Font::RYellow => seq![0u8, 33u8],
        Font::Blue => seq![34u8],
        Font::RBlue => seq![0u8, 34u8],
        Font::Purple => seq![35u8],
        Font::RPurple => seq![0u8, 35u8],
        Font::Cyan => seq![36u8],
        Font::RCyan => seq![0u8, 36u8],
        Font::Grey => seq![37u8],
        Font::RGrey => seq![0u8, 37u8],
        Font::BgBlack => seq![40u8],
        Font::RBgBlack => seq![0u8, 40u8],
        Font::BgRed => seq![41u8],
        Font::RBgRed => seq![0u8, 41u8],
        Font::BgGreen => seq![42u8],
        Font::RBgGreen => seq![0u8, 42u8],
        Font::BgYellow => seq![43u8],
        Font::RBgYellow => seq![0u8, 43u8],
        Font::BgBlue => seq![44u8],
        Font::RBgBlue => seq![0u8, 44u8],
        Font::BgPurple => seq![45u8],
        Font::RBgPurple => seq![0u8, 45u8],
        Font::BgCyan => seq![46u8],
        Font::RBgCyan => seq![0u8, 46u8],
        Font::BgGrey => seq![47u8],
        Font::RBgGrey => seq![0u8, 47u8],
        Font::Color(r, g, b) => seq![38u8, 2u8, r, g, b],
        Font::RColor(r, g, b) => seq![0u8, 38u8, 2u8, r, g, b],
        Font::BgColor(r, g, b) => seq![48u8, 2u8, r, g, b],
        Font::RBgColor(r, g, b) => seq![0u8, 48u8, 2u8, r, g, b],
    }
}

/// Numbers rendered in decimal and joined with `;`.
pub open spec fn join_nums(ns: Seq<u8>) -> Seq<char>
    decreases ns.len(),
{
    if ns.len() == 0 {
        Seq::empty()
    } else if ns.len() == 1 {
        dec_of(ns[0])
    } else {
        join_nums(ns.drop_last()) + seq![';'] + dec_of(ns.last())
    }
}

/// The textual code of one attribute: its numbers joined with `;`.
pub open spec fn code_of(f: Font) -> Seq<char> {
    join_nums(code_nums(f))
}

impl Font {
    /// The numeric codes of this attribute as a vector.
    fn nums(&self) -> (r: Vec<u8>)
        ensures
            r@ == code_nums(*self),
    {
        match self {
            Font::Reset => vec![0u8],
            Font::Bold => vec![1u8],
            Font::RBold => vec![0u8, 1u8],
            Font::Italic => vec![3u8],
            Font::RItalic => vec![0u8, 3u8],
            Font::Underline => vec![4u8],
            Font::RUnderline => vec![0u8, 4u8],
            Font::Reverse => vec![7u8],
            Font::RReverse => vec![0u8, 7u8],
            Font::Delete => vec![9u8],
            Font::RDelete => vec![0u8, 9u8],
            Font::Black => vec![30u8],
            Font::RBlack => vec![0u8, 30u8],
            Font::Red => vec![31u8],
            Font::RRed => vec![0u8, 31u8],
            Font::Green => vec![32u8],
            Font::RGreen => vec![0u8, 32u8],
            Font::Yellow => vec![33u8],
            Font::RYellow => vec![0u8, 33u8],
            Font::Blue => vec![34u8],
            Font::RBlue => vec![0u8, 34u8],
            Font::Purple => vec![35u8],
            Font::RPurple => vec![0u8, 35u8],
            Font::Cyan => vec![36u8],
            Font::RCyan => vec![0u8, 36u8],
            Font::Grey => vec![37u8],
            Font::RGrey => vec![0u8, 37u8],
            Font::BgBlack => vec![40u8],
            Font::RBgBlack => vec![0u8, 40u8],
            Font::BgRed => vec![41u8],
            Font::RBgRed => vec![0u8, 41u8],
            Font::BgGreen => vec![42u8],
            Font::RBgGreen => vec![0u8, 42u8],
            Font::BgYellow => vec![43u8],
            Font::RBgYellow => vec![0u8, 43u8],
            Font::BgBlue => vec![44u8],
            Font::RBgBlue => vec![0u8, 44u8],
            Font::BgPurple => vec![45u8],
            Font::RBgPurple => vec![0u8, 45u8],
            Font::BgCyan => vec![46u8],
            Font::RBgCyan => vec![0u8, 46u8],
            Font::BgGrey => vec![47u8],
            Font::RBgGrey => vec![0u8, 47u8],
            Font::Color(r, g, b) => vec![38u8, 2u8, *r, *g, *b],
            Font::RColor(r, g, b) => vec![0u8, 38u8, 2u8, *r, *g, *b],
            Font::BgColor(r, g, b) => vec![48u8, 2u8, *r, *g, *b],
            Font::RBgColor(r, g, b) => vec![0u8, 48u8, 2u8, *r, *g, *b],
        }
    }

    /// The textual code of this attribute, e.g. `"1"` for `Bold` and
    /// `"38;2;R;G;B"` for an RGB foreground color.
    pub fn as_str(&self) -> (r: String)
        ensures
            r@ == code_of(*self),
    {
        let ns = self.nums();
        let mut s = String::new();
        append_joined_nums(&mut s, &ns);
        s
    }
}

/// The textual codes of the attributes, in input order, joined with `;`.
pub open spec fn codes_join(fs: Seq<Font>) -> Seq<char>
    decreases fs.len(),
{
    if fs.len() == 0 {
        Seq::empty()
    } else if fs.len() == 1 {
        code_of(fs[0])
    } else {
        codes_join(fs.drop_last()) + seq![';'] + code_of(fs.last())
    }
}

/// The full escape sequence selecting the attributes of `fs`:
/// the escape character, `[`, the joined codes, and `m`.
pub open spec fn escape_of(fs: Seq<Font>) -> Seq<char> {
    seq!['\x1b', '['] + codes_join(fs) + seq!['m']
}

impl Font {
    /// The complete escape sequence selecting this one attribute.
    pub fn escape(&self) -> (r: String)
        ensures
            r@ == escape_of(seq![*self]),
    {
        let mut s = String::new();
        let fs = vec![*self];
        wf(&mut s, &fs);
        proof {
            assert(fs@ =~= seq![*self]);
        }
        s
    }
}

/// Append to `buf` the escape sequence selecting the attributes of
/// `fs`, which must name at least one attribute.
pub fn wf(buf: &mut String, fs: &Vec<Font>)
    requires
        fs@.len() >= 1,
    ensures
        final(buf)@ == old(buf)@ + escape_of(fs@),
{
    let ghost b0 = buf@;
    buf.append("\x1b[");
    proof {
        reveal_strlit("\x1b[");
        assert(buf@ =~= b0 + seq!['\x1b', '[']);
    }
    let mut i: usize = 0;
    while i < fs.len()
        invariant
            i <= fs@.len(),
            buf@ == b0 + seq!['\x1b', '['] + codes_join(fs@.take(i as int)),
        decreases fs@.len() - i,
    {
        if i > 0 {
            buf.append(";");
            proof {
                reveal_strlit(";");
            }
        }
        let code = fs[i].as_str();
        buf.append(code.as_str());
        proof {
            assert(fs@.take(i as int + 1).drop_last() =~= fs@.take(i as int));
            assert(buf@ =~= b0 + seq!['\x1b', '['] + codes_join(fs@.take(i as int + 1)));
        }
        i += 1;
    }
    buf.append("m");
    proof {
        reveal_strlit("m");
        assert(fs@.take(fs@.len() as int) =~= fs@);
        assert(buf@ =~= b0 + escape_of(fs@));
    }
}

/// The escape sequence selecting the attributes of `fs` as a fresh
/// string; `fs` must name at least one attribute.
pub fn fonts(fs: &Vec<Font>) -> (r: String)
    requires
        fs@.len() >= 1,
    ensures
        r@ == escape_of(fs@),
{
    let mut s = String::new();
    wf(&mut s, fs);
    s
}

/// Law: for a non-empty attribute list the escape sequence is the
/// escape character, `[`, the attributes' codes joined with `;` in
/// input order, and `m`; appending one more attribute to the list
/// appends `;` and that attribute's code to the joined codes.
pub proof fn lemma_escape_sequence_shape(fs: Seq<Font>, f: Font)
    requires
        fs.len() >= 1,
    ensures
        escape_of(fs) == seq!['\x1b', '['] + codes_join(fs) + seq!['m'],
        codes_join(fs.push(f)) == codes_join(fs) + seq![';'] + code_of(f),
{
    assert(fs.push(f).drop_last() =~= fs);
}

/// Law: an RGB attribute encodes as `38;2;r;g;b` for the foreground
/// and `48;2;r;g;b` for the background, for every `r`, `g`, `b`.
pub proof fn lemma_rgb_code(r: u8, g: u8, b: u8)
    ensures
        code_of(Font::Color(r, g, b)) == seq!['3', '8', ';', '2', ';'] + dec_of(r) + seq![';']
            + dec_of(g) + seq![';'] + dec_of(b),
        code_of(Font::BgColor(r, g, b)) == seq!['4', '8', ';', '2', ';'] + dec_of(r) + seq![';']
            + dec_of(g) + seq![';'] + dec_of(b),
{
    lemma_rgb_nums_join(38, r, g, b);
    lemma_rgb_nums_join(48, r, g, b);
    assert(dec_of(38) + seq![';'] + dec_of(2) + seq![';'] + dec_of(r) + seq![';'] + dec_of(g)
        + seq![';'] + dec_of(b) =~= seq!['3', '8', ';', '2', ';'] + dec_of(r) + seq![';']
        + dec_of(g) + seq![';'] + dec_of(b));
    assert(dec_of(48) + seq![';'] + dec_of(2) + seq![';'] + dec_of(r) + seq![';'] + dec_of(g)
        + seq![';'] + dec_of(b) =~= seq!['4', '8', ';', '2', ';'] + dec_of(r) + seq![';']
        + dec_of(g) + seq![';'] + dec_of(b));
}

/// Joining the five numbers of an RGB code interleaves `;` between
/// their decimal renderings.
proof fn lemma_rgb_nums_join(lead: u8, r: u8, g: u8, b: u8)
    ensures
        join_nums(seq![lead, 2u8, r, g, b]) == dec_of(lead) + seq![';'] + dec_of(2) + seq![';']
            + dec_of(r) + seq![';'] + dec_of(g) + seq![';'] + dec_of(b),
{
    let ns = seq![lead, 2u8, r, g, b];
    assert(ns.drop_last() =~= seq![lead, 2u8, r, g]);
    assert(seq![lead, 2u8, r, g].drop_last() =~= seq![lead, 2u8, r]);
    assert(seq![lead, 2u8, r].drop_last() =~= seq![lead, 2u8]);
    assert(seq![lead, 2u8].drop_last() =~= seq![lead]);
    assert(join_nums(seq![lead]) == dec_of(lead));
    assert(join_nums(seq![lead, 2u8]) == join_nums(seq![lead]) + seq![';'] + dec_of(2));
    assert(join_nums(seq![lead, 2u8, r]) == join_nums(seq![lead, 2u8]) + seq![';'] + dec_of(r));
    assert(join_nums(seq![lead, 2u8, r, g]) == join_nums(seq![lead, 2u8, r]) + seq![';']
        + dec_of(g));
    assert(join_nums(ns) == join_nums(seq![lead, 2u8, r, g]) + seq![';'] + dec_of(b));
    assert(join_nums(ns) =~= dec_of(lead) + seq![';'] + dec_of(2) + seq![';'] + dec_of(r)
        + seq![';'] + dec_of(g) + seq![';'] + dec_of(b));
}

/// The reset escape sequence, which restores the default rendition.
pub open spec fn reset_seq() -> Seq<char> {
    seq!['\x1b', '[', '0', 'm']
}

/// Whether `s` ends with the reset escape sequence.
pub open spec fn ends_with_reset(s: Seq<char>) -> bool {
    s.len() >= 4 && s.subrange(s.len() - 4, s.len() as int) == reset_seq()
}

/// `s` with the reset sequence appended, unless it already ends with it.
pub open spec fn ensure_reset(s: Seq<char>) -> Seq<char> {
    if ends_with_reset(s) {
        s
    } else {
        s + reset_seq()
    }
}

/// `s` without its trailing reset sequence, if it ends with one;
/// otherwise `s` unchanged.
pub open spec fn strip_trailing_reset(s: Seq<char>) -> Seq<char> {
    if ends_with_reset(s) {
        s.subrange(0, s.len() - 4)
    } else {
        s
    }
}

/// One pass of the two-state stripping scanner over `s`. In the
/// normal state (`sup` false) every character but the escape character
/// is kept; the escape character switches to the suppressing state, in
/// which characters are dropped until an `m` switches back. An escape
/// character never followed by an `m` drops the rest of the input.
pub open spec fn strip_from(s: Seq<char>, sup: bool) -> Seq<char>
    decreases s.len(),
{
    if s.len() == 0 {
        Seq::empty()
    } else if s[0] == '\x1b' {
        strip_from(s.skip(1), true)
    } else if sup {
        strip_from(s.skip(1), s[0] != 'm')
    } else {
        seq![s[0]] + strip_from(s.skip(1), false)
    }
}

/// `s` with every escape sequence removed: the visible text alone.
pub open spec fn strip_styling(s: Seq<char>) -> Seq<char> {
    strip_from(s, false)
}

/// Law: a string built with a trailing reset sequence ends with the
/// reset sequence, so styling never leaks past its end.
pub proof fn lemma_trailing_reset(prefix: Seq<char>)
    ensures
        ends_with_reset(prefix + reset_seq()),
{
    let t = prefix + reset_seq();
    assert(t.subrange(t.len() - 4, t.len() as int) =~= reset_seq());
}

/// Law: ensuring a trailing reset is idempotent; applying it twice
/// yields the same string as applying it once.
pub proof fn lemma_ensure_reset_idempotent(s: Seq<char>)
    ensures
        ensure_reset(ensure_reset(s)) == ensure_reset(s),
{
    if !ends_with_reset(s) {
        let t = s + reset_seq();
        assert(t.subrange(t.len() - 4, t.len() as int) =~= reset_seq());
        assert(ends_with_reset(t));
    }
}

/// Law: for a string that ends with exactly one reset sequence,
/// stripping the trailing reset and then ensuring a reset restores the
/// original string.
pub proof fn lemma_strip_then_ensure_reset(s: Seq<char>)
    requires
        ends_with_reset(s),
        !ends_with_reset(s.subrange(0, s.len() - 4)),
    ensures
        ensure_reset(strip_trailing_reset(s)) == s,
{
    let t = s.subrange(0, s.len() - 4);
    assert forall|i: int| 0 <= i < s.len() implies (t + reset_seq())[i] == s[i] by {
        if i >= s.len() - 4 {
            assert(s.subrange(s.len() - 4, s.len() as int)[i - (s.len() - 4)] == s[i]);
        }
    }
    assert(t + reset_seq() =~= s);
}

/// Whether `s` holds neither the escape character nor `m`, so that the
/// stripping scanner never changes state inside it.
spec fn plain_chars(s: Seq<char>) -> bool {
    forall|i: int| 0 <= i < s.len() ==> s[i] != 'm' && s[i] != '\x1b'
}

/// Every character of a decimal rendering is a digit, so neither `m`
/// nor the escape character.
proof fn lemma_dec_of_plain(n: u8)
    ensures
        plain_chars(dec_of(n)),
{
    assert forall|i: int| 0 <= i < dec_of(n).len() implies dec_of(n)[i] != 'm' && dec_of(n)[i]
        != '\x1b' by {
        if n < 10 {
            assert(dec_of(n)[0] == digit_char(n as int));
        } else if n < 100 {
            assert(dec_of(n)[0] == digit_char(n as int / 10));
            assert(dec_of(n)[1] == digit_char(n as int % 10));
        } else {
            assert(dec_of(n)[0] == digit_char(n as int / 100));
            assert(dec_of(n)[1] == digit_char((n as int / 10) % 10));
            assert(dec_of(n)[2] == digit_char(n as int % 10));
        }
    }
}

/// A concatenation of plain sequences is plain.
proof fn lemma_plain_concat(a: Seq<char>, b: Seq<char>)
    requires
        plain_chars(a),
        plain_chars(b),
    ensures
        plain_chars(a + b),
{
    assert forall|i: int| 0 <= i < (a + b).len() implies (a + b)[i] != 'm' && (a + b)[i] != '\x1b'
        by {
        if i < a.len() {
            assert((a + b)[i] == a[i]);
        } else {
            assert((a + b)[i] == b[i - a.len()]);
        }
    }
}

/// Joined numbers hold only digits and `;`.
proof fn lemma_join_nums_plain(ns: Seq<u8>)
    ensures
        plain_chars(join_nums(ns)),
    decreases ns.len(),
{
    if ns.len() == 0 {
    } else if ns.len() == 1 {
        lemma_dec_of_plain(ns[0]);
    } else {
        lemma_join_nums_plain(ns.drop_last());
        lemma_dec_of_plain(ns.last());
        assert(plain_chars(seq![';']));
        lemma_plain_concat(join_nums(ns.drop_last()), seq![';']);
        lemma_plain_concat(join_nums(ns.drop_last()) + seq![';'], dec_of(ns.last()));
    }
}

/// The joined codes of an attribute list hold only digits and `;`.
proof fn lemma_codes_join_plain(fs: Seq<Font>)
    ensures
        plain_chars(codes_join(fs)),
    decreases fs.len(),
{
    if fs.len() == 0 {
    } else if fs.len() == 1 {
        lemma_join_nums_plain(code_nums(fs[0]));
    } else {
        lemma_codes_join_plain(fs.drop_last());
        lemma_join_nums_plain(code_nums(fs.last()));
        assert(plain_chars(seq![';']));
        lemma_plain_concat(codes_join(fs.drop_last()), seq![';']);
        lemma_plain_concat(codes_join(fs.drop_last()) + seq![';'], code_of(fs.last()));
    }
}

/// While the scanner suppresses, a stretch without `m` is dropped
/// whole and the scanner still suppresses after it.
proof fn lemma_strip_suppressed_skip(a: Seq<char>, b: Seq<char>)
    requires
        forall|i: int| 0 <= i < a.len() ==> a[i] != 'm',
    ensures
        strip_from(a + b, true) == strip_from(b, true),
    decreases a.len(),
{
    if a.len() == 0 {
        assert(a + b =~= b);
    } else {
        assert((a + b)[0] == a[0]);
        assert((a + b).skip(1) =~= a.skip(1) + b);
        assert(forall|i: int| 0 <= i < a.skip(1).len() ==> a.skip(1)[i] == a[i + 1]);
        lemma_strip_suppressed_skip(a.skip(1), b);
    }
}

/// In the normal state a stretch without the escape character is
/// copied through unchanged.
proof fn lemma_strip_normal_copy(a: Seq<char>, b: Seq<char>)
    requires
        forall|i: int| 0 <= i < a.len() ==> a[i] != '\x1b',
    ensures
        strip_from(a + b, false) == a + strip_from(b, false),
    decreases a.len(),
{
    if a.len() == 0 {
        assert(a + b =~= b);
        assert(a + strip_from(b, false) =~= strip_from(b, false));
    } else {
        assert((a + b)[0] == a[0]);
        assert((a + b).skip(1) =~= a.skip(1) + b);
        assert(forall|i: int| 0 <= i < a.skip(1).len() ==> a.skip(1)[i] == a[i + 1]);
        lemma_strip_normal_copy(a.skip(1), b);
        assert(seq![a[0]] + (a.skip(1) + strip_from(b, false)) =~= a + strip_from(b, false));
    }
}

/// Stripping consumes one whole escape sequence at the head of the
/// input and leaves the scanner in the normal state.
proof fn lemma_strip_escape_head(fs: Seq<Font>, rest: Seq<char>)
    requires
        fs.len() >= 1,
    ensures
        strip_from(escape_of(fs) + rest, false) == strip_from(rest, false),
{
    let w = escape_of(fs) + rest;
    assert(w[0] == '\x1b');
    let a = seq!['['] + codes_join(fs);
    let b = seq!['m'] + rest;
    assert(w.skip(1) =~= a + b);
    lemma_codes_join_plain(fs);
    assert(forall|i: int| 1 <= i < a.len() ==> a[i] == codes_join(fs)[i - 1]);
    lemma_strip_suppressed_skip(a, b);
    assert(b[0] == 'm');
    assert(b.skip(1) =~= rest);
}

/// Law: stripping all styling from a styled string returns exactly its
/// content, for any attribute list and any content free of the escape
/// character.
pub proof fn lemma_strip_styled_roundtrip(fs: Seq<Font>, text: Seq<char>)
    requires
        fs.len() >= 1,
        forall|i: int| 0 <= i < text.len() ==> text[i] != '\x1b',
    ensures
        strip_styling(escape_of(fs) + text + reset_seq()) == text,
{
    let w = escape_of(fs) + text + reset_seq();
    assert(w =~= escape_of(fs) + (text + reset_seq()));
    lemma_strip_escape_head(fs, text + reset_seq());
    lemma_strip_normal_copy(text, reset_seq());
    assert(reset_seq()[0] == '\x1b');
    assert(reset_seq().skip(1) =~= seq!['[', '0'] + seq!['m']);
    lemma_strip_suppressed_skip(seq!['[', '0'], seq!['m']);
    assert(strip_from(reset_seq(), false) == strip_from(seq!['m'], true));
    assert(seq!['m'][0] == 'm');
    assert(seq!['m'].skip(1) =~= Seq::<char>::empty());
    assert(strip_from(seq!['m'], true) == strip_from(Seq::<char>::empty(), false));
    assert(strip_from(Seq::<char>::empty(), false) == Seq::<char>::empty());
    assert(strip_from(reset_seq(), false) == Seq::<char>::empty());
    assert(text + Seq::<char>::empty() =~= text);
}

/// Whether `s` ends with the reset escape sequence.
fn ends_with_reset_exec(s: &str) -> (r: bool)
    ensures
        r == ends_with_reset(s@),
{
    let n = s.unicode_len();
    if n < 4 {
        proof {
            assert(!ends_with_reset(s@));
        }
        false
    } else {
        let c0 = s.get_char(n - 4);
        let c1 = s.get_char(n - 3);
        let c2 = s.get_char(n - 2);
        let c3 = s.get_char(n - 1);
        let r = c0 == '\x1b' && c1 == '[' && c2 == '0' && c3 == 'm';
        proof {
            let t = s@.subrange(s@.len() - 4, s@.len() as int);
            if r {
                assert(t =~= reset_seq());
            }
            if ends_with_reset(s@) {
                assert(c0 == t[0] && c1 == t[1] && c2 == t[2] && c3 == t[3]);
            }
        }
        r
    }
}

/// Relies on String::push: it appends the one character to the end of
/// the string and changes nothing else.
#[verifier::external_body]
fn push_char(s: &mut String, c: char)
    ensures
        final(s)@ == old(s)@ + seq![c],
{
    s.push(c);
}

/// Post-processing of styled strings.
pub trait FontTool: Sized {
    /// Append the reset sequence unless the string already ends with it.
    fn reset(&mut self) -> &Self;

    /// Remove one trailing reset sequence, if the string ends with one.
    fn no_reset(self) -> Self;

    /// The visible text alone, with every escape sequence removed.
    fn none_font(&self) -> Self;
}

impl FontTool for String {
    fn reset(&mut self) -> (r: &Self)
        ensures
            final(self)@ == ensure_reset(old(self)@),
            r@ == ensure_reset(old(self)@),
    {
        let ends = ends_with_reset_exec(self.as_str());
        if !ends {
            self.append("\x1b[0m");
            proof {
                reveal_strlit("\x1b[0m");
                assert(self@ =~= ensure_reset(old(self)@));
            }
        }
        self
    }

    fn no_reset(self) -> (r: Self)
        ensures
            r@ == strip_trailing_reset(self@),
    {
        if ends_with_reset_exec(self.as_str()) {
            let n = self.as_str().unicode_len();
            let trimmed = self.as_str().substring_char(0, n - 4);
            trimmed.to_owned()
        } else {
            self
        }
    }

    fn none_font(&self) -> (r: Self)
        ensures
            r@ == strip_styling(self@),
    {
        let s = self.as_str();
        let n = s.unicode_len();
        let mut out = String::new();
        let mut sup = false;
        let mut i: usize = 0;
        proof {
            assert(s@.skip(0) =~= s@);
            assert(out@ + strip_from(s@, false) =~= strip_styling(s@));
        }
        while i < n
            invariant
                n == s@.len(),
                i <= n,
                strip_styling(s@) == out@ + strip_from(s@.skip(i as int), sup),
            decreases n - i,
        {
            let c = s.get_char(i);
            proof {
                assert(s@.skip(i as int)[0] == c);
                assert(s@.skip(i as int).skip(1) =~= s@.skip(i as int + 1));
            }
            if c == '\x1b' {
                sup = true;
            } else if sup {
                if c == 'm' {
                    sup = false;
                }
            } else {
                push_char(&mut out, c);
                proof {
                    assert(out@ + strip_from(s@.skip(i as int + 1), false) =~= strip_styling(s@));
                }
            }
            i += 1;
        }
        proof {
            assert(s@.skip(n as int) =~= Seq::<char>::empty());
            assert(out@ =~= strip_styling(s@));
        }
        out
    }
}

/// The one-character string for decimal digit `d`.
fn digit_str(d: u8) -> (r: &'static str)
    requires
        d < 10,
    ensures
        r@ == seq![digit_char(d as int)],
{
    let r: &'static str = if d == 0 {
        "0"
    } else if d == 1 {
        "1"
    } else if d == 2 {
        "2"
    } else if d == 3 {
        "3"
    } else if d == 4 {
        "4"
    } else if d == 5 {
        "5"
    } else if d == 6 {
        "6"
    } else if d == 7 {
        "7"
    } else if d == 8 {
        "8"
    } else {
        "9"
    };
    proof {
        reveal_strlit("0");
        reveal_strlit("1");
        reveal_strlit("2");
        reveal_strlit("3");
        reveal_strlit("4");
        reveal_strlit("5");
        reveal_strlit("6");
        reveal_strlit("7");
        reveal_strlit("8");
        reveal_strlit("9");
        assert(r@ =~= seq![digit_char(d as int)]);
    }
    r
}

/// Append the decimal representation of `n` to `s`.
fn append_u8(s: &mut String, n: u8)
    ensures
        final(s)@ == old(s)@ + dec_of(n),
{
    if n >= 100 {
        s.append(digit_str(n / 100));
        s.append(digit_str((n / 10) % 10));
        s.append(digit_str(n % 10));
        proof {
            assert(final(s)@ =~= old(s)@ + dec_of(n));
        }
    } else if n >= 10 {
        s.append(digit_str(n / 10));
        s.append(digit_str(n % 10));
        proof {
            assert(final(s)@ =~= old(s)@ + dec_of(n));
        }
    } else {
        s.append(digit_str(n));
        proof {
            assert(final(s)@ =~= old(s)@ + dec_of(n));
        }
    }
}

/// Append the numbers of `ns` in decimal, joined with `;`, to `s`.
fn append_joined_nums(s: &mut String, ns: &Vec<u8>)
    ensures
        final(s)@ == old(s)@ + join_nums(ns@),
{
    let ghost s0 = s@;
    let mut i: usize = 0;
    while i < ns.len()
        invariant
            i <= ns@.len(),
            s@ == s0 + join_nums(ns@.take(i as int)),
        decreases ns@.len() - i,
    {
        if i > 0 {
            s.append(";");
            proof {
                reveal_strlit(";");
            }
        }
        append_u8(s, ns[i]);
        proof {
            assert(ns@.take(i as int + 1).drop_last() =~= ns@.take(i as int));
            assert(s@ =~= s0 + join_nums(ns@.take(i as int + 1)));
        }
        i += 1;
    }
    proof {
        assert(ns@.take(ns@.len() as int) =~= ns@);
    }
}

} // verus!
