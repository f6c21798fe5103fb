//! The label path: a value that holds the text of a path, its binary form for
//! parameter binding, and the way back from that form.

use crate::error::EncodingError;
use crate::error::PathError;
use crate::label::all_labels;
use crate::label::is_label;
use crate::label::is_label_char;
use crate::label::is_path_text;
use crate::label::join;
use crate::label::lemma_first_dot_is;
use crate::label::lemma_join_push;
use crate::label::lemma_path_text_iff_labels;
use crate::label::lemma_split_join;
use crate::label::pieces;
use crate::label::split;
use crate::pg::buffer_bytes;
use crate::pg::declared_name;
use crate::pg::put_u8;
use crate::pg::text_from_sql;
use crate::pg::text_to_sql;
use crate::pg::IsNull;
use crate::text::lemma_bytes_determine_text;
use crate::text::str_eq;
use bytes::BytesMut;
use tokio_postgres::types::Type;
use vstd::prelude::*;
use vstd::slice::slice_subrange;
use vstd::string::StrSliceExecFns;
use vstd::string::StringExecFns;
use vstd::utf8::decode_utf8;
use vstd::utf8::decode_utf8_encode_utf8;
use vstd::utf8::encode_utf8;
use vstd::utf8::encode_utf8_decode_utf8;
use vstd::utf8::encode_utf8_valid_utf8;
use vstd::utf8::is_ascii_chars;
use vstd::utf8::is_ascii_chars_encode_utf8;
use vstd::utf8::valid_utf8;

verus! {

/// The binary form of a path: the version byte 1, then the text in UTF-8.
pub open spec fn wire_form(text: Seq<char>) -> Seq<u8> {
    seq![1u8] + encode_utf8(text)
}

/// The text of the path that bytes in binary form hold, or why they hold
/// none.
pub open spec fn parse_wire(raw: Seq<u8>) -> Result<Seq<char>, PathError> {
    if raw.len() == 0 {
        Err(PathError::Empty)
    } else if raw[0] != 1 {
        Err(PathError::Version(raw[0]))
    } else if !valid_utf8(raw.skip(1)) {
        Err(PathError::Text)
    } else if !is_path_text(decode_utf8(raw.skip(1))) {
        Err(PathError::Syntax)
    } else {
        Ok(decode_utf8(raw.skip(1)))
    }
}

/// The binary form of a path is one byte longer than its text: the version
/// byte 1 comes first, and each character of the text follows as one byte.
pub proof fn lemma_wire_form(text: Seq<char>)
    requires
        is_path_text(text),
    ensures
        wire_form(text).len() == text.len() + 1,
        wire_form(text)[0] == 1,
        forall|i: int| 0 <= i < text.len() ==> #[trigger] wire_form(text)[i + 1] == text[i] as u8,
{
    lemma_path_text_is_ascii(text);
    is_ascii_chars_encode_utf8(text);
    assert forall|i: int| 0 <= i < text.len() implies #[trigger] wire_form(text)[i + 1]
        == text[i] as u8 by {
        assert(wire_form(text)[i + 1] == encode_utf8(text)[i]);
    }
}

/// What a buffer holds after a path was written to its end: what it held,
/// then exactly one version byte, of value 1, then the text, one byte for each
/// character, and nothing after it. Read from where the path begins, the bytes
/// give the text back.
pub proof fn lemma_appended_wire_form(before: Seq<u8>, text: Seq<char>)
    requires
        is_path_text(text),
    ensures
        (before + wire_form(text)).len() == before.len() + 1 + text.len(),
        (before + wire_form(text)).take(before.len() as int) == before,
        (before + wire_form(text))[before.len() as int] == 1,
        (before + wire_form(text)).skip(before.len() as int + 1) == encode_utf8(text),
        forall|i: int|
            0 <= i < text.len() ==> #[trigger] (before + wire_form(text))[before.len() + 1 + i]
                == text[i] as u8,
        parse_wire((before + wire_form(text)).skip(before.len() as int)) matches Ok(read) && read
            == text,
{
    let after = before + wire_form(text);
    lemma_wire_form(text);
    lemma_wire_round_trip(text);
    assert(after.take(before.len() as int) =~= before);
    assert(after.skip(before.len() as int) =~= wire_form(text));
    assert(after.skip(before.len() as int + 1) =~= encode_utf8(text));
    assert forall|i: int| 0 <= i < text.len() implies #[trigger] after[before.len() + 1 + i]
        == text[i] as u8 by {
        assert(after[before.len() + 1 + i] == wire_form(text)[i + 1]);
    }
}

/// Two paths with the same binary form are the same path: paths that differ,
/// in a label or in the number or the order of their labels, never share an
/// encoding.
pub proof fn lemma_wire_form_is_injective(a: Seq<char>, b: Seq<char>)
    requires
        wire_form(a) == wire_form(b),
    ensures
        a == b,
{
    assert(wire_form(a).skip(1) =~= encode_utf8(a));
    assert(wire_form(b).skip(1) =~= encode_utf8(b));
    lemma_bytes_determine_text(a, b);
}

/// Two sequences of labels whose paths have the same binary form are the same
/// sequence.
pub proof fn lemma_labels_are_told_apart(a: Seq<Seq<char>>, b: Seq<Seq<char>>)
    requires
        all_labels(a),
        all_labels(b),
        wire_form(join(a)) == wire_form(join(b)),
    ensures
        a == b,
{
    lemma_wire_form_is_injective(join(a), join(b));
    lemma_split_join(a);
    lemma_split_join(b);
}

/// The binary form of a path's text is read back as that text.
pub proof fn lemma_wire_round_trip(text: Seq<char>)
    requires
        is_path_text(text),
    ensures
        parse_wire(wire_form(text)) matches Ok(read) && read == text,
{
    let raw = wire_form(text);
    assert(raw.skip(1) =~= encode_utf8(text));
    encode_utf8_valid_utf8(text);
    encode_utf8_decode_utf8(text);
}

/// Labels that are joined to a path, put in binary form and read back, then
/// split, are the labels that went in.
pub proof fn lemma_labels_round_trip(labels: Seq<Seq<char>>)
    requires
        all_labels(labels),
    ensures
        parse_wire(wire_form(join(labels))) matches Ok(text) && split(text) == labels,
{
    lemma_split_join(labels);
    lemma_wire_round_trip(join(labels));
}

/// The text of a path holds ASCII only.
pub proof fn lemma_path_text_is_ascii(t: Seq<char>)
    requires
        is_path_text(t),
    ensures
        is_ascii_chars(t),
{
    assert forall|i: int| 0 <= i < t.len() implies '\0' <= #[trigger] t[i] <= '\u{7f}' by {
        assert(is_label_char(t[i]) || t[i] == '.');
    }
}

fn is_label_byte(b: u8) -> (r: bool)
    ensures
        r == is_label_char(b as char),
{
    (0x61 <= b && b <= 0x7a) || (0x41 <= b && b <= 0x5a) || (0x30 <= b && b <= 0x39) || b == 0x5f
        || b == 0x2d
}

/// Whether a text is a label.
pub fn check_label(text: &str) -> (ok: bool)
    ensures
        ok == is_label(text@),
{
    if !text.is_ascii() {
        proof {
            if is_label(text@) {
                assert forall|i: int| 0 <= i < text@.len() implies '\0' <= #[trigger] text@[i]
                    <= '\u{7f}' by {
                    assert(is_label_char(text@[i]));
                }
            }
        }
        return false;
    }
    let bytes = text.as_bytes();
    let n = bytes.len();
    proof {
        is_ascii_chars_encode_utf8(text@);
    }
    if n == 0 {
        return false;
    }
    let mut i: usize = 0;
    while i < n
        invariant
            n == bytes@.len(),
            n == text@.len(),
            i <= n,
            forall|j: int| 0 <= j < n ==> text@[j] as u8 == #[trigger] bytes@[j],
            is_ascii_chars(text@),
            forall|j: int| 0 <= j < i ==> is_label_char(#[trigger] text@[j]),
        decreases n - i,
    {
        let b = bytes[i];
        proof {
            let c = text@[i as int];
            assert(c as u8 == bytes@[i as int]);
            assert('\0' <= c <= '\u{7f}');
            assert(b as char == c);
        }
        if !is_label_byte(b) {
            return false;
        }
        i += 1;
    }
    true
}

/// Whether a text is short enough for a path.
pub fn is_short_text(text: &str) -> (ok: bool)
    ensures
        ok == (encode_utf8(text@).len() < usize::MAX),
        text.is_ascii() ==> ok == is_short(text@),
{
    proof {
        if text.is_ascii() {
            is_ascii_chars_encode_utf8(text@);
        }
    }
    text.as_bytes().len() < usize::MAX
}

/// Whether a text is the text of a path.
pub fn check_path_text(text: &str) -> (ok: bool)
    ensures
        ok == is_path_text(text@),
{
    if !text.is_ascii() {
        proof {
            if is_path_text(text@) {
                lemma_path_text_is_ascii(text@);
            }
        }
        return false;
    }
    let bytes = text.as_bytes();
    let n = bytes.len();
    proof {
        is_ascii_chars_encode_utf8(text@);
    }
    let mut i: usize = 0;
    let mut after_dot = true;
    while i < n
        invariant
            n == bytes@.len(),
            n == text@.len(),
            i <= n,
            forall|j: int| 0 <= j < n ==> text@[j] as u8 == #[trigger] bytes@[j],
            is_ascii_chars(text@),
            forall|j: int| 0 <= j < i ==> is_label_char(#[trigger] text@[j]) || text@[j] == '.',
            forall|j: int|
                0 <= j < i && #[trigger] text@[j] == '.' ==> 0 < j && text@[j - 1] != '.',
            after_dot == (i == 0 || text@[i - 1] == '.'),
        decreases n - i,
    {
        let b = bytes[i];
        proof {
            let c = text@[i as int];
            assert(c as u8 == bytes@[i as int]);
            assert('\0' <= c <= '\u{7f}');
            assert(b as char == c);
        }
        if b == 0x2e {
            if after_dot {
                proof {
                    assert(text@[i as int] == '.');
                }
                return false;
            }
            after_dot = true;
        } else if is_label_byte(b) {
            after_dot = false;
        } else {
            proof {
                assert(!is_label_char(text@[i as int]) && text@[i as int] != '.');
            }
            return false;
        }
        i += 1;
    }
    if n > 0 && after_dot {
        proof {
            assert(text@[n - 1] == '.');
        }
        return false;
    }
    proof {
        let t = text@;
        assert forall|j: int| 0 <= j < t.len() && #[trigger] t[j] == '.' implies 0 < j < t.len()
            - 1 && t[j - 1] != '.' && t[j + 1] != '.' by {
            assert(j < t.len() - 1);
            if t[j + 1] == '.' {
                assert(t[(j + 1) - 1] != '.');
            }
        }
    }
    true
}

/// A text short enough for a path: its binary form, one byte longer than the
/// text, must fit into a buffer, which holds `usize::MAX` bytes at most.
pub open spec fn is_short(text: Seq<char>) -> bool {
    text.len() < usize::MAX
}

/// A label path, such as `top.science.astronomy`: labels separated by dots.
/// It always holds the text of a path, short enough to be encoded; the empty
/// text is the path without labels.
#[derive(Debug, PartialEq, Eq)]
pub struct Ltree {
    text: String,
}

impl View for Ltree {
    type V = Seq<Seq<char>>;

    /// The labels of the path, first to last.
    open spec fn view(&self) -> Seq<Seq<char>> {
        split(self.text())
    }
}

impl Clone for Ltree {
    fn clone(&self) -> (r: Ltree)
        ensures
            r.text() == self.text(),
    {
        proof {
            use_type_invariant(self);
        }
        Ltree { text: self.text.clone() }
    }
}

impl Ltree {
    #[verifier::type_invariant]
    spec fn holds_path_text(&self) -> bool {
        is_path_text(self.text@) && is_short(self.text@)
    }

    /// The text of the path.
    pub closed spec fn text(&self) -> Seq<char> {
        self.text@
    }

    /// The path with the given text, where it is the text of a path and
    /// short enough.
    pub fn new(text: &str) -> (r: Option<Ltree>)
        ensures
            r is Some <==> is_path_text(text@) && is_short(text@),
            r matches Some(p) ==> p.text() == text@,
    {
        if check_path_text(text) && is_short_text(text) {
            Some(Ltree { text: String::from_str(text) })
        } else {
            None
        }
    }

    /// The path made of the given labels, where each of them is a label and
    /// the labels with their dots are short enough.
    pub fn from_labels(labels: &Vec<String>) -> (r: Option<Ltree>)
        ensures
            r is Some <==> all_labels(labels.deep_view()) && is_short(join(labels.deep_view())),
            r matches Some(p) ==> p@ == labels.deep_view() && p.text() == join(labels.deep_view()),
    {
        let ghost all = labels.deep_view();
        let mut text = String::new();
        let mut i: usize = 0;
        while i < labels.len()
            invariant
                all == labels.deep_view(),
                i <= labels.len(),
                all_labels(all.take(i as int)),
                text@ == join(all.take(i as int)),
            decreases labels.len() - i,
        {
            let label = labels[i].as_str();
            assert(label@ == all[i as int]);
            if !check_label(label) {
                return None;
            }
            if i > 0 {
                text.append(".");
            }
            text.append(label);
            proof {
                reveal_strlit(".");
                let before = all.take(i as int);
                assert(all.take(i + 1) =~= before.push(label@));
                lemma_join_push(before, label@);
                assert("."@ =~= seq!['.']);
                assert(all_labels(all.take(i + 1))) by {
                    assert forall|j: int| 0 <= j < i + 1 implies is_label(
                        #[trigger] all.take(i + 1)[j],
                    ) by {
                        if j < i {
                            assert(all.take(i + 1)[j] == before[j]);
                        }
                    }
                }
            }
            i += 1;
        }
        proof {
            assert(all.take(i as int) =~= all);
            lemma_split_join(all);
        }
        if !is_short_text(text.as_str()) {
            return None;
        }
        Some(Ltree { text })
    }

    /// The text of the path.
    pub fn as_str(&self) -> (s: &str)
        ensures
            s@ == self.text(),
            is_path_text(s@),
            is_short(s@),
    {
        proof {
            use_type_invariant(self);
        }
        self.text.as_str()
    }

    /// The labels of the path, first to last.
    pub fn labels(&self) -> (r: Vec<String>)
        ensures
            r.deep_view() == self@,
            all_labels(self@),
    {
        proof {
            use_type_invariant(self);
            lemma_path_text_is_ascii(self.text@);
            lemma_path_text_iff_labels(self.text@);
        }
        let text = self.text.as_str();
        let ghost t = text@;
        let mut out: Vec<String> = Vec::new();
        let bytes = text.as_bytes();
        let n = bytes.len();
        proof {
            is_ascii_chars_encode_utf8(t);
        }
        if n == 0 {
            assert(out.deep_view() =~= self@);
            return out;
        }
        let mut start: usize = 0;
        let mut i: usize = 0;
        proof {
            assert(t.skip(0) =~= t);
            assert(out.deep_view() + pieces(t) =~= pieces(t));
        }
        while i < n
            invariant
                t == text@,
                text.is_ascii(),
                n == t.len(),
                n == bytes@.len(),
                forall|j: int| 0 <= j < n ==> t[j] as u8 == #[trigger] bytes@[j],
                start <= i <= n,
                forall|j: int| start <= j < i ==> t[j] != '.',
                pieces(t) == out.deep_view() + pieces(t.skip(start as int)),
            decreases n - i,
        {
            let b = bytes[i];
            proof {
                let c = t[i as int];
                assert(c as u8 == bytes@[i as int]);
                assert('\0' <= c <= '\u{7f}');
                assert(b as char == c);
            }
            if b == 0x2e {
                let piece = text.substring_ascii(start, i);
                proof {
                    let rest = t.skip(start as int);
                    let k = i - start;
                    assert(rest[k] == t[i as int]);
                    assert forall|j: int| 0 <= j < k implies rest[j] != '.' by {
                        assert(rest[j] == t[start + j]);
                    }
                    lemma_first_dot_is(rest, k);
                    assert(rest.take(k) =~= t.subrange(start as int, i as int));
                    assert(rest.skip(k + 1) =~= t.skip(i + 1));
                    assert(pieces(rest) == seq![piece@] + pieces(t.skip(i + 1)));
                }
                let ghost before = out.deep_view();
                out.push(String::from_str(piece));
                proof {
                    assert(out.deep_view() =~= before.push(piece@));
                    assert(before + (seq![piece@] + pieces(t.skip(i + 1))) =~= before.push(piece@)
                        + pieces(t.skip(i + 1)));
                }
                start = i + 1;
            }
            i += 1;
        }
        let piece = text.substring_ascii(start, n);
        proof {
            let rest = t.skip(start as int);
            assert forall|j: int| 0 <= j < rest.len() implies rest[j] != '.' by {
                assert(rest[j] == t[start + j]);
            }
            lemma_first_dot_is(rest, rest.len() as int);
            assert(rest =~= t.subrange(start as int, n as int));
            assert(pieces(rest) == seq![piece@]);
        }
        let ghost before = out.deep_view();
        out.push(String::from_str(piece));
        proof {
            assert(out.deep_view() =~= before.push(piece@));
            assert(before + seq![piece@] =~= before.push(piece@));
        }
        out
    }

    /// Whether a parameter slot of this type takes a path: exactly when the
    /// type's name is `ltree`.
    pub fn accepts(ty: &Type) -> (r: bool)
        ensures
            r == (declared_name(*ty) == "ltree"@),
    {
        str_eq(ty.name(), "ltree")
    }

    /// The bytes of the path's binary form fit into the buffer after what it
    /// holds: a buffer holds `usize::MAX` bytes at most.
    pub open spec fn fits(&self, held: Seq<u8>) -> bool {
        held.len() + wire_form(self.text()).len() <= usize::MAX
    }

    fn write(&self, ty: &Type, out: &mut BytesMut) -> (r: Result<IsNull, EncodingError>)
        requires
            self.fits(buffer_bytes(*old(out))),
        ensures
            r matches Ok(IsNull::No),
            buffer_bytes(*final(out)) == buffer_bytes(*old(out)) + wire_form(self.text()),
    {
        put_u8(out, 1);
        let r = text_to_sql(&self.text, ty, out);
        assert(buffer_bytes(*out) =~= buffer_bytes(*old(out)) + wire_form(self.text()));
        r
    }

    /// Writes the binary form of the path to the end of the buffer: the
    /// version byte 1, then the text as the string encoder writes it, for any
    /// target type. The value written is never NULL. It fails only where the
    /// buffer cannot take the bytes, and then leaves the buffer as it was.
    pub fn to_sql(&self, ty: &Type, out: &mut BytesMut) -> (r: Result<IsNull, EncodingError>)
        ensures
            self.fits(Seq::empty()),
            r is Ok <==> self.fits(buffer_bytes(*old(out))),
            r matches Ok(n) ==> n == IsNull::No && buffer_bytes(*final(out)) == buffer_bytes(
                *old(out),
            ) + wire_form(self.text()),
            r matches Err(e) ==> e == EncodingError::TooLarge && *final(out) == *old(out),
    {
        proof {
            use_type_invariant(self);
            lemma_wire_form(self.text@);
        }
        let held = out.len();
        let text_len = self.text.as_str().as_bytes().len();
        if held >= usize::MAX - text_len {
            return Err(EncodingError::TooLarge);
        }
        self.write(ty, out)
    }

    /// Writes the binary form of the path as `to_sql` does, after testing that
    /// the slot takes a path. Where it fails the buffer stays as it was.
    pub fn to_sql_checked(&self, ty: &Type, out: &mut BytesMut) -> (r: Result<IsNull, EncodingError>)
        ensures
            self.fits(Seq::empty()),
            r is Err ==> *final(out) == *old(out),
            r matches Ok(n) ==> n == IsNull::No && buffer_bytes(*final(out)) == buffer_bytes(
                *old(out),
            ) + wire_form(self.text()),
            r matches Err(EncodingError::WrongType) <==> declared_name(*ty) != "ltree"@,
            r matches Err(EncodingError::TooLarge) <==> declared_name(*ty) == "ltree"@
                && !self.fits(buffer_bytes(*old(out))),
            r is Ok <==> declared_name(*ty) == "ltree"@ && self.fits(buffer_bytes(*old(out))),
    {
        if !Ltree::accepts(ty) {
            proof {
                use_type_invariant(self);
                lemma_wire_form(self.text@);
            }
            return Err(EncodingError::WrongType);
        }
        self.to_sql(ty, out)
    }

    /// Reads a path from its binary form.
    pub fn from_sql(ty: &Type, raw: &[u8]) -> (r: Result<Ltree, PathError>)
        ensures
            match parse_wire(raw@) {
                Ok(text) => r matches Ok(p) && p.text() == text,
                Err(e) => r matches Err(why) && why == e,
            },
    {
        if raw.len() == 0 {
            return Err(PathError::Empty);
        }
        let version = raw[0];
        if version != 1 {
            return Err(PathError::Version(version));
        }
        let rest = slice_subrange(raw, 1, raw.len());
        assert(rest@ =~= raw@.skip(1));
        match text_from_sql(ty, rest) {
            None => Err(PathError::Text),
            Some(text) => {
                if check_path_text(text.as_str()) {
                    proof {
                        lemma_path_text_is_ascii(text@);
                        is_ascii_chars_encode_utf8(text@);
                        decode_utf8_encode_utf8(rest@);
                    }
                    Ok(Ltree { text })
                } else {
                    Err(PathError::Syntax)
                }
            },
        }
    }
}

} // verus!
