//! Paths as the engine sees them, and the order they are sorted in.

use vstd::prelude::*;
use vstd::slice::slice_to_vec;
use vstd::string::*;
use vstd::utf8::{decode_utf8, encode_utf8, encode_utf8_decode_utf8, valid_utf8};

verus! {

/// What the engine knows of one filesystem path: its text, the name of its
/// final component where it has one, whether it denotes a directory, and
/// the bytes it was made from. Paths are told apart and sorted by their
/// bytes: the text of two paths may be the same where their bytes are no
/// valid text.
#[derive(Debug)]
pub struct PathInfo {
    pub text: String,
    pub file_name: Option<String>,
    pub is_dir: bool,
    pub bytes: Vec<u8>,
}

/// The mathematical value of a [`PathInfo`].
pub ghost struct PathView {
    pub text: Seq<char>,
    pub file_name: Option<Seq<char>>,
    pub is_dir: bool,
    pub bytes: Seq<u8>,
}

impl PathView {
    /// The name an entry is shown under: its final component, or the whole
    /// path where it has none.
    pub open spec fn name(self) -> Seq<char> {
        match self.file_name {
            Some(n) => n,
            None => self.text,
        }
    }

    /// Whether the final component begins with a dot. A path without a final
    /// component is never hidden.
    pub open spec fn hidden(self) -> bool {
        match self.file_name {
            Some(n) => n.len() > 0 && n[0] == '.',
            None => false,
        }
    }
}

impl View for PathInfo {
    type V = PathView;

    open spec fn view(&self) -> PathView {
        PathView {
            text: self.text@,
            file_name: match self.file_name {
                Some(n) => Some(n@),
                None => None,
            },
            is_dir: self.is_dir,
            bytes: self.bytes@,
        }
    }
}

impl Clone for PathInfo {
    fn clone(&self) -> (r: Self)
        ensures
            r@ == self@,
    {
        let file_name = match &self.file_name {
            Some(n) => Some(n.clone()),
            None => None,
        };
        PathInfo {
            text: self.text.clone(),
            file_name,
            is_dir: self.is_dir,
            bytes: slice_to_vec(self.bytes.as_slice()),
        }
    }
}

/// The text that bytes are read as: the text they encode where they are
/// valid UTF-8, and otherwise that text with a placeholder in the place of
/// each part that is none.
pub uninterp spec fn lossy_text(bytes: Seq<u8>) -> Seq<char>;

/// `String::from_utf8_lossy` of std, which never fails. Its result depends
/// on the bytes alone, and bytes that are valid UTF-8 come back unchanged
/// as the bytes of the string; what is put in the place of invalid bytes is
/// not stated here.
#[verifier::external_body]
fn decode_lossy(bytes: &[u8]) -> (r: String)
    ensures
        r@ == lossy_text(bytes@),
        valid_utf8(bytes@) ==> encode_utf8(r@) == bytes@,
{
    String::from_utf8_lossy(bytes).into_owned()
}

/// Bytes that are valid UTF-8 are read as the text they encode.
fn decode(bytes: &[u8]) -> (r: String)
    ensures
        r@ == lossy_text(bytes@),
        valid_utf8(bytes@) ==> r@ == decode_utf8(bytes@),
{
    let text = decode_lossy(bytes);
    proof {
        encode_utf8_decode_utf8(text@);
    }
    text
}

impl PathInfo {
    /// A path from its bytes and those of its final component. Bytes that
    /// are no valid text do not make this fail: a placeholder stands in
    /// for them in the text. The bytes themselves are kept as they are.
    pub fn from_bytes(text: &[u8], file_name: Option<&[u8]>, is_dir: bool) -> (r: Self)
        ensures
            r@ == (PathView {
                text: lossy_text(text@),
                file_name: match file_name {
                    Some(name) => Some(lossy_text(name@)),
                    None => None,
                },
                is_dir,
                bytes: text@,
            }),
            valid_utf8(text@) ==> r@.text == decode_utf8(text@),
            match file_name {
                Some(name) => valid_utf8(name@) ==> r@.file_name == Some(decode_utf8(name@)),
                None => true,
            },
    {
        let file_name = match file_name {
            Some(name) => Some(decode(name)),
            None => None,
        };
        PathInfo { text: decode(text), file_name, is_dir, bytes: slice_to_vec(text) }
    }

    /// A path of the given text, final component and kind. Its bytes are
    /// those of the text.
    pub fn new(text: String, file_name: Option<String>, is_dir: bool) -> (r: Self)
        ensures
            r.text == text,
            r.file_name == file_name,
            r.is_dir == is_dir,
            r.bytes@ == encode_utf8(text@),
    {
        let bytes = text.as_str().as_bytes_vec();
        PathInfo { text, file_name, is_dir, bytes }
    }

    /// The name this path is shown under.
    pub fn name(&self) -> (r: &str)
        ensures
            r@ == self@.name(),
    {
        match &self.file_name {
            Some(n) => n.as_str(),
            None => self.text.as_str(),
        }
    }
}

/// Lexicographic order on byte strings: the first differing byte decides, and
/// a proper prefix comes first.
pub open spec fn bytes_le(a: Seq<u8>, b: Seq<u8>) -> bool
    decreases a.len(),
{
    if a.len() == 0 {
        true
    } else if b.len() == 0 {
        false
    } else if a[0] != b[0] {
        a[0] < b[0]
    } else {
        bytes_le(a.drop_first(), b.drop_first())
    }
}

/// In the order in which siblings are sorted a path comes no later than
/// another where its bytes do.
pub open spec fn path_precedes(a: PathView, b: PathView) -> bool {
    bytes_le(a.bytes, b.bytes)
}

/// Of two byte strings one comes no later than the other.
pub proof fn lemma_bytes_le_total(a: Seq<u8>, b: Seq<u8>)
    ensures
        bytes_le(a, b) || bytes_le(b, a),
    decreases a.len(),
{
    if a.len() > 0 && b.len() > 0 && a[0] == b[0] {
        lemma_bytes_le_total(a.drop_first(), b.drop_first());
    }
}

/// What comes no later than a second, which comes no later than a third,
/// comes no later than the third.
pub proof fn lemma_bytes_le_transitive(a: Seq<u8>, b: Seq<u8>, c: Seq<u8>)
    requires
        bytes_le(a, b),
        bytes_le(b, c),
    ensures
        bytes_le(a, c),
    decreases a.len(),
{
    if a.len() > 0 && b.len() > 0 && c.len() > 0 && a[0] == b[0] && b[0] == c[0] {
        lemma_bytes_le_transitive(a.drop_first(), b.drop_first(), c.drop_first());
    }
}

/// Two byte strings of which each comes no later than the other are the
/// same.
pub proof fn lemma_bytes_le_antisymmetric(a: Seq<u8>, b: Seq<u8>)
    requires
        bytes_le(a, b),
        bytes_le(b, a),
    ensures
        a == b,
    decreases a.len(),
{
    if a.len() > 0 && b.len() > 0 {
        lemma_bytes_le_antisymmetric(a.drop_first(), b.drop_first());
        assert(a =~= seq![a[0]] + a.drop_first());
        assert(b =~= seq![b[0]] + b.drop_first());
    } else {
        assert(a =~= b);
    }
}

/// Whether the bytes `a` come no later than the bytes `b`.
pub fn slice_le(a: &[u8], b: &[u8]) -> (r: bool)
    ensures
        r == bytes_le(a@, b@),
{
    let mut i: usize = 0;
    proof {
        assert(a@.skip(0) =~= a@);
        assert(b@.skip(0) =~= b@);
    }
    while i < a.len() && i < b.len()
        invariant
            i <= a@.len(),
            i <= b@.len(),
            bytes_le(a@, b@) == bytes_le(a@.skip(i as int), b@.skip(i as int)),
        decreases a@.len() - i,
    {
        proof {
            assert(a@.skip(i as int).drop_first() =~= a@.skip(i as int + 1));
            assert(b@.skip(i as int).drop_first() =~= b@.skip(i as int + 1));
        }
        if a[i] != b[i] {
            return a[i] < b[i];
        }
        i += 1;
    }
    i == a.len()
}

/// Whether the path `a` sorts no later than the path `b`.
pub fn path_le(a: &PathInfo, b: &PathInfo) -> (r: bool)
    ensures
        r == path_precedes(a@, b@),
{
    slice_le(a.bytes.as_slice(), b.bytes.as_slice())
}

} // verus!
