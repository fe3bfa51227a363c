use vstd::prelude::*;
use vstd::string::StringExecFns;

verus! {

/// `c` is a digit of Crockford's base32 alphabet, upper case.
pub open spec fn is_crockford_digit(c: char) -> bool {
    ('0' <= c && c <= '9') || ('A' <= c && c <= 'Z' && c != 'I' && c != 'L' && c != 'O' && c
        != 'U')
}

/// `t` is the text of a ULID: 26 Crockford base32 digits encoding 128 bits,
/// so the first digit is at most `7`.
pub open spec fn is_ulid_text(t: Seq<char>) -> bool {
    &&& t.len() == 26
    &&& forall|i: int| 0 <= i < 26 ==> is_crockford_digit(#[trigger] t[i])
    &&& '0' <= t[0] && t[0] <= '7'
}

/// Relies on ulid::Ulid::new and its Display form, which encodes the 128 bits
/// in Crockford base32.
#[verifier::external_body]
fn new_ulid_text() -> (r: String)
    ensures
        is_ulid_text(r@),
{
    ulid::Ulid::new().to_string()
}

/// A directory where stored media files go.
pub struct Folder(pub String);

impl Folder {
    /// A fresh file path in this folder: the folder, a slash, the text of a
    /// new ULID and, unless `ext` is empty, a dot and `ext`.
    pub fn file_path(&self, ext: &str) -> (r: String)
        ensures
            exists|id: Seq<char>|
                is_ulid_text(id) && r@ == self.0@ + seq!['/'] + id + if ext@.len() == 0 {
                    Seq::<char>::empty()
                } else {
                    seq!['.'] + ext@
                },
    {
        let id = new_ulid_text();
        let mut path = self.0.clone();
        proof {
            reveal_strlit("/");
            reveal_strlit(".");
        }
        path.append("/");
        path.append(id.as_str());
        if !ext.is_empty() {
            path.append(".");
            path.append(ext);
            assert(path@ == self.0@ + seq!['/'] + id@ + (seq!['.'] + ext@));
        } else {
            assert(path@ == self.0@ + seq!['/'] + id@ + Seq::<char>::empty());
        }
        assert(is_ulid_text(id@) && path@ == self.0@ + seq!['/'] + id@ + if ext@.len() == 0 {
            Seq::<char>::empty()
        } else {
            seq!['.'] + ext@
        });
        path
    }
}

/// Folders for images, split by content rating.
pub struct Image {
    pub safe: Folder,
    pub unsafe_: Folder,
}

/// Folders for videos, split by content rating.
pub struct Video {
    pub safe: Folder,
    pub unsafe_: Folder,
}

/// Where stored media files go.
pub struct Storage {
    pub image: Image,
    pub video: Video,
}

} // verus!
