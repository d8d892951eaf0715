use vstd::prelude::*;

use sha2::Digest;

verus! {

/// The lowercase hex SHA-256 digest of a text's UTF-8 bytes.
pub uninterp spec fn sha256_hex_of(text: Seq<char>) -> Seq<char>;

/// A lowercase hex digit.
pub open spec fn is_hex_digit(c: char) -> bool {
    ('0' <= c && c <= '9') || ('a' <= c && c <= 'f')
}

/// Relies on sha2::Sha256::digest and the lowercase hex formatting of its
/// 32-byte output: two digits `0-9a-f` per byte, so 64 characters,
/// determined by the text alone.
#[verifier::external_body]
fn sha256_hex(text: &str) -> (r: String)
    ensures
        r@ == sha256_hex_of(text@),
        r@.len() == 64,
        forall|i: int| 0 <= i < r@.len() ==> is_hex_digit(#[trigger] r@[i]),
{
    format!("{:x}", sha2::Sha256::digest(text.as_bytes()))
}

/// A rankings file as it is handed to the store: whose rankings, the file's
/// content-addressed name, and its text.
pub struct RankingsFile {
    pub user_id: String,
    pub file_name: String,
    pub data: String,
}

/// Names the rankings text `data` of `user_id` by the hex SHA-256 digest of
/// the text, so equal rankings land in the same file.
pub fn rankings_file(user_id: String, data: String) -> (r: RankingsFile)
    ensures
        r.user_id == user_id,
        r.data == data,
        r.file_name@ == sha256_hex_of(data@),
        r.file_name@.len() == 64,
        forall|i: int| 0 <= i < r.file_name@.len() ==> is_hex_digit(#[trigger] r.file_name@[i]),
{
    let file_name = sha256_hex(data.as_str());
    RankingsFile { user_id, file_name, data }
}

} // verus!
