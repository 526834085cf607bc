//! Interpretation of the download endpoint's enveloped reply: the caller
//! extracts the envelope fields from the wire reply and this module makes
//! the verified decisions, decoding the payload through the base64 crate.

use vstd::prelude::*;
use crate::errors::SoftwareManagerError;

verus! {

/// What base64 decoding yields on the given characters, or nothing when
/// they are not valid base64.
pub uninterp spec fn base64_decode_of(s: Seq<char>) -> Option<Seq<u8>>;

/// Relies on base64::decode (standard alphabet, padding accepted): the
/// outcome depends on the input characters alone.
#[verifier::external_body]
fn decode_base64(s: &str) -> (r: Option<Vec<u8>>)
    ensures
        match (r, base64_decode_of(s@)) {
            (Some(v), Some(m)) => v@ == m,
            (None, None) => true,
            _ => false,
        },
{
    base64::decode(s).ok()
}

/// Decides what an enveloped download reply means. A reply that carries a
/// status code is the server refusing, and its message is surfaced; a
/// reply without a payload field, or with one that is not base64, is a
/// download error; otherwise the decoded payload bytes are returned.
pub fn interpret_download_response(
    has_status_code: bool,
    message: String,
    data: Option<String>,
) -> (r: Result<Vec<u8>, SoftwareManagerError>)
    ensures
        has_status_code ==> (r matches Err(SoftwareManagerError::DownloadError(m)) && m@
            == message@),
        !has_status_code ==> match data {
            None => r matches Err(SoftwareManagerError::DownloadError(m)) && m@
                == "data is none"@,
            Some(d) => match base64_decode_of(d@) {
                Some(bytes) => r matches Ok(v) && v@ == bytes,
                None => r matches Err(SoftwareManagerError::DownloadError(m)) && m@
                    == "Failed to decode Base64 string."@,
            },
        },
{
    if has_status_code {
        return Err(SoftwareManagerError::DownloadError(message));
    }
    match data {
        None => Err(SoftwareManagerError::DownloadError(String::from_str("data is none"))),
        Some(d) => {
            match decode_base64(d.as_str()) {
                Some(v) => Ok(v),
                None => Err(
                    SoftwareManagerError::DownloadError(
                        String::from_str("Failed to decode Base64 string."),
                    ),
                ),
            }
        },
    }
}

} // verus!
