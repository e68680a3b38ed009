//! The certificate-transparency collector's pure side: the query to send and
//! the decoding of the response body into raw name values. The HTTPS request
//! itself is the application's job.

use vstd::prelude::*;
use vstd::string::StringExecFns;
use crate::error::Error;

verus! {

/// Named result of decoding a certificate-transparency response body: the
/// `name_value` texts of the JSON array of objects the body holds, in order,
/// or nothing when the body is not of that shape. A function of the body text
/// alone.
pub uninterp spec fn cert_names_of(body: Seq<char>) -> Option<Seq<Seq<char>>>;

/// Relies on serde_json::from_str, Value::get and Value::as_str: parses the
/// body as a JSON array of objects and reads each object's name_value string
/// field; a body of any other shape gives nothing.
#[verifier::external_body]
fn decode_name_values(body: &str) -> (r: Option<Vec<String>>)
    ensures
        r.deep_view() == cert_names_of(body@),
{
    let items: Vec<serde_json::Value> = match serde_json::from_str(body) {
        Ok(v) => v,
        Err(_) => return None,
    };
    let mut names: Vec<String> = Vec::new();
    for item in &items {
        match item.get("name_value").and_then(serde_json::Value::as_str) {
            Some(s) => names.push(s.to_string()),
            None => return None,
        }
    }
    Some(names)
}

/// Decode the certificate-transparency response into its raw name values.
/// Any body that is not a JSON array of objects carrying a name_value string
/// is a fatal decode error, and the raw body is kept for diagnosis.
pub fn decode_entries(body: String) -> (r: Result<Vec<String>, Error>)
    ensures
        match r {
            Ok(names) => cert_names_of(body@) == Some(names.deep_view()),
            Err(e) => cert_names_of(body@) is None && (e matches Error::Decoding(b) && b@
                == body@),
        },
{
    match decode_name_values(body.as_str()) {
        Some(names) => Ok(names),
        None => Err(Error::Decoding(body)),
    }
}

/// The certificate-transparency query for a target: one HTTPS GET against the
/// crt.sh log, asking in JSON for every certificate of the target and its
/// subdomains.
pub fn crt_sh_url(target: &str) -> (r: String)
    ensures
        r@ == "https://crt.sh/?q=%25."@ + target@ + "&output=json"@,
{
    let mut url = String::from_str("https://crt.sh/?q=%25.");
    url.append(target);
    url.append("&output=json");
    url
}

} // verus!
