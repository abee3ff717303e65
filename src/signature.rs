use vstd::prelude::*;
use crate::channel::DeviceError;
use crate::text::{i32_of_text, parse_i32};

verus! {

/// What the signature pattern `(.+)\[(.+)<(.+)>V(\d+)\](.+)` captures of a
/// line: product, model and version.
pub uninterp spec fn signature_match(line: Seq<char>) -> Option<(Seq<char>, Seq<char>, Seq<char>)>;

/// The signature line format `<junk>[<product><<model>>V<version>]<junk>`,
/// every part non-empty.
pub open spec fn signature_line_shape(line: Seq<char>, p: Seq<char>, m: Seq<char>, v: Seq<char>) -> bool {
    &&& p.len() > 0
    &&& m.len() > 0
    &&& v.len() > 0
    &&& exists|pre: Seq<char>, post: Seq<char>|
        pre.len() > 0 && post.len() > 0 && line == pre + seq!['['] + p + seq!['<'] + m + seq![
            '>',
            'V',
        ] + v + seq![']'] + post
}

/// Relies on `regex::Regex::captures` with the signature pattern: the product,
/// model and version that it captures, or `None` where the line does not match.
/// A match has the shape that the pattern spells out.
#[verifier::external_body]
fn signature_captures(line: &str) -> (r: Option<(String, String, String)>)
    ensures
        match r {
            Some((p, m, v)) => signature_match(line@) == Some((p@, m@, v@)) && signature_line_shape(
                line@,
                p@,
                m@,
                v@,
            ),
            None => signature_match(line@) is None,
        },
{
    let rx = regex::Regex::new(r"(.+)\[(.+)<(.+)>V(\d+)\](.+)").unwrap();
    rx.captures(line).map(|c| (c[2].to_string(), c[3].to_string(), c[4].to_string()))
}

/// The version read from its text; a text that is no `i32` reads as 1.
pub open spec fn version_of(v: Seq<char>) -> i32 {
    match i32_of_text(v) {
        Some(x) => x,
        None => 1,
    }
}

/// The identity of a device: product, model and version of its configuration schema.
#[derive(Debug)]
pub struct Signature {
    pub product: String,
    pub model: String,
    pub version: i32,
}

impl Signature {
    pub fn new(p: &str, m: &str, v: &str) -> (r: Self)
        ensures
            r.product@ == p@,
            r.model@ == m@,
            r.version == version_of(v@),
    {
        let version = match parse_i32(v) {
            Some(x) => x,
            None => 1,
        };
        Signature { product: String::from_str(p), model: String::from_str(m), version }
    }

    /// Two signatures are the same device: product, model and version all agree.
    pub open spec fn same(&self, o: &Signature) -> bool {
        self.product@ == o.product@ && self.model@ == o.model@ && self.version == o.version
    }
}

impl PartialEq for Signature {
    fn eq(&self, o: &Signature) -> (r: bool) {
        self.product == o.product && self.model == o.model && self.version == o.version
    }
}

impl vstd::std_specs::cmp::PartialEqSpecImpl for Signature {
    open spec fn obeys_eq_spec() -> bool {
        true
    }

    open spec fn eq_spec(&self, o: &Signature) -> bool {
        self.same(o)
    }
}

/// The device's identity from its reply to the version command: `ok` tells
/// whether the reply reported success, `lines` are its lines.
pub fn parse_signature(ok: bool, lines: &Vec<String>) -> (r: Result<Signature, DeviceError>)
    ensures
        r is Ok <==> (ok && lines@.len() > 0 && signature_match(lines@[0]@) is Some),
        r matches Err(e) ==> e == DeviceError::ProtocolError,
        r matches Ok(sig) ==> signature_match(lines@[0]@) matches Some((p, m, v)) && sig.product@
            == p && sig.model@ == m && sig.version == version_of(v) && signature_line_shape(
                lines@[0]@,
                p,
                m,
                v,
            ),
{
    if !ok || lines.len() == 0 {
        return Err(DeviceError::ProtocolError);
    }
    match signature_captures(lines[0].as_str()) {
        Some((p, m, v)) => Ok(Signature::new(p.as_str(), m.as_str(), v.as_str())),
        None => Err(DeviceError::ProtocolError),
    }
}

} // verus!
