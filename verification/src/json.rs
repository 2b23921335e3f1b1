//! Objects as JSON text.

use serde_json::Map as JsonMap;
use serde_json::Value;
use vstd::prelude::*;

use crate::text::texts;

verus! {

/// The fields of a JSON object, by the type of their values.
pub struct JsonObject {
    pub texts: Vec<(String, String)>,
    pub numbers: Vec<(String, u64)>,
    pub flags: Vec<(String, bool)>,
    pub lists: Vec<(String, Vec<String>)>,
}

/// What a [`JsonObject`] holds.
pub struct JsonView {
    pub texts: Seq<(Seq<char>, Seq<char>)>,
    pub numbers: Seq<(Seq<char>, u64)>,
    pub flags: Seq<(Seq<char>, bool)>,
    pub lists: Seq<(Seq<char>, Seq<Seq<char>>)>,
}

impl View for JsonObject {
    type V = JsonView;

    open spec fn view(&self) -> JsonView {
        JsonView {
            texts: self.texts@.map_values(|f: (String, String)| (f.0@, f.1@)),
            numbers: self.numbers@.map_values(|f: (String, u64)| (f.0@, f.1)),
            flags: self.flags@.map_values(|f: (String, bool)| (f.0@, f.1)),
            lists: self.lists@.map_values(|f: (String, Vec<String>)| (f.0@, texts(f.1@))),
        }
    }
}

/// The text of an object, laid out over several lines.
pub uninterp spec fn pretty_json(object: JsonView) -> Seq<char>;

/// `to_string_pretty` of `serde_json`, on an object with the given fields: the
/// text is a function of the fields. It fails on no object, as it fails only
/// where a `Serialize` impl does or a key is no string.
#[verifier::external_body]
pub(crate) fn to_pretty_text(object: &JsonObject) -> (r: Result<String, String>)
    ensures
        r is Ok,
        r matches Ok(text) ==> text@ == pretty_json(object@),
{
    let mut fields = JsonMap::new();
    fields.extend(object.texts.iter().map(|(k, v)| (k.clone(), Value::from(v.as_str()))));
    fields.extend(object.numbers.iter().map(|(k, v)| (k.clone(), Value::from(*v))));
    fields.extend(object.flags.iter().map(|(k, v)| (k.clone(), Value::from(*v))));
    fields.extend(object.lists.iter().map(|(k, v)| (k.clone(), Value::from(v.clone()))));
    serde_json::to_string_pretty(&Value::Object(fields)).map_err(|e| e.to_string())
}

} // verus!
