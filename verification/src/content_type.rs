//! Content types that a response can declare.

use vstd::prelude::*;
use vstd::string::StringExecFns;

verus! {

/// The media type placed in a response's `Content-Type` header.
#[derive(Debug, PartialEq, Eq)]
pub enum ContentType {
    Text,
    TextHtml,
    JS,
    CSS,
    Icon,
    Image(String),
    Json,
    SVG,
}

impl ContentType {
    /// The header value rendered for this media type.
    pub open spec fn spec_header_value(&self) -> Seq<char> {
        match self {
            ContentType::TextHtml => "text/html; charset=utf-8"@,
            ContentType::Text => "text/plain; charset=utf-8"@,
            ContentType::JS => "text/javascript; charset=utf-8"@,
            ContentType::CSS => "text/css; charset=utf-8"@,
            ContentType::Icon => "image/x-icon"@,
            ContentType::Json => "application/json"@,
            ContentType::SVG => "application/svg+xml"@,
            ContentType::Image(image_type) => "image/"@ + image_type@,
        }
    }

    /// Renders the value of the `Content-Type` header for this media type.
    pub fn header_value(&self) -> (value: String)
        ensures
            value@ == self.spec_header_value(),
    {
        match self {
            ContentType::TextHtml => "text/html; charset=utf-8".to_owned(),
            ContentType::Text => "text/plain; charset=utf-8".to_owned(),
            ContentType::JS => "text/javascript; charset=utf-8".to_owned(),
            ContentType::CSS => "text/css; charset=utf-8".to_owned(),
            ContentType::Icon => "image/x-icon".to_owned(),
            ContentType::Json => "application/json".to_owned(),
            ContentType::SVG => "application/svg+xml".to_owned(),
            ContentType::Image(image_type) => {
                let mut value = "image/".to_owned();
                value.append(image_type.as_str());
                value
            },
        }
    }
}

} // verus!
