//! What the server answers to resource requests.

use vstd::prelude::*;

verus! {

/// The URI of the one resource the server offers.
pub const EXAMPLE_URI: &'static str = "shu://example";

/// The MIME type of that resource.
pub const EXAMPLE_MIME_TYPE: &'static str = "text/plain";

/// The text of that resource.
pub const EXAMPLE_TEXT: &'static str = "This is an example resource content.";

/// The refusal of a tool call.
pub const NO_TOOLS: &'static str = "No tools implemented";

/// The server's request handler.
#[derive(Debug)]
pub struct MyServerHandler;

/// A resource the server lists.
#[derive(Debug)]
pub struct ResourceEntry {
    /// Its URI.
    pub uri: String,
    /// Its name.
    pub name: String,
    /// Its description.
    pub description: String,
    /// Its MIME type.
    pub mime_type: String,
}

/// The text content of a resource that was read.
#[derive(Debug)]
pub struct ResourceText {
    /// The URI that was asked for.
    pub uri: String,
    /// The MIME type.
    pub mime_type: String,
    /// The text.
    pub text: String,
}

impl MyServerHandler {
    /// The resources the server offers: the one example resource.
    pub fn list_resources(&self) -> (r: Vec<ResourceEntry>)
        ensures
            r@.len() == 1,
            r@[0].uri@ == EXAMPLE_URI@,
            r@[0].name@ == "Example Resource"@,
            r@[0].description@ == "An example resource"@,
            r@[0].mime_type@ == EXAMPLE_MIME_TYPE@,
    {
        let mut v = Vec::new();
        v.push(
            ResourceEntry {
                uri: String::from_str(EXAMPLE_URI),
                name: String::from_str("Example Resource"),
                description: String::from_str("An example resource"),
                mime_type: String::from_str(EXAMPLE_MIME_TYPE),
            },
        );
        v
    }

    /// Reads the resource `uri`: the example resource's text, or, for any
    /// other URI, the message `Unknown resource URI: <uri>`.
    pub fn read_resource(&self, uri: &str) -> (r: Result<ResourceText, String>)
        ensures
            match r {
                Ok(t) => uri@ == EXAMPLE_URI@ && t.uri@ == uri@ && t.mime_type@ == EXAMPLE_MIME_TYPE@
                    && t.text@ == EXAMPLE_TEXT@,
                Err(m) => uri@ != EXAMPLE_URI@ && m@ == "Unknown resource URI: "@ + uri@,
            },
    {
        let asked = String::from_str(uri);
        let known = String::from_str(EXAMPLE_URI);
        if asked == known {
            Ok(
                ResourceText {
                    uri: asked,
                    mime_type: String::from_str(EXAMPLE_MIME_TYPE),
                    text: String::from_str(EXAMPLE_TEXT),
                },
            )
        } else {
            let mut m = String::from_str("Unknown resource URI: ");
            m.append(uri);
            Err(m)
        }
    }

    /// The names of the tools this handler lists: none.
    pub fn list_tool_names(&self) -> (r: Vec<String>)
        ensures
            r@.len() == 0,
    {
        Vec::new()
    }

    /// Answers a tool call: this handler runs no tool, so every call is
    /// refused with `No tools implemented`.
    pub fn call_tool(&self, _name: &str) -> (r: Result<String, String>)
        ensures
            r matches Err(m) && m@ == NO_TOOLS@,
    {
        Err(String::from_str(NO_TOOLS))
    }
}

} // verus!
