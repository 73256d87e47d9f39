//! Records of the tool protocol that front-ends exchange with the engine.

use vstd::prelude::*;
use crate::text::concat;

verus! {

pub struct ServerInfo {
    pub name: String,
    pub version: String,
}

pub struct ToolsCapability {
    pub list_changed: bool,
}

pub struct ResourcesCapability {
    pub list_changed: bool,
}

pub struct ServerCapabilities {
    pub tools: Option<ToolsCapability>,
    pub resources: Option<ResourcesCapability>,
}

pub struct InitializeResult {
    pub protocol_version: String,
    pub capabilities: ServerCapabilities,
    pub server_info: ServerInfo,
}

/// One piece of a tool's answer.
pub struct ToolContent {
    pub content_type: String,
    pub text: String,
}

/// A tool's answer; `is_error` is set only on failure.
pub struct ToolResult {
    pub content: Vec<ToolContent>,
    pub is_error: Option<bool>,
}

impl ToolContent {
    /// A piece of plain text.
    pub fn text(s: &str) -> (r: Self)
        ensures
            r.content_type@ == "text"@,
            r.text@ == s@,
    {
        ToolContent { content_type: "text".to_owned(), text: s.to_owned() }
    }
}

impl ToolResult {
    /// A successful answer holding `text`.
    pub fn success(text: &str) -> (r: Self)
        ensures
            r.content@.len() == 1,
            r.content@[0].content_type@ == "text"@,
            r.content@[0].text@ == text@,
            r.is_error is None,
    {
        let mut content: Vec<ToolContent> = Vec::new();
        content.push(ToolContent::text(text));
        ToolResult { content, is_error: None }
    }

    /// A failed answer holding `text`.
    pub fn error(text: &str) -> (r: Self)
        ensures
            r.content@.len() == 1,
            r.content@[0].content_type@ == "text"@,
            r.content@[0].text@ == text@,
            r.is_error == Some(true),
    {
        let mut content: Vec<ToolContent> = Vec::new();
        content.push(ToolContent::text(text));
        ToolResult { content, is_error: Some(true) }
    }
}

/// A resource that a front-end can read.
pub struct Resource {
    pub uri: String,
    pub name: String,
    pub description: String,
    pub mime_type: String,
}

pub struct ResourceContent {
    pub uri: String,
    pub mime_type: String,
    pub text: String,
}

/// The resources of a project: its index status, addressed by the
/// project's root.
pub fn list_resources(project_root: &str) -> (r: Vec<Resource>)
    ensures
        r@.len() == 1,
        r@[0].uri@ == "booger://status/"@ + project_root@,
        r@[0].name@ == "Index Status"@,
        r@[0].description@ == "Current index statistics for "@ + project_root@,
        r@[0].mime_type@ == "application/json"@,
{
    let mut v: Vec<Resource> = Vec::new();
    v.push(
        Resource {
            uri: concat("booger://status/", project_root),
            name: "Index Status".to_owned(),
            description: concat("Current index statistics for ", project_root),
            mime_type: "application/json".to_owned(),
        },
    );
    v
}

} // verus!
