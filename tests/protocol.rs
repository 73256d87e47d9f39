use booger::protocol::{list_resources, ToolContent, ToolResult};

#[test]
fn tool_result_success() {
    let result = ToolResult::success("hello");
    assert!(result.is_error.is_none());
    assert_eq!(result.content[0].text, "hello");
    assert_eq!(result.content[0].content_type, "text");
}

#[test]
fn tool_result_error() {
    let result = ToolResult::error("boom");
    assert_eq!(result.is_error, Some(true));
    assert_eq!(result.content[0].text, "boom");
}

#[test]
fn tool_content_text() {
    let c = ToolContent::text("abc");
    assert_eq!(c.content_type, "text");
    assert_eq!(c.text, "abc");
}

#[test]
fn resources_name_the_status_of_the_root() {
    let r = list_resources("/work/proj");
    assert_eq!(r.len(), 1);
    assert_eq!(r[0].uri, "booger://status//work/proj");
    assert_eq!(r[0].name, "Index Status");
    assert_eq!(r[0].description, "Current index statistics for /work/proj");
    assert_eq!(r[0].mime_type, "application/json");
}
