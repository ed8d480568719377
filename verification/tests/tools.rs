use sag::tools::{FakeTool, ToolCall, ToolError};

#[test]
fn fake_tool_echoes_args_for_its_own_name() {
    let tool = FakeTool::new("echo");
    let out = tool
        .invoke(ToolCall {
            name: "echo".into(),
            args: vec!["hello".into(), "world".into()],
        })
        .unwrap();
    assert_eq!(out.stdout, "hello world");
    assert_eq!(out.exit_code, 0);
}

#[test]
fn fake_tool_rejects_a_call_for_another_tool() {
    let tool = FakeTool::new("echo");
    assert!(matches!(
        tool.invoke(ToolCall {
            name: "git".into(),
            args: vec![],
        }),
        Err(ToolError::UnknownTool(_))
    ));
}

#[test]
fn fake_tool_name_and_error_text() {
    let tool = FakeTool::new("echo");
    assert_eq!(tool.name(), "echo");
    let out = tool.invoke(ToolCall { name: "echo".into(), args: vec![] }).unwrap();
    assert_eq!(out.stdout, "");
    assert_eq!(ToolError::UnknownTool("git".into()).message(), "unknown tool: git");
}
