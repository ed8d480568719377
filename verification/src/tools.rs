//! "Let agents do things": a named capability the engine invokes with
//! positional arguments and captures output from.

use vstd::prelude::*;
use crate::text::{append_str, join, join_strings, views};

verus! {

/// A request to run a named tool with positional arguments.
#[derive(Debug, PartialEq, Eq)]
pub struct ToolCall {
    pub name: String,
    pub args: Vec<String>,
}

/// Captured result of a tool invocation.
#[derive(Debug, PartialEq, Eq)]
pub struct ToolOutput {
    pub stdout: String,
    pub exit_code: i32,
}

#[derive(Debug, PartialEq, Eq)]
pub enum ToolError {
    UnknownTool(String),
}

impl ToolError {
    /// The error as a line of text.
    pub fn message(&self) -> (r: String)
        ensures
            match self {
                ToolError::UnknownTool(n) => r@ == "unknown tool: "@ + n@,
            },
    {
        match self {
            ToolError::UnknownTool(n) => {
                let mut r = "unknown tool: ".to_string();
                append_str(&mut r, n.as_str());
                r
            },
        }
    }
}

/// Offline echo tool for tests: joins its arguments to stdout and exits 0,
/// rejecting any call addressed to another tool.
pub struct FakeTool {
    name: String,
}

impl FakeTool {
    pub closed spec fn tool_name(&self) -> Seq<char> {
        self.name@
    }

    pub fn new(name: &str) -> (r: Self)
        ensures
            r.tool_name() == name@,
    {
        FakeTool { name: name.to_string() }
    }

    pub fn name(&self) -> (r: &str)
        ensures
            r@ == self.tool_name(),
    {
        self.name.as_str()
    }

    pub fn invoke(&self, call: ToolCall) -> (r: Result<ToolOutput, ToolError>)
        ensures
            call.name@ != self.tool_name() ==> (r matches Err(ToolError::UnknownTool(n)) && n@ == call.name@),
            call.name@ == self.tool_name() ==> (r matches Ok(out) && out.stdout@ == join(views(call.args@), " "@)
                && out.exit_code == 0),
    {
        if call.name != self.name {
            return Err(ToolError::UnknownTool(call.name));
        }
        Ok(ToolOutput { stdout: join_strings(&call.args, " "), exit_code: 0 })
    }
}

} // verus!
