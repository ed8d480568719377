//! "How I talk to it": the commands the CLI dispatches and how their replies
//! are rendered for the terminal. Fetching a reply from the controller is the
//! caller's I/O; everything decided before or after it lives here.

use vstd::prelude::*;
use crate::proto::{model_views, node_views, ModelDescriptorView, NodeDescriptor, NodeDescriptorView, StatusResponse};
use crate::text::{
    append_decimal, append_padded, append_str, blank, decimal, is_blank, join, join_strings, pad_right,
    trim_end_white, trim_end_white_space, views,
};

verus! {

/// A parsed command the CLI can dispatch.
#[derive(Debug, PartialEq, Eq)]
pub enum Command {
    /// `sag nodes` — list the nodes registered with the controller.
    Nodes,
    /// `sag run fix "<request>"`
    RunFix { request: String },
    /// `sag doctor`
    Doctor,
}

#[derive(Debug, PartialEq, Eq)]
pub enum CliError {
    EmptyRequest,
    Controller(String),
    NotWired(String),
}

impl CliError {
    /// The error as a line of text.
    pub fn message(&self) -> (r: String)
        ensures
            match self {
                CliError::EmptyRequest => r@ == "empty request"@,
                CliError::Controller(m) => r@ == "controller error: "@ + m@,
                CliError::NotWired(m) => r@ == m@,
            },
    {
        match self {
            CliError::EmptyRequest => "empty request".to_string(),
            CliError::Controller(m) => {
                let mut r = "controller error: ".to_string();
                append_str(&mut r, m.as_str());
                r
            },
            CliError::NotWired(m) => m.clone(),
        }
    }
}

/// Offline dispatcher for tests: renders each command to a fixed line without
/// a controller or a terminal.
pub struct FakeCli;

impl FakeCli {
    pub fn dispatch(&self, cmd: Command) -> (r: Result<String, CliError>)
        ensures
            match cmd {
                Command::Nodes => r matches Ok(s) && s@ == "no nodes registered"@,
                Command::RunFix { request } => if is_blank(request@) {
                    r matches Err(CliError::EmptyRequest)
                } else {
                    r matches Ok(s) && s@ == "submitted fix: "@ + request@
                },
                Command::Doctor => r matches Ok(s) && s@ == "all systems nominal"@,
            },
    {
        match cmd {
            Command::Nodes => Ok("no nodes registered".to_string()),
            Command::RunFix { request } => {
                if blank(request.as_str()) {
                    Err(CliError::EmptyRequest)
                } else {
                    let mut r = "submitted fix: ".to_string();
                    append_str(&mut r, request.as_str());
                    Ok(r)
                }
            },
            Command::Doctor => Ok("all systems nominal".to_string()),
        }
    }
}

/// The controller path whose JSON answers `cmd`, or why `cmd` cannot be sent
/// to a controller.
pub fn controller_path(cmd: &Command) -> (r: Result<&'static str, CliError>)
    ensures
        match cmd {
            Command::Nodes => r matches Ok(p) && p@ == "/nodes"@,
            Command::Doctor => r matches Ok(p) && p@ == "/status"@,
            Command::RunFix { .. } => r matches Err(CliError::NotWired(m))
                && m@ == "`run fix` is not wired to the controller yet (later milestone)"@,
        },
{
    match cmd {
        Command::Nodes => Ok("/nodes"),
        Command::Doctor => Ok("/status"),
        Command::RunFix { .. } => Err(
            CliError::NotWired("`run fix` is not wired to the controller yet (later milestone)".to_string()),
        ),
    }
}

/// The error for a failed request to `url`.
pub fn controller_error(url: &str, detail: &str) -> (r: CliError)
    ensures
        r matches CliError::Controller(m) && m@ == url@ + ": "@ + detail@,
{
    let mut m = url.to_string();
    append_str(&mut m, ": ");
    append_str(&mut m, detail);
    CliError::Controller(m)
}

/// The `sag doctor` line for a controller that answered `/status`.
pub open spec fn doctor_text(url: Seq<char>, status: StatusResponse) -> Seq<char> {
    "controller reachable at "@ + url + " — protocol v"@ + decimal(status.protocol_version as nat)
        + ", up since epoch "@ + decimal(status.start_epoch as nat)
}

pub fn render_status(controller_url: &str, status: &StatusResponse) -> (r: String)
    ensures
        r@ == doctor_text(controller_url@, *status),
{
    let mut r = "controller reachable at ".to_string();
    append_str(&mut r, controller_url);
    append_str(&mut r, " — protocol v");
    append_decimal(&mut r, status.protocol_version as u64);
    append_str(&mut r, ", up since epoch ");
    append_decimal(&mut r, status.start_epoch);
    r
}

// ── the node table ──────────────────────────────────────────────────────────

/// The models column of a node's row: its model ids joined by `, `, or `-`.
pub open spec fn models_cell(n: NodeDescriptorView) -> Seq<char> {
    if n.models.len() == 0 {
        "-"@
    } else {
        join(n.models.map_values(|m: ModelDescriptorView| m.id), ", "@)
    }
}

pub open spec fn table_header() -> Seq<char> {
    pad_right("NODE"@, 16) + " "@ + pad_right("ADDR"@, 30) + " "@ + "MODELS"@ + "\n"@
}

pub open spec fn table_row(n: NodeDescriptorView) -> Seq<char> {
    pad_right(n.node_id, 16) + " "@ + pad_right(n.addr, 30) + " "@ + models_cell(n) + "\n"@
}

pub open spec fn table_rows(s: Seq<NodeDescriptorView>) -> Seq<char>
    decreases s.len(),
{
    if s.len() == 0 {
        Seq::empty()
    } else {
        table_rows(s.drop_last()) + table_row(s.last())
    }
}

/// The registry as an aligned text table: node id and address in columns 16
/// and 30 wide, then the models; trailing white space trimmed.
pub open spec fn nodes_table(s: Seq<NodeDescriptorView>) -> Seq<char> {
    if s.len() == 0 {
        "no nodes registered"@
    } else {
        trim_end_white(table_header() + table_rows(s))
    }
}

fn models_column(n: &NodeDescriptor) -> (r: String)
    ensures
        r@ == models_cell(n@),
{
    if n.models.len() == 0 {
        return "-".to_string();
    }
    let mut ids: Vec<String> = Vec::new();
    let mut i: usize = 0;
    while i < n.models.len()
        invariant
            i <= n.models.len(),
            ids.len() == i,
            forall|j: int| 0 <= j < i ==> (#[trigger] ids@[j])@ == n.models@[j].id@,
        decreases n.models.len() - i,
    {
        ids.push(n.models[i].id.clone());
        i = i + 1;
    }
    let r = join_strings(&ids, ", ");
    assert(views(ids@) =~= n@.models.map_values(|m: ModelDescriptorView| m.id));
    r
}

/// Render the registry as an aligned text table for the terminal.
pub fn format_nodes(nodes: &[NodeDescriptor]) -> (r: String)
    ensures
        r@ == nodes_table(node_views(nodes@)),
{
    if nodes.len() == 0 {
        return "no nodes registered".to_string();
    }
    let mut out = String::new();
    append_padded(&mut out, "NODE", 16);
    append_str(&mut out, " ");
    append_padded(&mut out, "ADDR", 30);
    append_str(&mut out, " ");
    append_str(&mut out, "MODELS");
    append_str(&mut out, "\n");
    let ghost header = out@;
    assert(header == table_header());
    let mut i: usize = 0;
    while i < nodes.len()
        invariant
            i <= nodes@.len(),
            header == table_header(),
            out@ == header + table_rows(node_views(nodes@.subrange(0, i as int))),
        decreases nodes@.len() - i,
    {
        let n = &nodes[i];
        append_padded(&mut out, n.node_id.as_str(), 16);
        append_str(&mut out, " ");
        append_padded(&mut out, n.addr.as_str(), 30);
        append_str(&mut out, " ");
        let models = models_column(n);
        append_str(&mut out, models.as_str());
        append_str(&mut out, "\n");
        proof {
            let next = node_views(nodes@.subrange(0, i + 1));
            assert(next.drop_last() =~= node_views(nodes@.subrange(0, i as int)));
            assert(next.last() == nodes@[i as int]@);
        }
        i = i + 1;
    }
    assert(nodes@.subrange(0, nodes@.len() as int) =~= nodes@);
    trim_end_white_space(out.as_str())
}

} // verus!
