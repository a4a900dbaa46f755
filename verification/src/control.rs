//! The local control channel: one command line in, one reply out.

use crate::registry::{ascending, records_view, NodeInfo, NodeRecord, Registry};
use crate::text::{chars_of, decimal, push_decimal, spells, trim_bounds, trimmed};
use vstd::prelude::*;
use vstd::string::*;

verus! {

/// The answer to one command.
#[derive(Debug)]
pub struct CliReply {
    /// What is written back to the operator, each line ended by a newline.
    pub text: String,
    /// Whether the process has to stop once the reply is written.
    pub shutdown: bool,
}

/// The line that lists one node.
pub open spec fn node_line(record: NodeRecord) -> Seq<char> {
    "  Node "@ + decimal(record.id as nat) + " — "@ + record.ip + " (connected since "@
        + record.connected_at + ")\n"@
}

/// The lines that list `records`, in their order.
pub open spec fn node_lines(records: Seq<NodeRecord>) -> Seq<char>
    decreases records.len(),
{
    if records.len() == 0 {
        Seq::empty()
    } else {
        node_lines(records.drop_last()) + node_line(records.last())
    }
}

/// The reply to `ls` when `records` are registered.
pub open spec fn listing(records: Seq<NodeRecord>) -> Seq<char> {
    if records.len() == 0 {
        "No nodes connected.\n"@
    } else {
        "Connected Nodes:\n"@ + node_lines(records)
    }
}

/// The reply to the command `cmd` when the registry holds `nodes`.
pub open spec fn reply_text(cmd: Seq<char>, nodes: Map<u32, NodeRecord>) -> Seq<char> {
    if cmd == "ls"@ {
        listing(ascending(nodes))
    } else if cmd == "shutdown"@ {
        "Sentinel server shutting down...\n"@
    } else {
        "Unknown command: "@ + cmd + "\n"@
    }
}

/// Appends the line that lists `info`.
fn push_node_line(out: &mut String, info: &NodeInfo)
    ensures
        final(out)@ == old(out)@ + node_line(info@),
{
    out.append("  Node ");
    push_decimal(out, info.id);
    out.append(" — ");
    out.append(info.ip.as_str());
    out.append(" (connected since ");
    out.append(info.connected_at.as_str());
    out.append(")\n");
    assert(out@ =~= old(out)@ + node_line(info@));
}

/// The reply to `ls` for the snapshot `records`.
pub fn list_nodes(records: &Vec<NodeInfo>) -> (text: String)
    ensures
        text@ == listing(records_view(records@)),
{
    let ghost all = records_view(records@);
    if records.len() == 0 {
        return "No nodes connected.\n".to_owned();
    }
    let mut text = "Connected Nodes:\n".to_owned();
    let mut i: usize = 0;
    while i < records.len()
        invariant
            i <= records.len(),
            all == records_view(records@),
            text@ == "Connected Nodes:\n"@ + node_lines(all.take(i as int)),
        decreases records.len() - i,
    {
        push_node_line(&mut text, &records[i]);
        proof {
            assert(all.take(i + 1).drop_last() == all.take(i as int));
            assert(all.take(i + 1).last() == records@[i as int]@);
            assert(text@ =~= "Connected Nodes:\n"@ + node_lines(all.take(i + 1)));
        }
        i += 1;
    }
    assert(all.take(i as int) == all);
    text
}

/// Answers one command line of the control channel. The command is the line
/// without the whitespace around it: `ls` lists the registered nodes by
/// ascending id, `shutdown` acknowledges and asks for the process to stop,
/// and anything else is reported back as unknown.
pub fn handle_cli_client(line: &str, active_nodes: &Registry) -> (reply: CliReply)
    ensures
        reply.text@ == reply_text(trimmed(line@), active_nodes@),
        reply.shutdown == (trimmed(line@) == "shutdown"@),
{
    let chars = chars_of(line);
    let (start, end) = trim_bounds(&chars);
    let cmd = line.substring_char(start, end);
    let word = chars_of(cmd);
    proof {
        reveal_strlit("ls");
        reveal_strlit("shutdown");
        assert("ls"@ != "shutdown"@) by {
            assert("ls"@.len() != "shutdown"@.len());
        }
    }
    if spells(&word, "ls") {
        let records = active_nodes.snapshot();
        CliReply { text: list_nodes(&records), shutdown: false }
    } else if spells(&word, "shutdown") {
        CliReply { text: "Sentinel server shutting down...\n".to_owned(), shutdown: true }
    } else {
        let mut text = "Unknown command: ".to_owned();
        text.append(cmd);
        text.append("\n");
        CliReply { text, shutdown: false }
    }
}

} // verus!
