//! The deny list: one line per blocked host, each mapping the host to the
//! loopback address.

use vstd::prelude::*;
use vstd::string::StringExecFns;

verus! {

/// The deny-list line for the host `name`: the loopback address, a tab and
/// the host.
pub open spec fn entry(name: Seq<char>) -> Seq<char> {
    "127.0.0.1"@ + "\t"@ + name
}

/// The deny list `contents` with a line for `name` at its end. An empty
/// list gets no blank line before its first entry.
pub open spec fn with_entry(contents: Seq<char>, name: Seq<char>) -> Seq<char> {
    if contents.len() == 0 {
        entry(name)
    } else {
        contents + "\n"@ + entry(name)
    }
}

/// The text of the deny list once the host `name` is added to the list
/// `contents`.
pub fn add_block(contents: &str, name: &str) -> (result: String)
    ensures
        result@ == with_entry(contents@, name@),
{
    let mut line = String::new();
    line.append("127.0.0.1");
    line.append("\t");
    line.append(name);
    assert(line@ =~= entry(name@));
    if contents.is_empty() {
        line
    } else {
        let mut result = contents.to_owned();
        result.append("\n");
        result.append(line.as_str());
        result
    }
}

} // verus!
