//! The decorated network listing.
//!
//! This is the computing half of the fancy network printer: it renders
//! one line per node, showing the node's index, its name, and the arrow
//! to its downstream output when there is one.  Writing the lines to a
//! terminal, with or without colours, stays outside the library.

use crate::text::{dec_digits, u64_to_string};
use vstd::prelude::*;
use vstd::string::StringExecFns;

verus! {

/// The fancy network printer.
#[derive(Debug, Clone)]
pub struct FancyPrint;

/// The line rendered for one node.
pub open spec fn node_line(idx: nat, name: Seq<char>, out: Option<Seq<char>>) -> Seq<char> {
    match out {
        Some(o) => "["@ + dec_digits(idx) + "] "@ + name + " -> "@ + o,
        None => "["@ + dec_digits(idx) + "] "@ + name,
    }
}

impl FancyPrint {
    /// The registered name of the network function.
    pub fn name(&self) -> (r: String)
        ensures
            r@ == "fancy_print"@,
    {
        "fancy_print".to_owned()
    }

    /// The help text of the network function.
    pub fn help(&self) -> (r: String)
        ensures
            r@ == "Fancy print a network\n"@,
    {
        "Fancy print a network\n".to_owned()
    }

    /// The function takes no arguments.
    pub fn args(&self) -> (r: Vec<String>)
        ensures
            r@.len() == 0,
    {
        Vec::new()
    }

    /// Render the listing: one line per node, in node order, each line
    /// carrying the node's index, its name, and its output if any.
    pub fn format_network(&self, nodes: &Vec<(String, Option<String>)>) -> (r: Vec<String>)
        ensures
            r@.len() == nodes@.len(),
            forall|i: int|
                0 <= i < nodes@.len() ==> (#[trigger] r@[i])@ == node_line(
                    i as nat,
                    nodes@[i].0@,
                    match nodes@[i].1 {
                        Some(o) => Some(o@),
                        None => None,
                    },
                ),
    {
        let mut r: Vec<String> = Vec::new();
        let mut i: usize = 0;
        while i < nodes.len()
            invariant
                i <= nodes@.len(),
                r@.len() == i,
                forall|j: int|
                    0 <= j < i ==> (#[trigger] r@[j])@ == node_line(
                        j as nat,
                        nodes@[j].0@,
                        match nodes@[j].1 {
                            Some(o) => Some(o@),
                            None => None,
                        },
                    ),
            decreases nodes@.len() - i,
        {
            let mut line = String::from_str("[");
            line.append(u64_to_string(i as u64).as_str());
            line.append("] ");
            line.append(nodes[i].0.as_str());
            match &nodes[i].1 {
                Some(o) => {
                    line.append(" -> ");
                    line.append(o.as_str());
                    proof {
                        assert(line@ =~= node_line(
                            i as nat,
                            nodes@[i as int].0@,
                            Some(nodes@[i as int].1->Some_0@),
                        ));
                    }
                },
                None => {
                    proof {
                        assert(line@ =~= node_line(i as nat, nodes@[i as int].0@, None));
                    }
                },
            }
            r.push(line);
            i = i + 1;
        }
        r
    }
}

} // verus!
